//! The snapshot map: a current-value table plus a changelog of pre-write
//! values, layered over one byte-keyed store.
//!
//! Three disjoint byte-prefix regions are derived from one base name: the
//! primary table at the name itself, a checkpoint-count table at
//! `<name>__checkpoints` (reserved for the unimplemented reduced-write
//! strategy) and the changelog at `<name>__changelog`. A changelog entry is
//! keyed by the logical key and the write height, framed so that one key's
//! entries are byte-contiguous and ordered by height; it records the value
//! in force immediately before the write at that height.
use vstd::prelude::*;

use crate::bytes::append_be8;
use crate::bytes::append_bytes;
use crate::bytes::append_framed;
use crate::bytes::be8_bytes;
use crate::bytes::be8_value;
use crate::bytes::lemma_be8_le;
use crate::bytes::lemma_be8_round_trip;
use crate::bytes::lemma_lenpfx_frame;
use crate::bytes::lemma_lenpfx_prefix_frame;
use crate::bytes::lemma_lex_le_append;
use crate::bytes::lemma_lex_squeeze;
use crate::bytes::lenpfx;
use crate::bytes::lex_le;
use crate::bytes::max_framed_len;
use crate::bytes::read_be8;
use crate::bytes::starts_with;
use crate::store::store_contents;
use crate::store::store_first_at_least;
use crate::store::store_get;
use crate::store::store_remove;
use crate::store::store_set;
use crate::SnapshotError;
use crate::Strategy;

verus! {

/// The three byte-prefix regions a snapshot map writes to.
pub struct SnapshotNamespaces {
    pub pk: Vec<u8>,
    pub checkpoints: Vec<u8>,
    pub changelog: Vec<u8>,
}

/// The byte suffix deriving the checkpoint-count region from a base name.
pub open spec fn checkpoints_suffix() -> Seq<u8> {
    seq![95u8, 95u8, 99u8, 104u8, 101u8, 99u8, 107u8, 112u8, 111u8, 105u8, 110u8, 116u8, 115u8]
}

/// The byte suffix deriving the changelog region from a base name.
pub open spec fn changelog_suffix() -> Seq<u8> {
    seq![95u8, 95u8, 99u8, 104u8, 97u8, 110u8, 103u8, 101u8, 108u8, 111u8, 103u8]
}

impl SnapshotNamespaces {
    /// The three regions fit under two-byte length framing and are pairwise
    /// distinct, so no table can shadow another.
    pub open spec fn wf(self) -> bool {
        self.pk@.len() <= max_framed_len() && self.checkpoints@.len() <= max_framed_len()
            && self.changelog@.len() <= max_framed_len() && self.pk@ != self.checkpoints@
            && self.pk@ != self.changelog@ && self.checkpoints@ != self.changelog@
    }

    /// Derives the three regions from one base name: the primary region at
    /// the name itself, the others at fixed suffixes of it.
    pub fn new(base: &Vec<u8>) -> (r: SnapshotNamespaces)
        requires
            base@.len() + 13 <= max_framed_len(),
        ensures
            r.pk@ == base@,
            r.checkpoints@ == base@ + checkpoints_suffix(),
            r.changelog@ == base@ + changelog_suffix(),
            r.wf(),
    {
        let mut pk: Vec<u8> = Vec::new();
        append_bytes(&mut pk, base);
        let mut checkpoints: Vec<u8> = Vec::new();
        append_bytes(&mut checkpoints, base);
        checkpoints.push(95);
        checkpoints.push(95);
        checkpoints.push(99);
        checkpoints.push(104);
        checkpoints.push(101);
        checkpoints.push(99);
        checkpoints.push(107);
        checkpoints.push(112);
        checkpoints.push(111);
        checkpoints.push(105);
        checkpoints.push(110);
        checkpoints.push(116);
        checkpoints.push(115);
        let mut changelog: Vec<u8> = Vec::new();
        append_bytes(&mut changelog, base);
        changelog.push(95);
        changelog.push(95);
        changelog.push(99);
        changelog.push(104);
        changelog.push(97);
        changelog.push(110);
        changelog.push(103);
        changelog.push(101);
        changelog.push(108);
        changelog.push(111);
        changelog.push(103);
        assert(checkpoints@ =~= base@ + checkpoints_suffix());
        assert(changelog@ =~= base@ + changelog_suffix());
        assert(pk@ =~= base@);
        SnapshotNamespaces { pk, checkpoints, changelog }
    }
}

/// The full byte key of the primary table's entry for `k`.
pub open spec fn pk_key(ns: Seq<u8>, k: Seq<u8>) -> Seq<u8> {
    lenpfx(ns) + k
}

/// The byte prefix shared by all changelog entries of one key.
pub open spec fn cl_prefix(cl: Seq<u8>, k: Seq<u8>) -> Seq<u8> {
    lenpfx(cl) + lenpfx(k)
}

/// The full byte key of the changelog entry for `k` at height `h`: the key
/// part framed, the height an eight-byte big-endian suffix, so that one
/// key's entries sort by height.
pub open spec fn cl_key(cl: Seq<u8>, k: Seq<u8>, h: u64) -> Seq<u8> {
    cl_prefix(cl, k) + be8_bytes(h)
}

/// What a stored primary-table value denotes: eight big-endian bytes, or a
/// parse failure.
pub open spec fn dec_val(b: Seq<u8>) -> Option<u64> {
    if b.len() == 8 {
        Some(be8_value(b))
    } else {
        None
    }
}

/// The stored form of a changelog entry: the value in force immediately
/// before the write, or a marker that the key held nothing.
pub open spec fn enc_cs(old_val: Option<u64>) -> Seq<u8> {
    match old_val {
        None => seq![0u8],
        Some(v) => seq![1u8] + be8_bytes(v),
    }
}

/// What stored changelog bytes denote, or a parse failure.
pub open spec fn dec_cs(b: Seq<u8>) -> Option<Option<u64>> {
    if b.len() == 1 && b[0] == 0 {
        Some(None)
    } else if b.len() == 9 && b[0] == 1 {
        Some(Some(be8_value(b.drop_first())))
    } else {
        None
    }
}

/// A changelog record reads back as the pre-write value it was made from.
pub proof fn lemma_cs_round_trip(old_val: Option<u64>)
    ensures
        dec_cs(enc_cs(old_val)) == Some(old_val),
{
    match old_val {
        None => {
        }
        Some(v) => {
            assert((seq![1u8] + be8_bytes(v)).drop_first() =~= be8_bytes(v));
            lemma_be8_round_trip(v);
        }
    }
}

/// The value the primary table holds for `k` (absent, present, or
/// unreadable), as the read path reports it.
pub open spec fn spec_may_load(s: Map<Seq<u8>, Seq<u8>>, ns: Seq<u8>, k: Seq<u8>) -> Result<
    Option<u64>,
    SnapshotError,
> {
    let bk = pk_key(ns, k);
    if s.contains_key(bk) {
        match dec_val(s[bk]) {
            Some(v) => Ok(Some(v)),
            None => Err(SnapshotError::ParseError),
        }
    } else {
        Ok(None)
    }
}

/// As `spec_may_load`, but absence is itself a failure.
pub open spec fn spec_load(s: Map<Seq<u8>, Seq<u8>>, ns: Seq<u8>, k: Seq<u8>) -> Result<
    u64,
    SnapshotError,
> {
    match spec_may_load(s, ns, k) {
        Ok(Some(v)) => Ok(v),
        Ok(None) => Err(SnapshotError::NotFound),
        Err(e) => Err(e),
    }
}

/// Every stored key under the changelog region is a well-formed changelog
/// entry key. The write path only ever puts such keys there; the historical
/// read algorithm is stated under this discipline.
pub open spec fn changelog_wf(s: Map<Seq<u8>, Seq<u8>>, cl: Seq<u8>) -> bool {
    forall|bk: Seq<u8>|
        #[trigger] s.contains_key(bk) && starts_with(bk, lenpfx(cl)) ==> exists|k: Seq<u8>, h: u64|
            k.len() <= max_framed_len() && bk == cl_key(cl, k, h)
}

/// Some changelog entry for `k` is recorded at or above height `h`.
pub open spec fn has_entry_geq(s: Map<Seq<u8>, Seq<u8>>, cl: Seq<u8>, k: Seq<u8>, h: u64) -> bool {
    exists|h2: u64| h2 >= h && s.contains_key(#[trigger] cl_key(cl, k, h2))
}

/// `h2` is the least height at or above `h` with a changelog entry for `k`.
pub open spec fn entry_minimal_geq(
    s: Map<Seq<u8>, Seq<u8>>,
    cl: Seq<u8>,
    k: Seq<u8>,
    h: u64,
    h2: u64,
) -> bool {
    h2 >= h && s.contains_key(cl_key(cl, k, h2)) && forall|h3: u64|
        h <= h3 < h2 ==> !s.contains_key(#[trigger] cl_key(cl, k, h3))
}

/// The least height at or above `h` with a changelog entry for `k`.
pub open spec fn first_entry_geq(s: Map<Seq<u8>, Seq<u8>>, cl: Seq<u8>, k: Seq<u8>, h: u64) -> u64 {
    choose|h2: u64| entry_minimal_geq(s, cl, k, h, h2)
}

/// Two least such heights coincide.
pub proof fn lemma_minimal_unique(
    s: Map<Seq<u8>, Seq<u8>>,
    cl: Seq<u8>,
    k: Seq<u8>,
    h: u64,
    h2: u64,
    h3: u64,
)
    requires
        entry_minimal_geq(s, cl, k, h, h2),
        entry_minimal_geq(s, cl, k, h, h3),
    ensures
        h2 == h3,
{
    if h2 < h3 {
        assert(!s.contains_key(cl_key(cl, k, h2)));
    }
    if h3 < h2 {
        assert(!s.contains_key(cl_key(cl, k, h3)));
    }
}

/// What the historical read at height `h` reports: the pre-write value
/// recorded by the earliest change at or above `h`, or, with no such
/// change, the current value, which has then been stable since `h`.
pub open spec fn spec_may_load_at_height(
    s: Map<Seq<u8>, Seq<u8>>,
    m: SnapshotMap,
    k: Seq<u8>,
    h: u64,
) -> Result<Option<u64>, SnapshotError> {
    if has_entry_geq(s, m.cl_ns(), k, h) {
        let h2 = first_entry_geq(s, m.cl_ns(), k, h);
        match dec_cs(s[cl_key(m.cl_ns(), k, h2)]) {
            Some(cs) => Ok(cs),
            None => Err(SnapshotError::ParseError),
        }
    } else {
        spec_may_load(s, m.pk_ns(), k)
    }
}

/// The store after `save(k, v, h)`: under `EveryBlock` the changelog entry
/// for (k, h) records the pre-write value and the primary entry is set;
/// under `Never` only the primary entry is set; `Selected` fails loudly, as
/// does an unreadable pre-write value.
pub open spec fn spec_save(
    s: Map<Seq<u8>, Seq<u8>>,
    m: SnapshotMap,
    k: Seq<u8>,
    v: u64,
    h: u64,
) -> Result<Map<Seq<u8>, Seq<u8>>, SnapshotError> {
    match m.strat() {
        Strategy::Selected => Err(SnapshotError::StrategyUnsupported),
        Strategy::Never => Ok(s.insert(pk_key(m.pk_ns(), k), be8_bytes(v))),
        Strategy::EveryBlock => match spec_may_load(s, m.pk_ns(), k) {
            Err(e) => Err(e),
            Ok(cur) => Ok(
                s.insert(cl_key(m.cl_ns(), k, h), enc_cs(cur)).insert(
                    pk_key(m.pk_ns(), k),
                    be8_bytes(v),
                ),
            ),
        },
    }
}

/// The store after `remove(k, h)`, mirroring `spec_save` with a deletion.
pub open spec fn spec_remove(s: Map<Seq<u8>, Seq<u8>>, m: SnapshotMap, k: Seq<u8>, h: u64) -> Result<
    Map<Seq<u8>, Seq<u8>>,
    SnapshotError,
> {
    match m.strat() {
        Strategy::Selected => Err(SnapshotError::StrategyUnsupported),
        Strategy::Never => Ok(s.remove(pk_key(m.pk_ns(), k))),
        Strategy::EveryBlock => match spec_may_load(s, m.pk_ns(), k) {
            Err(e) => Err(e),
            Ok(cur) => Ok(
                s.insert(cl_key(m.cl_ns(), k, h), enc_cs(cur)).remove(pk_key(m.pk_ns(), k)),
            ),
        },
    }
}

/// A current-value map with checkpointed history: a stateless façade
/// holding only its namespaces and checkpoint strategy.
pub struct SnapshotMap {
    namespaces: SnapshotNamespaces,
    strategy: Strategy,
}

impl SnapshotMap {
    /// The primary table's namespace.
    pub closed spec fn pk_ns(self) -> Seq<u8> {
        self.namespaces.pk@
    }

    /// The checkpoint-count table's namespace.
    pub closed spec fn cp_ns(self) -> Seq<u8> {
        self.namespaces.checkpoints@
    }

    /// The changelog table's namespace.
    pub closed spec fn cl_ns(self) -> Seq<u8> {
        self.namespaces.changelog@
    }

    /// The configured checkpoint strategy.
    pub closed spec fn strat(self) -> Strategy {
        self.strategy
    }

    pub closed spec fn wf(self) -> bool {
        self.namespaces.wf()
    }

    pub fn new(namespaces: SnapshotNamespaces, strategy: Strategy) -> (r: SnapshotMap)
        ensures
            r.pk_ns() == namespaces.pk@,
            r.cp_ns() == namespaces.checkpoints@,
            r.cl_ns() == namespaces.changelog@,
            r.strat() == strategy,
            r.wf() == namespaces.wf(),
    {
        SnapshotMap { namespaces, strategy }
    }

    /// The full byte key under which the primary table stores `k`.
    pub fn key(&self, k: &Vec<u8>) -> (r: Vec<u8>)
        requires
            self.wf(),
            k@.len() <= max_framed_len(),
        ensures
            r@ == pk_key(self.pk_ns(), k@),
    {
        let mut out: Vec<u8> = Vec::new();
        append_framed(&mut out, &self.namespaces.pk);
        append_bytes(&mut out, k);
        out
    }

    /// The byte prefix shared by every primary-table entry of this map.
    pub fn prefix(&self) -> (r: Vec<u8>)
        requires
            self.wf(),
        ensures
            r@ == lenpfx(self.pk_ns()),
    {
        let mut out: Vec<u8> = Vec::new();
        append_framed(&mut out, &self.namespaces.pk);
        out
    }

    /// The full byte key of the changelog entry for `k` at `height`.
    fn changelog_key(&self, k: &Vec<u8>, height: u64) -> (r: Vec<u8>)
        requires
            self.wf(),
            k@.len() <= max_framed_len(),
        ensures
            r@ == cl_key(self.cl_ns(), k@, height),
    {
        let mut out: Vec<u8> = Vec::new();
        append_framed(&mut out, &self.namespaces.changelog);
        append_framed(&mut out, k);
        append_be8(&mut out, height);
        assert(out@ =~= cl_prefix(self.cl_ns(), k@) + be8_bytes(height));
        out
    }

    /// Looks at the strategy and decides whether this write is to be
    /// checkpointed; the unimplemented strategy fails rather than pass for
    /// either answer.
    fn is_checkpoint(&self) -> (r: Result<bool, SnapshotError>)
        ensures
            match self.strat() {
                Strategy::EveryBlock => r == Ok::<bool, SnapshotError>(true),
                Strategy::Never => r == Ok::<bool, SnapshotError>(false),
                Strategy::Selected => r == Err::<bool, SnapshotError>(
                    SnapshotError::StrategyUnsupported,
                ),
            },
    {
        match self.strategy {
            Strategy::EveryBlock => Ok(true),
            Strategy::Selected => Err(SnapshotError::StrategyUnsupported),
            Strategy::Never => Ok(false),
        }
    }

    /// Reads the current value for `k` from the primary table; absent keys
    /// are reported as `None`, unreadable bytes as a parse failure.
    pub fn may_load(&self, store: &cosmwasm_std::testing::MockStorage, k: &Vec<u8>) -> (r: Result<
        Option<u64>,
        SnapshotError,
    >)
        requires
            self.wf(),
            k@.len() <= max_framed_len(),
        ensures
            r == spec_may_load(store_contents(*store), self.pk_ns(), k@),
    {
        let bk = self.key(k);
        match store_get(store, &bk) {
            None => Ok(None),
            Some(b) => match read_be8(&b) {
                Some(v) => {
                    proof {
                        lemma_be8_round_trip(v);
                    }
                    Ok(Some(v))
                }
                None => Err(SnapshotError::ParseError),
            },
        }
    }

    /// Reads the current value for `k`, failing on an absent key as on
    /// unreadable bytes.
    pub fn load(&self, store: &cosmwasm_std::testing::MockStorage, k: &Vec<u8>) -> (r: Result<
        u64,
        SnapshotError,
    >)
        requires
            self.wf(),
            k@.len() <= max_framed_len(),
        ensures
            r == spec_load(store_contents(*store), self.pk_ns(), k@),
    {
        match self.may_load(store, k) {
            Ok(Some(v)) => Ok(v),
            Ok(None) => Err(SnapshotError::NotFound),
            Err(e) => Err(e),
        }
    }

    /// Turns a pre-write value into its stored changelog record.
    fn encode_changeset(&self, old_val: &Option<u64>) -> (r: Vec<u8>)
        ensures
            r@ == enc_cs(*old_val),
            r@.len() > 0,
    {
        let mut out: Vec<u8> = Vec::new();
        match old_val {
            None => {
                out.push(0);
                assert(out@ =~= enc_cs(None));
            }
            Some(v) => {
                out.push(1);
                append_be8(&mut out, *v);
                assert(out@ =~= seq![1u8] + be8_bytes(*v));
            }
        }
        out
    }

    /// Reads the pre-write value for `k` once and records it in the
    /// changelog at (k, height).
    fn write_change(
        &self,
        store: &mut cosmwasm_std::testing::MockStorage,
        k: &Vec<u8>,
        height: u64,
    ) -> (r: Result<(), SnapshotError>)
        requires
            self.wf(),
            k@.len() <= max_framed_len(),
        ensures
            match spec_may_load(store_contents(*old(store)), self.pk_ns(), k@) {
                Ok(cur) => r == Ok::<(), SnapshotError>(()) && store_contents(*final(store))
                    == store_contents(*old(store)).insert(
                    cl_key(self.cl_ns(), k@, height),
                    enc_cs(cur),
                ),
                Err(e) => r == Err::<(), SnapshotError>(e) && store_contents(*final(store))
                    == store_contents(*old(store)),
            },
    {
        match self.may_load(store, k) {
            Err(e) => Err(e),
            Ok(cur) => {
                let entry = self.encode_changeset(&cur);
                let ck = self.changelog_key(k, height);
                store_set(store, &ck, &entry);
                Ok(())
            }
        }
    }

    /// Writes `value` for `k` at `height`: under a checkpointing strategy
    /// the pre-write value is read once and recorded in the changelog, then
    /// the primary entry is set.
    pub fn save(
        &self,
        store: &mut cosmwasm_std::testing::MockStorage,
        k: &Vec<u8>,
        value: u64,
        height: u64,
    ) -> (r: Result<(), SnapshotError>)
        requires
            self.wf(),
            k@.len() <= max_framed_len(),
        ensures
            match spec_save(store_contents(*old(store)), *self, k@, value, height) {
                Ok(s2) => r == Ok::<(), SnapshotError>(()) && store_contents(*final(store)) == s2,
                Err(e) => r == Err::<(), SnapshotError>(e) && store_contents(*final(store))
                    == store_contents(*old(store)),
            },
    {
        match self.is_checkpoint() {
            Err(e) => Err(e),
            Ok(true) => match self.write_change(store, k, height) {
                Err(e) => Err(e),
                Ok(()) => {
                    self.save_primary(store, k, value);
                    Ok(())
                }
            },
            Ok(false) => {
                self.save_primary(store, k, value);
                Ok(())
            }
        }
    }

    /// Sets the primary-table entry for `k`.
    fn save_primary(&self, store: &mut cosmwasm_std::testing::MockStorage, k: &Vec<u8>, value: u64)
        requires
            self.wf(),
            k@.len() <= max_framed_len(),
        ensures
            store_contents(*final(store)) == store_contents(*old(store)).insert(
                pk_key(self.pk_ns(), k@),
                be8_bytes(value),
            ),
    {
        let bk = self.key(k);
        let mut val: Vec<u8> = Vec::new();
        append_be8(&mut val, value);
        assert(val@ =~= be8_bytes(value));
        store_set(store, &bk, &val);
    }

    /// Byte-wise equality of the first `n` bytes of two byte strings.
    fn eq_prefix(a: &Vec<u8>, b: &Vec<u8>, n: usize) -> (r: bool)
        requires
            n <= a@.len(),
            n <= b@.len(),
        ensures
            r == (a@.take(n as int) == b@.take(n as int)),
    {
        let mut i: usize = 0;
        while i < n
            invariant
                i <= n,
                n <= a@.len(),
                n <= b@.len(),
                forall|j: int| 0 <= j < i ==> a@[j] == b@[j],
            decreases n - i,
        {
            if a[i] != b[i] {
                assert(a@.take(n as int)[i as int] != b@.take(n as int)[i as int]);
                return false;
            }
            i += 1;
        }
        assert(a@.take(n as int) =~= b@.take(n as int));
        true
    }

    /// Reads a stored changelog record back; `None` on unreadable bytes.
    fn decode_changeset(&self, b: &Vec<u8>) -> (r: Option<Option<u64>>)
        ensures
            r == dec_cs(b@),
    {
        if b.len() == 1 && b[0] == 0 {
            Some(None)
        } else if b.len() == 9 && b[0] == 1 {
            let mut tail: Vec<u8> = Vec::new();
            let mut i: usize = 1;
            while i < 9
                invariant
                    1 <= i <= 9,
                    b@.len() == 9,
                    tail@ == b@.subrange(1, i as int),
                decreases 9 - i,
            {
                tail.push(b[i]);
                assert(b@.subrange(1, i as int) + seq![b@[i as int]] =~= b@.subrange(1, i + 1));
                i += 1;
            }
            assert(tail@ =~= b@.drop_first());
            match read_be8(&tail) {
                Some(v) => {
                    proof {
                        lemma_be8_round_trip(v);
                    }
                    Some(Some(v))
                }
                None => None,
            }
        } else {
            None
        }
    }

    /// Reads the value in force at `height`: scans this key's changelog
    /// region ascending from `height` and reports the first entry's
    /// pre-write record, or, with no change recorded at or above `height`,
    /// the current value. An entry at exactly `height` reports the value
    /// before the write at that height; the value after it is read at
    /// `height + 1`. The answer is authoritative only when every mutation
    /// of this key at the relevant heights was checkpointed.
    pub fn may_load_at_height(
        &self,
        store: &cosmwasm_std::testing::MockStorage,
        k: &Vec<u8>,
        height: u64,
    ) -> (r: Result<Option<u64>, SnapshotError>)
        requires
            self.wf(),
            k@.len() <= max_framed_len(),
        ensures
            changelog_wf(store_contents(*store), self.cl_ns()) ==> r == spec_may_load_at_height(
                store_contents(*store),
                *self,
                k@,
                height,
            ),
    {
        let ghost s = store_contents(*store);
        let ghost cl = self.cl_ns();
        let ghost x = cl_prefix(cl, k@);
        let lo = self.changelog_key(k, height);
        let ghost xlen = x.len() as int;
        proof {
            assert(lo@.take(xlen) =~= x);
            assert forall|h2: u64| h2 >= height implies lex_le(
                lo@,
                #[trigger] cl_key(cl, k@, h2),
            ) by {
                lemma_be8_le(height, h2);
                lemma_lex_le_append(x, be8_bytes(height), be8_bytes(h2));
            }
        }
        match store_first_at_least(store, &lo) {
            None => {
                proof {
                    if has_entry_geq(s, cl, k@, height) {
                        let hw = choose|h2: u64|
                            h2 >= height && s.contains_key(#[trigger] cl_key(cl, k@, h2));
                        assert(lex_le(lo@, cl_key(cl, k@, hw)));
                    }
                }
                self.may_load(store, k)
            }
            Some(kv) => {
                let (kb, vb) = kv;
                let shape_ok = kb.len() == lo.len() && Self::eq_prefix(&kb, &lo, lo.len() - 8);
                proof {
                    if changelog_wf(s, cl) {
                        if shape_ok {
                            // The found key extends this key's changelog prefix by
                            // eight bytes, so it is this key's entry at some height.
                            assert(kb@.take(xlen) == x);
                            let suffix = kb@.skip(xlen);
                            assert(kb@ =~= x + suffix);
                            assert(kb@.take(lenpfx(cl).len() as int) =~= lenpfx(cl)) by {
                                assert(kb@ =~= lenpfx(cl) + (lenpfx(k@) + suffix));
                            }
                            assert(starts_with(kb@, lenpfx(cl)));
                            let (k2, h2) = choose|k2: Seq<u8>, h2: u64|
                                k2.len() <= max_framed_len() && kb@ == cl_key(cl, k2, h2);
                            assert(lenpfx(cl) + (lenpfx(k2) + be8_bytes(h2)) == lenpfx(cl) + (
                            lenpfx(k@) + suffix)) by {
                                assert(lenpfx(cl) + (lenpfx(k2) + be8_bytes(h2)) =~= cl_key(
                                    cl,
                                    k2,
                                    h2,
                                ));
                                assert(lenpfx(cl) + (lenpfx(k@) + suffix) =~= kb@);
                            }
                            lemma_lenpfx_frame(
                                cl,
                                cl,
                                lenpfx(k2) + be8_bytes(h2),
                                lenpfx(k@) + suffix,
                            );
                            lemma_lenpfx_frame(k2, k@, be8_bytes(h2), suffix);
                            assert(kb@ == cl_key(cl, k@, h2));
                            // The scan started at this key's entry for `height`,
                            // so the height found is the least at or above it.
                            assert(height <= h2) by {
                                lemma_lex_le_append(x, be8_bytes(height), be8_bytes(h2));
                                lemma_be8_le(height, h2);
                            }
                            assert forall|h3: u64| height <= h3 < h2 implies !s.contains_key(
                                #[trigger] cl_key(cl, k@, h3),
                            ) by {
                                if s.contains_key(cl_key(cl, k@, h3)) {
                                    assert(lex_le(lo@, cl_key(cl, k@, h3)));
                                    assert(lex_le(kb@, cl_key(cl, k@, h3)));
                                    lemma_lex_le_append(x, be8_bytes(h2), be8_bytes(h3));
                                    lemma_be8_le(h2, h3);
                                }
                            }
                            assert(entry_minimal_geq(s, cl, k@, height, h2));
                            assert(has_entry_geq(s, cl, k@, height));
                            let c = first_entry_geq(s, cl, k@, height);
                            assert(exists|hx: u64| entry_minimal_geq(s, cl, k@, height, hx));
                            lemma_minimal_unique(s, cl, k@, height, c, h2);
                            assert(s[cl_key(cl, k@, c)] == vb@);
                        } else {
                            // Nothing with this key's changelog prefix lies between
                            // the scan's start and the found key, so no entry for
                            // this key exists at or above `height`.
                            if has_entry_geq(s, cl, k@, height) {
                                let hw = choose|hx: u64|
                                    hx >= height && s.contains_key(#[trigger] cl_key(cl, k@, hx));
                                assert(lex_le(lo@, cl_key(cl, k@, hw)));
                                assert(lex_le(kb@, cl_key(cl, k@, hw)));
                                assert(lex_le(x + be8_bytes(height), kb@)) by {
                                    assert(x + be8_bytes(height) =~= lo@);
                                }
                                assert(lex_le(kb@, x + be8_bytes(hw))) by {
                                    assert(x + be8_bytes(hw) =~= cl_key(cl, k@, hw));
                                }
                                lemma_lex_squeeze(x, be8_bytes(height), be8_bytes(hw), kb@);
                                let suffix = kb@.skip(xlen);
                                assert(kb@ =~= x + suffix);
                                assert(kb@.take(lenpfx(cl).len() as int) =~= lenpfx(cl)) by {
                                    assert(kb@ =~= lenpfx(cl) + (lenpfx(k@) + suffix));
                                }
                                assert(starts_with(kb@, lenpfx(cl)));
                                let (k2, h2) = choose|k2: Seq<u8>, h2: u64|
                                    k2.len() <= max_framed_len() && kb@ == cl_key(cl, k2, h2);
                                assert(lenpfx(cl) + (lenpfx(k2) + be8_bytes(h2)) == lenpfx(cl) + (
                                lenpfx(k@) + suffix)) by {
                                    assert(lenpfx(cl) + (lenpfx(k2) + be8_bytes(h2)) =~= cl_key(
                                        cl,
                                        k2,
                                        h2,
                                    ));
                                    assert(lenpfx(cl) + (lenpfx(k@) + suffix) =~= kb@);
                                }
                                lemma_lenpfx_frame(
                                    cl,
                                    cl,
                                    lenpfx(k2) + be8_bytes(h2),
                                    lenpfx(k@) + suffix,
                                );
                                lemma_lenpfx_frame(k2, k@, be8_bytes(h2), suffix);
                                assert(kb@.len() == lo@.len()) by {
                                    assert(kb@ =~= x + be8_bytes(h2));
                                    assert(lo@ =~= x + be8_bytes(height));
                                }
                                assert(kb@.take(xlen) == lo@.take(xlen));
                                assert(false);
                            }
                        }
                    }
                }
                if shape_ok {
                    match self.decode_changeset(&vb) {
                        Some(cs) => Ok(cs),
                        None => Err(SnapshotError::ParseError),
                    }
                } else {
                    self.may_load(store, k)
                }
            }
        }
    }

    /// Deletes `k` at `height`: under a checkpointing strategy the
    /// pre-write value is recorded first, then the primary entry is
    /// deleted.
    pub fn remove(
        &self,
        store: &mut cosmwasm_std::testing::MockStorage,
        k: &Vec<u8>,
        height: u64,
    ) -> (r: Result<(), SnapshotError>)
        requires
            self.wf(),
            k@.len() <= max_framed_len(),
        ensures
            match spec_remove(store_contents(*old(store)), *self, k@, height) {
                Ok(s2) => r == Ok::<(), SnapshotError>(()) && store_contents(*final(store)) == s2,
                Err(e) => r == Err::<(), SnapshotError>(e) && store_contents(*final(store))
                    == store_contents(*old(store)),
            },
    {
        match self.is_checkpoint() {
            Err(e) => Err(e),
            Ok(true) => match self.write_change(store, k, height) {
                Err(e) => Err(e),
                Ok(()) => {
                    let bk = self.key(k);
                    store_remove(store, &bk);
                    Ok(())
                }
            },
            Ok(false) => {
                let bk = self.key(k);
                store_remove(store, &bk);
                Ok(())
            }
        }
    }

    /// Reads the current value once, applies `action` to it, and on success
    /// performs the same checkpoint-then-write sequence as `save`, with the
    /// changelog entry recording the value read at the start. A failing
    /// `action` leaves the store untouched and its error is surfaced
    /// unchanged.
    pub fn update<A: FnOnce(Option<u64>) -> Result<u64, SnapshotError>>(
        &self,
        store: &mut cosmwasm_std::testing::MockStorage,
        k: &Vec<u8>,
        height: u64,
        action: A,
    ) -> (r: Result<u64, SnapshotError>)
        requires
            self.wf(),
            k@.len() <= max_framed_len(),
            forall|x: Option<u64>| #[trigger] action.requires((x,)),
        ensures
            ({
                let s0 = store_contents(*old(store));
                match spec_may_load(s0, self.pk_ns(), k@) {
                    Err(e) => r == Err::<u64, SnapshotError>(e) && store_contents(*final(store))
                        == s0,
                    Ok(cur) => match r {
                        Ok(v) => action.ensures((cur,), Ok(v)) && spec_save(
                            s0,
                            *self,
                            k@,
                            v,
                            height,
                        ) == Ok::<Map<Seq<u8>, Seq<u8>>, SnapshotError>(
                            store_contents(*final(store)),
                        ),
                        Err(e) => store_contents(*final(store)) == s0 && (action.ensures(
                            (cur,),
                            Err(e),
                        ) || (self.strat() == Strategy::Selected && e
                            == SnapshotError::StrategyUnsupported && exists|v: u64|
                            #[trigger] action.ensures((cur,), Ok::<u64, SnapshotError>(v)))),
                    },
                }
            }),
    {
        let input = match self.may_load(store, k) {
            Err(e) => {
                return Err(e);
            }
            Ok(x) => x,
        };
        let output = match action(input) {
            Err(e) => {
                return Err(e);
            }
            Ok(v) => v,
        };
        match self.is_checkpoint() {
            Err(e) => {
                return Err(e);
            }
            Ok(true) => {
                let entry = self.encode_changeset(&input);
                let ck = self.changelog_key(k, height);
                store_set(store, &ck, &entry);
            }
            Ok(false) => {}
        }
        self.save_primary(store, k, output);
        Ok(output)
    }

}

/// A store with nothing in it trivially keeps the changelog region
/// well-formed; writes preserve that from then on.
pub proof fn lemma_changelog_wf_empty(cl: Seq<u8>)
    ensures
        changelog_wf(Map::<Seq<u8>, Seq<u8>>::empty(), cl),
{
}

/// A write through a well-formed map keeps the changelog region
/// well-formed: the only key it adds there is itself a changelog entry key.
pub proof fn lemma_save_preserves_changelog_wf(
    s: Map<Seq<u8>, Seq<u8>>,
    m: SnapshotMap,
    k: Seq<u8>,
    v: u64,
    h: u64,
)
    requires
        m.wf(),
        k.len() <= max_framed_len(),
        changelog_wf(s, m.cl_ns()),
        spec_save(s, m, k, v, h) is Ok,
    ensures
        changelog_wf(spec_save(s, m, k, v, h)->Ok_0, m.cl_ns()),
{
    let cl = m.cl_ns();
    let s2 = spec_save(s, m, k, v, h)->Ok_0;
    lemma_pk_key_outside(m.pk_ns(), cl, k);
    assert forall|bk: Seq<u8>| #[trigger] s2.contains_key(bk) && starts_with(bk, lenpfx(cl))
        implies exists|k2: Seq<u8>, h2: u64|
        k2.len() <= max_framed_len() && bk == cl_key(cl, k2, h2) by {
        if bk != pk_key(m.pk_ns(), k) && bk != cl_key(cl, k, h) {
            assert(s.contains_key(bk));
        }
        if bk == cl_key(cl, k, h) {
            assert(k.len() <= max_framed_len() && bk == cl_key(cl, k, h));
        }
    }
}

/// As above, for `remove`.
pub proof fn lemma_remove_preserves_changelog_wf(
    s: Map<Seq<u8>, Seq<u8>>,
    m: SnapshotMap,
    k: Seq<u8>,
    h: u64,
)
    requires
        m.wf(),
        k.len() <= max_framed_len(),
        changelog_wf(s, m.cl_ns()),
        spec_remove(s, m, k, h) is Ok,
    ensures
        changelog_wf(spec_remove(s, m, k, h)->Ok_0, m.cl_ns()),
{
    let cl = m.cl_ns();
    let s2 = spec_remove(s, m, k, h)->Ok_0;
    lemma_pk_key_outside(m.pk_ns(), cl, k);
    assert forall|bk: Seq<u8>| #[trigger] s2.contains_key(bk) && starts_with(bk, lenpfx(cl))
        implies exists|k2: Seq<u8>, h2: u64|
        k2.len() <= max_framed_len() && bk == cl_key(cl, k2, h2) by {
        if bk != cl_key(cl, k, h) {
            assert(s.contains_key(bk));
        } else {
            assert(k.len() <= max_framed_len() && bk == cl_key(cl, k, h));
        }
    }
}

/// A primary-table key never lies in a changelog region of a different
/// name: the length-framed namespaces cannot shadow one another.
pub proof fn lemma_pk_key_outside(ns: Seq<u8>, cl: Seq<u8>, k: Seq<u8>)
    requires
        ns.len() <= max_framed_len(),
        cl.len() <= max_framed_len(),
        ns != cl,
    ensures
        !starts_with(pk_key(ns, k), lenpfx(cl)),
{
    if starts_with(pk_key(ns, k), lenpfx(cl)) {
        lemma_lenpfx_prefix_frame(ns, cl, k);
    }
}

/// With no changelog entry for `k` at or above `h`, the historical read at
/// `h` degenerates to the current value: nothing later ever changed it.
pub proof fn lemma_no_entry_at_or_above(s: Map<Seq<u8>, Seq<u8>>, m: SnapshotMap, k: Seq<u8>, h: u64)
    requires
        forall|h3: u64| h3 >= h ==> !s.contains_key(#[trigger] cl_key(m.cl_ns(), k, h3)),
    ensures
        spec_may_load_at_height(s, m, k, h) == spec_may_load(s, m.pk_ns(), k),
{
    assert(!has_entry_geq(s, m.cl_ns(), k, h));
}

/// Under the degenerate strategy no history is ever consulted: a key with
/// no recorded changes reads the same at every height as it does now.
pub proof fn lemma_never_degenerate(s: Map<Seq<u8>, Seq<u8>>, m: SnapshotMap, k: Seq<u8>, h: u64)
    requires
        forall|h3: u64| !s.contains_key(#[trigger] cl_key(m.cl_ns(), k, h3)),
    ensures
        spec_may_load_at_height(s, m, k, h) == spec_may_load(s, m.pk_ns(), k),
{
    lemma_no_entry_at_or_above(s, m, k, h);
}

/// A write under the degenerate strategy records no changelog entry for
/// any key, so the premise of `lemma_never_degenerate` is kept.
pub proof fn lemma_never_write_no_changelog(
    s: Map<Seq<u8>, Seq<u8>>,
    m: SnapshotMap,
    k: Seq<u8>,
    v: u64,
    h: u64,
    k2: Seq<u8>,
    h2: u64,
)
    requires
        m.wf(),
        m.strat() == Strategy::Never,
    ensures
        spec_save(s, m, k, v, h)->Ok_0.contains_key(cl_key(m.cl_ns(), k2, h2))
            == s.contains_key(cl_key(m.cl_ns(), k2, h2)),
        spec_remove(s, m, k, h)->Ok_0.contains_key(cl_key(m.cl_ns(), k2, h2)) == s.contains_key(
            cl_key(m.cl_ns(), k2, h2),
        ),
{
    lemma_pk_key_outside(m.pk_ns(), m.cl_ns(), k);
    if pk_key(m.pk_ns(), k) == cl_key(m.cl_ns(), k2, h2) {
        assert(starts_with(pk_key(m.pk_ns(), k), lenpfx(m.cl_ns()))) by {
            assert(cl_key(m.cl_ns(), k2, h2).take(lenpfx(m.cl_ns()).len() as int) =~= lenpfx(
                m.cl_ns(),
            )) by {
                assert(cl_key(m.cl_ns(), k2, h2) =~= lenpfx(m.cl_ns()) + (lenpfx(k2)
                    + be8_bytes(h2)));
            }
        }
    }
}

/// Saving a value and loading it back returns that value.
pub proof fn lemma_save_then_load(s: Map<Seq<u8>, Seq<u8>>, m: SnapshotMap, k: Seq<u8>, v: u64, h: u64)
    requires
        spec_save(s, m, k, v, h) is Ok,
    ensures
        spec_load(spec_save(s, m, k, v, h)->Ok_0, m.pk_ns(), k) == Ok::<u64, SnapshotError>(v),
{
    let s2 = spec_save(s, m, k, v, h)->Ok_0;
    assert(s2.contains_key(pk_key(m.pk_ns(), k)));
    assert(s2[pk_key(m.pk_ns(), k)] == be8_bytes(v));
    lemma_be8_round_trip(v);
}

/// Removing a key and reading it back reports absence.
pub proof fn lemma_remove_then_may_load(s: Map<Seq<u8>, Seq<u8>>, m: SnapshotMap, k: Seq<u8>, h: u64)
    requires
        spec_remove(s, m, k, h) is Ok,
    ensures
        spec_may_load(spec_remove(s, m, k, h)->Ok_0, m.pk_ns(), k) == Ok::<Option<u64>, SnapshotError>(
            None,
        ),
{
    let s2 = spec_remove(s, m, k, h)->Ok_0;
    assert(!s2.contains_key(pk_key(m.pk_ns(), k)));
}

/// Updating a previously absent key with an action that just returns `v`
/// leaves exactly the store that `save(k, v, h)` leaves: a changelog entry
/// recording absence, and the primary entry holding `v`. The `update`
/// contract promises the same resulting store as `spec_save`, so the two
/// write paths coincide state for state.
pub proof fn lemma_update_equivalence(
    s: Map<Seq<u8>, Seq<u8>>,
    m: SnapshotMap,
    k: Seq<u8>,
    v: u64,
    h: u64,
)
    requires
        m.strat() == Strategy::EveryBlock,
        !s.contains_key(pk_key(m.pk_ns(), k)),
    ensures
        spec_save(s, m, k, v, h) == Ok::<Map<Seq<u8>, Seq<u8>>, SnapshotError>(
            s.insert(cl_key(m.cl_ns(), k, h), enc_cs(None)).insert(
                pk_key(m.pk_ns(), k),
                be8_bytes(v),
            ),
        ),
{
}

/// One case of the partition a monotonic scan makes: when `hx` is the
/// least recorded height at or above the queried height, the historical
/// read reports exactly that entry's pre-write record. Together with
/// `lemma_no_entry_at_or_above` this partitions all query heights into
/// "before the first recorded change", "between two recorded changes"
/// (each answered by the next change's record) and "after the last"
/// (answered by the current value).
pub proof fn lemma_scan_hits_first(
    s: Map<Seq<u8>, Seq<u8>>,
    m: SnapshotMap,
    k: Seq<u8>,
    h: u64,
    hx: u64,
)
    requires
        entry_minimal_geq(s, m.cl_ns(), k, h, hx),
    ensures
        spec_may_load_at_height(s, m, k, h) == match dec_cs(s[cl_key(m.cl_ns(), k, hx)]) {
            Some(cs) => Ok::<Option<u64>, SnapshotError>(cs),
            None => Err::<Option<u64>, SnapshotError>(SnapshotError::ParseError),
        },
{
    assert(has_entry_geq(s, m.cl_ns(), k, h));
    let c = first_entry_geq(s, m.cl_ns(), k, h);
    assert(exists|h2: u64| entry_minimal_geq(s, m.cl_ns(), k, h, h2));
    lemma_minimal_unique(s, m.cl_ns(), k, h, c, hx);
}

/// Some least recorded height at or above `h` exists whenever any recorded
/// height at or above `h` does.
pub proof fn lemma_minimal_exists(
    s: Map<Seq<u8>, Seq<u8>>,
    cl: Seq<u8>,
    k: Seq<u8>,
    h: u64,
    w: u64,
)
    requires
        w >= h,
        s.contains_key(cl_key(cl, k, w)),
    ensures
        exists|h2: u64| entry_minimal_geq(s, cl, k, h, h2),
    decreases w - h,
{
    if forall|h3: u64| h <= h3 < w ==> !s.contains_key(#[trigger] cl_key(cl, k, h3)) {
        assert(entry_minimal_geq(s, cl, k, h, w));
    } else {
        let h3 = choose|h3: u64| h <= h3 < w && s.contains_key(#[trigger] cl_key(cl, k, h3));
        lemma_minimal_exists(s, cl, k, h, h3);
    }
}

/// What a checkpointed write leaves in the changelog: the entry at
/// (k, h) reads back as exactly the value the primary table held
/// immediately before the write, so a later historical read at or below
/// `h` reports that pre-image.
pub proof fn lemma_changelog_records_preimage(
    s: Map<Seq<u8>, Seq<u8>>,
    m: SnapshotMap,
    k: Seq<u8>,
    v: u64,
    h: u64,
)
    requires
        m.wf(),
        m.strat() == Strategy::EveryBlock,
        spec_save(s, m, k, v, h) is Ok,
    ensures
        dec_cs(spec_save(s, m, k, v, h)->Ok_0[cl_key(m.cl_ns(), k, h)]) == Some(
            spec_may_load(s, m.pk_ns(), k)->Ok_0,
        ),
{
    let cur = spec_may_load(s, m.pk_ns(), k)->Ok_0;
    let s2 = spec_save(s, m, k, v, h)->Ok_0;
    lemma_pk_key_outside(m.pk_ns(), m.cl_ns(), k);
    assert(pk_key(m.pk_ns(), k) != cl_key(m.cl_ns(), k, h)) by {
        if pk_key(m.pk_ns(), k) == cl_key(m.cl_ns(), k, h) {
            assert(cl_key(m.cl_ns(), k, h).take(lenpfx(m.cl_ns()).len() as int) =~= lenpfx(
                m.cl_ns(),
            )) by {
                assert(cl_key(m.cl_ns(), k, h) =~= lenpfx(m.cl_ns()) + (lenpfx(k) + be8_bytes(
                    h,
                )));
            }
            assert(starts_with(pk_key(m.pk_ns(), k), lenpfx(m.cl_ns())));
        }
    }
    assert(s2[cl_key(m.cl_ns(), k, h)] == enc_cs(cur));
    lemma_cs_round_trip(cur);
}

/// Changelog keys of one key differ exactly when their heights differ.
pub proof fn lemma_cl_key_height_inj(cl: Seq<u8>, k: Seq<u8>, h1: u64, h2: u64)
    requires
        cl_key(cl, k, h1) == cl_key(cl, k, h2),
    ensures
        h1 == h2,
{
    let p = cl_prefix(cl, k);
    assert(be8_bytes(h1) =~= cl_key(cl, k, h1).skip(p.len() as int));
    assert(be8_bytes(h2) =~= cl_key(cl, k, h2).skip(p.len() as int));
    lemma_be8_round_trip(h1);
    lemma_be8_round_trip(h2);
}

/// The middle of the partition: between two consecutive checkpointed
/// writes of one key, every historical read reports the value the earlier
/// write set. With `lemma_no_entry_at_or_above` (past the last write, the
/// current value) and `lemma_scan_hits_first` (at or before the first
/// recorded change, its pre-image) this partitions all query heights.
pub proof fn lemma_between_writes(
    s: Map<Seq<u8>, Seq<u8>>,
    m: SnapshotMap,
    k: Seq<u8>,
    v1: u64,
    h1: u64,
    v2: u64,
    h2: u64,
    h: u64,
)
    requires
        m.wf(),
        m.strat() == Strategy::EveryBlock,
        spec_save(s, m, k, v1, h1) is Ok,
        spec_save(spec_save(s, m, k, v1, h1)->Ok_0, m, k, v2, h2) is Ok,
        forall|h3: u64| h3 > h1 ==> !s.contains_key(#[trigger] cl_key(m.cl_ns(), k, h3)),
        h1 < h <= h2,
    ensures
        spec_may_load_at_height(
            spec_save(spec_save(s, m, k, v1, h1)->Ok_0, m, k, v2, h2)->Ok_0,
            m,
            k,
            h,
        ) == Ok::<Option<u64>, SnapshotError>(Some(v1)),
{
    let cl = m.cl_ns();
    let pk = pk_key(m.pk_ns(), k);
    let s1 = spec_save(s, m, k, v1, h1)->Ok_0;
    let s2 = spec_save(s1, m, k, v2, h2)->Ok_0;
    lemma_pk_key_outside(m.pk_ns(), cl, k);
    assert forall|h3: u64| pk != #[trigger] cl_key(cl, k, h3) by {
        if pk == cl_key(cl, k, h3) {
            assert(cl_key(cl, k, h3).take(lenpfx(cl).len() as int) =~= lenpfx(cl)) by {
                assert(cl_key(cl, k, h3) =~= lenpfx(cl) + (lenpfx(k) + be8_bytes(h3)));
            }
            assert(starts_with(pk, lenpfx(cl)));
        }
    }
    // the write at h2 read back Some(v1), the value the write at h1 set
    assert(s1[pk] == be8_bytes(v1));
    lemma_be8_round_trip(v1);
    assert(spec_may_load(s1, m.pk_ns(), k) == Ok::<Option<u64>, SnapshotError>(Some(v1)));
    assert(s2[cl_key(cl, k, h2)] == enc_cs(Some(v1)));
    // the entry at h2 is the least one at or above the queried height
    assert forall|h3: u64| h <= h3 < h2 implies !s2.contains_key(
        #[trigger] cl_key(cl, k, h3),
    ) by {
        if s2.contains_key(cl_key(cl, k, h3)) {
            if cl_key(cl, k, h3) == cl_key(cl, k, h1) {
                lemma_cl_key_height_inj(cl, k, h3, h1);
            } else if cl_key(cl, k, h3) == cl_key(cl, k, h2) {
                lemma_cl_key_height_inj(cl, k, h3, h2);
            } else {
                assert(s.contains_key(cl_key(cl, k, h3)));
            }
        }
    }
    assert(entry_minimal_geq(s2, cl, k, h, h2));
    lemma_scan_hits_first(s2, m, k, h, h2);
    lemma_cs_round_trip(Some(v1));
}

/// Reads of one map are settled by its own two regions alone: two stores
/// agreeing there agree on every read.
pub proof fn lemma_reads_from_regions(
    s: Map<Seq<u8>, Seq<u8>>,
    s2: Map<Seq<u8>, Seq<u8>>,
    m: SnapshotMap,
    k: Seq<u8>,
    h: u64,
)
    requires
        s2.contains_key(pk_key(m.pk_ns(), k)) == s.contains_key(pk_key(m.pk_ns(), k)),
        s.contains_key(pk_key(m.pk_ns(), k)) ==> s2[pk_key(m.pk_ns(), k)] == s[pk_key(
            m.pk_ns(),
            k,
        )],
        forall|h3: u64| #[trigger] s2.contains_key(cl_key(m.cl_ns(), k, h3)) == s.contains_key(
            cl_key(m.cl_ns(), k, h3),
        ),
        forall|h3: u64| s.contains_key(#[trigger] cl_key(m.cl_ns(), k, h3)) ==> s2[cl_key(
            m.cl_ns(),
            k,
            h3,
        )] == s[cl_key(m.cl_ns(), k, h3)],
    ensures
        spec_may_load(s2, m.pk_ns(), k) == spec_may_load(s, m.pk_ns(), k),
        spec_may_load_at_height(s2, m, k, h) == spec_may_load_at_height(s, m, k, h),
{
    let cl = m.cl_ns();
    assert(has_entry_geq(s2, cl, k, h) == has_entry_geq(s, cl, k, h)) by {
        if has_entry_geq(s, cl, k, h) {
            let hw = choose|h2: u64| h2 >= h && s.contains_key(#[trigger] cl_key(cl, k, h2));
            assert(s2.contains_key(cl_key(cl, k, hw)));
        }
        if has_entry_geq(s2, cl, k, h) {
            let hw = choose|h2: u64| h2 >= h && s2.contains_key(#[trigger] cl_key(cl, k, h2));
            assert(s.contains_key(cl_key(cl, k, hw)));
        }
    }
    if has_entry_geq(s, cl, k, h) {
        let hw = choose|h2: u64| h2 >= h && s.contains_key(#[trigger] cl_key(cl, k, h2));
        lemma_minimal_exists(s, cl, k, h, hw);
        lemma_minimal_exists(s2, cl, k, h, hw);
        let c = first_entry_geq(s, cl, k, h);
        let c2 = first_entry_geq(s2, cl, k, h);
        assert(entry_minimal_geq(s, cl, k, h, c));
        assert(entry_minimal_geq(s2, cl, k, h, c2));
        assert(entry_minimal_geq(s, cl, k, h, c2)) by {
            assert(forall|h3: u64|
                h <= h3 < c2 ==> !s.contains_key(#[trigger] cl_key(cl, k, h3)));
        }
        lemma_minimal_unique(s, cl, k, h, c, c2);
    }
}

/// Namespace isolation: a write through one snapshot map is invisible to
/// every read through a second map whose regions carry different names,
/// whatever keys and heights either uses.
pub proof fn lemma_namespace_isolation(
    s: Map<Seq<u8>, Seq<u8>>,
    m1: SnapshotMap,
    m2: SnapshotMap,
    k1: Seq<u8>,
    v: u64,
    h: u64,
    k2: Seq<u8>,
    hq: u64,
)
    requires
        m1.wf(),
        m2.wf(),
        m1.pk_ns() != m2.pk_ns(),
        m1.pk_ns() != m2.cl_ns(),
        m1.cl_ns() != m2.pk_ns(),
        m1.cl_ns() != m2.cl_ns(),
        spec_save(s, m1, k1, v, h) is Ok,
    ensures
        spec_may_load(spec_save(s, m1, k1, v, h)->Ok_0, m2.pk_ns(), k2) == spec_may_load(
            s,
            m2.pk_ns(),
            k2,
        ),
        spec_may_load_at_height(spec_save(s, m1, k1, v, h)->Ok_0, m2, k2, hq)
            == spec_may_load_at_height(s, m2, k2, hq),
{
    let s2 = spec_save(s, m1, k1, v, h)->Ok_0;
    lemma_written_keys_distinct(m1, m2, k1, h, k2, hq);
    assert forall|h3: u64| #[trigger] s2.contains_key(cl_key(m2.cl_ns(), k2, h3))
        == s.contains_key(cl_key(m2.cl_ns(), k2, h3)) by {
        lemma_written_keys_distinct(m1, m2, k1, h, k2, h3);
    }
    assert forall|h3: u64| s.contains_key(#[trigger] cl_key(m2.cl_ns(), k2, h3)) implies s2[cl_key(
        m2.cl_ns(),
        k2,
        h3,
    )] == s[cl_key(m2.cl_ns(), k2, h3)] by {
        lemma_written_keys_distinct(m1, m2, k1, h, k2, h3);
    }
    lemma_reads_from_regions(s, s2, m2, k2, hq);
}

/// The byte keys one map writes differ from those a differently named map
/// reads.
pub proof fn lemma_written_keys_distinct(
    m1: SnapshotMap,
    m2: SnapshotMap,
    k1: Seq<u8>,
    h: u64,
    k2: Seq<u8>,
    h3: u64,
)
    requires
        m1.wf(),
        m2.wf(),
        m1.pk_ns() != m2.pk_ns(),
        m1.pk_ns() != m2.cl_ns(),
        m1.cl_ns() != m2.pk_ns(),
        m1.cl_ns() != m2.cl_ns(),
    ensures
        pk_key(m1.pk_ns(), k1) != pk_key(m2.pk_ns(), k2),
        pk_key(m1.pk_ns(), k1) != cl_key(m2.cl_ns(), k2, h3),
        cl_key(m1.cl_ns(), k1, h) != pk_key(m2.pk_ns(), k2),
        cl_key(m1.cl_ns(), k1, h) != cl_key(m2.cl_ns(), k2, h3),
{
    if pk_key(m1.pk_ns(), k1) == pk_key(m2.pk_ns(), k2) {
        lemma_lenpfx_frame(m1.pk_ns(), m2.pk_ns(), k1, k2);
    }
    if pk_key(m1.pk_ns(), k1) == cl_key(m2.cl_ns(), k2, h3) {
        assert(lenpfx(m1.pk_ns()) + k1 == lenpfx(m2.cl_ns()) + (lenpfx(k2) + be8_bytes(h3))) by {
            assert(lenpfx(m2.cl_ns()) + (lenpfx(k2) + be8_bytes(h3)) =~= cl_key(
                m2.cl_ns(),
                k2,
                h3,
            ));
        }
        lemma_lenpfx_frame(m1.pk_ns(), m2.cl_ns(), k1, lenpfx(k2) + be8_bytes(h3));
    }
    if cl_key(m1.cl_ns(), k1, h) == pk_key(m2.pk_ns(), k2) {
        assert(lenpfx(m1.cl_ns()) + (lenpfx(k1) + be8_bytes(h)) == lenpfx(m2.pk_ns()) + k2) by {
            assert(lenpfx(m1.cl_ns()) + (lenpfx(k1) + be8_bytes(h)) =~= cl_key(
                m1.cl_ns(),
                k1,
                h,
            ));
        }
        lemma_lenpfx_frame(m1.cl_ns(), m2.pk_ns(), lenpfx(k1) + be8_bytes(h), k2);
    }
    if cl_key(m1.cl_ns(), k1, h) == cl_key(m2.cl_ns(), k2, h3) {
        assert(lenpfx(m1.cl_ns()) + (lenpfx(k1) + be8_bytes(h)) == lenpfx(m2.cl_ns()) + (lenpfx(
            k2,
        ) + be8_bytes(h3))) by {
            assert(lenpfx(m1.cl_ns()) + (lenpfx(k1) + be8_bytes(h)) =~= cl_key(m1.cl_ns(), k1, h));
            assert(lenpfx(m2.cl_ns()) + (lenpfx(k2) + be8_bytes(h3)) =~= cl_key(
                m2.cl_ns(),
                k2,
                h3,
            ));
        }
        lemma_lenpfx_frame(
            m1.cl_ns(),
            m2.cl_ns(),
            lenpfx(k1) + be8_bytes(h),
            lenpfx(k2) + be8_bytes(h3),
        );
    }
}

} // verus!
