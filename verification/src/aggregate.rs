//! The streaming aggregator: counts per request kind and first-seen
//! transfer sizes per package, accumulated over every line of a run.
//!
//! The state is modelled as two maps. A countable line always bumps the
//! count of its kind; a fresh (`200`) download additionally records its
//! size, but only the first time the package is seen — later sizes are
//! ignored. A line the grammar rejects changes nothing. Counts saturate at
//! the capacity of the 64-bit counter instead of wrapping.

use vstd::prelude::*;
use crate::keys::{PackageKey, PackageKeyV, ParsedLine, ParsedLineV, RequestKind, RequestKindV};
use crate::grammar::{parse_line, parse_line_spec};

verus! {

/// The aggregator's mathematical state.
#[verifier::ext_equal]
pub ghost struct AggModel {
    pub counts: Map<RequestKindV, u64>,
    pub sizes: Map<PackageKeyV, u64>,
}

/// The state a run starts from: both maps empty.
pub open spec fn empty_model() -> AggModel {
    AggModel { counts: Map::empty(), sizes: Map::empty() }
}

/// A count one higher, saturating at the counter's capacity.
pub open spec fn inc_sat(c: u64) -> u64 {
    if c == u64::MAX {
        c
    } else {
        (c + 1) as u64
    }
}

/// The count a map holds for a kind, zero when the kind is absent.
pub open spec fn count_of(m: Map<RequestKindV, u64>, k: RequestKindV) -> u64 {
    if m.contains_key(k) {
        m[k]
    } else {
        0
    }
}

/// The size map after one countable line: a fresh download records its size
/// if and only if the package has none yet; everything else leaves sizes
/// alone.
pub open spec fn size_step(sizes: Map<PackageKeyV, u64>, pl: ParsedLineV) -> Map<PackageKeyV, u64> {
    match pl {
        ParsedLineV::Fresh { kind, size } => match kind {
            RequestKindV::Download { key } => if sizes.contains_key(key) {
                sizes
            } else {
                sizes.insert(key, size)
            },
            _ => sizes,
        },
        ParsedLineV::Cached { .. } => sizes,
    }
}

/// The whole state after one countable line.
pub open spec fn record_step(m: AggModel, pl: ParsedLineV) -> AggModel {
    AggModel {
        counts: m.counts.insert(pl.kind(), inc_sat(count_of(m.counts, pl.kind()))),
        sizes: size_step(m.sizes, pl),
    }
}

/// The state after one raw line: a skipped line changes nothing.
pub open spec fn observe_step(m: AggModel, line: Seq<u8>) -> AggModel {
    match parse_line_spec(line) {
        Some(pl) => record_step(m, pl),
        None => m,
    }
}

/// The state after a whole run of lines, observed in order. One spec
/// function of the input alone: the aggregation of a run is deterministic.
pub open spec fn run_model(m: AggModel, lines: Seq<Seq<u8>>) -> AggModel
    decreases lines.len(),
{
    if lines.len() == 0 {
        m
    } else {
        observe_step(run_model(m, lines.drop_last()), lines.last())
    }
}

/// The view of one association-list entry's key.
pub open spec fn key_view_at<K: View>(s: Seq<(K, u64)>, i: int) -> <K as View>::V {
    s[i].0@
}

/// No two entries of the association list share a key.
pub open spec fn distinct_keys<K: View>(s: Seq<(K, u64)>) -> bool {
    forall|i: int, j: int|
        0 <= i < j < s.len() ==> #[trigger] key_view_at(s, i) != #[trigger] key_view_at(s, j)
}

/// The map an association list holds; later entries would win, but the
/// aggregator keeps its keys distinct.
pub open spec fn assoc_map<K: View>(s: Seq<(K, u64)>) -> Map<<K as View>::V, u64>
    decreases s.len(),
{
    if s.len() == 0 {
        Map::empty()
    } else {
        assoc_map(s.drop_last()).insert(s.last().0@, s.last().1)
    }
}

/// A key is in the map exactly when some entry holds it.
pub proof fn lemma_assoc_dom<K: View>(s: Seq<(K, u64)>)
    ensures
        forall|k: <K as View>::V| #[trigger]
            assoc_map(s).contains_key(k) <==> exists|i: int|
                0 <= i < s.len() && #[trigger] key_view_at(s, i) == k,
    decreases s.len(),
{
    if s.len() > 0 {
        let dl = s.drop_last();
        lemma_assoc_dom(dl);
        assert forall|k: <K as View>::V| #[trigger] assoc_map(s).contains_key(k) implies exists|
            i: int,
        | 0 <= i < s.len() && #[trigger] key_view_at(s, i) == k by {
            if k == s.last().0@ {
                assert(key_view_at(s, s.len() - 1) == k);
            } else {
                assert(assoc_map(dl).contains_key(k));
                let i = choose|i: int| 0 <= i < dl.len() && #[trigger] key_view_at(dl, i) == k;
                assert(key_view_at(s, i) == k);
            }
        }
        assert forall|k: <K as View>::V|
            (exists|i: int| 0 <= i < s.len() && #[trigger] key_view_at(s, i) == k) implies #[trigger]
            assoc_map(s).contains_key(k) by {
            let i = choose|i: int| 0 <= i < s.len() && #[trigger] key_view_at(s, i) == k;
            if i < s.len() - 1 {
                assert(key_view_at(dl, i) == k);
                assert(assoc_map(dl).contains_key(k));
            }
        }
    }
}

/// Under distinct keys, the entry at `i` gives the map's value for its key.
pub proof fn lemma_assoc_at<K: View>(s: Seq<(K, u64)>, i: int)
    requires
        distinct_keys(s),
        0 <= i < s.len(),
    ensures
        assoc_map(s).contains_key(key_view_at(s, i)),
        assoc_map(s)[key_view_at(s, i)] == s[i].1,
    decreases s.len(),
{
    if i < s.len() - 1 {
        let dl = s.drop_last();
        assert forall|a: int, b: int| 0 <= a < b < dl.len() implies #[trigger] key_view_at(dl, a)
            != #[trigger] key_view_at(dl, b) by {
            assert(key_view_at(s, a) != key_view_at(s, b));
        }
        lemma_assoc_at(dl, i);
        assert(key_view_at(dl, i) == key_view_at(s, i));
        assert(key_view_at(s, i) != key_view_at(s, s.len() - 1));
    }
}

/// Removing the entry at `i` removes exactly its key from the map.
pub proof fn lemma_assoc_remove<K: View>(s: Seq<(K, u64)>, i: int)
    requires
        distinct_keys(s),
        0 <= i < s.len(),
    ensures
        distinct_keys(s.remove(i)),
        assoc_map(s.remove(i)) == assoc_map(s).remove(key_view_at(s, i)),
    decreases s.len(),
{
    let r = s.remove(i);
    assert forall|a: int, b: int| 0 <= a < b < r.len() implies #[trigger] key_view_at(r, a)
        != #[trigger] key_view_at(r, b) by {
        let a0: int = if a < i {
            a
        } else {
            a + 1
        };
        let b0: int = if b < i {
            b
        } else {
            b + 1
        };
        assert(key_view_at(s, a0) != key_view_at(s, b0));
    }
    if i == s.len() - 1 {
        assert(r =~= s.drop_last());
        lemma_assoc_dom(s.drop_last());
        assert(!assoc_map(s.drop_last()).contains_key(key_view_at(s, i))) by {
            if assoc_map(s.drop_last()).contains_key(key_view_at(s, i)) {
                let j = choose|j: int|
                    0 <= j < s.drop_last().len() && #[trigger] key_view_at(s.drop_last(), j)
                        == key_view_at(s, i);
                assert(key_view_at(s, j) == key_view_at(s, i));
            }
        }
        assert(assoc_map(s.drop_last()) =~= assoc_map(s).remove(key_view_at(s, i)));
    } else {
        let dl = s.drop_last();
        assert forall|a: int, b: int| 0 <= a < b < dl.len() implies #[trigger] key_view_at(dl, a)
            != #[trigger] key_view_at(dl, b) by {
            assert(key_view_at(s, a) != key_view_at(s, b));
        }
        lemma_assoc_remove(dl, i);
        assert(r.drop_last() =~= dl.remove(i));
        assert(r.last() == s.last());
        assert(key_view_at(dl, i) == key_view_at(s, i));
        assert(key_view_at(s, i) != key_view_at(s, s.len() - 1));
        assert(assoc_map(r) == assoc_map(dl.remove(i)).insert(s.last().0@, s.last().1));
        assert(assoc_map(dl).remove(key_view_at(s, i)).insert(s.last().0@, s.last().1)
            =~= assoc_map(dl).insert(s.last().0@, s.last().1).remove(key_view_at(s, i)));
    }
}

/// Appending an entry inserts its key.
pub proof fn lemma_assoc_push<K: View>(s: Seq<(K, u64)>, p: (K, u64))
    ensures
        assoc_map(s.push(p)) == assoc_map(s).insert(p.0@, p.1),
{
    assert(s.push(p).drop_last() =~= s);
    assert(s.push(p).last() == p);
}

/// Finds the entry holding a kind, by structural equality of the keys.
fn find_kind(v: &Vec<(RequestKind, u64)>, k: &RequestKind) -> (r: Option<usize>)
    ensures
        match r {
            Some(i) => i < v@.len() && key_view_at(v@, i as int) == k@,
            None => forall|i: int| 0 <= i < v@.len() ==> #[trigger] key_view_at(v@, i) != k@,
        },
{
    let mut i: usize = 0;
    while i < v.len()
        invariant
            i <= v@.len(),
            forall|j: int| 0 <= j < i ==> #[trigger] key_view_at(v@, j) != k@,
        decreases v@.len() - i,
    {
        if v[i].0.kind_eq(k) {
            return Some(i);
        }
        i += 1;
    }
    None
}

/// Finds the entry holding a package key.
fn find_pkg(v: &Vec<(PackageKey, u64)>, k: &PackageKey) -> (r: Option<usize>)
    ensures
        match r {
            Some(i) => i < v@.len() && key_view_at(v@, i as int) == k@,
            None => forall|i: int| 0 <= i < v@.len() ==> #[trigger] key_view_at(v@, i) != k@,
        },
{
    let mut i: usize = 0;
    while i < v.len()
        invariant
            i <= v@.len(),
            forall|j: int| 0 <= j < i ==> #[trigger] key_view_at(v@, j) != k@,
        decreases v@.len() - i,
    {
        if v[i].0.key_eq(k) {
            return Some(i);
        }
        i += 1;
    }
    None
}

/// The streaming aggregator owning one run's state.
pub struct Aggregator {
    counts: Vec<(RequestKind, u64)>,
    sizes: Vec<(PackageKey, u64)>,
}

impl View for Aggregator {
    type V = AggModel;

    closed spec fn view(&self) -> AggModel {
        AggModel { counts: assoc_map(self.counts@), sizes: assoc_map(self.sizes@) }
    }
}

impl Aggregator {
    /// Both association lists keep their keys distinct.
    pub closed spec fn wf(self) -> bool {
        distinct_keys(self.counts@) && distinct_keys(self.sizes@)
    }

    /// A fresh aggregator: nothing counted, nothing sized.
    pub fn new() -> (r: Aggregator)
        ensures
            r.wf(),
            r@ == empty_model(),
    {
        let r = Aggregator { counts: Vec::new(), sizes: Vec::new() };
        proof {
            assert(r@ =~= empty_model());
        }
        r
    }

    /// Bumps the count of `kind`, saturating; sizes are untouched.
    fn bump(&mut self, kind: RequestKind)
        requires
            old(self).wf(),
        ensures
            final(self).wf(),
            final(self)@.counts == old(self)@.counts.insert(
                kind@,
                inc_sat(count_of(old(self)@.counts, kind@)),
            ),
            final(self)@.sizes == old(self)@.sizes,
    {
        let ghost s0 = self.counts@;
        let ghost kv = kind@;
        proof {
            lemma_assoc_dom(s0);
        }
        match find_kind(&self.counts, &kind) {
            Some(i) => {
                let c = self.counts[i].1;
                let newc = if c == u64::MAX {
                    c
                } else {
                    c + 1
                };
                proof {
                    lemma_assoc_at(s0, i as int);
                    lemma_assoc_remove(s0, i as int);
                }
                let _removed = self.counts.remove(i);
                self.counts.push((kind, newc));
                proof {
                    let s1 = s0.remove(i as int);
                    assert(self.counts@ =~= s1.push(self.counts@.last()));
                    assert(key_view_at(self.counts@, s1.len() as int) == kv);
                    assert forall|a: int| 0 <= a < s1.len() implies #[trigger] key_view_at(s1, a)
                        != kv by {
                        if a < i {
                            assert(key_view_at(s0, a) != key_view_at(s0, i as int));
                        } else {
                            assert(s1[a] == s0[a + 1]);
                            assert(key_view_at(s0, a + 1) != key_view_at(s0, i as int));
                        }
                    }
                    assert forall|a: int, b: int| 0 <= a < b < self.counts@.len() implies #[trigger]
                        key_view_at(self.counts@, a) != #[trigger] key_view_at(
                        self.counts@,
                        b,
                    ) by {
                        if b < s1.len() {
                            assert(key_view_at(s1, a) != key_view_at(s1, b));
                        } else {
                            assert(key_view_at(self.counts@, a) == key_view_at(s1, a));
                        }
                    }
                    lemma_assoc_push(s1, self.counts@.last());
                    assert(assoc_map(self.counts@) =~= assoc_map(s0).insert(kv, newc));
                }
            },
            None => {
                self.counts.push((kind, 1));
                proof {
                    assert(!assoc_map(s0).contains_key(kv));
                    let s1 = self.counts@;
                    assert(s1 =~= s0.push(s1.last()));
                    assert(key_view_at(s1, s0.len() as int) == kv);
                    assert forall|a: int, b: int| 0 <= a < b < s1.len() implies #[trigger]
                        key_view_at(s1, a) != #[trigger] key_view_at(s1, b) by {
                        if b < s0.len() {
                            assert(key_view_at(s0, a) != key_view_at(s0, b));
                        } else {
                            assert(key_view_at(s1, a) == key_view_at(s0, a));
                        }
                    }
                    lemma_assoc_push(s0, s1.last());
                    assert(assoc_map(s1) =~= assoc_map(s0).insert(kv, 1u64));
                }
            },
        }
    }

    /// Records a fresh download's size, only when the package has none yet;
    /// counts are untouched.
    fn record_size(&mut self, key: PackageKey, size: u64)
        requires
            old(self).wf(),
        ensures
            final(self).wf(),
            final(self)@.counts == old(self)@.counts,
            final(self)@.sizes == (if old(self)@.sizes.contains_key(key@) {
                old(self)@.sizes
            } else {
                old(self)@.sizes.insert(key@, size)
            }),
    {
        let ghost s0 = self.sizes@;
        let ghost kv = key@;
        proof {
            lemma_assoc_dom(s0);
        }
        match find_pkg(&self.sizes, &key) {
            Some(_) => {},
            None => {
                self.sizes.push((key, size));
                proof {
                    assert(!assoc_map(s0).contains_key(kv));
                    let s1 = self.sizes@;
                    assert(s1 =~= s0.push(s1.last()));
                    assert(key_view_at(s1, s0.len() as int) == kv);
                    assert forall|a: int, b: int| 0 <= a < b < s1.len() implies #[trigger]
                        key_view_at(s1, a) != #[trigger] key_view_at(s1, b) by {
                        if b < s0.len() {
                            assert(key_view_at(s0, a) != key_view_at(s0, b));
                        } else {
                            assert(key_view_at(s1, a) == key_view_at(s0, a));
                        }
                    }
                    lemma_assoc_push(s0, s1.last());
                }
            },
        }
    }

    /// Records one countable line: its kind is counted, and a fresh
    /// download's size is kept if it is the first seen for its package.
    pub fn record(&mut self, pl: ParsedLine)
        requires
            old(self).wf(),
        ensures
            final(self).wf(),
            final(self)@ == record_step(old(self)@, pl@),
    {
        let ghost plv = pl@;
        match pl {
            ParsedLine::Cached(kind) => {
                self.bump(kind);
            },
            ParsedLine::Fresh(kind, size) => {
                match kind {
                    RequestKind::Download(pk) => {
                        let copy = pk.duplicate();
                        self.bump(RequestKind::Download(pk));
                        self.record_size(copy, size);
                    },
                    other => {
                        self.bump(other);
                    },
                }
            },
        }
        proof {
            assert(self@ =~= record_step(old(self)@, plv));
        }
    }

    /// Observes one raw line. Returns whether the line was countable; a
    /// skipped line leaves the state exactly as it was.
    pub fn observe(&mut self, line: &Vec<u8>) -> (r: bool)
        requires
            old(self).wf(),
        ensures
            final(self).wf(),
            r == (parse_line_spec(line@) is Some),
            final(self)@ == observe_step(old(self)@, line@),
    {
        match parse_line(line) {
            Some(pl) => {
                self.record(pl);
                true
            },
            None => false,
        }
    }

    /// The count recorded for a kind, zero when it was never seen.
    pub fn count_of_kind(&self, kind: &RequestKind) -> (r: u64)
        requires
            self.wf(),
        ensures
            r == count_of(self@.counts, kind@),
    {
        proof {
            lemma_assoc_dom(self.counts@);
        }
        match find_kind(&self.counts, kind) {
            Some(i) => {
                proof {
                    lemma_assoc_at(self.counts@, i as int);
                }
                self.counts[i].1
            },
            None => 0,
        }
    }

    /// The size recorded for a package, absent when no fresh download of it
    /// was ever seen.
    pub fn size_of_key(&self, key: &PackageKey) -> (r: Option<u64>)
        requires
            self.wf(),
        ensures
            r == (if self@.sizes.contains_key(key@) {
                Some(self@.sizes[key@])
            } else {
                None::<u64>
            }),
    {
        proof {
            lemma_assoc_dom(self.sizes@);
        }
        match find_pkg(&self.sizes, key) {
            Some(i) => {
                proof {
                    lemma_assoc_at(self.sizes@, i as int);
                }
                Some(self.sizes[i].1)
            },
            None => None,
        }
    }

    /// Surrenders the two association lists, for the ranking step that
    /// consumes the state.
    pub fn into_parts(self) -> (r: (Vec<(RequestKind, u64)>, Vec<(PackageKey, u64)>))
        requires
            self.wf(),
        ensures
            distinct_keys(r.0@),
            distinct_keys(r.1@),
            assoc_map(r.0@) == self@.counts,
            assoc_map(r.1@) == self@.sizes,
    {
        let Aggregator { counts, sizes } = self;
        (counts, sizes)
    }
}

/// A `304` line bumps its kind's count and never touches the size map.
pub proof fn lemma_cached_line(m: AggModel, kind: RequestKindV)
    requires
        count_of(m.counts, kind) < u64::MAX,
    ensures
        record_step(m, ParsedLineV::Cached { kind }).counts == m.counts.insert(
            kind,
            (count_of(m.counts, kind) + 1) as u64,
        ),
        record_step(m, ParsedLineV::Cached { kind }).sizes == m.sizes,
{
}

/// A fresh download bumps its kind's count by exactly one and records its
/// size if and only if the package had none; a second fresh observation of
/// the same package, whatever size it carries, leaves the recorded size as
/// it was.
pub proof fn lemma_fresh_download(m: AggModel, key: PackageKeyV, size: u64)
    requires
        count_of(m.counts, RequestKindV::Download { key }) < u64::MAX,
    ensures
        ({
            let pl = ParsedLineV::Fresh { kind: RequestKindV::Download { key }, size };
            let m2 = record_step(m, pl);
            &&& m2.counts == m.counts.insert(
                RequestKindV::Download { key },
                (count_of(m.counts, RequestKindV::Download { key }) + 1) as u64,
            )
            &&& (!m.sizes.contains_key(key) ==> m2.sizes == m.sizes.insert(key, size))
            &&& (m.sizes.contains_key(key) ==> m2.sizes == m.sizes)
        }),
{
}

/// Once a package has a recorded size, no later observation changes it.
pub proof fn lemma_first_write_wins(m: AggModel, pl: ParsedLineV, key: PackageKeyV)
    requires
        m.sizes.contains_key(key),
    ensures
        record_step(m, pl).sizes.contains_key(key),
        record_step(m, pl).sizes[key] == m.sizes[key],
{
}

/// A line the grammar rejects changes nothing, however often it is fed.
pub proof fn lemma_skip_is_idempotent(m: AggModel, line: Seq<u8>)
    requires
        parse_line_spec(line) is None,
    ensures
        observe_step(m, line) == m,
{
}

/// The structural invariant of the state: every package with a recorded
/// size is also counted as a download.
pub open spec fn model_inv(m: AggModel) -> bool {
    forall|k: PackageKeyV| #[trigger]
        m.sizes.contains_key(k) ==> m.counts.contains_key(RequestKindV::Download { key: k })
}

/// Aggregation accumulates across input files: feeding one file's lines and
/// then another's is feeding their concatenation, with no reset between.
pub proof fn lemma_run_model_append(m: AggModel, a: Seq<Seq<u8>>, b: Seq<Seq<u8>>)
    ensures
        run_model(m, a + b) == run_model(run_model(m, a), b),
    decreases b.len(),
{
    if b.len() == 0 {
        assert(a + b =~= a);
    } else {
        lemma_run_model_append(m, a, b.drop_last());
        assert((a + b).drop_last() =~= a + b.drop_last());
        assert((a + b).last() == b.last());
    }
}

/// The empty state satisfies the structural invariant.
pub proof fn lemma_empty_model_inv()
    ensures
        model_inv(empty_model()),
{
}

/// Observing a line preserves the structural invariant; moreover the maps
/// only ever grow: no key disappears, no count decreases, and no recorded
/// size changes.
pub proof fn lemma_observe_preserves_inv(m: AggModel, line: Seq<u8>)
    requires
        model_inv(m),
    ensures
        model_inv(observe_step(m, line)),
        forall|k: RequestKindV| #[trigger]
            m.counts.contains_key(k) ==> observe_step(m, line).counts.contains_key(k) && count_of(
                m.counts,
                k,
            ) <= count_of(observe_step(m, line).counts, k),
        forall|k: PackageKeyV| #[trigger]
            m.sizes.contains_key(k) ==> observe_step(m, line).sizes.contains_key(k) && observe_step(
                m,
                line,
            ).sizes[k] == m.sizes[k],
{
}

} // verus!
