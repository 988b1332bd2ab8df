//! The ranking step: drains the aggregator's final state into two ranked
//! sequences (listings and packages, each by descending count with the
//! key's structural order as tie-break) plus the full-index scalar, and
//! computes the summary statistics.
//!
//! The ranking of one state is unique: validity of a ranked sequence pins
//! it completely, which is what makes a re-run of the whole pipeline
//! reproduce its output byte for byte.
//!
//! The size-weighted average transfer is returned as an exact
//! numerator/denominator pair; with no package entries the average is
//! undefined and reported as `None`, never as a division by zero.

use vstd::prelude::*;
use vstd::relations::sorted_by;
use vstd::multiset::Multiset;
use crate::keys::{bytes_eq, ListKey, PackageKey, PackageKeyV, RequestKind, RequestKindV};
use crate::order::{bytes_lex_leq, key_leq, lemma_lex_refl, lemma_list_leq_total, lemma_list_leq_trans,
    lemma_list_order_total, lemma_pkg_leq_total, lemma_pkg_leq_trans, lemma_pkg_order_total,
    list_entry_leq, list_order, pkg_entry_leq, pkg_order, ListEntryV, PkgEntryV};
use crate::aggregate::{assoc_map, count_of, distinct_keys, key_view_at, lemma_assoc_at,
    lemma_assoc_dom, AggModel, Aggregator, empty_model, run_model};

verus! {

/// The listing entries a ranked listing vector stands for.
pub open spec fn listing_view(s: Seq<(u64, ListKey)>) -> Seq<ListEntryV> {
    s.map_values(|p: (u64, ListKey)| ListEntryV { count: p.0, name: p.1@ })
}

/// The package entries a ranked package vector stands for.
pub open spec fn package_view(s: Seq<(u64, PackageKey, Option<u64>)>) -> Seq<PkgEntryV> {
    s.map_values(|p: (u64, PackageKey, Option<u64>)| PkgEntryV { count: p.0, key: p.1@, size: p.2 })
}

/// A listing entry carries a counted name and its exact count.
pub open spec fn listing_entry_ok(cm: Map<RequestKindV, u64>, e: ListEntryV) -> bool {
    &&& cm.contains_key(RequestKindV::ListingOf { name: e.name })
    &&& e.count == cm[RequestKindV::ListingOf { name: e.name }]
}

/// A package entry carries a counted key, its exact count, and exactly the
/// recorded size (absent when none was recorded).
pub open spec fn pkg_entry_ok(
    cm: Map<RequestKindV, u64>,
    sm: Map<PackageKeyV, u64>,
    e: PkgEntryV,
) -> bool {
    &&& cm.contains_key(RequestKindV::Download { key: e.key })
    &&& e.count == cm[RequestKindV::Download { key: e.key }]
    &&& e.size == (if sm.contains_key(e.key) {
        Some(sm[e.key])
    } else {
        None::<u64>
    })
}

/// A valid listing ranking of a count map: sorted by the ranking order,
/// every entry correct, no name twice, and every counted listing present.
pub open spec fn valid_listing_ranking(l: Seq<ListEntryV>, cm: Map<RequestKindV, u64>) -> bool {
    &&& sorted_by(l, list_order())
    &&& forall|t: int| 0 <= t < l.len() ==> listing_entry_ok(cm, #[trigger] l[t])
    &&& forall|t1: int, t2: int|
        0 <= t1 < t2 < l.len() ==> (#[trigger] l[t1]).name != (#[trigger] l[t2]).name
    &&& forall|name: Seq<u8>| #[trigger]
        cm.contains_key(RequestKindV::ListingOf { name }) ==> exists|t: int|
            0 <= t < l.len() && (#[trigger] l[t]).name == name
}

/// A valid package ranking of the two maps.
pub open spec fn valid_package_ranking(
    p: Seq<PkgEntryV>,
    cm: Map<RequestKindV, u64>,
    sm: Map<PackageKeyV, u64>,
) -> bool {
    &&& sorted_by(p, pkg_order())
    &&& forall|t: int| 0 <= t < p.len() ==> pkg_entry_ok(cm, sm, #[trigger] p[t])
    &&& forall|t1: int, t2: int|
        0 <= t1 < t2 < p.len() ==> (#[trigger] p[t1]).key != (#[trigger] p[t2]).key
    &&& forall|key: PackageKeyV| #[trigger]
        cm.contains_key(RequestKindV::Download { key }) ==> exists|t: int|
            0 <= t < p.len() && (#[trigger] p[t]).key == key
}

/// The report's mathematical value.
#[verifier::ext_equal]
pub ghost struct ReportV {
    pub full_index_count: u64,
    pub listings: Seq<ListEntryV>,
    pub packages: Seq<PkgEntryV>,
}

/// What a valid report of a final aggregation state is.
pub open spec fn valid_report(r: ReportV, m: AggModel) -> bool {
    &&& r.full_index_count == count_of(m.counts, RequestKindV::FullIndexListing)
    &&& valid_listing_ranking(r.listings, m.counts)
    &&& valid_package_ranking(r.packages, m.counts, m.sizes)
}

/// The ranked output of one run: the full-index count, the ranked listing
/// entries, and the ranked package entries with their first-seen sizes.
pub struct Report {
    pub full_index_count: u64,
    pub listings: Vec<(u64, ListKey)>,
    pub packages: Vec<(u64, PackageKey, Option<u64>)>,
}

impl View for Report {
    type V = ReportV;

    open spec fn view(&self) -> ReportV {
        ReportV {
            full_index_count: self.full_index_count,
            listings: listing_view(self.listings@),
            packages: package_view(self.packages@),
        }
    }
}

/// Decides the listing ranking order.
fn listing_before(a: &(u64, ListKey), b: &(u64, ListKey)) -> (r: bool)
    ensures
        r == list_entry_leq(
            ListEntryV { count: a.0, name: a.1@ },
            ListEntryV { count: b.0, name: b.1@ },
        ),
{
    if a.0 != b.0 {
        a.0 > b.0
    } else {
        bytes_lex_leq(&a.1.name, &b.1.name)
    }
}

/// Decides the structural order on package keys.
fn key_leq_exec(a: &PackageKey, b: &PackageKey) -> (r: bool)
    ensures
        r == key_leq(a@, b@),
{
    if !bytes_eq(&a.seg_1, &b.seg_1) {
        bytes_lex_leq(&a.seg_1, &b.seg_1)
    } else if !bytes_eq(&a.seg_2, &b.seg_2) {
        bytes_lex_leq(&a.seg_2, &b.seg_2)
    } else if !bytes_eq(&a.seg_3, &b.seg_3) {
        bytes_lex_leq(&a.seg_3, &b.seg_3)
    } else {
        bytes_lex_leq(&a.package, &b.package)
    }
}

/// Decides the package ranking order.
fn pkg_before(a: &(u64, PackageKey, Option<u64>), b: &(u64, PackageKey, Option<u64>)) -> (r: bool)
    ensures
        r == pkg_entry_leq(
            PkgEntryV { count: a.0, key: a.1@, size: a.2 },
            PkgEntryV { count: b.0, key: b.1@, size: b.2 },
        ),
{
    if a.0 != b.0 {
        a.0 > b.0
    } else if !a.1.key_eq(&b.1) {
        key_leq_exec(&a.1, &b.1)
    } else {
        match (a.2, b.2) {
            (Option::None, _) => true,
            (Option::Some(_), Option::None) => false,
            (Option::Some(x), Option::Some(y)) => x <= y,
        }
    }
}

/// Index of a minimal listing entry under the ranking order.
fn min_listing_index(v: &Vec<(u64, ListKey)>) -> (r: usize)
    requires
        v@.len() > 0,
    ensures
        r < v@.len(),
        forall|j: int|
            0 <= j < v@.len() ==> list_entry_leq(
                listing_view(v@)[r as int],
                #[trigger] listing_view(v@)[j],
            ),
{
    let ghost lv = listing_view(v@);
    let mut best: usize = 0;
    let mut i: usize = 1;
    proof {
        lemma_lex_refl(lv[0].name);
    }
    while i < v.len()
        invariant
            best < i <= v@.len(),
            lv == listing_view(v@),
            forall|j: int| 0 <= j < i ==> list_entry_leq(lv[best as int], #[trigger] lv[j]),
        decreases v@.len() - i,
    {
        if listing_before(&v[i], &v[best]) {
            let ghost oldbest = best as int;
            best = i;
            proof {
                assert forall|j: int| 0 <= j < i + 1 implies list_entry_leq(
                    lv[best as int],
                    #[trigger] lv[j],
                ) by {
                    if j < i {
                        lemma_list_leq_trans(lv[best as int], lv[oldbest], lv[j]);
                    } else {
                        lemma_lex_refl(lv[j].name);
                    }
                }
            }
        } else {
            proof {
                lemma_list_leq_total(lv[i as int], lv[best as int]);
            }
        }
        i += 1;
    }
    best
}

/// Index of a minimal package entry under the ranking order.
fn min_pkg_index(v: &Vec<(u64, PackageKey, Option<u64>)>) -> (r: usize)
    requires
        v@.len() > 0,
    ensures
        r < v@.len(),
        forall|j: int|
            0 <= j < v@.len() ==> pkg_entry_leq(
                package_view(v@)[r as int],
                #[trigger] package_view(v@)[j],
            ),
{
    let ghost pv = package_view(v@);
    let mut best: usize = 0;
    let mut i: usize = 1;
    while i < v.len()
        invariant
            best < i <= v@.len(),
            pv == package_view(v@),
            forall|j: int| 0 <= j < i ==> pkg_entry_leq(pv[best as int], #[trigger] pv[j]),
        decreases v@.len() - i,
    {
        if pkg_before(&v[i], &v[best]) {
            let ghost oldbest = best as int;
            best = i;
            proof {
                assert forall|j: int| 0 <= j < i + 1 implies pkg_entry_leq(
                    pv[best as int],
                    #[trigger] pv[j],
                ) by {
                    if j < i {
                        lemma_pkg_leq_trans(pv[best as int], pv[oldbest], pv[j]);
                    }
                }
            }
        } else {
            proof {
                lemma_pkg_leq_total(pv[i as int], pv[best as int]);
            }
        }
        i += 1;
    }
    best
}

/// Sorts listing entries by the ranking order, keeping exactly the same
/// entries.
fn sort_listings(v: Vec<(u64, ListKey)>) -> (r: Vec<(u64, ListKey)>)
    ensures
        listing_view(r@).to_multiset() == listing_view(v@).to_multiset(),
        sorted_by(listing_view(r@), list_order()),
{
    broadcast use vstd::seq_lib::group_to_multiset_ensures;
    broadcast use vstd::multiset::group_multiset_axioms;

    let ghost m0 = listing_view(v@).to_multiset();
    let mut src = v;
    let mut out: Vec<(u64, ListKey)> = Vec::new();
    proof {
        assert(listing_view(out@) =~= Seq::<ListEntryV>::empty());
        assert(listing_view(out@).to_multiset().add(listing_view(src@).to_multiset()) =~= m0);
    }
    while src.len() > 0
        invariant
            listing_view(out@).to_multiset().add(listing_view(src@).to_multiset()) == m0,
            sorted_by(listing_view(out@), list_order()),
            forall|a: int, b: int|
                0 <= a < listing_view(out@).len() && 0 <= b < listing_view(src@).len()
                    ==> list_entry_leq(
                    #[trigger] listing_view(out@)[a],
                    #[trigger] listing_view(src@)[b],
                ),
        decreases src@.len(),
    {
        let mi = min_listing_index(&src);
        let ghost so = src@;
        let ghost oo = out@;
        let e = src.remove(mi);
        out.push(e);
        proof {
            let x = listing_view(so)[mi as int];
            assert(listing_view(src@) =~= listing_view(so).remove(mi as int));
            assert(listing_view(out@) =~= listing_view(oo).push(x));
            listing_view(so).to_multiset_ensures();
            vstd::seq_lib::to_multiset_build(listing_view(oo), x);
            vstd::seq_lib::to_multiset_remove(listing_view(so), mi as int);
            assert(listing_view(so).contains(x));
            assert(listing_view(so).to_multiset().count(x) > 0);
            assert(listing_view(out@).to_multiset() =~= listing_view(oo).to_multiset().insert(x));
            assert(listing_view(src@).to_multiset() =~= listing_view(so).to_multiset().remove(x));
            assert(listing_view(out@).to_multiset().add(listing_view(src@).to_multiset())
                =~= listing_view(oo).to_multiset().add(listing_view(so).to_multiset()));
            assert forall|a: int, b: int|
                0 <= a < b < listing_view(out@).len() implies (list_order())(
                listing_view(out@)[a],
                listing_view(out@)[b],
            ) by {
                if b == listing_view(out@).len() - 1 {
                    assert(listing_view(out@)[a] == listing_view(oo)[a]);
                    assert(list_entry_leq(listing_view(oo)[a], listing_view(so)[mi as int]));
                    assert(listing_view(out@)[b] == x);
                } else {
                    assert((list_order())(listing_view(oo)[a], listing_view(oo)[b]));
                    assert(listing_view(out@)[a] == listing_view(oo)[a]);
                    assert(listing_view(out@)[b] == listing_view(oo)[b]);
                }
            }
            assert forall|a: int, b: int|
                0 <= a < listing_view(out@).len() && 0 <= b < listing_view(src@).len()
                    implies list_entry_leq(
                #[trigger] listing_view(out@)[a],
                #[trigger] listing_view(src@)[b],
            ) by {
                let b0: int = if b < mi {
                    b
                } else {
                    b + 1
                };
                assert(listing_view(src@)[b] == listing_view(so)[b0]);
                if a < listing_view(oo).len() {
                    assert(list_entry_leq(listing_view(oo)[a], listing_view(so)[b0]));
                } else {
                    assert(listing_view(out@)[a] == x);
                    assert(list_entry_leq(x, listing_view(so)[b0]));
                }
            }
        }
    }
    proof {
        listing_view(src@).to_multiset_ensures();
        assert(listing_view(src@).to_multiset() =~= Multiset::<ListEntryV>::empty());
        assert(listing_view(out@).to_multiset() =~= m0);
    }
    out
}

/// Sorts package entries by the ranking order, keeping exactly the same
/// entries.
fn sort_packages(v: Vec<(u64, PackageKey, Option<u64>)>) -> (r: Vec<(u64, PackageKey, Option<u64>)>)
    ensures
        package_view(r@).to_multiset() == package_view(v@).to_multiset(),
        sorted_by(package_view(r@), pkg_order()),
{
    broadcast use vstd::seq_lib::group_to_multiset_ensures;
    broadcast use vstd::multiset::group_multiset_axioms;

    let ghost m0 = package_view(v@).to_multiset();
    let mut src = v;
    let mut out: Vec<(u64, PackageKey, Option<u64>)> = Vec::new();
    proof {
        assert(package_view(out@) =~= Seq::<PkgEntryV>::empty());
        assert(package_view(out@).to_multiset().add(package_view(src@).to_multiset()) =~= m0);
    }
    while src.len() > 0
        invariant
            package_view(out@).to_multiset().add(package_view(src@).to_multiset()) == m0,
            sorted_by(package_view(out@), pkg_order()),
            forall|a: int, b: int|
                0 <= a < package_view(out@).len() && 0 <= b < package_view(src@).len()
                    ==> pkg_entry_leq(
                    #[trigger] package_view(out@)[a],
                    #[trigger] package_view(src@)[b],
                ),
        decreases src@.len(),
    {
        let mi = min_pkg_index(&src);
        let ghost so = src@;
        let ghost oo = out@;
        let e = src.remove(mi);
        out.push(e);
        proof {
            let x = package_view(so)[mi as int];
            assert(package_view(src@) =~= package_view(so).remove(mi as int));
            assert(package_view(out@) =~= package_view(oo).push(x));
            package_view(so).to_multiset_ensures();
            vstd::seq_lib::to_multiset_build(package_view(oo), x);
            vstd::seq_lib::to_multiset_remove(package_view(so), mi as int);
            assert(package_view(so).contains(x));
            assert(package_view(so).to_multiset().count(x) > 0);
            assert(package_view(out@).to_multiset() =~= package_view(oo).to_multiset().insert(x));
            assert(package_view(src@).to_multiset() =~= package_view(so).to_multiset().remove(x));
            assert(package_view(out@).to_multiset().add(package_view(src@).to_multiset())
                =~= package_view(oo).to_multiset().add(package_view(so).to_multiset()));
            assert forall|a: int, b: int|
                0 <= a < b < package_view(out@).len() implies (pkg_order())(
                package_view(out@)[a],
                package_view(out@)[b],
            ) by {
                if b == package_view(out@).len() - 1 {
                    assert(package_view(out@)[a] == package_view(oo)[a]);
                    assert(pkg_entry_leq(package_view(oo)[a], package_view(so)[mi as int]));
                    assert(package_view(out@)[b] == x);
                } else {
                    assert((pkg_order())(package_view(oo)[a], package_view(oo)[b]));
                    assert(package_view(out@)[a] == package_view(oo)[a]);
                    assert(package_view(out@)[b] == package_view(oo)[b]);
                }
            }
            assert forall|a: int, b: int|
                0 <= a < package_view(out@).len() && 0 <= b < package_view(src@).len()
                    implies pkg_entry_leq(
                #[trigger] package_view(out@)[a],
                #[trigger] package_view(src@)[b],
            ) by {
                let b0: int = if b < mi {
                    b
                } else {
                    b + 1
                };
                assert(package_view(src@)[b] == package_view(so)[b0]);
                if a < package_view(oo).len() {
                    assert(pkg_entry_leq(package_view(oo)[a], package_view(so)[b0]));
                } else {
                    assert(package_view(out@)[a] == x);
                    assert(pkg_entry_leq(x, package_view(so)[b0]));
                }
            }
        }
    }
    proof {
        package_view(src@).to_multiset_ensures();
        assert(package_view(src@).to_multiset() =~= Multiset::<PkgEntryV>::empty());
        assert(package_view(out@).to_multiset() =~= m0);
    }
    out
}

/// The recorded size of a package, looked up in the drained size list.
fn find_size(v: &Vec<(PackageKey, u64)>, k: &PackageKey) -> (r: Option<u64>)
    requires
        distinct_keys(v@),
    ensures
        r == (if assoc_map(v@).contains_key(k@) {
            Some(assoc_map(v@)[k@])
        } else {
            None::<u64>
        }),
{
    proof {
        lemma_assoc_dom(v@);
    }
    let mut i: usize = 0;
    while i < v.len()
        invariant
            distinct_keys(v@),
            i <= v@.len(),
            forall|j: int| 0 <= j < i ==> #[trigger] key_view_at(v@, j) != k@,
        decreases v@.len() - i,
    {
        if v[i].0.key_eq(k) {
            proof {
                lemma_assoc_at(v@, i as int);
            }
            return Some(v[i].1);
        }
        i += 1;
    }
    proof {
        lemma_assoc_dom(v@);
    }
    None
}

/// What one processed count entry must have contributed to the report
/// under construction.
pub open spec fn processed_entry_ok(
    cs: Seq<(RequestKind, u64)>,
    lv: Seq<ListEntryV>,
    pv: Seq<PkgEntryV>,
    full: u64,
    x: int,
) -> bool {
    match key_view_at(cs, x) {
        RequestKindV::ListingOf { name } => exists|t: int|
            0 <= t < lv.len() && (#[trigger] lv[t]).name == name,
        RequestKindV::Download { key } => exists|t: int|
            0 <= t < pv.len() && (#[trigger] pv[t]).key == key,
        RequestKindV::FullIndexListing => full == cs[x].1,
    }
}

/// Ranks the aggregator's final state: every counted listing and package
/// appears exactly once with its exact count (and, for packages, exactly
/// the recorded size), in descending count order with the deterministic
/// tie-break; the full-index count is reported as a scalar.
pub fn rank(agg: Aggregator) -> (r: Report)
    requires
        agg.wf(),
    ensures
        valid_report(r@, agg@),
{
    let (counts, sizes) = agg.into_parts();
    let ghost cm = assoc_map(counts@);
    let ghost sm = assoc_map(sizes@);
    proof {
        lemma_assoc_dom(counts@);
    }
    let mut lst: Vec<(u64, ListKey)> = Vec::new();
    let mut pkgs: Vec<(u64, PackageKey, Option<u64>)> = Vec::new();
    let mut full: u64 = 0;
    let mut i: usize = 0;
    while i < counts.len()
        invariant
            i <= counts@.len(),
            distinct_keys(counts@),
            distinct_keys(sizes@),
            cm == assoc_map(counts@),
            sm == assoc_map(sizes@),
            forall|t: int|
                0 <= t < listing_view(lst@).len() ==> listing_entry_ok(
                    cm,
                    #[trigger] listing_view(lst@)[t],
                ),
            forall|t: int|
                0 <= t < package_view(pkgs@).len() ==> pkg_entry_ok(
                    cm,
                    sm,
                    #[trigger] package_view(pkgs@)[t],
                ),
            forall|t: int|
                0 <= t < listing_view(lst@).len() ==> exists|x: int|
                    0 <= x < i && #[trigger] key_view_at(counts@, x) == (RequestKindV::ListingOf {
                        name: (#[trigger] listing_view(lst@)[t]).name,
                    }),
            forall|t: int|
                0 <= t < package_view(pkgs@).len() ==> exists|x: int|
                    0 <= x < i && #[trigger] key_view_at(counts@, x) == (RequestKindV::Download {
                        key: (#[trigger] package_view(pkgs@)[t]).key,
                    }),
            forall|t1: int, t2: int|
                0 <= t1 < t2 < listing_view(lst@).len() ==> (#[trigger] listing_view(
                    lst@,
                )[t1]).name != (#[trigger] listing_view(lst@)[t2]).name,
            forall|t1: int, t2: int|
                0 <= t1 < t2 < package_view(pkgs@).len() ==> (#[trigger] package_view(
                    pkgs@,
                )[t1]).key != (#[trigger] package_view(pkgs@)[t2]).key,
            forall|x: int|
                0 <= x < i ==> #[trigger] processed_entry_ok(
                    counts@,
                    listing_view(lst@),
                    package_view(pkgs@),
                    full,
                    x,
                ),
            (forall|x: int|
                0 <= x < i ==> !((#[trigger] key_view_at(counts@, x)) is FullIndexListing)) ==> full
                == 0,
        decreases counts@.len() - i,
    {
        let ghost lv0 = listing_view(lst@);
        let ghost pv0 = package_view(pkgs@);
        let c = counts[i].1;
        proof {
            lemma_assoc_at(counts@, i as int);
        }
        match &counts[i].0 {
            RequestKind::FullIndexListing => {
                let ghost full0 = full;
                full = c;
                proof {
                    assert(key_view_at(counts@, i as int) == RequestKindV::FullIndexListing);
                    assert forall|x: int| 0 <= x < i + 1 implies #[trigger] processed_entry_ok(
                        counts@,
                        listing_view(lst@),
                        package_view(pkgs@),
                        full,
                        x,
                    ) by {
                        if x < i {
                            assert(processed_entry_ok(counts@, lv0, pv0, full0, x));
                            match key_view_at(counts@, x) {
                                RequestKindV::FullIndexListing => {
                                    assert(key_view_at(counts@, x) != key_view_at(
                                        counts@,
                                        i as int,
                                    ));
                                    assert(false);
                                },
                                _ => {},
                            }
                        }
                    }
                }
            },
            RequestKind::ListingOf(lk) => {
                let name = crate::keys::bytes_copy(&lk.name);
                lst.push((c, ListKey { name }));
                proof {
                    let ne = ListEntryV { count: c, name: lk.name@ };
                    assert(listing_view(lst@) =~= lv0.push(ne));
                    assert(key_view_at(counts@, i as int) == RequestKindV::ListingOf {
                        name: ne.name,
                    });
                    assert forall|t1: int, t2: int|
                        0 <= t1 < t2 < listing_view(lst@).len() implies (#[trigger] listing_view(
                        lst@,
                    )[t1]).name != (#[trigger] listing_view(lst@)[t2]).name by {
                        if t2 == lv0.len() {
                            let x = choose|x: int|
                                0 <= x < i && #[trigger] key_view_at(counts@, x)
                                    == RequestKindV::ListingOf { name: lv0[t1].name };
                            assert(key_view_at(counts@, x) != key_view_at(counts@, i as int));
                        }
                    }
                    assert forall|x: int| 0 <= x < i + 1 implies #[trigger] processed_entry_ok(
                        counts@,
                        listing_view(lst@),
                        package_view(pkgs@),
                        full,
                        x,
                    ) by {
                        if x == i {
                            assert(listing_view(lst@)[lv0.len() as int].name == ne.name);
                        } else {
                            assert(processed_entry_ok(counts@, lv0, pv0, full, x));
                            match key_view_at(counts@, x) {
                                RequestKindV::ListingOf { name } => {
                                    let t = choose|t: int|
                                        0 <= t < lv0.len() && (#[trigger] lv0[t]).name == name;
                                    assert(listing_view(lst@)[t].name == name);
                                },
                                _ => {},
                            }
                        }
                    }
                }
            },
            RequestKind::Download(pk) => {
                let size = find_size(&sizes, pk);
                let key2 = pk.duplicate();
                pkgs.push((c, key2, size));
                proof {
                    let ne = PkgEntryV { count: c, key: pk@, size };
                    assert(package_view(pkgs@) =~= pv0.push(ne));
                    assert(key_view_at(counts@, i as int) == RequestKindV::Download {
                        key: ne.key,
                    });
                    assert forall|t1: int, t2: int|
                        0 <= t1 < t2 < package_view(pkgs@).len() implies (#[trigger] package_view(
                        pkgs@,
                    )[t1]).key != (#[trigger] package_view(pkgs@)[t2]).key by {
                        if t2 == pv0.len() {
                            let x = choose|x: int|
                                0 <= x < i && #[trigger] key_view_at(counts@, x)
                                    == RequestKindV::Download { key: pv0[t1].key };
                            assert(key_view_at(counts@, x) != key_view_at(counts@, i as int));
                        }
                    }
                    assert forall|x: int| 0 <= x < i + 1 implies #[trigger] processed_entry_ok(
                        counts@,
                        listing_view(lst@),
                        package_view(pkgs@),
                        full,
                        x,
                    ) by {
                        if x == i {
                            assert(package_view(pkgs@)[pv0.len() as int].key == ne.key);
                        } else {
                            assert(processed_entry_ok(counts@, lv0, pv0, full, x));
                            match key_view_at(counts@, x) {
                                RequestKindV::Download { key } => {
                                    let t = choose|t: int|
                                        0 <= t < pv0.len() && (#[trigger] pv0[t]).key == key;
                                    assert(package_view(pkgs@)[t].key == key);
                                },
                                _ => {},
                            }
                        }
                    }
                }
            },
        }
        i += 1;
    }
    proof {
        // completeness of the unsorted entries, from the map's domain
        assert forall|name: Seq<u8>| #[trigger]
            cm.contains_key(RequestKindV::ListingOf { name }) implies exists|t: int|
            0 <= t < listing_view(lst@).len() && (#[trigger] listing_view(lst@)[t]).name
                == name by {
            let x = choose|x: int|
                0 <= x < counts@.len() && #[trigger] key_view_at(counts@, x)
                    == RequestKindV::ListingOf { name };
            assert(processed_entry_ok(counts@, listing_view(lst@), package_view(pkgs@), full, x));
        }
        assert forall|key: PackageKeyV| #[trigger]
            cm.contains_key(RequestKindV::Download { key }) implies exists|t: int|
            0 <= t < package_view(pkgs@).len() && (#[trigger] package_view(pkgs@)[t]).key
                == key by {
            let x = choose|x: int|
                0 <= x < counts@.len() && #[trigger] key_view_at(counts@, x)
                    == RequestKindV::Download { key };
            assert(processed_entry_ok(counts@, listing_view(lst@), package_view(pkgs@), full, x));
        }
        // the full-index scalar
        if cm.contains_key(RequestKindV::FullIndexListing) {
            let x = choose|x: int|
                0 <= x < counts@.len() && #[trigger] key_view_at(counts@, x)
                    == RequestKindV::FullIndexListing;
            assert(processed_entry_ok(counts@, listing_view(lst@), package_view(pkgs@), full, x));
            lemma_assoc_at(counts@, x);
        } else {
            assert forall|x: int| 0 <= x < counts@.len() implies !((#[trigger] key_view_at(
                counts@,
                x,
            )) is FullIndexListing) by {
                if key_view_at(counts@, x) is FullIndexListing {
                    assert(cm.contains_key(key_view_at(counts@, x)));
                }
            }
        }
    }
    let ghost lv_un = listing_view(lst@);
    let ghost pv_un = package_view(pkgs@);
    let listings = sort_listings(lst);
    let packages = sort_packages(pkgs);
    proof {
        lemma_listing_transport(lv_un, listing_view(listings@), cm);
        lemma_package_transport(pv_un, package_view(packages@), cm, sm);
    }
    Report { full_index_count: full, listings, packages }
}

/// Two positions holding the same value put its multiplicity at two or
/// more.
proof fn lemma_two_indexes_count<A>(s: Seq<A>, t1: int, t2: int)
    requires
        0 <= t1 < t2 < s.len(),
        s[t1] == s[t2],
    ensures
        s.to_multiset().count(s[t1]) >= 2,
{
    broadcast use vstd::seq_lib::group_to_multiset_ensures;
    broadcast use vstd::multiset::group_multiset_axioms;

    let s2 = s.remove(t1);
    s.to_multiset_ensures();
    s2.to_multiset_ensures();
    vstd::seq_lib::to_multiset_remove(s, t1);
    assert(s2.to_multiset() =~= s.to_multiset().remove(s[t1]));
    assert(s2[t2 - 1] == s[t2]);
    assert(s2.contains(s[t1]));
    assert(s2.to_multiset().count(s[t1]) > 0);
}

/// A multiplicity of two or more comes from two distinct positions.
proof fn lemma_count_two_indexes<A>(s: Seq<A>, x: A)
    requires
        s.to_multiset().count(x) >= 2,
    ensures
        exists|i: int, j: int| 0 <= i < j < s.len() && s[i] == x && s[j] == x,
{
    broadcast use vstd::seq_lib::group_to_multiset_ensures;
    broadcast use vstd::multiset::group_multiset_axioms;

    s.to_multiset_ensures();
    assert(s.to_multiset().count(x) > 0);
    assert(s.contains(x));
    let i = choose|i: int| 0 <= i < s.len() && s[i] == x;
    let s2 = s.remove(i);
    s2.to_multiset_ensures();
    vstd::seq_lib::to_multiset_remove(s, i);
    assert(s2.to_multiset() =~= s.to_multiset().remove(x));
    assert(s2.to_multiset().count(x) > 0);
    assert(s2.contains(x));
    let j2 = choose|j: int| 0 <= j < s2.len() && s2[j] == x;
    if j2 < i {
        assert(s[j2] == x);
        assert(0 <= j2 < i < s.len() && s[j2] == x && s[i] == x);
    } else {
        assert(s[j2 + 1] == x);
        assert(0 <= i < j2 + 1 < s.len() && s[i] == x && s[j2 + 1] == x);
    }
}

/// Correctness, key-distinctness and completeness carry from the built
/// listing entries to any reordering of them; with sortedness that is a
/// valid ranking.
proof fn lemma_listing_transport(a: Seq<ListEntryV>, b: Seq<ListEntryV>, cm: Map<RequestKindV, u64>)
    requires
        a.to_multiset() == b.to_multiset(),
        sorted_by(b, list_order()),
        forall|t: int| 0 <= t < a.len() ==> listing_entry_ok(cm, #[trigger] a[t]),
        forall|t1: int, t2: int|
            0 <= t1 < t2 < a.len() ==> (#[trigger] a[t1]).name != (#[trigger] a[t2]).name,
        forall|name: Seq<u8>| #[trigger]
            cm.contains_key(RequestKindV::ListingOf { name }) ==> exists|t: int|
                0 <= t < a.len() && (#[trigger] a[t]).name == name,
    ensures
        valid_listing_ranking(b, cm),
{
    broadcast use vstd::seq_lib::group_to_multiset_ensures;

    a.to_multiset_ensures();
    b.to_multiset_ensures();
    assert forall|u: int| 0 <= u < b.len() implies listing_entry_ok(cm, #[trigger] b[u]) by {
        assert(b.contains(b[u]));
        assert(a.to_multiset().count(b[u]) > 0);
        assert(a.contains(b[u]));
        let t = choose|t: int| 0 <= t < a.len() && a[t] == b[u];
    }
    assert forall|name: Seq<u8>| #[trigger]
        cm.contains_key(RequestKindV::ListingOf { name }) implies exists|u: int|
        0 <= u < b.len() && (#[trigger] b[u]).name == name by {
        let t = choose|t: int| 0 <= t < a.len() && (#[trigger] a[t]).name == name;
        assert(a.contains(a[t]));
        assert(b.to_multiset().count(a[t]) > 0);
        assert(b.contains(a[t]));
        let u = choose|u: int| 0 <= u < b.len() && b[u] == a[t];
        assert(b[u].name == name);
    }
    assert forall|u1: int, u2: int| 0 <= u1 < u2 < b.len() implies (#[trigger] b[u1]).name
        != (#[trigger] b[u2]).name by {
        if b[u1] == b[u2] {
            lemma_two_indexes_count(b, u1, u2);
            lemma_count_two_indexes(a, b[u1]);
            let (i, j): (int, int) = choose|i: int, j: int|
                0 <= i < j < a.len() && a[i] == b[u1] && a[j] == b[u1];
            assert(a[i].name != a[j].name);
            assert(false);
        } else {
            if b[u1].name == b[u2].name {
                assert(b.contains(b[u1]));
                assert(a.to_multiset().count(b[u1]) > 0);
                assert(a.contains(b[u1]));
                assert(b.contains(b[u2]));
                assert(a.to_multiset().count(b[u2]) > 0);
                assert(a.contains(b[u2]));
                let t1 = choose|t: int| 0 <= t < a.len() && a[t] == b[u1];
                let t2 = choose|t: int| 0 <= t < a.len() && a[t] == b[u2];
                assert(t1 != t2);
                if t1 < t2 {
                    assert(a[t1].name != a[t2].name);
                } else {
                    assert(a[t2].name != a[t1].name);
                }
                assert(false);
            }
        }
    }
}

/// The same transport for package entries.
proof fn lemma_package_transport(
    a: Seq<PkgEntryV>,
    b: Seq<PkgEntryV>,
    cm: Map<RequestKindV, u64>,
    sm: Map<PackageKeyV, u64>,
)
    requires
        a.to_multiset() == b.to_multiset(),
        sorted_by(b, pkg_order()),
        forall|t: int| 0 <= t < a.len() ==> pkg_entry_ok(cm, sm, #[trigger] a[t]),
        forall|t1: int, t2: int|
            0 <= t1 < t2 < a.len() ==> (#[trigger] a[t1]).key != (#[trigger] a[t2]).key,
        forall|key: PackageKeyV| #[trigger]
            cm.contains_key(RequestKindV::Download { key }) ==> exists|t: int|
                0 <= t < a.len() && (#[trigger] a[t]).key == key,
    ensures
        valid_package_ranking(b, cm, sm),
{
    broadcast use vstd::seq_lib::group_to_multiset_ensures;

    a.to_multiset_ensures();
    b.to_multiset_ensures();
    assert forall|u: int| 0 <= u < b.len() implies pkg_entry_ok(cm, sm, #[trigger] b[u]) by {
        assert(b.contains(b[u]));
        assert(a.to_multiset().count(b[u]) > 0);
        assert(a.contains(b[u]));
        let t = choose|t: int| 0 <= t < a.len() && a[t] == b[u];
    }
    assert forall|key: PackageKeyV| #[trigger]
        cm.contains_key(RequestKindV::Download { key }) implies exists|u: int|
        0 <= u < b.len() && (#[trigger] b[u]).key == key by {
        let t = choose|t: int| 0 <= t < a.len() && (#[trigger] a[t]).key == key;
        assert(a.contains(a[t]));
        assert(b.to_multiset().count(a[t]) > 0);
        assert(b.contains(a[t]));
        let u = choose|u: int| 0 <= u < b.len() && b[u] == a[t];
        assert(b[u].key == key);
    }
    assert forall|u1: int, u2: int| 0 <= u1 < u2 < b.len() implies (#[trigger] b[u1]).key
        != (#[trigger] b[u2]).key by {
        if b[u1] == b[u2] {
            lemma_two_indexes_count(b, u1, u2);
            lemma_count_two_indexes(a, b[u1]);
            let (i, j): (int, int) = choose|i: int, j: int|
                0 <= i < j < a.len() && a[i] == b[u1] && a[j] == b[u1];
            assert(a[i].key != a[j].key);
            assert(false);
        } else {
            if b[u1].key == b[u2].key {
                assert(b.contains(b[u1]));
                assert(a.to_multiset().count(b[u1]) > 0);
                assert(a.contains(b[u1]));
                assert(b.contains(b[u2]));
                assert(a.to_multiset().count(b[u2]) > 0);
                assert(a.contains(b[u2]));
                let t1 = choose|t: int| 0 <= t < a.len() && a[t] == b[u1];
                let t2 = choose|t: int| 0 <= t < a.len() && a[t] == b[u2];
                assert(t1 != t2);
                if t1 < t2 {
                    assert(a[t1].key != a[t2].key);
                } else {
                    assert(a[t2].key != a[t1].key);
                }
                assert(false);
            }
        }
    }
}

/// Under distinct names no entry value occurs twice.
proof fn lemma_listing_count_le_one(l: Seq<ListEntryV>)
    requires
        forall|t1: int, t2: int|
            0 <= t1 < t2 < l.len() ==> (#[trigger] l[t1]).name != (#[trigger] l[t2]).name,
    ensures
        forall|x: ListEntryV| #[trigger] l.to_multiset().count(x) <= 1,
{
    assert forall|x: ListEntryV| #[trigger] l.to_multiset().count(x) <= 1 by {
        if l.to_multiset().count(x) >= 2 {
            lemma_count_two_indexes(l, x);
            let (i, j): (int, int) = choose|i: int, j: int|
                0 <= i < j < l.len() && l[i] == x && l[j] == x;
            assert(l[i].name != l[j].name);
            assert(false);
        }
    }
}

/// Under distinct keys no entry value occurs twice.
proof fn lemma_pkg_count_le_one(p: Seq<PkgEntryV>)
    requires
        forall|t1: int, t2: int|
            0 <= t1 < t2 < p.len() ==> (#[trigger] p[t1]).key != (#[trigger] p[t2]).key,
    ensures
        forall|x: PkgEntryV| #[trigger] p.to_multiset().count(x) <= 1,
{
    assert forall|x: PkgEntryV| #[trigger] p.to_multiset().count(x) <= 1 by {
        if p.to_multiset().count(x) >= 2 {
            lemma_count_two_indexes(p, x);
            let (i, j): (int, int) = choose|i: int, j: int|
                0 <= i < j < p.len() && p[i] == x && p[j] == x;
            assert(p[i].key != p[j].key);
            assert(false);
        }
    }
}

/// Any two valid listing rankings of one count map are the same sequence.
pub proof fn lemma_listing_ranking_unique(
    a: Seq<ListEntryV>,
    b: Seq<ListEntryV>,
    cm: Map<RequestKindV, u64>,
)
    requires
        valid_listing_ranking(a, cm),
        valid_listing_ranking(b, cm),
    ensures
        a == b,
{
    broadcast use vstd::seq_lib::group_to_multiset_ensures;

    a.to_multiset_ensures();
    b.to_multiset_ensures();
    lemma_listing_count_le_one(a);
    lemma_listing_count_le_one(b);
    assert forall|x: ListEntryV|
        #[trigger] a.to_multiset().count(x) == b.to_multiset().count(x) by {
        if a.to_multiset().count(x) > 0 {
            assert(a.contains(x));
            let t = choose|t: int| 0 <= t < a.len() && a[t] == x;
            assert(listing_entry_ok(cm, x));
            let u = choose|u: int| 0 <= u < b.len() && (#[trigger] b[u]).name == x.name;
            assert(listing_entry_ok(cm, b[u]));
            assert(b[u] =~= x);
            assert(b.contains(x));
            assert(b.to_multiset().count(x) > 0);
        }
        if b.to_multiset().count(x) > 0 {
            assert(b.contains(x));
            let u = choose|u: int| 0 <= u < b.len() && b[u] == x;
            assert(listing_entry_ok(cm, x));
            let t = choose|t: int| 0 <= t < a.len() && (#[trigger] a[t]).name == x.name;
            assert(listing_entry_ok(cm, a[t]));
            assert(a[t] =~= x);
            assert(a.contains(x));
            assert(a.to_multiset().count(x) > 0);
        }
    }
    assert(a.to_multiset() =~= b.to_multiset());
    lemma_list_order_total();
    vstd::seq_lib::lemma_sorted_unique(a, b, list_order());
}

/// Any two valid package rankings of one state are the same sequence.
pub proof fn lemma_package_ranking_unique(
    a: Seq<PkgEntryV>,
    b: Seq<PkgEntryV>,
    cm: Map<RequestKindV, u64>,
    sm: Map<PackageKeyV, u64>,
)
    requires
        valid_package_ranking(a, cm, sm),
        valid_package_ranking(b, cm, sm),
    ensures
        a == b,
{
    broadcast use vstd::seq_lib::group_to_multiset_ensures;

    a.to_multiset_ensures();
    b.to_multiset_ensures();
    lemma_pkg_count_le_one(a);
    lemma_pkg_count_le_one(b);
    assert forall|x: PkgEntryV|
        #[trigger] a.to_multiset().count(x) == b.to_multiset().count(x) by {
        if a.to_multiset().count(x) > 0 {
            assert(a.contains(x));
            let t = choose|t: int| 0 <= t < a.len() && a[t] == x;
            assert(pkg_entry_ok(cm, sm, x));
            let u = choose|u: int| 0 <= u < b.len() && (#[trigger] b[u]).key == x.key;
            assert(pkg_entry_ok(cm, sm, b[u]));
            assert(b[u] =~= x);
            assert(b.contains(x));
            assert(b.to_multiset().count(x) > 0);
        }
        if b.to_multiset().count(x) > 0 {
            assert(b.contains(x));
            let u = choose|u: int| 0 <= u < b.len() && b[u] == x;
            assert(pkg_entry_ok(cm, sm, x));
            let t = choose|t: int| 0 <= t < a.len() && (#[trigger] a[t]).key == x.key;
            assert(pkg_entry_ok(cm, sm, a[t]));
            assert(a[t] =~= x);
            assert(a.contains(x));
            assert(a.to_multiset().count(x) > 0);
        }
    }
    assert(a.to_multiset() =~= b.to_multiset());
    lemma_pkg_order_total();
    vstd::seq_lib::lemma_sorted_unique(a, b, pkg_order());
}

/// Sum of the counts over a ranked listing sequence.
pub open spec fn listing_count_total(l: Seq<ListEntryV>) -> nat
    decreases l.len(),
{
    if l.len() == 0 {
        0
    } else {
        listing_count_total(l.drop_last()) + l.last().count as nat
    }
}

/// Sum of the counts over a ranked package sequence.
pub open spec fn package_count_total(p: Seq<PkgEntryV>) -> nat
    decreases p.len(),
{
    if p.len() == 0 {
        0
    } else {
        package_count_total(p.drop_last()) + p.last().count as nat
    }
}

/// One package entry's contribution to the transferred bytes: its count
/// times its recorded size, an unknown size weighing nothing.
pub open spec fn entry_weight(e: PkgEntryV) -> nat {
    e.count as nat * (match e.size {
        Some(s) => s as nat,
        None => 0,
    })
}

/// Total weighted transfer over a ranked package sequence — the average's
/// numerator, computed over every entry, not a displayed prefix.
pub open spec fn package_weighted_total(p: Seq<PkgEntryV>) -> nat
    decreases p.len(),
{
    if p.len() == 0 {
        0
    } else {
        package_weighted_total(p.drop_last()) + entry_weight(p.last())
    }
}

proof fn lemma_listing_total_take(l: Seq<ListEntryV>, i: int)
    requires
        0 <= i < l.len(),
    ensures
        listing_count_total(l.take(i + 1)) == listing_count_total(l.take(i)) + l[i].count,
{
    assert(l.take(i + 1).drop_last() =~= l.take(i));
    assert(l.take(i + 1).last() == l[i]);
}

proof fn lemma_pkg_total_take(p: Seq<PkgEntryV>, i: int)
    requires
        0 <= i < p.len(),
    ensures
        package_count_total(p.take(i + 1)) == package_count_total(p.take(i)) + p[i].count,
{
    assert(p.take(i + 1).drop_last() =~= p.take(i));
    assert(p.take(i + 1).last() == p[i]);
}

proof fn lemma_pkg_weighted_take(p: Seq<PkgEntryV>, i: int)
    requires
        0 <= i < p.len(),
    ensures
        package_weighted_total(p.take(i + 1)) == package_weighted_total(p.take(i)) + entry_weight(
            p[i],
        ),
{
    assert(p.take(i + 1).drop_last() =~= p.take(i));
    assert(p.take(i + 1).last() == p[i]);
}

/// A prefix never weighs more than the whole sequence.
proof fn lemma_weighted_prefix(p: Seq<PkgEntryV>, k: int)
    requires
        0 <= k <= p.len(),
    ensures
        package_weighted_total(p.take(k)) <= package_weighted_total(p),
    decreases p.len() - k,
{
    if k < p.len() {
        lemma_pkg_weighted_take(p, k);
        lemma_weighted_prefix(p, k + 1);
    } else {
        assert(p.take(k) =~= p);
    }
}

impl Report {
    /// Number of distinct listing names in the report.
    pub fn listing_distinct_total(&self) -> (r: usize)
        ensures
            r == listing_view(self.listings@).len(),
    {
        self.listings.len()
    }

    /// Number of distinct package keys in the report.
    pub fn package_distinct_total(&self) -> (r: usize)
        ensures
            r == package_view(self.packages@).len(),
    {
        self.packages.len()
    }

    /// Sum of the counts over all ranked listing entries.
    pub fn listing_total(&self) -> (r: u128)
        ensures
            r as nat == listing_count_total(listing_view(self.listings@)),
    {
        let ghost l = listing_view(self.listings@);
        let mut r: u128 = 0;
        let mut i: usize = 0;
        proof {
            assert(l.take(0) =~= Seq::<ListEntryV>::empty());
        }
        while i < self.listings.len()
            invariant
                l == listing_view(self.listings@),
                l.len() == self.listings@.len(),
                i <= l.len(),
                r as nat == listing_count_total(l.take(i as int)),
                r as nat <= (i as nat) * (u64::MAX as nat),
            decreases l.len() - i,
        {
            let c = self.listings[i].0;
            proof {
                lemma_listing_total_take(l, i as int);
                assert(l[i as int].count == c);
            }
            r = r + c as u128;
            i += 1;
        }
        proof {
            assert(l.take(l.len() as int) =~= l);
        }
        r
    }

    /// Sum of the counts over all ranked package entries — the average's
    /// denominator.
    pub fn package_total(&self) -> (r: u128)
        ensures
            r as nat == package_count_total(package_view(self.packages@)),
    {
        let ghost p = package_view(self.packages@);
        let mut r: u128 = 0;
        let mut i: usize = 0;
        proof {
            assert(p.take(0) =~= Seq::<PkgEntryV>::empty());
        }
        while i < self.packages.len()
            invariant
                p == package_view(self.packages@),
                p.len() == self.packages@.len(),
                i <= p.len(),
                r as nat == package_count_total(p.take(i as int)),
                r as nat <= (i as nat) * (u64::MAX as nat),
            decreases p.len() - i,
        {
            let c = self.packages[i].0;
            proof {
                lemma_pkg_total_take(p, i as int);
                assert(p[i as int].count == c);
            }
            r = r + c as u128;
            i += 1;
        }
        proof {
            assert(p.take(p.len() as int) =~= p);
        }
        r
    }

    /// Total weighted transfer over all ranked package entries, or `None`
    /// when it exceeds what the 128-bit accumulator can hold.
    pub fn weighted_total(&self) -> (r: Option<u128>)
        ensures
            match r {
                Some(v) => v as nat == package_weighted_total(package_view(self.packages@)),
                None => package_weighted_total(package_view(self.packages@)) > u128::MAX,
            },
    {
        let ghost p = package_view(self.packages@);
        let mut acc: u128 = 0;
        let mut i: usize = 0;
        proof {
            assert(p.take(0) =~= Seq::<PkgEntryV>::empty());
        }
        while i < self.packages.len()
            invariant
                p == package_view(self.packages@),
                p.len() == self.packages@.len(),
                i <= p.len(),
                acc as nat == package_weighted_total(p.take(i as int)),
            decreases p.len() - i,
        {
            let c = self.packages[i].0;
            let sz = self.packages[i].2;
            let s: u64 = match sz {
                Some(x) => x,
                None => 0,
            };
            proof {
                lemma_pkg_weighted_take(p, i as int);
                assert(p[i as int].count == c);
                assert(entry_weight(p[i as int]) == (c as nat) * (s as nat));
                assert((c as nat) * (s as nat) <= (u64::MAX as nat) * (u64::MAX as nat))
                    by (nonlinear_arith)
                    requires
                        c as nat <= u64::MAX as nat,
                        s as nat <= u64::MAX as nat,
                ;
            }
            let term: u128 = (c as u128) * (s as u128);
            if acc > u128::MAX - term {
                proof {
                    assert(package_weighted_total(p.take(i as int + 1)) > u128::MAX);
                    lemma_weighted_prefix(p, i as int + 1);
                }
                return None;
            }
            acc = acc + term;
            i += 1;
        }
        proof {
            assert(p.take(p.len() as int) =~= p);
        }
        Some(acc)
    }

    /// The size-weighted average transfer as an exact fraction: the total
    /// weighted transfer over the total package count, computed over the
    /// complete ranked sequence. With no package requests the average is
    /// undefined and the result is `None` — never a division by zero.
    pub fn average_parts(&self) -> (r: Option<(u128, u128)>)
        ensures
            match r {
                Some(parts) => {
                    &&& parts.0 as nat == package_weighted_total(package_view(self.packages@))
                    &&& parts.1 as nat == package_count_total(package_view(self.packages@))
                    &&& parts.1 > 0
                },
                None => package_count_total(package_view(self.packages@)) == 0
                    || package_weighted_total(package_view(self.packages@)) > u128::MAX,
            },
    {
        let den = self.package_total();
        if den == 0 {
            return None;
        }
        match self.weighted_total() {
            Some(num) => Some((num, den)),
            None => None,
        }
    }
}

/// The byte sequences of a run's lines.
pub open spec fn lines_view(lines: Seq<Vec<u8>>) -> Seq<Seq<u8>> {
    lines.map_values(|l: Vec<u8>| l@)
}

/// The whole pipeline over one run's lines, in memory: observe every line
/// in order from the empty state, then rank what accumulated.
pub fn run_pipeline(lines: &Vec<Vec<u8>>) -> (r: Report)
    ensures
        valid_report(r@, run_model(empty_model(), lines_view(lines@))),
{
    let ghost lv = lines_view(lines@);
    let mut agg = Aggregator::new();
    let mut i: usize = 0;
    proof {
        assert(lv.take(0) =~= Seq::<Seq<u8>>::empty());
    }
    while i < lines.len()
        invariant
            agg.wf(),
            i <= lines@.len(),
            lv == lines_view(lines@),
            lv.len() == lines@.len(),
            agg@ == run_model(empty_model(), lv.take(i as int)),
        decreases lines@.len() - i,
    {
        agg.observe(&lines[i]);
        proof {
            assert(lv.take(i as int + 1).drop_last() =~= lv.take(i as int));
            assert(lv.take(i as int + 1).last() == lines@[i as int]@);
        }
        i += 1;
    }
    proof {
        assert(lv.take(lv.len() as int) =~= lv);
    }
    rank(agg)
}

/// Determinism of the whole pipeline: the aggregation of a run is a
/// function of its lines alone, and any two valid reports of that state are
/// one and the same — a re-run reproduces the ranked sequences and the
/// scalars exactly.
pub proof fn lemma_pipeline_deterministic(lines: Seq<Seq<u8>>, r1: ReportV, r2: ReportV)
    requires
        valid_report(r1, run_model(empty_model(), lines)),
        valid_report(r2, run_model(empty_model(), lines)),
    ensures
        r1 == r2,
{
    let m = run_model(empty_model(), lines);
    lemma_listing_ranking_unique(r1.listings, r2.listings, m.counts);
    lemma_package_ranking_unique(r1.packages, r2.packages, m.counts, m.sizes);
    assert(r1 =~= r2);
}

} // verus!
