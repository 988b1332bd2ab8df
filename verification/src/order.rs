//! The orders that ranking uses: lexicographic order on byte sequences,
//! the structural order on package keys, and the ranking orders on report
//! entries (descending count first, then the key's natural order).
//!
//! Each ranking order is proved to be a total ordering, which is what makes
//! the ranked output of one aggregation state unique.

use vstd::prelude::*;
use vstd::relations::total_ordering;
use crate::keys::PackageKeyV;

verus! {

/// Lexicographic "less than or equal" on byte sequences: a proper prefix
/// comes before every extension of it.
pub open spec fn lex_leq(a: Seq<u8>, b: Seq<u8>) -> bool
    decreases a.len(),
{
    if a.len() == 0 {
        true
    } else if b.len() == 0 {
        false
    } else if a[0] < b[0] {
        true
    } else if a[0] > b[0] {
        false
    } else {
        lex_leq(a.drop_first(), b.drop_first())
    }
}

/// Strict lexicographic order.
pub open spec fn lex_lt(a: Seq<u8>, b: Seq<u8>) -> bool {
    lex_leq(a, b) && a != b
}

pub proof fn lemma_lex_refl(a: Seq<u8>)
    ensures
        lex_leq(a, a),
    decreases a.len(),
{
    if a.len() > 0 {
        lemma_lex_refl(a.drop_first());
    }
}

pub proof fn lemma_lex_total(a: Seq<u8>, b: Seq<u8>)
    ensures
        lex_leq(a, b) || lex_leq(b, a),
    decreases a.len(),
{
    if a.len() > 0 && b.len() > 0 && a[0] == b[0] {
        lemma_lex_total(a.drop_first(), b.drop_first());
    }
}

pub proof fn lemma_lex_antisym(a: Seq<u8>, b: Seq<u8>)
    requires
        lex_leq(a, b),
        lex_leq(b, a),
    ensures
        a == b,
    decreases a.len(),
{
    if a.len() == 0 {
        assert(b.len() == 0);
        assert(a =~= b);
    } else {
        assert(b.len() > 0);
        assert(a[0] == b[0]);
        lemma_lex_antisym(a.drop_first(), b.drop_first());
        assert forall|i: int| 0 <= i < a.len() implies a[i] == b[i] by {
            if i > 0 {
                assert(a[i] == a.drop_first()[i - 1]);
                assert(b[i] == b.drop_first()[i - 1]);
            }
        }
        assert(a =~= b);
    }
}

pub proof fn lemma_lex_trans(a: Seq<u8>, b: Seq<u8>, c: Seq<u8>)
    requires
        lex_leq(a, b),
        lex_leq(b, c),
    ensures
        lex_leq(a, c),
    decreases a.len(),
{
    if a.len() > 0 {
        assert(b.len() > 0);
        assert(c.len() > 0);
        if a[0] == b[0] && b[0] == c[0] {
            lemma_lex_trans(a.drop_first(), b.drop_first(), c.drop_first());
        }
    }
}

pub proof fn lemma_lex_lt_leq_trans(a: Seq<u8>, b: Seq<u8>, c: Seq<u8>)
    requires
        lex_lt(a, b),
        lex_leq(b, c),
    ensures
        lex_lt(a, c),
{
    lemma_lex_trans(a, b, c);
    if a == c {
        lemma_lex_antisym(a, b);
    }
}

/// If the first `i` bytes agree, the comparison is decided by the rest.
pub proof fn lemma_lex_common_prefix(a: Seq<u8>, b: Seq<u8>, i: int)
    requires
        0 <= i <= a.len(),
        i <= b.len(),
        forall|j: int| 0 <= j < i ==> a[j] == b[j],
    ensures
        lex_leq(a, b) == lex_leq(a.skip(i), b.skip(i)),
    decreases i,
{
    if i > 0 {
        assert(a[0] == b[0]);
        assert forall|j: int| 0 <= j < i - 1 implies a.drop_first()[j] == b.drop_first()[j] by {
            assert(a.drop_first()[j] == a[j + 1]);
            assert(b.drop_first()[j] == b[j + 1]);
        }
        lemma_lex_common_prefix(a.drop_first(), b.drop_first(), i - 1);
        assert(a.drop_first().skip(i - 1) =~= a.skip(i));
        assert(b.drop_first().skip(i - 1) =~= b.skip(i));
    } else {
        assert(a.skip(0) =~= a);
        assert(b.skip(0) =~= b);
    }
}

/// Decides [`lex_leq`] on byte vectors.
pub fn bytes_lex_leq(a: &Vec<u8>, b: &Vec<u8>) -> (r: bool)
    ensures
        r == lex_leq(a@, b@),
{
    let mut i: usize = 0;
    loop
        invariant
            i <= a@.len(),
            i <= b@.len(),
            forall|j: int| 0 <= j < i ==> a@[j] == b@[j],
        decreases a@.len() - i,
    {
        proof {
            lemma_lex_common_prefix(a@, b@, i as int);
        }
        if i == a.len() {
            proof {
                assert(a@.skip(i as int).len() == 0);
            }
            return true;
        }
        if i == b.len() {
            proof {
                assert(b@.skip(i as int).len() == 0);
                assert(a@.skip(i as int).len() > 0);
            }
            return false;
        }
        let x = a[i];
        let y = b[i];
        if x != y {
            proof {
                assert(a@.skip(i as int)[0] == a@[i as int]);
                assert(b@.skip(i as int)[0] == b@[i as int]);
            }
            return x < y;
        }
        i += 1;
    }
}

/// Structural order on package keys: `seg_1`, `seg_2`, `seg_3`, `package`,
/// each lexicographic, in that order.
pub open spec fn key_leq(a: PackageKeyV, b: PackageKeyV) -> bool {
    ||| lex_lt(a.seg_1, b.seg_1)
    ||| (a.seg_1 == b.seg_1 && (lex_lt(a.seg_2, b.seg_2) || (a.seg_2 == b.seg_2 && (lex_lt(
        a.seg_3,
        b.seg_3,
    ) || (a.seg_3 == b.seg_3 && lex_leq(a.package, b.package))))))
}

/// Strict structural order on package keys.
pub open spec fn key_lt(a: PackageKeyV, b: PackageKeyV) -> bool {
    key_leq(a, b) && a != b
}

pub proof fn lemma_key_refl(a: PackageKeyV)
    ensures
        key_leq(a, a),
{
    lemma_lex_refl(a.package);
}

pub proof fn lemma_key_total(a: PackageKeyV, b: PackageKeyV)
    ensures
        key_leq(a, b) || key_leq(b, a),
{
    lemma_lex_total(a.seg_1, b.seg_1);
    lemma_lex_total(a.seg_2, b.seg_2);
    lemma_lex_total(a.seg_3, b.seg_3);
    lemma_lex_total(a.package, b.package);
}

pub proof fn lemma_key_antisym(a: PackageKeyV, b: PackageKeyV)
    requires
        key_leq(a, b),
        key_leq(b, a),
    ensures
        a == b,
{
    if a.seg_1 != b.seg_1 {
        lemma_lex_antisym(a.seg_1, b.seg_1);
    } else if a.seg_2 != b.seg_2 {
        lemma_lex_antisym(a.seg_2, b.seg_2);
    } else if a.seg_3 != b.seg_3 {
        lemma_lex_antisym(a.seg_3, b.seg_3);
    } else {
        lemma_lex_antisym(a.package, b.package);
        assert(a =~= b);
    }
}

pub proof fn lemma_key_trans(a: PackageKeyV, b: PackageKeyV, c: PackageKeyV)
    requires
        key_leq(a, b),
        key_leq(b, c),
    ensures
        key_leq(a, c),
{
    if lex_lt(a.seg_1, b.seg_1) {
        if lex_lt(b.seg_1, c.seg_1) {
            lemma_lex_lt_leq_trans(a.seg_1, b.seg_1, c.seg_1);
        } else {
            assert(b.seg_1 == c.seg_1);
        }
    } else {
        assert(a.seg_1 == b.seg_1);
        if lex_lt(b.seg_1, c.seg_1) {
        } else {
            assert(b.seg_1 == c.seg_1);
            if lex_lt(a.seg_2, b.seg_2) {
                if lex_lt(b.seg_2, c.seg_2) {
                    lemma_lex_lt_leq_trans(a.seg_2, b.seg_2, c.seg_2);
                }
            } else {
                assert(a.seg_2 == b.seg_2);
                if lex_lt(b.seg_2, c.seg_2) {
                } else {
                    assert(b.seg_2 == c.seg_2);
                    if lex_lt(a.seg_3, b.seg_3) {
                        if lex_lt(b.seg_3, c.seg_3) {
                            lemma_lex_lt_leq_trans(a.seg_3, b.seg_3, c.seg_3);
                        }
                    } else {
                        assert(a.seg_3 == b.seg_3);
                        if lex_lt(b.seg_3, c.seg_3) {
                        } else {
                            assert(b.seg_3 == c.seg_3);
                            lemma_lex_trans(a.package, b.package, c.package);
                        }
                    }
                }
            }
        }
    }
}

/// One entry of the ranked listing report: a request count and the
/// listing's name.
#[verifier::ext_equal]
pub ghost struct ListEntryV {
    pub count: u64,
    pub name: Seq<u8>,
}

/// Ranking order on listing entries: descending count, then ascending name.
pub open spec fn list_entry_leq(a: ListEntryV, b: ListEntryV) -> bool {
    a.count > b.count || (a.count == b.count && lex_leq(a.name, b.name))
}

/// The listing ranking order as a relation value.
pub open spec fn list_order() -> spec_fn(ListEntryV, ListEntryV) -> bool {
    |a: ListEntryV, b: ListEntryV| list_entry_leq(a, b)
}

/// The listing ranking order is total: ranked listing output is unique.
pub proof fn lemma_list_order_total()
    ensures
        total_ordering(list_order()),
{
    let r = list_order();
    assert forall|a: ListEntryV| #[trigger] r(a, a) by {
        lemma_lex_refl(a.name);
    }
    assert forall|a: ListEntryV, b: ListEntryV| #[trigger] r(a, b) && #[trigger] r(b, a) implies a
        == b by {
        if a.count == b.count {
            lemma_lex_antisym(a.name, b.name);
            assert(a =~= b);
        }
    }
    assert forall|a: ListEntryV, b: ListEntryV, c: ListEntryV|
        #[trigger] r(a, b) && #[trigger] r(b, c) implies r(a, c) by {
        if a.count == b.count && b.count == c.count {
            lemma_lex_trans(a.name, b.name, c.name);
        }
    }
    assert forall|a: ListEntryV, b: ListEntryV| #[trigger] r(a, b) || #[trigger] r(b, a) by {
        if a.count == b.count {
            lemma_lex_total(a.name, b.name);
        }
    }
}

/// One entry of the ranked package report: a request count, the package
/// key, and its first-seen transfer size, absent when the package was only
/// ever served from cache.
#[verifier::ext_equal]
pub ghost struct PkgEntryV {
    pub count: u64,
    pub key: PackageKeyV,
    pub size: Option<u64>,
}

/// Order on recorded sizes, a final tie-break that makes the package
/// ranking order total on all entry values.
pub open spec fn size_leq(a: Option<u64>, b: Option<u64>) -> bool {
    match (a, b) {
        (Option::None, _) => true,
        (Option::Some(_), Option::None) => false,
        (Option::Some(x), Option::Some(y)) => x <= y,
    }
}

/// Ranking order on package entries: descending count, then the key's
/// structural order, then the size.
pub open spec fn pkg_entry_leq(a: PkgEntryV, b: PkgEntryV) -> bool {
    ||| a.count > b.count
    ||| (a.count == b.count && (key_lt(a.key, b.key) || (a.key == b.key && size_leq(
        a.size,
        b.size,
    ))))
}

pub proof fn lemma_list_leq_total(a: ListEntryV, b: ListEntryV)
    ensures
        list_entry_leq(a, b) || list_entry_leq(b, a),
{
    if a.count == b.count {
        lemma_lex_total(a.name, b.name);
    }
}

pub proof fn lemma_list_leq_trans(a: ListEntryV, b: ListEntryV, c: ListEntryV)
    requires
        list_entry_leq(a, b),
        list_entry_leq(b, c),
    ensures
        list_entry_leq(a, c),
{
    if a.count == b.count && b.count == c.count {
        lemma_lex_trans(a.name, b.name, c.name);
    }
}

/// The package ranking order as a relation value.
pub open spec fn pkg_order() -> spec_fn(PkgEntryV, PkgEntryV) -> bool {
    |a: PkgEntryV, b: PkgEntryV| pkg_entry_leq(a, b)
}

/// The package ranking order is total: ranked package output is unique.
pub proof fn lemma_pkg_order_total()
    ensures
        total_ordering(pkg_order()),
{
    let r = pkg_order();
    assert forall|a: PkgEntryV| #[trigger] r(a, a) by {
        lemma_key_refl(a.key);
    }
    assert forall|a: PkgEntryV, b: PkgEntryV| #[trigger] r(a, b) && #[trigger] r(b, a) implies a
        == b by {
        if a.count == b.count {
            if a.key != b.key {
                if key_lt(a.key, b.key) && key_lt(b.key, a.key) {
                    lemma_key_antisym(a.key, b.key);
                }
            } else {
                assert(a =~= b);
            }
        }
    }
    assert forall|a: PkgEntryV, b: PkgEntryV, c: PkgEntryV|
        #[trigger] r(a, b) && #[trigger] r(b, c) implies r(a, c) by {
        if a.count == b.count && b.count == c.count {
            if key_lt(a.key, b.key) {
                if key_lt(b.key, c.key) {
                    lemma_key_trans(a.key, b.key, c.key);
                    if a.key == c.key {
                        lemma_key_antisym(a.key, b.key);
                    }
                }
            } else {
                if key_lt(b.key, c.key) {
                }
            }
        }
    }
    assert forall|a: PkgEntryV, b: PkgEntryV| #[trigger] r(a, b) || #[trigger] r(b, a) by {
        if a.count == b.count {
            lemma_key_total(a.key, b.key);
        }
    }
}

pub proof fn lemma_pkg_leq_total(a: PkgEntryV, b: PkgEntryV)
    ensures
        pkg_entry_leq(a, b) || pkg_entry_leq(b, a),
{
    if a.count == b.count {
        lemma_key_total(a.key, b.key);
    }
}

pub proof fn lemma_pkg_leq_trans(a: PkgEntryV, b: PkgEntryV, c: PkgEntryV)
    requires
        pkg_entry_leq(a, b),
        pkg_entry_leq(b, c),
    ensures
        pkg_entry_leq(a, c),
{
    if a.count == b.count && b.count == c.count {
        if key_lt(a.key, b.key) {
            if key_lt(b.key, c.key) {
                lemma_key_trans(a.key, b.key, c.key);
                if a.key == c.key {
                    lemma_key_antisym(a.key, b.key);
                }
            }
        }
    }
}

} // verus!
