//! The aggregation keys: packages, per-package listings and the full-index
//! listing, together with the grammar's per-line result.
//!
//! Path segments are kept as raw bytes: the grammar treats them as opaque
//! path components and never requires them to be text.

use vstd::prelude::*;

verus! {

/// Mathematical value of a [`PackageKey`]: the four path components as
/// byte sequences.
#[verifier::ext_equal]
pub ghost struct PackageKeyV {
    pub seg_1: Seq<u8>,
    pub seg_2: Seq<u8>,
    pub seg_3: Seq<u8>,
    pub package: Seq<u8>,
}

/// Identifies one downloadable artifact: three fixed-width path segments
/// (2, 2 and 60 bytes in a well-formed URL) and the file name.
pub struct PackageKey {
    pub seg_1: Vec<u8>,
    pub seg_2: Vec<u8>,
    pub seg_3: Vec<u8>,
    pub package: Vec<u8>,
}

impl View for PackageKey {
    type V = PackageKeyV;

    open spec fn view(&self) -> PackageKeyV {
        PackageKeyV {
            seg_1: self.seg_1@,
            seg_2: self.seg_2@,
            seg_3: self.seg_3@,
            package: self.package@,
        }
    }
}

/// Identifies a directory-listing request for one named package: the path
/// segment between `/simple/` and the following `/`.
pub struct ListKey {
    pub name: Vec<u8>,
}

impl View for ListKey {
    type V = Seq<u8>;

    open spec fn view(&self) -> Seq<u8> {
        self.name@
    }
}

/// Mathematical value of a [`RequestKind`].
#[verifier::ext_equal]
pub ghost enum RequestKindV {
    ListingOf { name: Seq<u8> },
    Download { key: PackageKeyV },
    FullIndexListing,
}

/// The aggregation key: the three mutually exclusive shapes a countable
/// request can take.
pub enum RequestKind {
    ListingOf(ListKey),
    Download(PackageKey),
    FullIndexListing,
}

impl View for RequestKind {
    type V = RequestKindV;

    open spec fn view(&self) -> RequestKindV {
        match self {
            RequestKind::ListingOf(k) => RequestKindV::ListingOf { name: k.name@ },
            RequestKind::Download(k) => RequestKindV::Download { key: k@ },
            RequestKind::FullIndexListing => RequestKindV::FullIndexListing,
        }
    }
}

/// Mathematical value of a [`ParsedLine`].
#[verifier::ext_equal]
pub ghost enum ParsedLineV {
    Fresh { kind: RequestKindV, size: u64 },
    Cached { kind: RequestKindV },
}

impl ParsedLineV {
    /// The classified request, whatever the status was.
    pub open spec fn kind(self) -> RequestKindV {
        match self {
            ParsedLineV::Fresh { kind, .. } => kind,
            ParsedLineV::Cached { kind } => kind,
        }
    }
}

/// The grammar's output for one countable line: a `200` response with its
/// transferred byte count, or a `304` response, whose content was not
/// retransmitted and so carries no size.
pub enum ParsedLine {
    Fresh(RequestKind, u64),
    Cached(RequestKind),
}

impl View for ParsedLine {
    type V = ParsedLineV;

    open spec fn view(&self) -> ParsedLineV {
        match self {
            ParsedLine::Fresh(kind, size) => ParsedLineV::Fresh { kind: kind@, size: *size },
            ParsedLine::Cached(kind) => ParsedLineV::Cached { kind: kind@ },
        }
    }
}

/// Byte-for-byte equality of two byte vectors.
pub fn bytes_eq(a: &Vec<u8>, b: &Vec<u8>) -> (r: bool)
    ensures
        r == (a@ == b@),
{
    if a.len() != b.len() {
        return false;
    }
    let mut i: usize = 0;
    while i < a.len()
        invariant
            a@.len() == b@.len(),
            i <= a@.len(),
            forall|j: int| 0 <= j < i ==> a@[j] == b@[j],
        decreases a@.len() - i,
    {
        if a[i] != b[i] {
            return false;
        }
        i += 1;
    }
    proof {
        assert(a@ =~= b@);
    }
    true
}

/// An independent copy of a byte vector.
pub fn bytes_copy(a: &Vec<u8>) -> (r: Vec<u8>)
    ensures
        r@ == a@,
{
    let mut r: Vec<u8> = Vec::new();
    let mut i: usize = 0;
    while i < a.len()
        invariant
            i <= a@.len(),
            r@ == a@.take(i as int),
        decreases a@.len() - i,
    {
        r.push(a[i]);
        proof {
            assert(a@.take(i + 1 as int) =~= a@.take(i as int).push(a@[i as int]));
        }
        i += 1;
    }
    proof {
        assert(a@.take(a@.len() as int) =~= a@);
    }
    r
}

impl PackageKey {
    /// An independent copy of the key.
    pub fn duplicate(&self) -> (r: PackageKey)
        ensures
            r@ == self@,
    {
        PackageKey {
            seg_1: bytes_copy(&self.seg_1),
            seg_2: bytes_copy(&self.seg_2),
            seg_3: bytes_copy(&self.seg_3),
            package: bytes_copy(&self.package),
        }
    }

    /// Structural equality, matching equality of the views.
    pub fn key_eq(&self, other: &PackageKey) -> (r: bool)
        ensures
            r == (self@ == other@),
    {
        let r = bytes_eq(&self.seg_1, &other.seg_1) && bytes_eq(&self.seg_2, &other.seg_2)
            && bytes_eq(&self.seg_3, &other.seg_3) && bytes_eq(&self.package, &other.package);
        proof {
            if r {
                assert(self@ =~= other@);
            }
        }
        r
    }
}

impl RequestKind {
    /// Structural equality, matching equality of the views.
    pub fn kind_eq(&self, other: &RequestKind) -> (r: bool)
        ensures
            r == (self@ == other@),
    {
        match (self, other) {
            (RequestKind::ListingOf(a), RequestKind::ListingOf(b)) => bytes_eq(&a.name, &b.name),
            (RequestKind::Download(a), RequestKind::Download(b)) => a.key_eq(b),
            (RequestKind::FullIndexListing, RequestKind::FullIndexListing) => true,
            _ => false,
        }
    }
}

} // verus!
