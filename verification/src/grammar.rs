//! The log-line grammar: one combined-format access-log line is either a
//! countable request or is skipped.
//!
//! The grammar is ordered and first-match-wins: skip the header fields
//! (possibly none) up to the first `"`, require `GET `, then try the three
//! URL shapes in fixed priority order
//! (download, per-package listing, full-index listing), then require the
//! status literal `304` or `200`, and for `200` a single space and a run
//! of decimal digits giving the transferred byte count. Any failure makes
//! the whole line uncountable; nothing is partially recorded.
//!
//! A digit run whose value does not fit in a 64-bit counter also fails the
//! line: such a line does not describe a transfer this machine could have
//! served.
//!
//! The spec functions in this module are the grammar's definition; the exec
//! functions decide them.

use vstd::prelude::*;
use crate::keys::{ListKey, PackageKey, PackageKeyV, ParsedLine, ParsedLineV, RequestKind,
    RequestKindV};

verus! {

/// First index at or after `i` holding byte `target`, or the length when
/// no such byte follows.
pub open spec fn scan_to(s: Seq<u8>, i: int, target: u8) -> int
    decreases s.len() - i,
{
    if i < 0 || i >= s.len() {
        s.len() as int
    } else if s[i] == target {
        i
    } else {
        scan_to(s, i + 1, target)
    }
}

/// A decimal digit.
pub open spec fn is_digit(b: u8) -> bool {
    48 <= b <= 57
}

/// First index at or after `i` holding a non-digit, or the length when
/// digits run to the end.
pub open spec fn scan_digits(s: Seq<u8>, i: int) -> int
    decreases s.len() - i,
{
    if i < 0 || i >= s.len() {
        s.len() as int
    } else if !is_digit(s[i]) {
        i
    } else {
        scan_digits(s, i + 1)
    }
}

/// Value of the digit run `s[i..j)`, read as a decimal number.
pub open spec fn digits_value(s: Seq<u8>, i: int, j: int) -> nat
    decreases j - i,
{
    if j <= i {
        0
    } else {
        digits_value(s, i, j - 1) * 10 + (s[j - 1] - 48) as nat
    }
}

/// The literal `"GET ` stands at `i`.
pub open spec fn get_at(s: Seq<u8>, i: int) -> bool {
    &&& 0 <= i
    &&& i + 5 <= s.len()
    &&& s[i] == 34
    &&& s[i + 1] == 71
    &&& s[i + 2] == 69
    &&& s[i + 3] == 84
    &&& s[i + 4] == 32
}

/// The literal ` HTTP/1.1" ` or ` HTTP/2.0" ` stands at `i`.
pub open spec fn http_tail_at(s: Seq<u8>, i: int) -> bool {
    &&& 0 <= i
    &&& i + 11 <= s.len()
    &&& s[i] == 32
    &&& s[i + 1] == 72
    &&& s[i + 2] == 84
    &&& s[i + 3] == 84
    &&& s[i + 4] == 80
    &&& s[i + 5] == 47
    &&& ((s[i + 6] == 49 && s[i + 7] == 46 && s[i + 8] == 49) || (s[i + 6] == 50 && s[i + 7]
        == 46 && s[i + 8] == 48))
    &&& s[i + 9] == 34
    &&& s[i + 10] == 32
}

/// The literal `/packages/` stands at `i`.
pub open spec fn packages_at(s: Seq<u8>, i: int) -> bool {
    &&& 0 <= i
    &&& i + 10 <= s.len()
    &&& s[i] == 47
    &&& s[i + 1] == 112
    &&& s[i + 2] == 97
    &&& s[i + 3] == 99
    &&& s[i + 4] == 107
    &&& s[i + 5] == 97
    &&& s[i + 6] == 103
    &&& s[i + 7] == 101
    &&& s[i + 8] == 115
    &&& s[i + 9] == 47
}

/// The literal `/simple/` stands at `i`.
pub open spec fn simple_at(s: Seq<u8>, i: int) -> bool {
    &&& 0 <= i
    &&& i + 8 <= s.len()
    &&& s[i] == 47
    &&& s[i + 1] == 115
    &&& s[i + 2] == 105
    &&& s[i + 3] == 109
    &&& s[i + 4] == 112
    &&& s[i + 5] == 108
    &&& s[i + 6] == 101
    &&& s[i + 7] == 47
}

/// The download shape at `i`: `/packages/`, two 2-byte segments and one
/// 60-byte segment separated by single slashes, a file name running to the
/// next space, then the HTTP tail. Yields the key and the position after
/// the tail.
pub open spec fn parse_download_at(s: Seq<u8>, i: int) -> Option<(PackageKeyV, int)> {
    if packages_at(s, i) {
        let p = i + 10;
        if p + 67 <= s.len() && s[p + 2] == 47 && s[p + 5] == 47 && s[p + 66] == 47 {
            let j = scan_to(s, p + 67, 32);
            if http_tail_at(s, j) {
                Some(
                    (
                        PackageKeyV {
                            seg_1: s.subrange(p, p + 2),
                            seg_2: s.subrange(p + 3, p + 5),
                            seg_3: s.subrange(p + 6, p + 66),
                            package: s.subrange(p + 67, j),
                        },
                        j + 11,
                    ),
                )
            } else {
                None
            }
        } else {
            None
        }
    } else {
        None
    }
}

/// The per-package listing shape at `i`: `/simple/`, a name running to the
/// next slash, then `/` and the HTTP tail. Yields the name and the position
/// after the tail.
pub open spec fn parse_listing_at(s: Seq<u8>, i: int) -> Option<(Seq<u8>, int)> {
    if simple_at(s, i) {
        let j = scan_to(s, i + 8, 47);
        if j < s.len() && http_tail_at(s, j + 1) {
            Some((s.subrange(i + 8, j), j + 12))
        } else {
            None
        }
    } else {
        None
    }
}

/// The full-index listing shape at `i`: `/simple/` directly followed by the
/// HTTP tail. Yields the position after the tail.
pub open spec fn parse_full_at(s: Seq<u8>, i: int) -> Option<int> {
    if simple_at(s, i) && http_tail_at(s, i + 8) {
        Some(i + 8 + 11)
    } else {
        None
    }
}

/// The three URL shapes, tried in their fixed priority order.
pub open spec fn parse_url_at(s: Seq<u8>, i: int) -> Option<(RequestKindV, int)> {
    match parse_download_at(s, i) {
        Some((key, j)) => Some((RequestKindV::Download { key }, j)),
        None => match parse_listing_at(s, i) {
            Some((name, j)) => Some((RequestKindV::ListingOf { name }, j)),
            None => match parse_full_at(s, i) {
                Some(j) => Some((RequestKindV::FullIndexListing, j)),
                None => None,
            },
        },
    }
}

/// The status token at `i`: `Some(true)` for `304`, `Some(false)` for
/// `200`, `None` for anything else. The token is character-exact: after
/// `304` it must end (a space follows, or the line does), so a status such
/// as `3040` fails the line; after `200` the grammar itself demands a
/// space next, which has the same effect there.
pub open spec fn status_at(s: Seq<u8>, i: int) -> Option<bool> {
    if 0 <= i && i + 3 <= s.len() {
        if s[i] == 51 && s[i + 1] == 48 && s[i + 2] == 52 && (i + 3 == s.len() || s[i + 3]
            == 32) {
            Some(true)
        } else if s[i] == 50 && s[i + 1] == 48 && s[i + 2] == 48 {
            Some(false)
        } else {
            None
        }
    } else {
        None
    }
}

/// The whole grammar: what one line means, or `None` when it is skipped.
pub open spec fn parse_line_spec(s: Seq<u8>) -> Option<ParsedLineV> {
    let q = scan_to(s, 0, 34);
    if q < s.len() && get_at(s, q) {
        match parse_url_at(s, q + 5) {
            Some((kind, j)) => match status_at(s, j) {
                Some(true) => Some(ParsedLineV::Cached { kind }),
                Some(false) => {
                    if j + 4 <= s.len() && s[j + 3] == 32 {
                        let e = scan_digits(s, j + 4);
                        if e > j + 4 && digits_value(s, j + 4, e) <= u64::MAX {
                            Some(
                                ParsedLineV::Fresh {
                                    kind,
                                    size: digits_value(s, j + 4, e) as u64,
                                },
                            )
                        } else {
                            None
                        }
                    } else {
                        None
                    }
                },
                None => None,
            },
            None => None,
        }
    } else {
        None
    }
}

/// A longer digit run never has a smaller value.
proof fn lemma_digits_value_mono(s: Seq<u8>, i: int, j: int, k: int)
    requires
        i <= j <= k,
    ensures
        digits_value(s, i, j) <= digits_value(s, i, k),
    decreases k - j,
{
    if k > j {
        lemma_digits_value_mono(s, i, j, k - 1);
    }
}

fn scan_to_exec(line: &Vec<u8>, start: usize, target: u8) -> (r: usize)
    requires
        start <= line@.len(),
    ensures
        r == scan_to(line@, start as int, target),
        start <= r <= line@.len(),
        r < line@.len() ==> line@[r as int] == target,
{
    let mut j: usize = start;
    loop
        invariant
            start <= j <= line@.len(),
            scan_to(line@, start as int, target) == scan_to(line@, j as int, target),
        decreases line@.len() - j,
    {
        if j == line.len() {
            return j;
        }
        if line[j] == target {
            return j;
        }
        j += 1;
    }
}

fn scan_digits_exec(line: &Vec<u8>, start: usize) -> (r: usize)
    requires
        start <= line@.len(),
    ensures
        r == scan_digits(line@, start as int),
        start <= r <= line@.len(),
{
    let mut j: usize = start;
    loop
        invariant
            start <= j <= line@.len(),
            scan_digits(line@, start as int) == scan_digits(line@, j as int),
        decreases line@.len() - j,
    {
        if j == line.len() {
            return j;
        }
        let b = line[j];
        if b < 48 || b > 57 {
            return j;
        }
        j += 1;
    }
}

/// Reads the digit run at `start` as a 64-bit number: its end position and
/// value, or `None` when the run is empty or its value does not fit.
fn parse_number(line: &Vec<u8>, start: usize) -> (r: Option<(u64, usize)>)
    requires
        start <= line@.len(),
    ensures
        ({
            let e = scan_digits(line@, start as int);
            match r {
                Some((v, end)) => end == e && e > start && v as nat == digits_value(
                    line@,
                    start as int,
                    e,
                ),
                None => e == start || digits_value(line@, start as int, e) > u64::MAX,
            }
        }),
{
    let end = scan_digits_exec(line, start);
    if end == start {
        return None;
    }
    let ghost e = end as int;
    let mut v: u64 = 0;
    let mut j: usize = start;
    while j < end
        invariant
            start <= j <= end,
            end <= line@.len(),
            e == end as int,
            e == scan_digits(line@, start as int),
            e == scan_digits(line@, j as int),
            v as nat == digits_value(line@, start as int, j as int),
        decreases end - j,
    {
        proof {
            // every byte before the scan's end is a digit
            assert(scan_digits(line@, j as int) == e);
            assert(is_digit(line@[j as int]));
        }
        let d = line[j] - 48;
        let w: u128 = (v as u128) * 10 + (d as u128);
        if w > u64::MAX as u128 {
            proof {
                assert(digits_value(line@, start as int, j + 1 as int) == v as nat * 10 + d as nat);
                lemma_digits_value_mono(line@, start as int, j + 1 as int, e);
            }
            return None;
        }
        v = w as u64;
        j += 1;
    }
    Some((v, end))
}

fn has_get_at(line: &Vec<u8>, i: usize) -> (r: bool)
    ensures
        r == get_at(line@, i as int),
{
    if line.len() < 5 || i > line.len() - 5 {
        return false;
    }
    line[i] == 34 && line[i + 1] == 71 && line[i + 2] == 69 && line[i + 3] == 84 && line[i
        + 4] == 32
}

fn has_http_tail_at(line: &Vec<u8>, i: usize) -> (r: bool)
    ensures
        r == http_tail_at(line@, i as int),
{
    if line.len() < 11 || i > line.len() - 11 {
        return false;
    }
    line[i] == 32 && line[i + 1] == 72 && line[i + 2] == 84 && line[i + 3] == 84 && line[i
        + 4] == 80 && line[i + 5] == 47 && ((line[i + 6] == 49 && line[i + 7] == 46
        && line[i + 8] == 49) || (line[i + 6] == 50 && line[i + 7] == 46 && line[i + 8]
        == 48)) && line[i + 9] == 34 && line[i + 10] == 32
}

fn has_packages_at(line: &Vec<u8>, i: usize) -> (r: bool)
    ensures
        r == packages_at(line@, i as int),
{
    if line.len() < 10 || i > line.len() - 10 {
        return false;
    }
    line[i] == 47 && line[i + 1] == 112 && line[i + 2] == 97 && line[i + 3] == 99 && line[i
        + 4] == 107 && line[i + 5] == 97 && line[i + 6] == 103 && line[i + 7] == 101 && line[i
        + 8] == 115 && line[i + 9] == 47
}

fn has_simple_at(line: &Vec<u8>, i: usize) -> (r: bool)
    ensures
        r == simple_at(line@, i as int),
{
    if line.len() < 8 || i > line.len() - 8 {
        return false;
    }
    line[i] == 47 && line[i + 1] == 115 && line[i + 2] == 105 && line[i + 3] == 109 && line[i
        + 4] == 112 && line[i + 5] == 108 && line[i + 6] == 101 && line[i + 7] == 47
}

/// An independent copy of `line[a..b)`.
fn copy_range(line: &Vec<u8>, a: usize, b: usize) -> (r: Vec<u8>)
    requires
        a <= b <= line@.len(),
    ensures
        r@ == line@.subrange(a as int, b as int),
{
    let mut r: Vec<u8> = Vec::new();
    let mut j: usize = a;
    while j < b
        invariant
            a <= j <= b <= line@.len(),
            r@ == line@.subrange(a as int, j as int),
        decreases b - j,
    {
        r.push(line[j]);
        proof {
            assert(line@.subrange(a as int, j + 1 as int) =~= line@.subrange(
                a as int,
                j as int,
            ).push(line@[j as int]));
        }
        j += 1;
    }
    r
}

fn parse_download_exec(line: &Vec<u8>, i: usize) -> (r: Option<(PackageKey, usize)>)
    ensures
        match r {
            Some((key, j)) => parse_download_at(line@, i as int) == Some((key@, j as int)),
            None => parse_download_at(line@, i as int) is None,
        },
{
    if !has_packages_at(line, i) {
        return None;
    }
    let n = line.len();
    proof {
        assert(i + 10 <= n);
    }
    let p = i + 10;
    if line.len() - p < 67 {
        return None;
    }
    if line[p + 2] != 47 || line[p + 5] != 47 || line[p + 66] != 47 {
        return None;
    }
    let j = scan_to_exec(line, p + 67, 32);
    if !has_http_tail_at(line, j) {
        return None;
    }
    let key = PackageKey {
        seg_1: copy_range(line, p, p + 2),
        seg_2: copy_range(line, p + 3, p + 5),
        seg_3: copy_range(line, p + 6, p + 66),
        package: copy_range(line, p + 67, j),
    };
    Some((key, j + 11))
}

fn parse_listing_exec(line: &Vec<u8>, i: usize) -> (r: Option<(ListKey, usize)>)
    ensures
        match r {
            Some((key, j)) => parse_listing_at(line@, i as int) == Some((key@, j as int)),
            None => parse_listing_at(line@, i as int) is None,
        },
{
    if !has_simple_at(line, i) {
        return None;
    }
    let n = line.len();
    proof {
        assert(i + 8 <= n);
    }
    let j = scan_to_exec(line, i + 8, 47);
    if j == line.len() {
        return None;
    }
    if !has_http_tail_at(line, j + 1) {
        return None;
    }
    let key = ListKey { name: copy_range(line, i + 8, j) };
    Some((key, j + 12))
}

fn parse_full_exec(line: &Vec<u8>, i: usize) -> (r: Option<usize>)
    ensures
        match r {
            Some(j) => parse_full_at(line@, i as int) == Some(j as int),
            None => parse_full_at(line@, i as int) is None,
        },
{
    if !has_simple_at(line, i) {
        return None;
    }
    let n = line.len();
    proof {
        assert(i + 8 <= n);
    }
    if !has_http_tail_at(line, i + 8) {
        return None;
    }
    proof {
        assert(i + 8 + 11 <= n);
    }
    Some(i + 8 + 11)
}

fn parse_url_exec(line: &Vec<u8>, i: usize) -> (r: Option<(RequestKind, usize)>)
    ensures
        match r {
            Some((kind, j)) => parse_url_at(line@, i as int) == Some((kind@, j as int)),
            None => parse_url_at(line@, i as int) is None,
        },
{
    match parse_download_exec(line, i) {
        Some((key, j)) => Some((RequestKind::Download(key), j)),
        None => match parse_listing_exec(line, i) {
            Some((key, j)) => Some((RequestKind::ListingOf(key), j)),
            None => match parse_full_exec(line, i) {
                Some(j) => Some((RequestKind::FullIndexListing, j)),
                None => None,
            },
        },
    }
}

fn status_exec(line: &Vec<u8>, i: usize) -> (r: Option<bool>)
    ensures
        r == status_at(line@, i as int),
{
    if line.len() < 3 || i > line.len() - 3 {
        return None;
    }
    if line[i] == 51 && line[i + 1] == 48 && line[i + 2] == 52 && (i + 3 == line.len() || line[i
        + 3] == 32) {
        Some(true)
    } else if line[i] == 50 && line[i + 1] == 48 && line[i + 2] == 48 {
        Some(false)
    } else {
        None
    }
}

/// Parses one log line. The result is exactly what [`parse_line_spec`]
/// gives for the line's bytes: a countable request or `None`.
pub fn parse_line(line: &Vec<u8>) -> (r: Option<ParsedLine>)
    ensures
        match r {
            Some(pl) => parse_line_spec(line@) == Some(pl@),
            None => parse_line_spec(line@) is None,
        },
{
    let q = scan_to_exec(line, 0, 34);
    if q == line.len() {
        return None;
    }
    if !has_get_at(line, q) {
        return None;
    }
    let (kind, j) = match parse_url_exec(line, q + 5) {
        Some(kj) => kj,
        None => {
            return None;
        },
    };
    match status_exec(line, j) {
        Some(true) => Some(ParsedLine::Cached(kind)),
        Some(false) => {
            if line.len() - j < 4 || line[j + 3] != 32 {
                return None;
            }
            match parse_number(line, j + 4) {
                Some((v, _end)) => Some(ParsedLine::Fresh(kind, v)),
                None => None,
            }
        },
        None => None,
    }
}

} // verus!
