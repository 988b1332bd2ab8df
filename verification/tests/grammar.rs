use mirrorlog::grammar::parse_line;
use mirrorlog::keys::{ParsedLine, RequestKind};

fn line(s: &str) -> Vec<u8> {
    s.as_bytes().to_vec()
}

const SEG3: &str = "012345678901234567890123456789012345678901234567890123456789";

#[test]
fn download_line_parses_with_all_fields() {
    let l = line(&format!(
        "1.2.3.4 - - [01/Jan/2020] \"GET /packages/ab/cd/{}/foo-1.0.tar.gz HTTP/1.1\" 200 9001 \"-\" \"pip\"",
        SEG3
    ));
    match parse_line(&l) {
        Some(ParsedLine::Fresh(RequestKind::Download(k), size)) => {
            assert_eq!(k.seg_1, b"ab".to_vec());
            assert_eq!(k.seg_2, b"cd".to_vec());
            assert_eq!(k.seg_3, SEG3.as_bytes().to_vec());
            assert_eq!(k.package, b"foo-1.0.tar.gz".to_vec());
            assert_eq!(size, 9001);
        },
        _ => panic!("expected a fresh download"),
    }
}

#[test]
fn listing_line_parses() {
    let l = line("1.2.3.4 - - [x] \"GET /simple/requests/ HTTP/1.1\" 200 1234 \"-\" \"pip\"");
    match parse_line(&l) {
        Some(ParsedLine::Fresh(RequestKind::ListingOf(k), size)) => {
            assert_eq!(k.name, b"requests".to_vec());
            assert_eq!(size, 1234);
        },
        _ => panic!("expected a fresh listing"),
    }
}

#[test]
fn full_index_line_parses() {
    let l = line("1.2.3.4 - - [x] \"GET /simple/ HTTP/1.1\" 200 512 \"-\" \"pip\"");
    match parse_line(&l) {
        Some(ParsedLine::Fresh(RequestKind::FullIndexListing, size)) => {
            assert_eq!(size, 512);
        },
        _ => panic!("expected a fresh full-index listing"),
    }
}

#[test]
fn empty_listing_name_parses() {
    let l = line("h \"GET /simple// HTTP/1.1\" 304 \"-\"");
    match parse_line(&l) {
        Some(ParsedLine::Cached(RequestKind::ListingOf(k))) => {
            assert_eq!(k.name, b"".to_vec());
        },
        _ => panic!("expected a cached listing with an empty name"),
    }
}

#[test]
fn http_two_tail_accepted() {
    let l = line("h \"GET /simple/requests/ HTTP/2.0\" 304 \"-\"");
    match parse_line(&l) {
        Some(ParsedLine::Cached(RequestKind::ListingOf(k))) => {
            assert_eq!(k.name, b"requests".to_vec());
        },
        _ => panic!("expected a cached listing"),
    }
}

#[test]
fn cached_download_has_no_size() {
    let l = line(&format!("h \"GET /packages/ab/cd/{}/p.whl HTTP/1.1\" 304 \"-\"", SEG3));
    match parse_line(&l) {
        Some(ParsedLine::Cached(RequestKind::Download(k))) => {
            assert_eq!(k.package, b"p.whl".to_vec());
        },
        _ => panic!("expected a cached download"),
    }
}

#[test]
fn short_seg_3_fails_entirely() {
    // seg_3 cut short by the end of the URL: the download shape fails, and
    // no other shape matches.
    let l = line("h \"GET /packages/ab/cd/0123456789/foo.tar.gz HTTP/1.1\" 200 10 \"-\"");
    assert!(parse_line(&l).is_none());
}

#[test]
fn non_get_method_fails() {
    let l = line("h \"POST /simple/requests/ HTTP/1.1\" 200 1234 \"-\"");
    assert!(parse_line(&l).is_none());
}

#[test]
fn unsupported_status_fails() {
    let l = line("h \"GET /simple/requests/ HTTP/1.1\" 500 1234 \"-\"");
    assert!(parse_line(&l).is_none());
    let l = line("h \"GET /simple/requests/ HTTP/1.1\" 404 1234 \"-\"");
    assert!(parse_line(&l).is_none());
    let l = line("h \"GET /simple/requests/ HTTP/1.1\" 301 1234 \"-\"");
    assert!(parse_line(&l).is_none());
}

#[test]
fn fresh_without_digits_fails() {
    let l = line("h \"GET /simple/requests/ HTTP/1.1\" 200 x \"-\"");
    assert!(parse_line(&l).is_none());
    let l = line("h \"GET /simple/requests/ HTTP/1.1\" 200 ");
    assert!(parse_line(&l).is_none());
}

#[test]
fn no_quote_fails() {
    let l = line("1.2.3.4 - - GET /simple/requests/ HTTP/1.1 200 1234");
    assert!(parse_line(&l).is_none());
}

#[test]
fn quote_at_line_start_parses() {
    // the header prefix before the first quote may be empty
    let l = line("\"GET /simple/requests/ HTTP/1.1\" 200 1234");
    match parse_line(&l) {
        Some(ParsedLine::Fresh(RequestKind::ListingOf(k), size)) => {
            assert_eq!(k.name, b"requests".to_vec());
            assert_eq!(size, 1234);
        },
        _ => panic!("expected a fresh listing"),
    }
}

#[test]
fn status_token_must_be_character_exact() {
    // a status that merely begins with 304 is not the literal 304
    let l = line("h \"GET /simple/requests/ HTTP/1.1\" 3040 12 \"-\"");
    assert!(parse_line(&l).is_none());
    let l = line("h \"GET /simple/requests/ HTTP/1.1\" 304x \"-\"");
    assert!(parse_line(&l).is_none());
    // and one that merely begins with 200 demands a space before the size
    let l = line("h \"GET /simple/requests/ HTTP/1.1\" 2004 12 \"-\"");
    assert!(parse_line(&l).is_none());
}

#[test]
fn cached_status_at_end_of_line_parses() {
    let l = line("h \"GET /simple/requests/ HTTP/1.1\" 304");
    match parse_line(&l) {
        Some(ParsedLine::Cached(RequestKind::ListingOf(k))) => {
            assert_eq!(k.name, b"requests".to_vec());
        },
        _ => panic!("expected a cached listing"),
    }
}

#[test]
fn unknown_url_shape_fails() {
    let l = line("h \"GET /other/thing HTTP/1.1\" 200 1234 \"-\"");
    assert!(parse_line(&l).is_none());
}

#[test]
fn listing_with_extra_path_segment_fails() {
    let l = line("h \"GET /simple/requests/extra/ HTTP/1.1\" 200 1234 \"-\"");
    assert!(parse_line(&l).is_none());
}

#[test]
fn oversized_byte_count_fails() {
    // 2^64 does not fit the 64-bit counter
    let l = line("h \"GET /simple/requests/ HTTP/1.1\" 200 18446744073709551616 \"-\"");
    assert!(parse_line(&l).is_none());
}

#[test]
fn largest_byte_count_parses() {
    let l = line("h \"GET /simple/requests/ HTTP/1.1\" 200 18446744073709551615 \"-\"");
    match parse_line(&l) {
        Some(ParsedLine::Fresh(_, size)) => assert_eq!(size, u64::MAX),
        _ => panic!("expected a fresh listing"),
    }
}

#[test]
fn trailing_bytes_after_status_ignored_for_cached() {
    let l = line("h \"GET /simple/requests/ HTTP/1.1\" 304 whatever trails here");
    assert!(matches!(parse_line(&l), Some(ParsedLine::Cached(_))));
}
