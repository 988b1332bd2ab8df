use mirrorlog::aggregate::Aggregator;
use mirrorlog::keys::{ListKey, PackageKey, RequestKind};
use mirrorlog::rank::{rank, run_pipeline, Report};

fn line(s: &str) -> Vec<u8> {
    s.as_bytes().to_vec()
}

const SEG3: &str = "012345678901234567890123456789012345678901234567890123456789";

fn download_line(pkg: &str, status: &str, size: &str) -> Vec<u8> {
    line(&format!("h \"GET /packages/ab/cd/{}/{} HTTP/1.1\" {} {} \"-\"", SEG3, pkg, status, size))
}

fn listing_line(name: &str, status: &str, size: &str) -> Vec<u8> {
    line(&format!("h \"GET /simple/{}/ HTTP/1.1\" {} {} \"-\"", name, status, size))
}

fn pkg_key(pkg: &str) -> PackageKey {
    PackageKey {
        seg_1: b"ab".to_vec(),
        seg_2: b"cd".to_vec(),
        seg_3: SEG3.as_bytes().to_vec(),
        package: pkg.as_bytes().to_vec(),
    }
}

fn listing_kind(name: &str) -> RequestKind {
    RequestKind::ListingOf(ListKey { name: name.as_bytes().to_vec() })
}

#[test]
fn fresh_download_counts_and_records_size_once() {
    let mut agg = Aggregator::new();
    assert!(agg.observe(&download_line("foo-1.0.tar.gz", "200", "9001")));
    let kind = RequestKind::Download(pkg_key("foo-1.0.tar.gz"));
    assert_eq!(agg.count_of_kind(&kind), 1);
    assert_eq!(agg.size_of_key(&pkg_key("foo-1.0.tar.gz")), Some(9001));

    // a second fresh observation with a different size must not overwrite
    assert!(agg.observe(&download_line("foo-1.0.tar.gz", "200", "7777")));
    assert_eq!(agg.count_of_kind(&kind), 2);
    assert_eq!(agg.size_of_key(&pkg_key("foo-1.0.tar.gz")), Some(9001));
}

#[test]
fn cached_download_counts_but_never_touches_sizes() {
    let mut agg = Aggregator::new();
    assert!(agg.observe(&download_line("bar.whl", "304", "")));
    let kind = RequestKind::Download(pkg_key("bar.whl"));
    assert_eq!(agg.count_of_kind(&kind), 1);
    assert_eq!(agg.size_of_key(&pkg_key("bar.whl")), None);
}

#[test]
fn cached_after_fresh_keeps_recorded_size() {
    let mut agg = Aggregator::new();
    assert!(agg.observe(&download_line("foo-1.0.tar.gz", "200", "9001")));
    assert!(agg.observe(&download_line("foo-1.0.tar.gz", "304", "")));
    let kind = RequestKind::Download(pkg_key("foo-1.0.tar.gz"));
    assert_eq!(agg.count_of_kind(&kind), 2);
    assert_eq!(agg.size_of_key(&pkg_key("foo-1.0.tar.gz")), Some(9001));
}

#[test]
fn listing_line_counts_under_its_name() {
    let mut agg = Aggregator::new();
    assert!(agg.observe(&listing_line("requests", "200", "1234")));
    assert_eq!(agg.count_of_kind(&listing_kind("requests")), 1);
    assert_eq!(agg.count_of_kind(&listing_kind("flask")), 0);
}

#[test]
fn full_index_line_counts_separately() {
    let mut agg = Aggregator::new();
    assert!(agg.observe(&line("h \"GET /simple/ HTTP/1.1\" 200 512 \"-\"")));
    assert_eq!(agg.count_of_kind(&RequestKind::FullIndexListing), 1);
    let report = rank(agg);
    assert_eq!(report.full_index_count, 1);
    assert_eq!(report.listings.len(), 0);
    assert_eq!(report.packages.len(), 0);
}

#[test]
fn unsupported_status_mutates_nothing() {
    let mut agg = Aggregator::new();
    assert!(agg.observe(&listing_line("requests", "200", "1")));
    assert!(!agg.observe(&listing_line("requests", "500", "1234")));
    assert_eq!(agg.count_of_kind(&listing_kind("requests")), 1);
    let report = rank(agg);
    assert_eq!(report.listings.len(), 1);
    assert_eq!(report.listings[0].0, 1);
}

#[test]
fn skipped_line_changes_nothing_however_often_fed() {
    let mut agg = Aggregator::new();
    assert!(agg.observe(&listing_line("requests", "200", "1")));
    let junk = line("not even close to a log line");
    for _ in 0..5 {
        assert!(!agg.observe(&junk));
    }
    assert_eq!(agg.count_of_kind(&listing_kind("requests")), 1);
    let report = rank(agg);
    assert_eq!(report.listings.len(), 1);
    assert_eq!(report.full_index_count, 0);
}

#[test]
fn short_seg_3_contributes_nothing() {
    let mut agg = Aggregator::new();
    assert!(!agg.observe(&line(
        "h \"GET /packages/ab/cd/0123456789/foo.tar.gz HTTP/1.1\" 200 10 \"-\"",
    )));
    let report = rank(agg);
    assert_eq!(report.listings.len(), 0);
    assert_eq!(report.packages.len(), 0);
    assert_eq!(report.package_total(), 0);
}

fn feed(agg: &mut Aggregator, lines: &[Vec<u8>]) {
    for l in lines {
        agg.observe(l);
    }
}

fn scenario_lines() -> Vec<Vec<u8>> {
    let mut v = Vec::new();
    // package a: 10 requests, first fresh size 100
    v.push(download_line("a-1.tar.gz", "200", "100"));
    for _ in 0..9 {
        v.push(download_line("a-1.tar.gz", "304", ""));
    }
    // package b: 5 requests, first fresh size 200
    v.push(download_line("b-1.tar.gz", "200", "200"));
    for _ in 0..4 {
        v.push(download_line("b-1.tar.gz", "304", ""));
    }
    // a couple of listings and one full-index request
    v.push(listing_line("requests", "200", "11"));
    v.push(listing_line("requests", "304", ""));
    v.push(listing_line("flask", "200", "22"));
    v.push(line("h \"GET /simple/ HTTP/1.1\" 200 512 \"-\""));
    // noise that must be skipped
    v.push(line("garbage"));
    v.push(line("h \"GET /simple/requests/ HTTP/1.1\" 503 1 \"-\""));
    v
}

fn build_report() -> Report {
    let mut agg = Aggregator::new();
    let lines = scenario_lines();
    feed(&mut agg, &lines);
    rank(agg)
}

#[test]
fn size_weighted_average_is_exact() {
    let report = build_report();
    // counts 10 and 5, sizes 100 and 200: (10*100 + 5*200) / 15
    assert_eq!(report.package_total(), 15);
    assert_eq!(report.weighted_total(), Some(2000));
    let (num, den) = report.average_parts().expect("average must be defined");
    assert_eq!((num, den), (2000, 15));
    let avg = num as f64 / den as f64;
    assert!((avg - 133.333333).abs() < 0.001);
}

#[test]
fn average_is_undefined_without_package_requests() {
    let mut agg = Aggregator::new();
    assert!(agg.observe(&listing_line("requests", "200", "11")));
    let report = rank(agg);
    assert_eq!(report.average_parts(), None);
}

#[test]
fn ranking_is_descending_by_count_with_name_tie_break() {
    let mut agg = Aggregator::new();
    for _ in 0..3 {
        agg.observe(&listing_line("zeta", "200", "1"));
    }
    for _ in 0..3 {
        agg.observe(&listing_line("alpha", "200", "1"));
    }
    for _ in 0..7 {
        agg.observe(&listing_line("mid", "200", "1"));
    }
    agg.observe(&listing_line("solo", "200", "1"));
    let report = rank(agg);
    let order: Vec<(u64, Vec<u8>)> =
        report.listings.iter().map(|e| (e.0, e.1.name.clone())).collect();
    assert_eq!(
        order,
        vec![
            (7, b"mid".to_vec()),
            (3, b"alpha".to_vec()),
            (3, b"zeta".to_vec()),
            (1, b"solo".to_vec()),
        ]
    );
}

#[test]
fn package_ranking_carries_sizes_and_unknowns() {
    let report = build_report();
    let entries: Vec<(u64, Vec<u8>, Option<u64>)> =
        report.packages.iter().map(|e| (e.0, e.1.package.clone(), e.2)).collect();
    assert_eq!(
        entries,
        vec![(10, b"a-1.tar.gz".to_vec(), Some(100)), (5, b"b-1.tar.gz".to_vec(), Some(200))]
    );
    let listings: Vec<(u64, Vec<u8>)> =
        report.listings.iter().map(|e| (e.0, e.1.name.clone())).collect();
    assert_eq!(listings, vec![(2, b"requests".to_vec()), (1, b"flask".to_vec())]);
    assert_eq!(report.full_index_count, 1);
    assert_eq!(report.listing_total(), 3);
    assert_eq!(report.listing_distinct_total(), 2);
    assert_eq!(report.package_distinct_total(), 2);
}

#[test]
fn cached_only_package_ranks_with_unknown_size() {
    let mut agg = Aggregator::new();
    agg.observe(&download_line("never-fresh.whl", "304", ""));
    agg.observe(&download_line("never-fresh.whl", "304", ""));
    let report = rank(agg);
    assert_eq!(report.packages.len(), 1);
    assert_eq!(report.packages[0].0, 2);
    assert_eq!(report.packages[0].2, None);
    // an unknown size weighs nothing, so the average is 0 over 2
    assert_eq!(report.average_parts(), Some((0, 2)));
}

#[test]
fn run_pipeline_matches_manual_observe_loop() {
    let lines = scenario_lines();
    let report = run_pipeline(&lines);
    let manual = build_report();
    assert_eq!(report.full_index_count, manual.full_index_count);
    assert_eq!(report.listings.len(), manual.listings.len());
    assert_eq!(report.packages.len(), manual.packages.len());
    assert_eq!(report.average_parts(), manual.average_parts());
}

#[test]
fn rerunning_the_pipeline_reproduces_the_report() {
    let r1 = build_report();
    let r2 = build_report();
    assert_eq!(r1.full_index_count, r2.full_index_count);
    let l1: Vec<(u64, Vec<u8>)> = r1.listings.iter().map(|e| (e.0, e.1.name.clone())).collect();
    let l2: Vec<(u64, Vec<u8>)> = r2.listings.iter().map(|e| (e.0, e.1.name.clone())).collect();
    assert_eq!(l1, l2);
    let p1: Vec<(u64, Vec<u8>, Vec<u8>, Vec<u8>, Vec<u8>, Option<u64>)> = r1
        .packages
        .iter()
        .map(|e| {
            (e.0, e.1.seg_1.clone(), e.1.seg_2.clone(), e.1.seg_3.clone(), e.1.package.clone(), e.2)
        })
        .collect();
    let p2: Vec<(u64, Vec<u8>, Vec<u8>, Vec<u8>, Vec<u8>, Option<u64>)> = r2
        .packages
        .iter()
        .map(|e| {
            (e.0, e.1.seg_1.clone(), e.1.seg_2.clone(), e.1.seg_3.clone(), e.1.package.clone(), e.2)
        })
        .collect();
    assert_eq!(p1, p2);
    assert_eq!(r1.listing_total(), r2.listing_total());
    assert_eq!(r1.package_total(), r2.package_total());
    assert_eq!(r1.weighted_total(), r2.weighted_total());
    assert_eq!(r1.average_parts(), r2.average_parts());
}
