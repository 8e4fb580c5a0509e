use tagmax::aggregate::{MajorMinorKey, VersionAggregator};
use tagmax::fetch::{FetchError, FetchOutcome, Page, PageBody, PaginatedTagSource, Step};
use tagmax::tags::parse_tag;
use tagmax::version::{Cmp, Version};

fn v(s: &str) -> Version {
    parse_tag(s).expect("tag should parse")
}

fn page(next: Option<&str>, names: &[&str]) -> PageBody {
    PageBody::Page(Page {
        next: next.map(|s| s.to_string()),
        names: names.iter().map(|s| s.to_string()).collect(),
    })
}

#[test]
fn parse_tag_reads_all_fields() {
    let p = v("1.2.3");
    assert_eq!(p.major, 1);
    assert_eq!(p.minor, 2);
    assert_eq!(p.patch, 3);
    assert!(p.pre.is_empty());
    assert!(p.build.is_empty());
    let q = v("2.0.0-rc1");
    assert_eq!(q.major, 2);
    assert_eq!(q.minor, 0);
    assert_eq!(q.patch, 0);
    assert_eq!(q.pre, b"rc1".to_vec());
    let r = v("v1.4");
    assert_eq!((r.major, r.minor, r.patch), (1, 4, 0));
    assert!(parse_tag("garbage").is_none());
    assert!(parse_tag("").is_none());
}

#[test]
fn version_order_follows_semver_precedence() {
    assert!(matches!(v("1.2.0").compare(&v("1.2.5")), Cmp::Lt));
    assert!(matches!(v("1.2.5").compare(&v("1.2.0")), Cmp::Gt));
    assert!(matches!(v("1.9.0").compare(&v("2.0.0")), Cmp::Lt));
    assert!(matches!(v("2.0.0-rc1").compare(&v("2.0.0")), Cmp::Lt));
    assert!(matches!(v("1.0.0-9").compare(&v("1.0.0-10")), Cmp::Lt));
    assert!(matches!(v("1.0.0-1").compare(&v("1.0.0-alpha")), Cmp::Lt));
    assert!(matches!(v("1.0.0-alpha").compare(&v("1.0.0-alpha.1")), Cmp::Lt));
    assert!(matches!(v("1.0.0-alpha.1").compare(&v("1.0.0-beta")), Cmp::Lt));
    assert!(matches!(v("1.2.3").compare(&v("1.2.3")), Cmp::Eq));
}

#[test]
fn build_metadata_breaks_ties() {
    assert!(matches!(v("1.0.0").compare(&v("1.0.0+1")), Cmp::Lt));
    assert!(matches!(v("1.0.0+1").compare(&v("1.0.0+2")), Cmp::Lt));
    assert!(matches!(v("1.0.0+2").compare(&v("1.0.0+10")), Cmp::Lt));
    assert!(matches!(v("1.0.0+5").compare(&v("1.0.0+5")), Cmp::Eq));
}

#[test]
fn aggregator_keeps_max_per_line() {
    let mut agg = VersionAggregator::new();
    let mut skipped = 0;
    for t in ["1.2.0", "1.2.5", "1.3.0", "2.0.0-rc1", "2.0.0", "garbage"] {
        match parse_tag(t) {
            Some(ver) => agg.insert(ver),
            None => skipped += 1,
        }
    }
    assert_eq!(skipped, 1);
    let snap = agg.snapshot();
    assert_eq!(snap.len(), 3);
    assert_eq!(snap[0].0, MajorMinorKey { major: 1, minor: 2 });
    assert_eq!((snap[0].1.major, snap[0].1.minor, snap[0].1.patch), (1, 2, 5));
    assert_eq!(snap[1].0, MajorMinorKey { major: 1, minor: 3 });
    assert_eq!((snap[1].1.major, snap[1].1.minor, snap[1].1.patch), (1, 3, 0));
    assert_eq!(snap[2].0, MajorMinorKey { major: 2, minor: 0 });
    assert_eq!((snap[2].1.major, snap[2].1.minor, snap[2].1.patch), (2, 0, 0));
    assert!(snap[2].1.pre.is_empty());
}

#[test]
fn aggregation_is_order_independent() {
    let tags = ["1.2.0", "2.0.0", "1.2.5", "1.3.0", "2.0.0-rc1", "1.2.1"];
    let mut forward = VersionAggregator::new();
    for t in tags {
        forward.insert(v(t));
    }
    let mut backward = VersionAggregator::new();
    for t in tags.iter().rev() {
        backward.insert(v(t));
    }
    let a = forward.snapshot();
    let b = backward.snapshot();
    assert_eq!(a.len(), b.len());
    for i in 0..a.len() {
        assert_eq!(a[i].0, b[i].0);
        assert!(matches!(a[i].1.compare(&b[i].1), Cmp::Eq));
    }
}

#[test]
fn first_request_url_shape() {
    let mut src = PaginatedTagSource::new("hub.docker.com", "library", "redis");
    match src.next_step() {
        Step::Fetch(url) => assert_eq!(
            url,
            "https://hub.docker.com/v2/namespaces/library/repositories/redis/tags?page_size=100"
        ),
        _ => panic!("a fresh source must ask for the first page"),
    }
}

#[test]
fn source_emits_every_page_name_once_in_order() {
    let mut src = PaginatedTagSource::new("example.test", "ns", "repo");
    let pages = [
        (Some("https://example.test/page2"), vec!["1.2.0", "1.2.5", "1.3.0", "2.0.0-rc1"]),
        (None, vec!["2.0.0", "garbage"]),
    ];
    let mut fetched = 0;
    let mut emitted: Vec<String> = Vec::new();
    loop {
        match src.next_step() {
            Step::Yield(name) => emitted.push(name),
            Step::Done => break,
            Step::Fetch(_url) => {
                let (next, names) = &pages[fetched];
                fetched += 1;
                let out = src.on_response(200, None, page(*next, names), 0);
                assert!(matches!(out, FetchOutcome::Ready));
            }
        }
    }
    assert_eq!(fetched, 2);
    let expected: Vec<String> =
        ["1.2.0", "1.2.5", "1.3.0", "2.0.0-rc1", "2.0.0", "garbage"].iter().map(|s| s.to_string()).collect();
    assert_eq!(emitted, expected);
}

#[test]
fn two_page_listing_aggregates_to_expected_lines() {
    let mut src = PaginatedTagSource::new("example.test", "ns", "repo");
    let pages = [
        (Some("https://example.test/page2"), vec!["1.2.0", "1.2.5", "1.3.0", "2.0.0-rc1"]),
        (None, vec!["2.0.0", "garbage"]),
    ];
    let mut fetched = 0;
    let mut agg = VersionAggregator::new();
    let mut skipped: Vec<String> = Vec::new();
    loop {
        match src.next_step() {
            Step::Yield(name) => match parse_tag(&name) {
                Some(ver) => agg.insert(ver),
                None => skipped.push(name),
            },
            Step::Done => break,
            Step::Fetch(_url) => {
                let (next, names) = &pages[fetched];
                fetched += 1;
                let out = src.on_response(200, None, page(*next, names), 0);
                assert!(matches!(out, FetchOutcome::Ready));
            }
        }
    }
    assert_eq!(skipped, vec!["garbage".to_string()]);
    let snap = agg.snapshot();
    let shown: Vec<(String, String)> = snap
        .iter()
        .map(|(k, ver)| {
            (format!("{}.{}", k.major, k.minor), format!("{}.{}.{}", ver.major, ver.minor, ver.patch))
        })
        .collect();
    assert_eq!(
        shown,
        vec![
            ("1.2".to_string(), "1.2.5".to_string()),
            ("1.3".to_string(), "1.3.0".to_string()),
            ("2.0".to_string(), "2.0.0".to_string()),
        ]
    );
}

#[test]
fn empty_single_page_yields_empty_snapshot() {
    let mut src = PaginatedTagSource::new("example.test", "ns", "repo");
    let mut agg = VersionAggregator::new();
    match src.next_step() {
        Step::Fetch(_) => {
            let out = src.on_response(200, None, page(None, &[]), 0);
            assert!(matches!(out, FetchOutcome::Ready));
        }
        _ => panic!("a fresh source must fetch first"),
    }
    assert!(matches!(src.next_step(), Step::Done));
    assert!(agg.snapshot().is_empty());
}

#[test]
fn past_retry_time_means_zero_wait() {
    let mut src = PaginatedTagSource::new("h", "n", "r");
    assert!(matches!(src.next_step(), Step::Fetch(_)));
    let out = src.on_response(429, Some(b"100".to_vec()), PageBody::Invalid(String::new()), 500);
    match out {
        FetchOutcome::Retry { wait_seconds } => assert_eq!(wait_seconds, 0),
        _ => panic!("throttling with a readable header must retry"),
    }
    let out = src.on_response(429, Some(b"500".to_vec()), PageBody::Invalid(String::new()), 500);
    match out {
        FetchOutcome::Retry { wait_seconds } => assert_eq!(wait_seconds, 0),
        _ => panic!("an exactly-now retry time must not sleep"),
    }
    let out = src.on_response(429, Some(b"650".to_vec()), PageBody::Invalid(String::new()), 500);
    match out {
        FetchOutcome::Retry { wait_seconds } => assert_eq!(wait_seconds, 150),
        _ => panic!("a future retry time must wait out the difference"),
    }
}

#[test]
fn missing_retry_header_is_fatal_and_final() {
    let mut src = PaginatedTagSource::new("h", "n", "r");
    assert!(matches!(src.next_step(), Step::Fetch(_)));
    let out = src.on_response(429, None, PageBody::Invalid(String::new()), 0);
    assert!(matches!(out, FetchOutcome::Fatal(FetchError::MissingRetryHeader)));
    assert!(matches!(src.next_step(), Step::Done));
    assert!(matches!(src.next_step(), Step::Done));
}

#[test]
fn unreadable_retry_header_is_fatal() {
    let mut src = PaginatedTagSource::new("h", "n", "r");
    assert!(matches!(src.next_step(), Step::Fetch(_)));
    let out = src.on_response(429, Some(b"soon".to_vec()), PageBody::Invalid(String::new()), 0);
    match out {
        FetchOutcome::Fatal(FetchError::BadRetryHeader(h)) => assert_eq!(h, b"soon".to_vec()),
        _ => panic!("a non-numeric retry header must be fatal"),
    }
    assert!(matches!(src.next_step(), Step::Done));
}

#[test]
fn overflowing_retry_header_is_fatal() {
    let mut src = PaginatedTagSource::new("h", "n", "r");
    assert!(matches!(src.next_step(), Step::Fetch(_)));
    let out = src.on_response(
        429,
        Some(b"99999999999999999999999999".to_vec()),
        PageBody::Invalid(String::new()),
        0,
    );
    assert!(matches!(out, FetchOutcome::Fatal(FetchError::BadRetryHeader(_))));
}

#[test]
fn signed_retry_headers_parse() {
    let mut src = PaginatedTagSource::new("h", "n", "r");
    assert!(matches!(src.next_step(), Step::Fetch(_)));
    let out = src.on_response(429, Some(b"+700".to_vec()), PageBody::Invalid(String::new()), 500);
    match out {
        FetchOutcome::Retry { wait_seconds } => assert_eq!(wait_seconds, 200),
        _ => panic!("a plus-signed retry header must parse"),
    }
    let out = src.on_response(429, Some(b"-5".to_vec()), PageBody::Invalid(String::new()), 500);
    match out {
        FetchOutcome::Retry { wait_seconds } => assert_eq!(wait_seconds, 0),
        _ => panic!("a negative epoch timestamp is in the past"),
    }
}

#[test]
fn fatal_status_aborts() {
    let mut src = PaginatedTagSource::new("h", "n", "r");
    assert!(matches!(src.next_step(), Step::Fetch(_)));
    let out = src.on_response(500, None, PageBody::Invalid(String::new()), 0);
    assert!(matches!(out, FetchOutcome::Fatal(FetchError::Status(500))));
    assert!(matches!(src.next_step(), Step::Done));
}

#[test]
fn malformed_body_aborts() {
    let mut src = PaginatedTagSource::new("h", "n", "r");
    assert!(matches!(src.next_step(), Step::Fetch(_)));
    let out = src.on_response(200, None, PageBody::Invalid("not a page".to_string()), 0);
    match out {
        FetchOutcome::Fatal(FetchError::MalformedBody(m)) => assert_eq!(m, "not a page"),
        _ => panic!("an undecodable body must be fatal"),
    }
    assert!(matches!(src.next_step(), Step::Done));
}

#[test]
fn transport_failure_aborts() {
    let mut src = PaginatedTagSource::new("h", "n", "r");
    assert!(matches!(src.next_step(), Step::Fetch(_)));
    let out = src.on_transport_failure("connection refused".to_string());
    match out {
        FetchOutcome::Fatal(FetchError::Transport(m)) => assert_eq!(m, "connection refused"),
        _ => panic!("a transport failure must be fatal"),
    }
    assert!(matches!(src.next_step(), Step::Done));
}

#[test]
fn lenient_grammar_quirks() {
    let short = v("1");
    assert_eq!((short.major, short.minor, short.patch), (1, 0, 0));
    let dotted = v("1.2.3.Final");
    assert_eq!((dotted.major, dotted.minor, dotted.patch), (1, 2, 3));
    assert!(dotted.pre.is_empty());
    assert_eq!(dotted.build, b"Final".to_vec());
}

#[test]
fn equal_precedence_keeps_greater_build() {
    let mut agg = VersionAggregator::new();
    agg.insert(v("1.0.0+2"));
    agg.insert(v("1.0.0+10"));
    agg.insert(v("1.0.0+1"));
    let snap = agg.snapshot();
    assert_eq!(snap.len(), 1);
    assert_eq!(snap[0].1.build, b"10".to_vec());
}
