use heater::classify::{cache_hit, classify, contains_key, uncovered_vary_headers, Response};
use heater::header::{is_blank_text, is_text, HeaderVariation};
use heater::report::Outcome;

fn sent(names: &[&str]) -> Vec<HeaderVariation> {
    names
        .iter()
        .map(|n| HeaderVariation {
            header: n.to_string(),
            value: "x".to_string(),
        })
        .collect()
}

fn vary(values: &[&str]) -> Vec<Vec<u8>> {
    values.iter().map(|v| v.as_bytes().to_vec()).collect()
}

#[test]
fn cache_hit_upper_case() {
    assert_eq!(cache_hit(&Some(b"HIT".to_vec())), Some(true));
}

#[test]
fn cache_miss_upper_case() {
    assert_eq!(cache_hit(&Some(b"MISS".to_vec())), Some(false));
}

#[test]
fn cache_unknown_without_header() {
    assert_eq!(cache_hit(&None), None);
}

#[test]
fn cache_hit_reads_three_characters_in_either_case() {
    assert_eq!(cache_hit(&Some(b"hit".to_vec())), Some(true));
    assert_eq!(cache_hit(&Some(b"Hit from cloudfront".to_vec())), Some(true));
    assert_eq!(cache_hit(&Some(b"hItS".to_vec())), Some(true));
    assert_eq!(cache_hit(&Some(b" HIT".to_vec())), Some(false));
    assert_eq!(cache_hit(&Some(b"TCP_HIT".to_vec())), Some(false));
}

#[test]
fn cache_miss_for_short_values() {
    assert_eq!(cache_hit(&Some(b"".to_vec())), Some(false));
    assert_eq!(cache_hit(&Some(b"hi".to_vec())), Some(false));
}

#[test]
fn cache_unknown_for_values_that_are_no_text() {
    assert_eq!(cache_hit(&Some(vec![b'H', b'I', b'T', 0xe9])), None);
    assert_eq!(cache_hit(&Some(vec![b'H', b'I', b'T', 0x7f])), None);
    assert_eq!(cache_hit(&Some(vec![b'H', b'I', b'T', 0x0a])), None);
    assert_eq!(cache_hit(&Some(vec![b'H', b'I', b'T', 0x09])), Some(true));
}

#[test]
fn vary_one_header_uncovered() {
    let found = uncovered_vary_headers(
        &vary(&["Accept-Encoding, X-Custom"]),
        &sent(&["accept-encoding"]),
    );
    assert_eq!(found, vec!["x-custom"]);
}

#[test]
fn vary_all_headers_covered() {
    let found = uncovered_vary_headers(
        &vary(&["Accept-Encoding, X-Custom"]),
        &sent(&["accept-encoding", "x-custom"]),
    );
    assert_eq!(found, Vec::<String>::new());
}

#[test]
fn vary_without_header() {
    assert_eq!(
        uncovered_vary_headers(&vary(&[]), &sent(&["user-agent"])),
        Vec::<String>::new()
    );
}

#[test]
fn vary_skips_what_is_no_header_name() {
    let found = uncovered_vary_headers(
        &vary(&["a b, ,x-one,,\tx-two \t, x(three), *"]),
        &sent(&[]),
    );
    assert_eq!(found, vec!["x-one", "x-two", "*"]);
}

#[test]
fn vary_names_each_header_once_over_all_values() {
    let found = uncovered_vary_headers(
        &vary(&["X-One, x-two", "X-TWO,x-three", "x-one"]),
        &sent(&["x-three"]),
    );
    assert_eq!(found, vec!["x-one", "x-two"]);
}

#[test]
fn vary_skips_values_that_are_no_text() {
    let values = vec![
        vec![b'x', b'-', b'a', 0xff],
        b"x-b".to_vec(),
        vec![b'x', b'-', b'c', 0x00],
    ];
    assert_eq!(uncovered_vary_headers(&values, &sent(&[])), vec!["x-b"]);
}

#[test]
fn vary_keeps_inner_spaces_as_part_of_the_token() {
    assert_eq!(
        uncovered_vary_headers(&vary(&["  x-a  ,x b"]), &sent(&[])),
        vec!["x-a"]
    );
}

#[test]
fn header_set_lookup() {
    let set = sent(&["accept-encoding", "user-agent"]);
    assert!(contains_key(&set, &"user-agent".to_string()));
    assert!(!contains_key(&set, &"x-custom".to_string()));
    assert!(!contains_key(&Vec::new(), &"user-agent".to_string()));
}

#[test]
fn classify_takes_status_and_time_as_they_are() {
    let response = Response {
        status: 404,
        x_cache: Some(b"Miss from edge".to_vec()),
        vary: vary(&["Accept-Language"]),
    };
    let (outcome, names) = classify(&response, 1234, &sent(&["user-agent"]));
    assert_eq!(
        outcome,
        Outcome {
            status: 404,
            cache_hit: Some(false),
            elapsed_ms: 1234
        }
    );
    assert_eq!(names, vec!["accept-language"]);
}

#[test]
fn classify_unknown_cache_state() {
    let response = Response {
        status: 200,
        x_cache: None,
        vary: Vec::new(),
    };
    let (outcome, names) = classify(&response, 0, &sent(&[]));
    assert_eq!(
        outcome,
        Outcome {
            status: 200,
            cache_hit: None,
            elapsed_ms: 0
        }
    );
    assert!(names.is_empty());
}

#[test]
fn header_text() {
    assert!(is_text(""));
    assert!(is_text("de-CH, en;q=0.8\t~"));
    assert!(!is_text("caf\u{e9}"));
    assert!(!is_text("a\nb"));
    assert!(!is_text("a\u{7f}"));
}

#[test]
fn blank_text() {
    assert!(is_blank_text(""));
    assert!(is_blank_text(" \t "));
    assert!(!is_blank_text(" a "));
    assert!(!is_blank_text(" \u{a0} "));
}
