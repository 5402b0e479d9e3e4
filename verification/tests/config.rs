use heater::config::Config;
use heater::header::{parse_header, Error, HeaderVariation, APP_USER_AGENT};

fn hm(tuples: &[(&str, &str)]) -> Vec<HeaderVariation> {
    tuples
        .iter()
        .map(|(h, v)| HeaderVariation {
            header: h.to_string(),
            value: v.to_string(),
        })
        .collect()
}

fn language_axis(input: &[&str]) -> Vec<String> {
    let mut cfg = Config::new();
    for l in input {
        cfg.add_language_variation(l);
    }
    assert!(cfg.variations_fit());
    cfg.generate_language_variations()
}

fn check_languages(input: &[&str], expected: &[&str]) {
    let mut cfg = Config::new();
    for l in input {
        cfg.add_language_variation(l);
    }
    assert!(cfg.variations_fit());

    assert_eq!(cfg.generate_language_variations().len(), expected.len());

    let mut found = cfg.generate_language_variations();
    found.sort();
    let mut wanted: Vec<String> = expected.iter().map(|v| v.to_string()).collect();
    wanted.sort();
    assert_eq!(found, wanted);

    assert_eq!(
        cfg.generate_header_variations().len() as u64,
        cfg.possible_variations()
    );

    let mut header_values: Vec<String> = cfg
        .generate_header_variations()
        .iter()
        .map(|set| {
            set.iter()
                .find(|h| h.header == "accept-language")
                .unwrap()
                .value
                .clone()
        })
        .collect();
    header_values.sort();
    assert_eq!(header_values, wanted);
}

#[test]
fn user_agent() {
    assert!(APP_USER_AGENT.contains("heater"));
    assert_eq!(APP_USER_AGENT.chars().filter(|&c| c == '.').count(), 2);
}

#[test]
fn header_validation_err_empty() {
    assert!(parse_header("").is_err());
    assert_eq!(parse_header(""), Err(Error::InvalidHeaderName));
}

#[test]
fn header_validation_err_only_colon() {
    assert!(parse_header(":").is_err());
    assert_eq!(parse_header(":"), Err(Error::InvalidHeaderName));
}

#[test]
fn header_validation_err_spaces() {
    assert!(parse_header("a test with space:value ").is_err());
    assert_eq!(
        parse_header("a test with space:value "),
        Err(Error::InvalidHeaderName)
    );
}

#[test]
fn header_validation_err_missing_value() {
    assert_eq!(parse_header("accept-language"), Err(Error::MissingHeaderValue));
}

#[test]
fn header_validation_err_invalid_value() {
    assert_eq!(parse_header("x-test:a\u{7f}b"), Err(Error::InvalidHeaderValue));
    assert_eq!(parse_header("x-test:a\nb"), Err(Error::InvalidHeaderValue));
}

#[test]
fn header_validation_ok_value() {
    assert_eq!(
        parse_header("accept-language:value").unwrap(),
        HeaderVariation {
            header: "accept-language".to_string(),
            value: "value".to_string()
        }
    );
}

#[test]
fn header_validation_ok_value_with_space() {
    assert_eq!(
        parse_header("accept-language:value with space").unwrap(),
        HeaderVariation {
            header: "accept-language".to_string(),
            value: "value with space".to_string()
        }
    );
}

#[test]
fn header_validation_ok_empty_value() {
    assert_eq!(
        parse_header("accept-language-empty:").unwrap(),
        HeaderVariation {
            header: "accept-language-empty".to_string(),
            value: "".to_string()
        }
    );
}

#[test]
fn header_validation_lower_case_and_later_colons() {
    assert_eq!(
        parse_header("X-Custom:a:b\tc").unwrap(),
        HeaderVariation {
            header: "x-custom".to_string(),
            value: "a:b\tc".to_string()
        }
    );
}

#[test]
fn header_validation_name_length() {
    let longest = "a".repeat(65535);
    assert!(parse_header(&format!("{}:v", longest)).is_ok());
    let too_long = "a".repeat(65536);
    assert_eq!(
        parse_header(&format!("{}:v", too_long)),
        Err(Error::InvalidHeaderName)
    );
}

#[test]
fn header_validation_value_beyond_ascii() {
    assert_eq!(
        parse_header("x-test:caf\u{e9}").unwrap(),
        HeaderVariation {
            header: "x-test".to_string(),
            value: "caf\u{e9}".to_string()
        }
    );
    assert_eq!(parse_header("caf\u{e9}:x"), Err(Error::InvalidHeaderName));
}

#[test]
fn error_messages() {
    assert_eq!(Error::MissingHeaderName.message(), "missing header name");
    assert_eq!(Error::InvalidHeaderName.message(), "invalid header name");
    assert_eq!(Error::MissingHeaderValue.message(), "missing header value");
    assert_eq!(Error::InvalidHeaderValue.message(), "invalid header value");
}

#[test]
fn variations_empty() {
    let cfg = Config::new();
    assert_eq!(cfg.possible_variations(), 1);

    let var: Vec<_> = cfg.generate_header_variations();
    assert_eq!(var.len() as u64, cfg.possible_variations());
    assert_eq!(var.len(), 1);

    assert_eq!(var[..], [hm(&[("user-agent", APP_USER_AGENT),])]);
}

#[test]
fn variations_two_headers_one_value() {
    let mut cfg = Config::new();
    cfg.add_header_variation("testheader", "testvalue");
    cfg.add_header_variation("testheader2", "testvalue2");

    let var: Vec<_> = cfg.generate_header_variations();
    assert_eq!(var.len() as u64, cfg.possible_variations());

    assert_eq!(
        var[..],
        [hm(&[
            ("testheader", "testvalue"),
            ("testheader2", "testvalue2"),
            ("user-agent", APP_USER_AGENT),
        ])]
    );
}

#[test]
fn language_variations_empty() {
    check_languages(&[""], &[""]);
}

#[test]
fn language_variations_de() {
    check_languages(&["de"], &["de"]);
}

#[test]
fn language_variations_de_and_empty() {
    check_languages(&["", "de"], &["", "de"]);
}

#[test]
fn language_variations_de_en() {
    check_languages(&["de", "en"], &["en", "de, en", "en, de", "de"]);
}

#[test]
fn language_variations_de_en_empty() {
    check_languages(&["", "de", "en"], &["", "en", "de, en", "en, de", "de"]);
}

#[test]
fn language_variations_order() {
    assert_eq!(
        language_axis(&["en", "", "de"]),
        vec!["", "de", "de, en", "en, de", "en"]
    );
}

#[test]
fn language_variations_three_tags_each_once() {
    let found = language_axis(&["fr", "de", "en"]);
    assert_eq!(
        found,
        vec![
            "de",
            "de, en",
            "de, fr",
            "de, en, fr",
            "de, fr, en",
            "en, de",
            "en, de, fr",
            "en",
            "en, fr",
            "en, fr, de",
            "fr, de",
            "fr, de, en",
            "fr, en, de",
            "fr, en",
            "fr",
        ]
    );
}

#[test]
fn language_variations_blank_tags_are_one_empty_value() {
    assert_eq!(language_axis(&[" ", "", "\t"]), vec![""]);
}

#[test]
fn language_variations_duplicate_tag() {
    assert_eq!(language_axis(&["de", "de"]), vec!["de"]);
}

#[test]
fn language_variations_none() {
    assert_eq!(language_axis(&[]), Vec::<String>::new());
}

#[test]
fn variations_two_headers_two_values() {
    let mut cfg = Config::new();
    cfg.add_header_variation("testheader1", "testvalue1_1");
    cfg.add_header_variation("testheader1", "testvalue1_2");
    cfg.add_header_variation("testheader2", "testvalue2_1");
    cfg.add_header_variation("testheader2", "testvalue2_2");

    let var: Vec<_> = cfg.generate_header_variations();
    assert_eq!(var.len() as u64, cfg.possible_variations());

    let expected = [
        hm(&[
            ("testheader1", "testvalue1_1"),
            ("testheader2", "testvalue2_1"),
            ("user-agent", APP_USER_AGENT),
        ]),
        hm(&[
            ("testheader1", "testvalue1_1"),
            ("testheader2", "testvalue2_2"),
            ("user-agent", APP_USER_AGENT),
        ]),
        hm(&[
            ("testheader1", "testvalue1_2"),
            ("testheader2", "testvalue2_1"),
            ("user-agent", APP_USER_AGENT),
        ]),
        hm(&[
            ("testheader1", "testvalue1_2"),
            ("testheader2", "testvalue2_2"),
            ("user-agent", APP_USER_AGENT),
        ]),
    ];

    assert_eq!(var.len(), expected.len());
    for (i, hm) in var.iter().enumerate() {
        assert_eq!(expected[i], *hm);
    }
}

#[test]
fn generating_twice_gives_the_same_sets() {
    let mut cfg = Config::new();
    cfg.add_header_variation("x-b", "2");
    cfg.add_header_variation("x-a", "1");
    cfg.add_header_variation("x-b", "1");
    cfg.add_language_variation("en");
    cfg.add_language_variation("de");
    let mut first = cfg.generate_header_variations();
    let mut second = cfg.generate_header_variations();
    assert_eq!(first, second);
    let key = |set: &Vec<HeaderVariation>| -> Vec<(String, String)> {
        set.iter().map(|h| (h.header.clone(), h.value.clone())).collect()
    };
    first.sort_by_key(key);
    second.sort_by_key(key);
    assert_eq!(first, second);
    assert_eq!(first.len(), 8);
    first.dedup();
    assert_eq!(first.len(), 8);
}

#[test]
fn count_is_the_product_of_the_numbers_of_values() {
    let mut cfg = Config::new();
    for v in ["1", "2", "3"] {
        cfg.add_header_variation("x-a", v);
    }
    for v in ["1", "2", "3", "4", "5"] {
        cfg.add_header_variation("x-b", v);
    }
    cfg.add_header_variation("x-b", "3");
    assert_eq!(cfg.possible_variations(), 15);
    let sets = cfg.generate_header_variations();
    assert_eq!(sets.len(), 15);
    for a in ["1", "2", "3"] {
        for b in ["1", "2", "3", "4", "5"] {
            let wanted = hm(&[("x-a", a), ("x-b", b), ("user-agent", APP_USER_AGENT)]);
            assert_eq!(sets.iter().filter(|s| **s == wanted).count(), 1);
        }
    }
}

#[test]
fn header_names_are_stored_in_lower_case() {
    let mut cfg = Config::new();
    cfg.add_header_variation("X-Custom", "Value");
    cfg.add_header_variation("x-custom", "Value");
    cfg.add_header_variation("x-CUSTOM", "value");
    assert_eq!(
        cfg.generate_header_variations(),
        vec![
            hm(&[("x-custom", "Value"), ("user-agent", APP_USER_AGENT)]),
            hm(&[("x-custom", "value"), ("user-agent", APP_USER_AGENT)]),
        ]
    );
}
