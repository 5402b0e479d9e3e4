use heater::classify::Response;
use heater::config::Config;
use heater::header::{HeaderVariation, APP_USER_AGENT};
use heater::heater::{Action, Heater, WorkItem};
use heater::report::{AggregateReport, Outcome, MAX_ELAPSED_MS};

fn plain(status: u16) -> Response {
    Response {
        status,
        x_cache: None,
        vary: Vec::new(),
    }
}

fn send(heater: &mut Heater) -> WorkItem {
    match heater.next_action() {
        Action::Send(item) => item,
        other => panic!("expected a request, got {:?}", other),
    }
}

fn header(name: &str, value: &str) -> HeaderVariation {
    HeaderVariation {
        header: name.to_string(),
        value: value.to_string(),
    }
}

fn heat_one_page(config: &Config, response: Response) -> (WorkItem, AggregateReport) {
    let mut heater = Heater::new(config, vec!["http://localhost/dummy.xml".to_string()]);
    assert_eq!(heater.work_count(), 1);
    let item = send(&mut heater);
    assert!(matches!(heater.next_action(), Action::Wait));
    heater.complete(item.index, Some(&response), 3);
    assert!(matches!(heater.next_action(), Action::Done));
    (item, heater.finish())
}

#[test]
fn empty_list() {
    let config = Config::new();
    let mut heater = Heater::new(&config, Vec::new());
    assert_eq!(heater.work_count(), 0);
    assert!(matches!(heater.next_action(), Action::Done));
    let report = heater.finish();
    assert_eq!(report.statuses().len(), 0);
    assert_eq!(report.cache_hits().len(), 0);
    assert_eq!(report.failures(), 0);
}

#[test]
fn heat_single_page_simple() {
    let config = Config::new();
    let (item, report) = heat_one_page(&config, plain(200));

    assert_eq!(item.url, "http://localhost/dummy.xml");
    let statuses = report.statuses();
    let cdn = report.cache_hits();
    assert_eq!(statuses.len(), 1);
    assert_eq!(statuses.get(&200), Some(&1));
    assert_eq!(cdn.len(), 1);
    assert_eq!(cdn.get(&None), Some(&1));
}

fn heat_single_page_cdn_case(header_value: &str, expected: bool) {
    let config = Config::new();
    let response = Response {
        status: 200,
        x_cache: Some(header_value.as_bytes().to_vec()),
        vary: Vec::new(),
    };
    let (_, report) = heat_one_page(&config, response);
    let statuses = report.statuses();
    let cdn = report.cache_hits();

    assert_eq!(statuses.len(), 1);
    assert_eq!(statuses.get(&200), Some(&1));
    assert_eq!(cdn.len(), 1);
    assert_eq!(cdn.get(&Some(expected)), Some(&1));
}

#[test]
fn heat_single_page_cdn() {
    heat_single_page_cdn_case("HIT", true);
    heat_single_page_cdn_case("MISS", false);
}

#[test]
fn heat_single_page_with_headers() {
    let mut config = Config::new();
    config.add_header_variation("dummyheader", "dummyvalue");

    let (item, report) = heat_one_page(&config, plain(200));

    assert_eq!(
        item.headers,
        vec![
            header("dummyheader", "dummyvalue"),
            header("user-agent", APP_USER_AGENT),
        ]
    );
    let statuses = report.statuses();
    let cdn = report.cache_hits();
    assert_eq!(statuses.len(), 1);
    assert_eq!(statuses.get(&200), Some(&1));
    assert_eq!(cdn.len(), 1);
    assert_eq!(cdn.get(&None), Some(&1));
}

#[test]
fn every_url_goes_out_with_every_header_set() {
    let mut config = Config::new();
    config.concurrent_requests = 4;
    config.add_header_variation("x-a", "1");
    config.add_header_variation("x-a", "2");
    config.add_language_variation("de");
    config.add_language_variation("en");
    let sets = config.generate_header_variations();
    assert_eq!(sets.len(), 8);
    let urls: Vec<String> = vec!["http://a/".into(), "http://b/".into(), "http://c/".into()];

    let mut heater = Heater::new(&config, urls.clone());
    assert_eq!(heater.work_count(), 24);
    let mut sent: Vec<WorkItem> = Vec::new();
    let mut under_way: Vec<usize> = Vec::new();
    let mut most = 0;
    loop {
        match heater.next_action() {
            Action::Send(item) => {
                under_way.push(item.index);
                most = most.max(under_way.len());
                sent.push(item);
            }
            Action::Wait => {
                let index = under_way.pop().unwrap();
                heater.complete(index, Some(&plain(200 + (index % 2) as u16)), index as u64);
            }
            Action::Done => break,
        }
    }
    assert_eq!(most, 4);
    assert_eq!(sent.len(), 24);
    for (i, item) in sent.iter().enumerate() {
        assert_eq!(item.index, i);
        assert_eq!(item.url, urls[i / 8]);
        assert_eq!(item.headers, sets[i % 8]);
    }
    let report = heater.finish();
    assert_eq!(report.statuses().total::<usize>(), 24);
    assert_eq!(report.statuses().get(&200), Some(&12));
    assert_eq!(report.statuses().get(&201), Some(&12));
    assert_eq!(report.cache_hits().get(&None), Some(&24));
    assert_eq!(report.latencies().as_slice().iter().sum::<u64>(), 24);
    assert_eq!(report.failures(), 0);
}

#[test]
fn one_request_at_a_time() {
    let mut config = Config::new();
    config.set_concurrent_requests(1);
    assert_eq!(config.concurrent_requests, 1);
    assert_eq!(config.concurrency_limit(), 1);
    let urls: Vec<String> = vec!["http://a/".into(), "http://b/".into()];
    let mut heater = Heater::new(&config, urls);
    let first = send(&mut heater);
    assert!(matches!(heater.next_action(), Action::Wait));
    assert!(matches!(heater.next_action(), Action::Wait));
    heater.complete(first.index, Some(&plain(200)), 1);
    let second = send(&mut heater);
    assert_eq!(second.url, "http://b/");
    heater.complete(second.index, Some(&plain(200)), 1);
    assert!(matches!(heater.next_action(), Action::Done));
    assert!(matches!(heater.next_action(), Action::Done));
}

#[test]
fn failed_requests_are_counted_and_the_run_goes_on() {
    let mut config = Config::new();
    config.concurrent_requests = 2;
    let urls: Vec<String> = vec!["http://a/".into(), "http://b/".into(), "http://c/".into()];
    let mut heater = Heater::new(&config, urls);
    let a = send(&mut heater);
    let b = send(&mut heater);
    assert!(matches!(heater.next_action(), Action::Wait));
    assert!(heater.complete(b.index, None, 0).is_empty());
    let c = send(&mut heater);
    heater.complete(a.index, Some(&plain(500)), 7);
    heater.complete(c.index, None, 0);
    assert!(matches!(heater.next_action(), Action::Done));
    let report = heater.finish();
    assert_eq!(report.failures(), 2);
    assert_eq!(report.statuses().total::<usize>(), 1);
    assert_eq!(report.statuses().get(&500), Some(&1));
    assert_eq!(report.cache_hits().total::<usize>(), 1);
    assert_eq!(report.latencies().as_slice().iter().sum::<u64>(), 1);
}

#[test]
fn each_uncovered_header_is_told_once_in_a_run() {
    let mut config = Config::new();
    config.concurrent_requests = 3;
    config.add_header_variation("accept-encoding", "gzip");
    let urls: Vec<String> = vec!["http://a/".into(), "http://b/".into(), "http://c/".into()];
    let mut heater = Heater::new(&config, urls);
    let a = send(&mut heater);
    let b = send(&mut heater);
    let c = send(&mut heater);
    let varied = |names: &str| Response {
        status: 200,
        x_cache: None,
        vary: vec![names.as_bytes().to_vec()],
    };
    assert_eq!(
        heater.complete(a.index, Some(&varied("Accept-Encoding, X-Custom")), 1),
        vec!["x-custom"]
    );
    assert_eq!(
        heater.complete(b.index, Some(&varied("X-Custom, Cookie, User-Agent")), 1),
        vec!["cookie"]
    );
    assert_eq!(
        heater.complete(c.index, Some(&varied("cookie,x-custom")), 1),
        Vec::<String>::new()
    );
    assert_eq!(heater.warnings(), &vec!["x-custom", "cookie"]);
}

#[test]
fn folding_in_another_order_gives_the_same_report() {
    let outcomes = [
        Outcome { status: 200, cache_hit: Some(true), elapsed_ms: 12 },
        Outcome { status: 404, cache_hit: None, elapsed_ms: 5000 },
        Outcome { status: 200, cache_hit: Some(false), elapsed_ms: 12 },
        Outcome { status: 503, cache_hit: Some(true), elapsed_ms: MAX_ELAPSED_MS },
    ];
    let mut forward = AggregateReport::new();
    for o in outcomes.iter() {
        forward.record(o);
    }
    let mut backward = AggregateReport::new();
    for o in outcomes.iter().rev() {
        backward.record(o);
    }
    assert_eq!(forward.statuses(), backward.statuses());
    assert_eq!(forward.cache_hits(), backward.cache_hits());
    assert_eq!(forward.latencies(), backward.latencies());
    assert_eq!(forward.statuses().get(&200), Some(&2));
    assert_eq!(forward.cache_hits().get(&Some(true)), Some(&2));
    assert_eq!(forward.latencies().as_slice()[12], 2);
    assert_eq!(forward.latencies().as_slice().iter().sum::<u64>(), 4);
}

#[test]
fn report_parts() {
    let mut report = AggregateReport::new();
    report.record(&Outcome { status: 301, cache_hit: None, elapsed_ms: 40 });
    report.record_failure();
    assert_eq!(report.failures(), 1);
    let (statuses, cache_hits, histogram) = report.into_parts();
    assert_eq!(statuses.get(&301), Some(&1));
    assert_eq!(cache_hits.get(&None), Some(&1));
    assert_eq!(histogram.as_slice()[40], 1);
    assert_eq!(histogram.config().grouping_power(), 10);
    assert_eq!(histogram.config().max_value_power(), 30);
}

#[test]
fn new_configuration() {
    let config = Config::new();
    assert!(config.concurrent_requests >= 1);
    assert_eq!(config.concurrency_limit(), config.concurrent_requests);
    assert!(config.variations_fit());
    assert!(config.languages_fit());
}

#[test]
fn configuration_from_arguments() {
    let headers = vec![
        header("x-b", "1"),
        header("x-a", "1"),
        header("x-b", "2"),
        header("x-b", "1"),
    ];
    let languages = vec!["en".to_string(), "".to_string(), "en".to_string()];
    let config = Config::new_from_arguments(&headers, &languages);
    assert_eq!(config.possible_variations(), 4);
    assert_eq!(
        config.generate_header_variations(),
        vec![
            vec![
                header("x-b", "1"),
                header("x-a", "1"),
                header("user-agent", APP_USER_AGENT),
                header("accept-language", ""),
            ],
            vec![
                header("x-b", "1"),
                header("x-a", "1"),
                header("user-agent", APP_USER_AGENT),
                header("accept-language", "en"),
            ],
            vec![
                header("x-b", "2"),
                header("x-a", "1"),
                header("user-agent", APP_USER_AGENT),
                header("accept-language", ""),
            ],
            vec![
                header("x-b", "2"),
                header("x-a", "1"),
                header("user-agent", APP_USER_AGENT),
                header("accept-language", "en"),
            ],
        ]
    );
}

#[test]
fn user_agent_rule_is_replaced_by_the_identification() {
    let mut config = Config::new();
    config.add_header_variation("User-Agent", "one");
    config.add_header_variation("user-agent", "two");
    config.add_header_variation("x-a", "1");
    assert_eq!(
        config.generate_header_variations(),
        vec![vec![header("user-agent", APP_USER_AGENT), header("x-a", "1")]]
    );
}

#[test]
fn accept_language_rule_and_tags_share_one_axis() {
    let mut config = Config::new();
    config.add_header_variation("accept-language", "de");
    config.add_header_variation("accept-language", "fr");
    config.add_language_variation("de");
    let values: Vec<String> = config
        .generate_header_variations()
        .into_iter()
        .map(|set| set[0].value.clone())
        .collect();
    assert_eq!(values, vec!["de", "fr"]);
}

#[test]
fn too_many_tags_do_not_fit() {
    let mut config = Config::new();
    for i in 0..16 {
        config.add_language_variation(&format!("l{}", i));
    }
    assert!(!config.languages_fit());
    assert!(!config.variations_fit());
}

#[test]
fn requests_under_way() {
    let mut config = Config::new();
    config.concurrent_requests = 2;
    let urls: Vec<String> = vec!["http://a/".into(), "http://b/".into()];
    let mut heater = Heater::new(&config, urls);
    assert!(!heater.is_under_way(0));
    let a = send(&mut heater);
    let b = send(&mut heater);
    assert!(heater.is_under_way(a.index));
    assert!(heater.is_under_way(b.index));
    assert!(!heater.is_under_way(2));
    heater.complete(a.index, Some(&plain(200)), 1);
    assert!(!heater.is_under_way(a.index));
    assert!(heater.is_under_way(b.index));
}
