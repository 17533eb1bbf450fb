use std::time::{Duration, Instant};

use raptor::cli::parse_config_path;
use raptor::clock::{nanos_or, seconds_of, Clock};
use raptor::config::HealthCheckConfig;
use raptor::health::{
    check_interval_secs, probe_succeeded, probe_timeout_secs, probe_uri, ProbeOutcome,
};
use raptor::json::members;
use raptor::sorted_map::SortedMap;
use raptor::text;
use raptor::weighted::SmoothWeights;

fn args(list: &[&str]) -> Vec<String> {
    list.iter().map(|s| s.to_string()).collect()
}

#[test]
fn config_path_follows_its_flag() {
    assert_eq!(parse_config_path(&args(&[])), "raptor.yaml");
    assert_eq!(parse_config_path(&args(&["-c", "a.yaml"])), "a.yaml");
    assert_eq!(parse_config_path(&args(&["x", "--config", "b.yaml", "-c", "c"])), "b.yaml");
    assert_eq!(parse_config_path(&args(&["-c", "-c"])), "-c");
    assert_eq!(parse_config_path(&args(&["--config"])), "raptor.yaml");
}

#[test]
fn probes_ask_below_the_backend() {
    assert_eq!(probe_uri("http://a:1/", "/health"), Some("http://a:1/health".to_string()));
    assert_eq!(probe_uri("http://a b", "/health"), None);
}

#[test]
fn probes_take_at_least_a_second() {
    let mut h = HealthCheckConfig::default();
    assert_eq!((check_interval_secs(&h), probe_timeout_secs(&h)), (10, 2));
    h.interval_secs = 0;
    h.timeout_secs = 0;
    assert_eq!((check_interval_secs(&h), probe_timeout_secs(&h)), (1, 1));
}

#[test]
fn probes_succeed_with_any_2xx() {
    assert!(probe_succeeded(ProbeOutcome::Status(200)));
    assert!(probe_succeeded(ProbeOutcome::Status(299)));
    assert!(!probe_succeeded(ProbeOutcome::Status(300)));
    assert!(!probe_succeeded(ProbeOutcome::Status(199)));
    assert!(!probe_succeeded(ProbeOutcome::NoAnswer));
}

#[test]
fn members_are_those_of_the_outer_object() {
    let read = |json: &str| -> Vec<(String, String)> {
        let text = |bytes: Vec<u8>| String::from_utf8(bytes).unwrap();
        members(json.as_bytes()).into_iter().map(|(n, v)| (text(n), text(v))).collect()
    };
    let pair = |n: &str, v: &str| (n.to_string(), v.to_string());
    assert_eq!(read(r#"{"a":1,"b":"c"}"#), vec![pair("\"a\"", "1"), pair("\"b\"", "\"c\"")]);
    assert_eq!(
        read(r#" { "a" : {"x":["y",{"z":1}]} , "b\"," : [ "q" , "r" ] , "c":"{:," } "#),
        vec![
            pair("\"a\"", r#" {"x":["y",{"z":1}]} "#),
            pair(r#""b\",""#, r#" [ "q" , "r" ] "#),
            pair("\"c\"", "\"{:,\" "),
        ]
    );
    assert!(read("{}").is_empty());
}

#[test]
fn sorted_map_keeps_its_keys_in_order() {
    let mut m: SortedMap<String, u32> = SortedMap::new();
    for (i, k) in ["b", "a", "ñ", "c", "a"].iter().enumerate() {
        m.insert(k.to_string(), i as u32);
    }
    assert_eq!(m.len(), 4);
    let keys: Vec<&str> = (0..m.len()).map(|i| m.key_at(i).as_str()).collect();
    assert_eq!(keys, vec!["a", "b", "c", "ñ"]);
    assert_eq!(m.get(&"a".to_string()), Some(&4));
    assert_eq!(m.get(&"z".to_string()), None);
    assert!(m.contains_key(&"ñ".to_string()));
    *m.value_at_mut(0) = 9;
    assert_eq!(m.value_at(0), &9);
}

#[test]
fn numbers_are_written_in_decimal() {
    assert_eq!(text::decimal_text(0), "0");
    assert_eq!(text::decimal_text(u128::MAX), u128::MAX.to_string());
    assert_eq!(text::fraction_text(1500, 1000, 3), "1.5");
    assert_eq!(text::fraction_text(2000, 1000, 3), "2");
    assert_eq!(text::fraction_text(7, 1_000_000_000, 9), "0.000000007");
}

#[test]
fn texts_are_split_and_trimmed() {
    assert_eq!(text::split_on("a..b", '.'), vec!["a", "", "b"]);
    assert_eq!(text::split_on("", '.'), vec![""]);
    assert_eq!(text::trim_end_of("http://a//", '/'), "http://a");
    assert_eq!(text::trim_end_of("//", '/'), "");
}

#[test]
fn smooth_weights_pass_over_the_absent() {
    let mut w = SmoothWeights::new(vec![5, 1, 1]);
    let all = vec![true, true, true];
    let order: Vec<Option<usize>> = (0..7).map(|_| w.pick(&all)).collect();
    let expected = [0, 0, 1, 0, 2, 0, 0];
    assert_eq!(order, expected.iter().map(|i| Some(*i)).collect::<Vec<_>>());
    assert_eq!(w.pick(&vec![false, true, false]), Some(1));
    assert_eq!(w.pick(&vec![false, false, false]), None);
}

#[test]
fn times_since_the_epoch_are_whole_numbers() {
    let since = Some(Duration::new(5, 999_999_999));
    assert_eq!(seconds_of(since), 5);
    assert_eq!(seconds_of(None), 0);
    assert_eq!(nanos_or(since, 7), 5_999_999_999);
    assert_eq!(nanos_or(None, 7), 7);
    assert_eq!(seconds_of(Some(Duration::new(u64::MAX, 0))), -1);
    let wide = Duration::from_secs(1 << 40);
    assert_eq!(nanos_or(Some(wide), 0), wide.as_nanos() as u64);
}

#[test]
fn clocks_count_from_their_start() {
    let before = Instant::now();
    let clock = Clock::start();
    let after = Instant::now();
    assert_eq!(clock.at(before), 0);
    assert!(clock.at(after) <= clock.now());
    let apart = clock.at(after + Duration::from_nanos(1_500)) - clock.at(after);
    assert_eq!(apart, 1_500);
    let copy = clock;
    assert_eq!(copy.at(after), clock.at(after));
}
