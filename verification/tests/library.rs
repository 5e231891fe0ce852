use syntax_demo::classify;
use syntax_demo::job::MAX_RETRY;
use syntax_demo::pairs::is_space;
use syntax_demo::pairs::parse_pairs;
use syntax_demo::pairs::str_eq;
use syntax_demo::pairs::PairMap;
use syntax_demo::Job;
use syntax_demo::State;

#[test]
fn classify_positive() {
    assert_eq!(classify(Some(5)), "positive");
    assert_eq!(classify(Some(1)), "positive");
}

#[test]
fn classify_zero() {
    assert_eq!(classify(Some(0)), "zero");
}

#[test]
fn classify_negative() {
    assert_eq!(classify(Some(-1)), "negative");
    assert_eq!(classify(Some(i32::MIN)), "negative");
}

#[test]
fn classify_none() {
    assert_eq!(classify(None), "none");
}

#[test]
fn run_succeeds_with_name() {
    let mut job = Job {
        id: 1,
        name: String::from("alpha"),
        state: State::Queued,
        tags: vec!["demo".into(), "rust".into()],
    };
    assert_eq!(job.run(), Ok(()));
    assert_eq!(job.state, State::Done);
    assert_eq!(job.id, 1);
    assert_eq!(job.name, "alpha");
    assert_eq!(job.tags, vec!["demo".to_string(), "rust".to_string()]);
}

#[test]
fn run_fails_with_empty_name() {
    let mut job = Job {
        id: 7,
        name: String::new(),
        state: State::Queued,
        tags: Vec::new(),
    };
    assert_eq!(job.run(), Err("name is empty".to_string()));
    assert_eq!(job.state, State::Failed);
    assert_eq!(job.id, 7);
}

#[test]
fn retry_budget_is_three() {
    assert_eq!(MAX_RETRY, 3);
}

#[test]
fn parse_two_pairs() {
    let pairs = parse_pairs("name = rust\nlang = rs");
    assert_eq!(pairs.len(), 2);
    assert_eq!(pairs.get("name"), Some(&"rust".to_string()));
    assert_eq!(pairs.get("lang"), Some(&"rs".to_string()));
    assert_eq!(pairs.get("other"), None);
}

#[test]
fn parse_empty_input() {
    let pairs = parse_pairs("");
    assert_eq!(pairs.len(), 0);
}

#[test]
fn parse_skips_lines_without_equals() {
    let pairs = parse_pairs("just a comment\nkey = value\n\nanother line");
    assert_eq!(pairs.len(), 1);
    assert_eq!(pairs.get("key"), Some(&"value".to_string()));
}

#[test]
fn parse_later_pair_wins() {
    let pairs = parse_pairs("k = first\nk = second");
    assert_eq!(pairs.len(), 1);
    assert_eq!(pairs.get("k"), Some(&"second".to_string()));
}

#[test]
fn parse_trims_whitespace() {
    let pairs = parse_pairs("\t spaced key \t=  padded value  ");
    assert_eq!(pairs.len(), 1);
    assert_eq!(pairs.get("spaced key"), Some(&"padded value".to_string()));
}

#[test]
fn parse_crlf_lines() {
    let pairs = parse_pairs("a=b\r\nc=d\r\n");
    assert_eq!(pairs.len(), 2);
    assert_eq!(pairs.get("a"), Some(&"b".to_string()));
    assert_eq!(pairs.get("c"), Some(&"d".to_string()));
}

#[test]
fn parse_splits_at_first_equals() {
    let pairs = parse_pairs("a=b=c");
    assert_eq!(pairs.get("a"), Some(&"b=c".to_string()));
}

#[test]
fn parse_empty_key_and_value() {
    let pairs = parse_pairs("=v\nk=");
    assert_eq!(pairs.get(""), Some(&"v".to_string()));
    assert_eq!(pairs.get("k"), Some(&"".to_string()));
}

#[test]
fn parse_trailing_newline_adds_nothing() {
    let pairs = parse_pairs("a=b\n");
    assert_eq!(pairs.len(), 1);
}

#[test]
fn parse_non_ascii_text() {
    let pairs = parse_pairs("caf\u{e9} = \u{fc}ber\n\u{3b1} = \u{3b2}");
    assert_eq!(pairs.len(), 2);
    assert_eq!(pairs.get("caf\u{e9}"), Some(&"\u{fc}ber".to_string()));
    assert_eq!(pairs.get("\u{3b1}"), Some(&"\u{3b2}".to_string()));
}

#[test]
fn pair_map_insert_and_get() {
    let mut map = PairMap::new();
    assert_eq!(map.len(), 0);
    map.insert("one".to_string(), "1".to_string());
    map.insert("two".to_string(), "2".to_string());
    map.insert("one".to_string(), "uno".to_string());
    assert_eq!(map.len(), 2);
    assert_eq!(map.get("one"), Some(&"uno".to_string()));
    assert_eq!(map.get("two"), Some(&"2".to_string()));
    assert_eq!(map.get("three"), None);
}

#[test]
fn pair_map_pair_at_walks_all_pairs() {
    let pairs = parse_pairs("x=1\ny=2");
    let mut seen = Vec::new();
    for i in 0..pairs.len() {
        let (k, v) = pairs.pair_at(i);
        seen.push((k.clone(), v.clone()));
    }
    seen.sort();
    assert_eq!(
        seen,
        vec![
            ("x".to_string(), "1".to_string()),
            ("y".to_string(), "2".to_string()),
        ]
    );
}

#[test]
fn str_eq_compares_contents() {
    assert!(str_eq("abc", "abc"));
    assert!(!str_eq("abc", "abd"));
    assert!(!str_eq("abc", "abcd"));
    assert!(str_eq("", ""));
}

#[test]
fn is_space_matches_unicode_whitespace() {
    assert!(is_space(' '));
    assert!(is_space('\t'));
    assert!(is_space('\r'));
    assert!(is_space('\n'));
    assert!(is_space('\u{a0}'));
    assert!(!is_space('x'));
    assert!(!is_space('='));
    assert!(!is_space('\u{200b}'));
}
