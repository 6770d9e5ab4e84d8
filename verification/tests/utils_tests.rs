use p2p_node::utils::{hhmmss, hhmmss_of, last_setting, parse_u64, split_key_value, text_eq, ts};

#[test]
fn clock_text() {
    assert_eq!(hhmmss_of(0), "00:00:00");
    assert_eq!(hhmmss_of(3661), "01:01:01");
    assert_eq!(hhmmss_of(86399), "23:59:59");
    assert_eq!(hhmmss_of(86400 + 45296), "12:34:56");
    assert_eq!(hhmmss_of(u64::MAX), "07:00:15");
}

#[test]
fn clock_reads() {
    let t = ts().expect("clock after the epoch");
    assert!(t > 1_600_000_000);
    assert_eq!(hhmmss().unwrap().len(), 8);
}

#[test]
fn decimal_parsing() {
    assert_eq!(parse_u64("300"), Some(300));
    assert_eq!(parse_u64("+5"), Some(5));
    assert_eq!(parse_u64("007"), Some(7));
    assert_eq!(parse_u64("18446744073709551615"), Some(u64::MAX));
    assert_eq!(parse_u64("18446744073709551616"), None);
    assert_eq!(parse_u64("99999999999999999999x"), None);
    assert_eq!(parse_u64(""), None);
    assert_eq!(parse_u64("+"), None);
    assert_eq!(parse_u64("-1"), None);
    assert_eq!(parse_u64("1a"), None);
    assert_eq!(parse_u64(" 1"), None);
    for s in ["0", "42", "+9", "18446744073709551615", "x", "", "+", "1 "] {
        assert_eq!(parse_u64(s), s.parse::<u64>().ok(), "input {:?}", s);
    }
}

#[test]
fn key_value_split() {
    assert_eq!(split_key_value("seed=1.2.3.4:5"), Some(("seed".to_string(), "1.2.3.4:5".to_string())));
    assert_eq!(split_key_value("a=b=c"), Some(("a".to_string(), "b=c".to_string())));
    assert_eq!(split_key_value("=x"), Some((String::new(), "x".to_string())));
    assert_eq!(split_key_value("k="), Some(("k".to_string(), String::new())));
    assert_eq!(split_key_value("é=ü"), Some(("é".to_string(), "ü".to_string())));
    assert_eq!(split_key_value("novalue"), None);
}

#[test]
fn text_equality() {
    assert!(text_eq("PING", "PING"));
    assert!(!text_eq("PING", "PONG"));
    assert!(!text_eq("PING", "PIN"));
    assert!(text_eq("", ""));
}


#[test]
fn later_settings_win() {
    let args: Vec<String> = ["a=1", "b=2", "a=3", "junk"].iter().map(|s| s.to_string()).collect();
    assert_eq!(last_setting(&args, "a"), Some("3".to_string()));
    assert_eq!(last_setting(&args, "b"), Some("2".to_string()));
    assert_eq!(last_setting(&args, "c"), None);
    assert_eq!(last_setting(&args, "junk"), None);
    assert_eq!(last_setting(&[], "a"), None);
    let seeds: Vec<String> = vec!["seed=1.2.3.4:5".to_string(), "seed=x=y".to_string()];
    assert_eq!(last_setting(&seeds, "seed"), Some("x=y".to_string()));
}
