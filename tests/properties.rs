use sysctl_conf::{
    check_schema_line, ignore_error, parse, parse_with_options, read_config_line,
    retrieve_key_value_str, should_skip, trim_str, validate_type, Config, ErrorKind, ParseError, ParseOptions,
    MAX_VALUE_LENGTH,
};

fn lines(v: &[&str]) -> Vec<String> {
    v.iter().map(|s| s.to_string()).collect()
}

fn err_of<T>(r: Result<T, ParseError>) -> ParseError {
    match r {
        Err(e) => e,
        Ok(_) => panic!("expected an error"),
    }
}

#[test]
fn parsing_twice_gives_equal_mappings() {
    let conf = lines(&["a = 1", "b = two words", "a = 3", "# c = 4"]);
    let first = parse(&conf, None).unwrap();
    let second = parse(&conf, None).unwrap();
    assert_eq!(first.len(), second.len());
    for key in ["a", "b", "c"] {
        assert_eq!(first.get(key), second.get(key));
    }
    assert_eq!(first.get("a"), Some(&"3".to_string()));
}

#[test]
fn hash_wins_over_later_semicolon() {
    assert_eq!(retrieve_key_value_str("a = b # c ; d"), "a = b ");
    let map = parse(&lines(&["a = b # c ; d"]), None).unwrap();
    assert_eq!(map.get("a"), Some(&"b".to_string()));
    assert_eq!(map.len(), 1);
}

#[test]
fn semicolon_cuts_without_hash() {
    assert_eq!(retrieve_key_value_str("a = b ; c"), "a = b ");
    let map = parse(&lines(&["a = b ; c"]), None).unwrap();
    assert_eq!(map.get("a"), Some(&"b".to_string()));
    assert_eq!(map.len(), 1);
}

#[test]
fn semicolon_inside_hash_comment_is_ignored() {
    assert_eq!(retrieve_key_value_str("x = y #; z"), "x = y ");
    assert_eq!(retrieve_key_value_str("no comment"), "no comment");
}

#[test]
fn skipped_lines_add_nothing() {
    assert!(should_skip(""));
    assert!(should_skip("# anything"));
    assert!(should_skip("; anything"));
    assert!(!should_skip(" # indented"));
    let map = parse(&lines(&["", "# anything", "; anything"]), None).unwrap();
    assert_eq!(map.len(), 0);
    assert!(map.is_empty());
}

#[test]
fn duplicate_key_keeps_last_value() {
    let map = parse(&lines(&["a = 1", "b = 0", "a = 2"]), None).unwrap();
    assert_eq!(map.get("a"), Some(&"2".to_string()));
    assert_eq!(map.len(), 2);
}

#[test]
fn marked_malformed_line_is_skipped() {
    assert!(ignore_error("-bad line no equals"));
    assert!(!ignore_error("bad line no equals"));
    let map = parse(&lines(&["a = 1", "-bad line no equals", "b = 2"]), None).unwrap();
    assert_eq!(map.len(), 2);
    assert_eq!(map.get("b"), Some(&"2".to_string()));
}

#[test]
fn unmarked_malformed_line_stops_parse() {
    let err = err_of(parse(&lines(&["a = 1", "bad line no equals", "b = 2"]), None));
    assert_eq!(err.kind, ErrorKind::MalformedPair);
    assert_eq!(err.line, 2);
    assert_eq!(err.text, "bad line no equals");
}

#[test]
fn two_equals_signs_are_malformed() {
    let err = err_of(parse(&lines(&["a = b = c"]), None));
    assert_eq!(err.kind, ErrorKind::MalformedPair);
    assert_eq!(err.line, 1);
}

#[test]
fn key_with_space_is_rejected() {
    let err = err_of(parse(&lines(&["a b = 1"]), None));
    assert_eq!(err.kind, ErrorKind::InvalidKey);
    assert_eq!(err.line, 1);
    assert_eq!(err.text, "a b = 1");
    let map = parse(&lines(&["-a b = 1"]), None).unwrap();
    assert_eq!(map.len(), 0);
}

#[test]
fn key_with_tab_or_ideographic_space_is_rejected() {
    let err = err_of(parse(&lines(&["a\tb = 1"]), None));
    assert_eq!(err.kind, ErrorKind::InvalidKey);
    let err = err_of(parse(&lines(&["x = 1", "a\u{3000}b = 1"]), None));
    assert_eq!(err.kind, ErrorKind::InvalidKey);
    assert_eq!(err.line, 2);
}

#[test]
fn ignore_marker_can_be_switched_off() {
    let options = ParseOptions {
        enforce_max_value_length: false,
        max_value_length: MAX_VALUE_LENGTH,
        honor_ignore_marker: false,
    };
    let err = err_of(parse_with_options(&options, &lines(&["-bad line"]), None));
    assert_eq!(err.kind, ErrorKind::MalformedPair);
}

#[test]
fn long_value_is_bounded_with_schema() {
    let long = format!("k = {}", "v".repeat(MAX_VALUE_LENGTH + 1));
    let conf = vec![long.clone()];
    let map = parse(&conf, None).unwrap();
    assert_eq!(map.get("k").map(|v| v.len()), Some(MAX_VALUE_LENGTH + 1));
    let err = err_of(parse(&conf, Some(&Vec::new())));
    assert_eq!(err.kind, ErrorKind::ValueTooLong);
    assert_eq!(err.line, 1);
    let fits = vec![format!("k = {}", "v".repeat(MAX_VALUE_LENGTH))];
    assert!(parse(&fits, Some(&Vec::new())).is_ok());
}

#[test]
fn custom_bound_counts_characters() {
    let options = ParseOptions {
        enforce_max_value_length: true,
        max_value_length: 3,
        honor_ignore_marker: true,
    };
    assert!(parse_with_options(&options, &lines(&["k = abc"]), None).is_ok());
    let err = err_of(parse_with_options(&options, &lines(&["k = abcd"]), None));
    assert_eq!(err.kind, ErrorKind::ValueTooLong);
    assert!(parse_with_options(&options, &lines(&["-k = abcd"]), None).is_ok());
}

#[test]
fn schema_accepts_matching_type() {
    let conf = lines(&["n = 5"]);
    assert!(parse(&conf, Some(&lines(&["n -> int"]))).is_ok());
}

#[test]
fn schema_rejects_mismatched_type() {
    let conf = lines(&["n = 5"]);
    let err = err_of(parse(&conf, Some(&lines(&["# types", "n -> bool"]))));
    assert_eq!(err.kind, ErrorKind::TypeMismatch);
    assert_eq!(err.line, 2);
    assert_eq!(err.text, "n -> bool");
}

#[test]
fn schema_unknown_type_fails() {
    let err = err_of(parse(&lines(&["n = 5"]), Some(&lines(&["n -> number"]))));
    assert_eq!(err.kind, ErrorKind::TypeMismatch);
}

#[test]
fn schema_malformed_line_fails() {
    let err = err_of(parse(&lines(&["n = 5"]), Some(&lines(&["n int"]))));
    assert_eq!(err.kind, ErrorKind::MalformedSchemaLine);
    assert_eq!(err.line, 1);
    let err = err_of(parse(&lines(&["n = 5"]), Some(&lines(&["n -> int -> x"]))));
    assert_eq!(err.kind, ErrorKind::MalformedSchemaLine);
    let err = err_of(parse(&lines(&[]), Some(&lines(&["-n int"]))));
    assert_eq!(err.kind, ErrorKind::MalformedSchemaLine);
}

#[test]
fn schema_on_absent_key_passes() {
    let conf = lines(&["a = x"]);
    assert!(parse(&conf, Some(&lines(&["missing -> int", "other -> nonsense"]))).is_ok());
}

#[test]
fn end_to_end_without_schema() {
    let conf = lines(&[
        "#",
        "kernel.domainname = example.com",
        "; note",
        "kernel.modprobe = /sbin/mod probe",
    ]);
    let map = parse(&conf, None).unwrap();
    assert_eq!(map.len(), 2);
    assert_eq!(map.get("kernel.domainname"), Some(&"example.com".to_string()));
    assert_eq!(map.get("kernel.modprobe"), Some(&"/sbin/mod probe".to_string()));
}

#[test]
fn end_to_end_with_schema() {
    let conf = lines(&["param_uint = 12345"]);
    assert!(parse(&conf, Some(&lines(&["param_uint -> uint"]))).is_ok());
    assert!(parse(&conf, Some(&lines(&["param_uint -> int"]))).is_ok());
    let err = err_of(parse(&conf, Some(&lines(&["param_uint -> bool"]))));
    assert_eq!(err.kind, ErrorKind::TypeMismatch);
    assert_eq!(err.line, 1);
}

#[test]
fn bool_literals() {
    assert!(validate_type("bool", "true"));
    assert!(validate_type("bool", "false"));
    assert!(!validate_type("bool", "True"));
    assert!(!validate_type("bool", "1"));
    assert!(!validate_type("bool", ""));
}

#[test]
fn int_literals() {
    assert!(validate_type("int", "2147483647"));
    assert!(!validate_type("int", "2147483648"));
    assert!(validate_type("int", "-2147483648"));
    assert!(!validate_type("int", "-2147483649"));
    assert!(validate_type("int", "+5"));
    assert!(validate_type("int", "007"));
    assert!(!validate_type("int", "-"));
    assert!(!validate_type("int", "+"));
    assert!(!validate_type("int", ""));
    assert!(!validate_type("int", "1 2"));
    assert!(!validate_type("int", "99999999999999999999999"));
}

#[test]
fn uint_literals() {
    assert!(validate_type("uint", "4294967295"));
    assert!(!validate_type("uint", "4294967296"));
    assert!(validate_type("uint", "+0"));
    assert!(!validate_type("uint", "-0"));
    assert!(!validate_type("uint", "-1"));
    assert!(!validate_type("uint", "x1"));
}

#[test]
fn float_literals() {
    for ok in ["0.12345", "1e5", "1E-5", "1.", ".5", "+.5e+3", "-3", "inf", "-Infinity", "NaN"] {
        assert!(validate_type("float", ok), "{}", ok);
        assert!(ok.parse::<f64>().is_ok(), "{}", ok);
    }
    for bad in [".", "e5", "1e", "1.2.3", "", "+", "infinit", "1e5.0", " 1", "0x10"] {
        assert!(!validate_type("float", bad), "{}", bad);
        assert!(bad.parse::<f64>().is_err(), "{}", bad);
    }
}

#[test]
fn string_type_accepts_anything_and_unknown_accepts_nothing() {
    assert!(validate_type("string", ""));
    assert!(validate_type("string", "any text"));
    assert!(!validate_type("String", "x"));
    assert!(!validate_type("", "x"));
}

#[test]
fn trimming_removes_unicode_white_space() {
    assert_eq!(trim_str("  a b \t"), "a b");
    assert_eq!(trim_str("\u{3000}x\u{a0}"), "x");
    assert_eq!(trim_str("   "), "");
    let map = parse(&lines(&["\u{3000}k\u{3000}=\u{2003}v "]), None).unwrap();
    assert_eq!(map.get("k"), Some(&"v".to_string()));
}

#[test]
fn empty_key_and_value_are_stored() {
    let map = parse(&lines(&[" = ", "k ="]), None).unwrap();
    assert_eq!(map.get(""), Some(&"".to_string()));
    assert_eq!(map.get("k"), Some(&"".to_string()));
}

#[test]
fn line_steps_build_the_mapping() {
    let options = ParseOptions::schema_less();
    let mut config = Config::new();
    assert!(read_config_line(&mut config, &options, 1, "a = 1").is_ok());
    assert!(read_config_line(&mut config, &options, 2, "; skip").is_ok());
    let err = err_of(read_config_line(&mut config, &options, 3, "oops"));
    assert_eq!(err.line, 3);
    assert_eq!(config.len(), 1);
    assert!(config.contains_key("a"));
    assert!(check_schema_line(&config, 1, "a -> uint").is_ok());
    let err = err_of(check_schema_line(&config, 7, "a -> bool"));
    assert_eq!((err.kind, err.line), (ErrorKind::TypeMismatch, 7));
}

#[test]
fn reading_lines_twice_in_a_row_changes_nothing() {
    let conf = lines(&["a = 1", "b = 2", "a = 3", "-junk", "; note"]);
    let mut doubled = conf.clone();
    doubled.extend(conf.iter().cloned());
    let once = parse(&conf, None).unwrap();
    let twice = parse(&doubled, None).unwrap();
    assert_eq!(once.len(), 2);
    assert_eq!(twice.len(), 2);
    assert_eq!(twice.get("a"), Some(&"3".to_string()));
    assert_eq!(twice.get("b"), once.get("b"));
}
