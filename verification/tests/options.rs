use r_vlr_util::options::{
    option_names_match, parse_basic_line, AppOptions, OptionDefinition, OptionQualifiers, OptionSource,
    OptionValue, SpecifiedValue,
};

#[test]
fn names_match_by_case_insensitive_tree_elements() {
    assert!(option_names_match("Logging:Level", "logging.level"));
    assert!(!option_names_match("Logging.Level", "Logging"));
}

#[test]
fn store_handles_values_qualifiers_and_metadata() {
    let mut options = AppOptions::default();
    options.add(SpecifiedValue::new(
        OptionSource::CommandLine,
        "logging:level",
        "debug",
    ));
    assert_eq!(
        options.get("Logging.Level"),
        Some(&OptionValue::from("debug"))
    );
    options.set_metadata("Logging.Level", "display name");
    assert_eq!(options.metadata("Logging.Level"), Some("display name"));
    options.set_qualifiers(
        "Logging.Level",
        OptionQualifiers {
            return_only_default_value: true,
            ..OptionQualifiers::default()
        },
    );
    assert_eq!(options.get("Logging.Level"), None);
}

#[test]
fn typed_definition_returns_stored_or_default_value() {
    let mut options = AppOptions::default();
    let definition = OptionDefinition::new("worker.count", 4_i64);
    assert_eq!(definition.get(&options).unwrap(), 4);
    options.add(SpecifiedValue::new(
        OptionSource::CommandLine,
        "worker:count",
        "8",
    ));
    assert_eq!(definition.get(&options).unwrap(), 8);
}

#[test]
fn basic_lines_parse_names_values_and_comments() {
    assert_eq!(
        parse_basic_line(" key = value # comment"),
        Some(("key", "value"))
    );
    assert_eq!(
        parse_basic_line("key = \"quoted # value\" # ignored"),
        Some(("key", "quoted # value"))
    );
    assert_eq!(parse_basic_line("# comment"), None);
    assert_eq!(parse_basic_line("   "), None);
    assert_eq!(parse_basic_line("no equals sign"), None);
    assert_eq!(parse_basic_line(" = value"), None);
    assert_eq!(parse_basic_line("k=\"a\\\"b\" tail"), Some(("k", "a\\\"b")));
    assert_eq!(parse_basic_line("k=\"open"), Some(("k", "open")));
    assert_eq!(parse_basic_line("k ="), Some(("k", "")));
}

#[test]
fn basic_text_ingestion_stores_each_line() {
    let mut options = AppOptions::default();
    let count = options.read_basic_text("settings.txt", "one = 1\r\ntwo = \"second\"\n# note\n\none = 3\n");
    assert_eq!(count, 3);
    assert_eq!(options.get("one").unwrap().as_i64().unwrap(), 3);
    assert_eq!(options.get("two"), Some(&OptionValue::from("second")));
    let stored = options.find_by_native_name("two").unwrap();
    assert_eq!(stored.source, OptionSource::BinaryRelatedConfigFile("settings.txt".to_owned()));
}

#[test]
fn values_convert_with_checked_semantics() {
    assert_eq!(OptionValue::from("42").as_i64().unwrap(), 42);
    assert!(OptionValue::from("-1").as_u64().is_err());
    assert!(OptionValue::from("TRUE").as_bool().unwrap());
    assert_eq!(OptionValue::Bool(false).text_form().unwrap().unwrap(), "false");
}

#[test]
fn values_convert_between_types() {
    assert_eq!(OptionValue::from("42").as_i64(), Ok(42));
    assert!(OptionValue::from("-1").as_u64().is_err());
    assert_eq!(OptionValue::from("+7").as_u64(), Ok(7));
    assert!(OptionValue::from("TRUE").as_bool().unwrap());
    assert!(!OptionValue::from("False").as_bool().unwrap());
    assert!(OptionValue::from("2").as_bool().unwrap());
    assert!(OptionValue::from("yes").as_bool().is_err());
    assert_eq!(OptionValue::U64(u64::MAX).as_i64().is_err(), true);
    assert_eq!(OptionValue::I64(-3).as_u64().is_err(), true);
    assert_eq!(OptionValue::Bool(true).as_i64(), Ok(1));
    assert!(OptionValue::Bytes(vec![1]).as_i64().is_err());
    assert!(OptionValue::Strings(vec![]).as_bool().is_err());
    assert_eq!(OptionValue::from("9223372036854775807").as_i64(), Ok(i64::MAX));
    assert!(OptionValue::from("9223372036854775808").as_i64().is_err());
    assert_eq!(OptionValue::from("-9223372036854775808").as_i64(), Ok(i64::MIN));
}

#[test]
fn float_bits_convert_by_truncation() {
    assert_eq!(OptionValue::F64(2.75_f64.to_bits()).as_i64(), Ok(2));
    assert_eq!(OptionValue::F64((-2.75_f64).to_bits()).as_i64(), Ok(-2));
    assert!(OptionValue::F64((-2.75_f64).to_bits()).as_u64().is_err());
    assert!(OptionValue::F64((-0.5_f64).to_bits()).as_u64().is_err());
    assert_eq!(OptionValue::F64((-0.0_f64).to_bits()).as_u64(), Ok(0));
    assert!(OptionValue::F64(f64::NAN.to_bits()).as_i64().is_err());
    assert!(OptionValue::F64(1e300_f64.to_bits()).as_u64().is_err());
    assert_eq!(OptionValue::F64((u64::MAX as f64).to_bits()).as_u64(), Ok(u64::MAX));
    assert_eq!(OptionValue::F64((-9.2233720368547758e18_f64).to_bits()).as_i64(), Ok(i64::MIN));
    assert!(!OptionValue::F64(0.0_f64.to_bits()).as_bool().unwrap());
    assert!(!OptionValue::F64((-0.0_f64).to_bits()).as_bool().unwrap());
    assert!(OptionValue::F64(0.1_f64.to_bits()).as_bool().unwrap());
}

#[test]
fn matching_finds_values_under_equivalent_names() {
    let mut options = AppOptions::default();
    options.add(SpecifiedValue::new(OptionSource::CommandLine, "a.b", "1"));
    options.add(SpecifiedValue::new(OptionSource::ExplicitViaCode, "A:B", "2"));
    options.add(SpecifiedValue::new(OptionSource::CommandLine, "c", "3"));
    let found = options.find_matching("a:b");
    assert_eq!(found.len(), 2);
    assert_eq!(found[0].native_name, "a.b");
    assert_eq!(found[1].native_name, "A:B");
    assert!(options.clear("a.b"));
    assert!(!options.clear("a.b"));
    assert_eq!(options.get("a.b"), Some(&OptionValue::from("2")));
    options.clear_all();
    assert_eq!(options.get("c"), None);
    assert!(options.find_by_native_name("A:B").is_none());
}

#[test]
fn adding_replaces_a_value_under_the_same_native_name() {
    let mut options = AppOptions::default();
    assert!(options.add(SpecifiedValue::new(OptionSource::CommandLine, "x", "1")).is_none());
    let previous = options.add(SpecifiedValue::new(OptionSource::CommandLine, "x", "2")).unwrap();
    assert_eq!(previous.value, OptionValue::from("1"));
    assert_eq!(options.get_typed::<u64>("x"), Ok(Some(2)));
    assert_eq!(options.get_typed::<bool>("missing"), Ok(None));
    assert_eq!(options.qualifiers("x"), None);
}

#[test]
fn values_have_text_forms() {
    assert_eq!(OptionValue::Bool(false).text_form(), Ok(Some("false".to_owned())));
    assert_eq!(OptionValue::I64(-42).text_form(), Ok(Some("-42".to_owned())));
    assert_eq!(OptionValue::I64(i64::MIN).text_form(), Ok(Some(i64::MIN.to_string())));
    assert_eq!(OptionValue::U64(u64::MAX).text_form(), Ok(Some(u64::MAX.to_string())));
    assert_eq!(OptionValue::from("text").text_form(), Ok(Some("text".to_owned())));
    assert_eq!(OptionValue::F64(1.5_f64.to_bits()).text_form(), Ok(None));
    assert!(OptionValue::Bytes(vec![]).text_form().is_err());
}
