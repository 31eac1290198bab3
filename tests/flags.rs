use gflags::{
    AnyFlag, Flag, FlagInitErr, FlagList, FlagInitializer, FlagParseAndSetErr, FlagParseErr, FlagParseable, FlagRegistry,
    FlagRegistryErr, FlagResolveErr, FlagResolveResult, FlagSetErr, FlagValue, GlobalInitErr, InitErr,
};

fn registration(name: &str, file: &str, line: u32, flag: AnyFlag) -> FlagInitializer {
    FlagInitializer::new(name.to_owned(), file.to_owned(), line, flag)
}

fn bool_value(reg: &FlagRegistry, name: &str) -> Option<bool> {
    match reg.flag(name) {
        Some(AnyFlag::Bool(f)) => f.get_value(),
        _ => panic!("no boolean flag {}", name),
    }
}

fn u32_value(reg: &FlagRegistry, name: &str) -> Option<u32> {
    match reg.flag(name) {
        Some(AnyFlag::U32(f)) => f.get_value(),
        _ => panic!("no u32 flag {}", name),
    }
}

fn string_value(reg: &FlagRegistry, name: &str) -> Option<String> {
    match reg.flag(name) {
        Some(AnyFlag::Str(f)) => f.get_value(),
        _ => panic!("no string flag {}", name),
    }
}

#[test]
fn go() {
    let example_1: Flag<String> = Flag::new_statically("example_1".to_owned(), Some("hello".to_owned()));
    let example_2: Flag<u32> = Flag::new_statically("example_2".to_owned(), Some(5));
    let example_3: Flag<String> = Flag::new_statically("example_3".to_owned(), None);
    let example_4: Flag<u32> = Flag::new_statically("example_4".to_owned(), None);
    assert_eq!(example_1.get_name(), "example_1");
    assert_eq!(example_1.get_value(), Some("hello".to_owned()));
    assert_eq!(example_2.get_value(), Some(5));
    assert_eq!(example_3.get_value(), None);
    assert_eq!(example_4.get_value(), None);
}

#[test]
fn once_only_keeps_first_value() {
    let mut v: FlagValue<u32> = FlagValue::new(None);
    assert!(v.initialize(1));
    assert!(!v.initialize(2));
    assert_eq!(v.get(), Some(1));
}

#[test]
fn once_only_on_flag_handle() {
    let mut f: Flag<String> = Flag::new("who");
    assert_eq!(f.set_internal("a".to_owned()), Ok(()));
    assert_eq!(f.set_internal("b".to_owned()), Err(FlagInitErr::AlreadyInitialized));
    assert_eq!(f.get_value(), Some("a".to_owned()));
}

#[test]
fn default_visibility() {
    let with: Flag<i32> = Flag::with_default("depth", -3);
    let without: Flag<i32> = Flag::new("width");
    assert_eq!(with.get_value(), Some(-3));
    assert_eq!(without.get_value(), None);
    let v: FlagValue<String> = FlagValue::new(Some("d".to_owned()));
    assert_eq!(v.get(), Some("d".to_owned()));
}

#[test]
fn test_override_bypasses_once_only() {
    let mut f: Flag<u32> = Flag::new("n");
    assert_eq!(f.set_internal(1), Ok(()));
    f.set_for_testing(9);
    assert_eq!(f.get_value(), Some(9));
    assert_eq!(f.set_internal(3), Err(FlagInitErr::AlreadyInitialized));
    assert_eq!(f.get_value(), Some(9));
}

#[test]
fn test_override_is_not_initialization() {
    let mut v: FlagValue<u32> = FlagValue::new(Some(1));
    v.set_raw(7);
    assert_eq!(v.get(), Some(7));
    assert!(!v.is_initialized());
    assert!(v.initialize(8));
    assert_eq!(v.get(), Some(8));
}

#[test]
fn overwrite_rules() {
    let mut f: Flag<u64> = Flag::with_default("size", 4);
    assert_eq!(f.set(5), Err(FlagSetErr::Uninitialized));
    assert_eq!(f.set_internal(6), Ok(()));
    assert_eq!(f.set(7), Err(FlagSetErr::OverwriteNotAllowed));
    f.set_overwritable(true);
    assert_eq!(f.set(8), Ok(()));
    assert_eq!(f.get_value(), Some(8));
}

#[test]
fn parse_and_set_reports_bad_text() {
    let mut f: Flag<u8> = Flag::new("level");
    assert_eq!(
        f.parse_and_set("256"),
        Err(FlagParseAndSetErr::ParseErr(FlagParseErr::InvalidValue("256".to_owned())))
    );
    assert_eq!(f.get_value(), None);
    assert_eq!(f.parse_and_set("255"), Ok(()));
    assert_eq!(f.parse_and_set("1"), Err(FlagParseAndSetErr::SetErr(FlagInitErr::AlreadyInitialized)));
    assert_eq!(f.get_value(), Some(255));
}

#[test]
fn round_trip_integers() {
    for v in [0u8, 7, 255] {
        assert_eq!(u8::parse_from_str(&v.to_string()), Ok(v));
    }
    for v in [0u32, 42, u32::MAX] {
        assert_eq!(u32::parse_from_str(&v.to_string()), Ok(v));
    }
    for v in [0u64, 1234567890123, u64::MAX] {
        assert_eq!(u64::parse_from_str(&v.to_string()), Ok(v));
    }
    for v in [i8::MIN, -1, 0, i8::MAX] {
        assert_eq!(i8::parse_from_str(&v.to_string()), Ok(v));
    }
    for v in [i32::MIN, -100, 0, i32::MAX] {
        assert_eq!(i32::parse_from_str(&v.to_string()), Ok(v));
    }
    for v in [i64::MIN, -9, 0, i64::MAX] {
        assert_eq!(i64::parse_from_str(&v.to_string()), Ok(v));
    }
}

#[test]
fn round_trip_bool_and_string() {
    assert_eq!(bool::parse_from_str(&true.to_string()), Ok(true));
    assert_eq!(bool::parse_from_str(&false.to_string()), Ok(false));
    assert_eq!(String::parse_from_str("a,b c"), Ok("a,b c".to_owned()));
    assert_eq!(String::parse_from_str(""), Ok(String::new()));
}

#[test]
fn integer_text_forms() {
    assert_eq!(u32::parse_from_str("+7"), Ok(7));
    assert_eq!(u32::parse_from_str("007"), Ok(7));
    assert_eq!(i32::parse_from_str("-0"), Ok(0));
    assert_eq!(i32::parse_from_str("+12"), Ok(12));
    assert_eq!(u32::parse_from_str(""), Err("".to_owned()));
    assert_eq!(u32::parse_from_str("+"), Err("+".to_owned()));
    assert_eq!(i32::parse_from_str("-"), Err("-".to_owned()));
    assert_eq!(u32::parse_from_str("-5"), Err("-5".to_owned()));
    assert_eq!(u32::parse_from_str("4294967296"), Err("4294967296".to_owned()));
    assert_eq!(i8::parse_from_str("-129"), Err("-129".to_owned()));
    assert_eq!(i8::parse_from_str("128"), Err("128".to_owned()));
    assert_eq!(u64::parse_from_str("18446744073709551616"), Err("18446744073709551616".to_owned()));
    assert_eq!(i32::parse_from_str("1x"), Err("1x".to_owned()));
    assert_eq!(bool::parse_from_str("True"), Err("True".to_owned()));
}

#[test]
fn negation_sets_boolean_false() {
    let mut reg = FlagRegistry::new();
    reg.declare(registration("verbose", "main.rs", 3, AnyFlag::Bool(Flag::with_default("verbose", false))));
    assert!(reg.populate_flags().is_ok());
    let out = reg.resolve_flags_from_command(&vec![("no-verbose".to_owned(), None)]);
    assert_eq!(out, vec![("no-verbose".to_owned(), Ok(()))]);
    assert_eq!(bool_value(&reg, "verbose"), Some(false));
}

#[test]
fn negation_of_number_fails_to_parse() {
    let mut reg = FlagRegistry::new();
    reg.declare(registration("count", "main.rs", 4, AnyFlag::U32(Flag::with_default("count", 2))));
    assert!(reg.populate_flags().is_ok());
    let out = reg.resolve_flags_from_command(&vec![("no-count".to_owned(), None)]);
    assert_eq!(
        out[0].1,
        Err(FlagResolveErr::ParseAndSetErr(FlagParseAndSetErr::ParseErr(FlagParseErr::InvalidValue(
            "false".to_owned()
        ))))
    );
    assert_eq!(u32_value(&reg, "count"), Some(2));
}

#[test]
fn negation_of_unknown_flag_is_undefined() {
    let mut reg = FlagRegistry::new();
    let out = reg.resolve_flags_from_command(&vec![("no-thing".to_owned(), None)]);
    assert_eq!(out[0].1, Err(FlagResolveErr::UndefinedFlag));
    let out = reg.resolve_flags_from_command(&vec![("no-thing".to_owned(), Some("x".to_owned()))]);
    assert_eq!(out[0].1, Err(FlagResolveErr::UndefinedFlag));
}

#[test]
fn unknown_key_does_not_block_others() {
    let mut reg = FlagRegistry::new();
    reg.declare(registration("known-flag", "a.rs", 1, AnyFlag::I64(Flag::new("known-flag"))));
    assert!(reg.populate_flags().is_ok());
    let out = reg.resolve_flags_from_command(&vec![
        ("unknown-flag".to_owned(), Some("x".to_owned())),
        ("known-flag".to_owned(), Some("5".to_owned())),
    ]);
    assert_eq!(out[0], ("unknown-flag".to_owned(), Err(FlagResolveErr::UndefinedFlag)));
    assert_eq!(out[1], ("known-flag".to_owned(), Ok(())));
    match reg.flag("known-flag") {
        Some(AnyFlag::I64(f)) => assert_eq!(f.get_value(), Some(5)),
        _ => panic!("known-flag missing"),
    }
}

#[test]
fn bare_key_means_true() {
    let mut reg = FlagRegistry::new();
    reg.declare(registration("fast", "a.rs", 1, AnyFlag::Bool(Flag::new("fast"))));
    reg.declare(registration("name", "a.rs", 2, AnyFlag::Str(Flag::new("name"))));
    assert!(reg.populate_flags().is_ok());
    let out = reg.resolve_flags_from_command(&vec![("fast".to_owned(), None), ("name".to_owned(), None)]);
    assert_eq!(out[0].1, Ok(()));
    assert_eq!(out[1].1, Ok(()));
    assert_eq!(bool_value(&reg, "fast"), Some(true));
    assert_eq!(string_value(&reg, "name"), Some("true".to_owned()));
}

#[test]
fn second_resolution_is_refused() {
    let mut reg = FlagRegistry::new();
    reg.declare(registration("port", "a.rs", 1, AnyFlag::U32(Flag::with_default("port", 80))));
    assert!(reg.populate_flags().is_ok());
    let out = reg.resolve_flags_from_command(&vec![("port".to_owned(), Some("8080".to_owned()))]);
    assert_eq!(out[0].1, Ok(()));
    let out = reg.resolve_flags_from_command(&vec![("port".to_owned(), Some("9090".to_owned()))]);
    assert_eq!(
        out[0].1,
        Err(FlagResolveErr::ParseAndSetErr(FlagParseAndSetErr::SetErr(FlagInitErr::AlreadyInitialized)))
    );
    assert_eq!(u32_value(&reg, "port"), Some(8080));
}

#[test]
fn collision_reports_both_sites() {
    let mut reg = FlagRegistry::new();
    reg.declare(registration("dup", "one.rs", 10, AnyFlag::Bool(Flag::new("dup"))));
    reg.declare(registration("other", "one.rs", 11, AnyFlag::Bool(Flag::new("other"))));
    reg.declare(registration("dup", "two.rs", 20, AnyFlag::U32(Flag::new("dup"))));
    let errs = reg.populate_flags().unwrap_err();
    assert_eq!(
        errs,
        vec![
            ("dup".to_owned(), GlobalInitErr::SharesNameWith { file_name: "one.rs".to_owned(), line_number: 10 }),
            ("dup".to_owned(), GlobalInitErr::SharesNameWith { file_name: "two.rs".to_owned(), line_number: 20 }),
        ]
    );
    assert!(reg.flag("dup").is_none());
    assert!(reg.flag("other").is_none());
    assert!(reg.populate_flags().is_ok());
}

#[test]
fn collision_with_indexed_flag() {
    let mut reg = FlagRegistry::new();
    reg.declare(registration("a", "x.rs", 1, AnyFlag::Bool(Flag::new("a"))));
    assert!(reg.populate_flags().is_ok());
    reg.declare(registration("a", "y.rs", 2, AnyFlag::Bool(Flag::new("a"))));
    let errs = reg.populate_flags().unwrap_err();
    assert_eq!(
        errs,
        vec![("a".to_owned(), GlobalInitErr::SharesNameWith { file_name: "y.rs".to_owned(), line_number: 2 })]
    );
    assert!(reg.flag("a").is_some());
}

#[test]
fn repeated_drain_is_a_no_op() {
    let mut reg = FlagRegistry::new();
    assert!(reg.populate_flags().is_ok());
    reg.declare(registration("k", "x.rs", 1, AnyFlag::I8(Flag::new("k"))));
    assert!(reg.populate_flags().is_ok());
    assert!(reg.populate_flags().is_ok());
    assert!(reg.flag("k").is_some());
}

#[test]
fn register_flag_refuses_taken_name() {
    let mut reg = FlagRegistry::new();
    assert_eq!(reg.register_flag(registration("x", "a.rs", 1, AnyFlag::U8(Flag::new("x")))), Ok(()));
    assert_eq!(
        reg.register_flag(registration("x", "b.rs", 2, AnyFlag::U8(Flag::new("x")))),
        Err(FlagRegistryErr::AlreadyExists)
    );
    assert!(reg.flag("x").is_some());
}

#[test]
fn initializer_sets_from_text() {
    let mut init = registration("lim", "c.rs", 7, AnyFlag::I32(Flag::new("lim")));
    assert_eq!(init.flag_name(), "lim");
    assert_eq!(init.file(), "c.rs");
    assert_eq!(init.line(), 7);
    assert_eq!(init.set_statically("abc"), Err(InitErr::FailedToParse("abc".to_owned())));
    assert_eq!(init.set_statically("-12"), Ok(()));
    assert_eq!(init.set_statically("3"), Err(InitErr::AlreadyInitOnce));
    match init.flag() {
        AnyFlag::I32(f) => assert_eq!(f.get_value(), Some(-12)),
        _ => panic!("wrong kind"),
    }
}

#[test]
fn list_parses_in_order() {
    let l = FlagList::<i64>::parse_from_str("3,-1,20").unwrap();
    assert_eq!(l.items, vec![3, -1, 20]);
    let l = FlagList::<String>::parse_from_str("Hello,Hi,,Hey").unwrap();
    assert_eq!(l.items, vec!["Hello".to_owned(), "Hi".to_owned(), String::new(), "Hey".to_owned()]);
    let l = FlagList::<String>::parse_from_str("").unwrap();
    assert_eq!(l.items, vec![String::new()]);
}

#[test]
fn list_failure_reports_piece() {
    assert_eq!(FlagList::<i64>::parse_from_str("1,x2,3").unwrap_err(), "x2".to_owned());
    assert_eq!(FlagList::<i64>::parse_from_str("1,2,").unwrap_err(), "".to_owned());
    assert_eq!(FlagList::<u8>::parse_from_str("300").unwrap_err(), "300".to_owned());
}

#[test]
fn list_round_trip() {
    let values = vec![i64::MIN, 0, 7, i64::MAX];
    let text = values.iter().map(|v| v.to_string()).collect::<Vec<_>>().join(",");
    assert_eq!(FlagList::<i64>::parse_from_str(&text).unwrap().items, values);
    let words = vec!["a".to_owned(), "bc".to_owned()];
    assert_eq!(FlagList::<String>::parse_from_str(&words.join(",")).unwrap().items, words);
}

#[test]
fn list_flag_in_registry() {
    let mut reg = FlagRegistry::new();
    reg.declare(registration("greetings", "g.rs", 1, AnyFlag::StrList(Flag::new("greetings"))));
    assert!(reg.populate_flags().is_ok());
    let out = reg.resolve_flags_from_command(&vec![("greetings".to_owned(), Some("Hi,Yo".to_owned()))]);
    assert_eq!(out[0].1, Ok(()));
    match reg.flag("greetings") {
        Some(AnyFlag::StrList(f)) => {
            assert_eq!(f.get_value().map(|l| l.items), Some(vec!["Hi".to_owned(), "Yo".to_owned()]))
        },
        _ => panic!("greetings missing"),
    }
}

#[test]
fn resolve_result_keeps_failures_in_order() {
    let mut reg = FlagRegistry::new();
    reg.declare(registration("a", "a.rs", 1, AnyFlag::U8(Flag::new("a"))));
    reg.declare(registration("b", "a.rs", 2, AnyFlag::U8(Flag::new("b"))));
    assert!(reg.populate_flags().is_ok());
    let out = reg.resolve_flags_from_command(&vec![
        ("zz".to_owned(), None),
        ("a".to_owned(), Some("1".to_owned())),
        ("b".to_owned(), Some("-1".to_owned())),
    ]);
    let summary = FlagResolveResult::from_outcomes(out);
    assert!(!summary.is_success());
    assert_eq!(
        summary.errors,
        vec![
            ("zz".to_owned(), FlagResolveErr::UndefinedFlag),
            (
                "b".to_owned(),
                FlagResolveErr::ParseAndSetErr(FlagParseAndSetErr::ParseErr(FlagParseErr::InvalidValue(
                    "-1".to_owned()
                )))
            ),
        ]
    );
    assert!(FlagResolveResult::from_outcomes(vec![("a".to_owned(), Ok(()))]).is_success());
}
