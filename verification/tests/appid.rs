use steamclipconverter::appid::AppId;

#[test]
fn parse_takes_digits_only() {
    for text in ["", " 1", "1 ", "+1", "-1", "1a", "0x10", "1_000", "\u{0661}"] {
        assert_eq!(AppId::parse(text), None, "{:?}", text);
    }
    for text in ["0", "1", "570", "0000", "18446744073709551616"] {
        assert!(AppId::parse(text).is_some(), "{:?}", text);
    }
}

#[test]
fn zeros_in_front_count_for_nothing() {
    assert_eq!(AppId::parse("000570"), AppId::parse("570"));
    assert_eq!(AppId::parse("000570").unwrap().decimal(), "570");
    assert_eq!(AppId::parse("0000").unwrap().decimal(), "0");
    assert!(AppId::parse("0000").unwrap().is_zero());
    assert!(!AppId::parse("0010").unwrap().is_zero());
}

#[test]
fn from_u64_and_decimal() {
    for n in [0u64, 1, 9, 10, 99, 100, 101, 65535, 294100, 4294967295, 4294967296, u64::MAX] {
        let id = AppId::from_u64(n);
        assert_eq!(id.decimal(), n.to_string());
        assert_eq!(AppId::parse(&n.to_string()), Some(id.clone()));
        assert_eq!(id.is_zero(), n == 0);
        assert!(id.same(&id.copy()));
    }
}

#[test]
fn same_compares_the_numbers() {
    let a = AppId::parse("0018446744073709551616").unwrap();
    let b = AppId::parse("18446744073709551616").unwrap();
    let c = AppId::parse("18446744073709551617").unwrap();
    assert!(a.same(&b));
    assert!(!a.same(&c));
    assert!(!AppId::from_u64(57).same(&AppId::from_u64(570)));
}
