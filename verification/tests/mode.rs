//! The visibility mode: predicates, parsing, combination, and the byte
//! encoding.

use snarkcore::mode::Mode;

#[test]
fn test_mode_predicates() {
    assert!(Mode::Constant.is_constant());
    assert!(!Mode::Constant.is_public());
    assert!(!Mode::Constant.is_private());
    assert!(Mode::Public.is_public());
    assert!(Mode::Private.is_private());
}

#[test]
fn test_mode_parse() {
    assert_eq!(Mode::parse("constant"), Ok((Mode::Constant, "")));
    assert_eq!(Mode::parse("public rest"), Ok((Mode::Public, " rest")));
    assert_eq!(Mode::parse("private.x"), Ok((Mode::Private, ".x")));
    assert!(Mode::parse("Constant").is_err());
    assert!(Mode::parse("pub").is_err());
    assert!(Mode::parse("").is_err());
}

#[test]
fn test_mode_name() {
    assert_eq!(Mode::Constant.name(), "constant");
    assert_eq!(Mode::Public.name(), "public");
    assert_eq!(Mode::Private.name(), "private");
}

#[test]
fn test_mode_combine_is_monotonic() {
    // combining with a private value is private; a public value absorbs
    // a constant; two constants stay constant
    assert_eq!(Mode::Constant.combine(&Mode::Constant), Mode::Constant);
    assert_eq!(Mode::Constant.combine(&Mode::Public), Mode::Public);
    assert_eq!(Mode::Public.combine(&Mode::Constant), Mode::Public);
    assert_eq!(Mode::Public.combine(&Mode::Public), Mode::Public);
    for mode in [Mode::Constant, Mode::Public, Mode::Private] {
        assert_eq!(mode.combine(&Mode::Private), Mode::Private);
        assert_eq!(Mode::Private.combine(&mode), Mode::Private);
    }
}

#[test]
fn test_mode_bytes() {
    for mode in [Mode::Constant, Mode::Public, Mode::Private] {
        assert_eq!(Mode::from_u8(mode.to_u8()), Some(mode));
    }
    assert_eq!(Mode::from_u8(3), None);
    assert_eq!(Mode::from_u8(255), None);
}
