use config_store::setting::{Decimal, Setting};

fn text(s: &str) -> Setting {
    Setting::String(s.to_string())
}

#[test]
fn reads_boolean_literals() {
    assert_eq!(Setting::from_string("true"), Setting::Boolean(true));
    assert_eq!(Setting::from_string("false"), Setting::Boolean(false));
    assert_eq!(Setting::from_string("True"), text("True"));
    assert_eq!(Setting::from_string("truex"), text("truex"));
}

#[test]
fn reads_integers() {
    assert_eq!(Setting::from_string("42"), Setting::Integer(42));
    assert_eq!(Setting::from_string("-7"), Setting::Integer(-7));
    assert_eq!(Setting::from_string("+5"), Setting::Integer(5));
    assert_eq!(Setting::from_string("007"), Setting::Integer(7));
    assert_eq!(Setting::from_string("-0"), Setting::Integer(0));
}

#[test]
fn reads_integer_limits() {
    assert_eq!(Setting::from_string("9223372036854775807"), Setting::Integer(i64::MAX));
    assert_eq!(Setting::from_string("-9223372036854775808"), Setting::Integer(i64::MIN));
    assert_eq!(Setting::from_string("9223372036854775808"), text("9223372036854775808"));
    assert_eq!(Setting::from_string("-9223372036854775809"), text("-9223372036854775809"));
}

#[test]
fn reads_decimals() {
    assert_eq!(Setting::from_string("3.14"), Setting::Float(Decimal { mantissa: 314, scale: 2 }));
    assert_eq!(Setting::from_string("-0.05"), Setting::Float(Decimal { mantissa: -5, scale: 2 }));
    assert_eq!(Setting::from_string("+1.50"), Setting::Float(Decimal { mantissa: 150, scale: 2 }));
    assert_eq!(Setting::from_string("0.0"), Setting::Float(Decimal { mantissa: 0, scale: 1 }));
    assert_eq!(Setting::from_string("1."), Setting::Float(Decimal { mantissa: 1, scale: 0 }));
    assert_eq!(Setting::from_string("-12."), Setting::Float(Decimal { mantissa: -12, scale: 0 }));
}

#[test]
fn falls_back_to_text() {
    assert_eq!(Setting::from_string(""), text(""));
    assert_eq!(Setting::from_string("abc"), text("abc"));
    assert_eq!(Setting::from_string("1.x"), text("1.x"));
    assert_eq!(Setting::from_string(".5"), text(".5"));
    assert_eq!(Setting::from_string("1.2.3"), text("1.2.3"));
    assert_eq!(Setting::from_string("-"), text("-"));
    assert_eq!(Setting::from_string("1e5"), text("1e5"));
    assert_eq!(Setting::from_string("héllo wörld"), text("héllo wörld"));
    assert_eq!(Setting::from_string("99999999999999999999.5"), text("99999999999999999999.5"));
}

#[test]
fn renders_values() {
    assert_eq!(Setting::Boolean(true).to_string(), "true");
    assert_eq!(Setting::Boolean(false).to_string(), "false");
    assert_eq!(Setting::Integer(-12).to_string(), "-12");
    assert_eq!(Setting::Integer(0).to_string(), "0");
    assert_eq!(Setting::Integer(i64::MIN).to_string(), "-9223372036854775808");
    assert_eq!(Setting::Float(Decimal { mantissa: 5, scale: 2 }).to_string(), "0.05");
    assert_eq!(Setting::Float(Decimal { mantissa: -5, scale: 3 }).to_string(), "-0.005");
    assert_eq!(Setting::Float(Decimal { mantissa: 1234, scale: 2 }).to_string(), "12.34");
    assert_eq!(Setting::Float(Decimal { mantissa: 0, scale: 1 }).to_string(), "0.0");
    assert_eq!(Setting::Float(Decimal { mantissa: -12, scale: 2 }).to_string(), "-0.12");
    assert_eq!(Setting::Float(Decimal { mantissa: 1, scale: 0 }).to_string(), "1.");
    assert_eq!(text("some text").to_string(), "some text");
}

#[test]
fn typed_values_round_trip() {
    let values = vec![
        Setting::Boolean(true),
        Setting::Boolean(false),
        Setting::Integer(0),
        Setting::Integer(-1),
        Setting::Integer(i64::MAX),
        Setting::Integer(i64::MIN),
        Setting::Float(Decimal { mantissa: 1, scale: 1 }),
        Setting::Float(Decimal { mantissa: -100, scale: 5 }),
        Setting::Float(Decimal { mantissa: i64::MIN, scale: 3 }),
        Setting::Float(Decimal { mantissa: i64::MAX, scale: 19 }),
        Setting::Float(Decimal { mantissa: 7, scale: 25 }),
        Setting::Float(Decimal { mantissa: 1, scale: 0 }),
        Setting::Float(Decimal { mantissa: 0, scale: 0 }),
        Setting::Float(Decimal { mantissa: i64::MIN, scale: 0 }),
    ];
    for v in values {
        assert_eq!(Setting::from_string(&v.to_string()), v);
    }
}

#[test]
fn reading_never_fails() {
    for s in ["", " ", "-+1", "+-1", "--1", "0x10", "1,5", "∞", "\u{0}", "NaN", "inf"] {
        let v = Setting::from_string(s);
        assert_eq!(v, text(s));
    }
}
