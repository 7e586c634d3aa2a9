use debt_ledger::money::{format_money, parse_money};

#[test]
fn test_format_money_zero() {
    assert_eq!("$0.00", format_money(0));
}

#[test]
fn test_format_money_positive() {
    assert_eq!("$0.01", format_money(1));
    assert_eq!("$0.12", format_money(12));
    assert_eq!("$1.23", format_money(123));
    assert_eq!("$12.34", format_money(1234));
}

#[test]
fn test_format_money_negative() {
    assert_eq!("-$0.01", format_money(-1));
    assert_eq!("-$0.12", format_money(-12));
    assert_eq!("-$1.23", format_money(-123));
    assert_eq!("-$12.34", format_money(-1234));
}

#[test]
fn test_parse_money_zero() -> Result<(), String> {
    let expected = 0;
    match parse_money("0") {
        Ok(actual) => {
            if expected != actual {
                return Err(format!("Expected {}, got {}", expected, actual));
            }
        }
        Err(e) => return Err(e.message().to_string()),
    }

    Ok(())
}

#[test]
fn test_parse_money_positive() -> Result<(), String> {
    let expected = 1;
    match parse_money("0.01") {
        Ok(actual) => {
            if expected != actual {
                return Err(format!("Expected {}, got {}", expected, actual));
            }
        }
        Err(e) => return Err(e.message().to_string()),
    }

    let expected = 1200;
    match parse_money("12") {
        Ok(actual) => {
            if expected != actual {
                return Err(format!("Expected {}, got {}", expected, actual));
            }
        }
        Err(e) => return Err(e.message().to_string()),
    }

    let expected = 1234;
    match parse_money("$12.34") {
        Ok(actual) => {
            if expected != actual {
                return Err(format!("Expected {}, got {}", expected, actual));
            }
        }
        Err(e) => return Err(e.message().to_string()),
    }

    Ok(())
}

#[test]
fn test_parse_money_negative() -> Result<(), String> {
    let expected = -1;
    match parse_money("-0.01") {
        Ok(actual) => {
            if expected != actual {
                return Err(format!("Expected {}, got {}", expected, actual));
            }
        }
        Err(e) => return Err(e.message().to_string()),
    }

    let expected = -1200;
    match parse_money("-12") {
        Ok(actual) => {
            if expected != actual {
                return Err(format!("Expected {}, got {}", expected, actual));
            }
        }
        Err(e) => return Err(e.message().to_string()),
    }

    let expected = -1234;
    match parse_money("-$12.34") {
        Ok(actual) => {
            if expected != actual {
                return Err(format!("Expected {}, got {}", expected, actual));
            }
        }
        Err(e) => return Err(e.message().to_string()),
    }

    Ok(())
}

#[test]
fn test_parse_money_error() -> Result<(), String> {
    match parse_money("a") {
        Ok(actual) => return Err(format!("Expected error, got {}", actual)),
        Err(_e) => {}
    }

    match parse_money("-0.0.1") {
        Ok(actual) => return Err(format!("Expected error, got {}", actual)),
        Err(_e) => {}
    }

    match parse_money("-0.-1") {
        Ok(actual) => return Err(format!("Expected error, got {}", actual)),
        Err(_e) => {}
    }

    Ok(())
}

#[test]
fn test_parse_money_rejects_short_fraction() {
    assert!(parse_money("0.1").is_err());
    assert!(parse_money("abc").is_err());
    assert!(parse_money("").is_err());
    assert!(parse_money("$").is_err());
    assert!(parse_money("-").is_err());
    assert!(parse_money("12.").is_err());
    assert!(parse_money("12.345").is_err());
    assert!(parse_money("$-12.34").is_err());
}

#[test]
fn test_parse_money_accepts_dollar_and_sign_forms() {
    assert_eq!(parse_money("$0.00").unwrap(), 0);
    assert_eq!(parse_money("-$0.01").unwrap(), -1);
    assert_eq!(parse_money("007").unwrap(), 700);
    assert_eq!(parse_money("1200.99").unwrap(), 120099);
}

#[test]
fn test_parse_format_roundtrip() {
    let values: [i64; 10] = [
        0,
        1,
        -1,
        99,
        -99,
        1234,
        -1234,
        123456789,
        i64::MAX,
        i64::MIN,
    ];
    for &v in values.iter() {
        let rendered = format_money(v);
        assert_eq!(parse_money(&rendered).unwrap(), v);
    }
}

#[test]
fn test_parse_money_range_limits() {
    // i64::MAX cents and i64::MIN cents parse; one cent beyond either fails.
    assert_eq!(parse_money("92233720368547758.07").unwrap(), i64::MAX);
    assert_eq!(parse_money("-92233720368547758.08").unwrap(), i64::MIN);
    assert!(parse_money("92233720368547758.08").is_err());
    assert!(parse_money("-92233720368547758.09").is_err());
}

#[test]
fn test_format_money_large() {
    assert_eq!("$92233720368547758.07", format_money(i64::MAX));
    assert_eq!("-$92233720368547758.08", format_money(i64::MIN));
}
