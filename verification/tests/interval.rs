use sleep_progress::{parse_interval, Args};

#[test]
fn parse_interval_1() {
    let result = parse_interval(&Args {
        number: vec!["1".into()],
        progress: false,
    });
    assert_eq!(result.ok(), Some(1000));
}

#[test]
fn parse_interval_1p() {
    let result = parse_interval(&Args {
        number: vec!["1".into()],
        progress: true,
    });
    assert_eq!(result.ok(), Some(1000));
}

#[test]
fn parse_interval_0_5() {
    let result = parse_interval(&Args {
        number: vec!["0.5".into()],
        progress: false,
    });
    assert_eq!(result.ok(), Some(500));
}

#[test]
fn parse_interval_1s() {
    let result = parse_interval(&Args {
        number: vec!["1s".into()],
        progress: false,
    });
    assert_eq!(result.ok(), Some(1000));
}

#[test]
fn parse_interval_1m() {
    let result = parse_interval(&Args {
        number: vec!["1m".into()],
        progress: false,
    });
    assert_eq!(result.ok(), Some(60000));
}

#[test]
fn parse_interval_1h() {
    let result = parse_interval(&Args {
        number: vec!["1h".into()],
        progress: false,
    });
    assert_eq!(result.ok(), Some(3600000));
}

#[test]
fn parse_interval_1d() {
    let result = parse_interval(&Args {
        number: vec!["1d".into()],
        progress: false,
    });
    assert_eq!(result.ok(), Some(86400000));
}

#[test]
fn parse_interval_multiple() {
    let result = parse_interval(&Args {
        number: vec![
            "1.023".into(),
            "1s".into(),
            "1m".into(),
            "1h".into(),
            "1d".into(),
        ],
        progress: false,
    });
    assert_eq!(result.ok(), Some(90062023));
}

#[test]
fn parse_interval_err() {
    let result = parse_interval(&Args {
        number: vec!["1z".into()],
        progress: false,
    });

    assert_eq!(
        result.err().unwrap().message(),
        "invalid time interval '1z'"
    );
}

#[test]
fn parse_interval_err_2() {
    let result = parse_interval(&Args {
        number: vec![
            "1".into(),
            "2".into(),
            "3e".into(),
            "4".into(),
            "5".into(),
            "6".into(),
        ],
        progress: false,
    });

    assert_eq!(
        result.err().unwrap().message(),
        "invalid time interval '3e'"
    );
}

#[test]
fn parse_interval_err_3() {
    let result = parse_interval(&Args {
        number: vec!["one".into()],
        progress: false,
    });

    assert_eq!(
        result.err().unwrap().message(),
        "invalid time interval 'one'"
    );
}

#[test]
fn parse_interval_first_invalid_token_reported() {
    let result = parse_interval(&Args {
        number: vec!["1z".into(), "one".into()],
        progress: false,
    });
    assert_eq!(
        result.err().unwrap().message(),
        "invalid time interval '1z'"
    );
}

#[test]
fn parse_interval_suffix_only_is_invalid() {
    let result = parse_interval(&Args {
        number: vec!["s".into()],
        progress: false,
    });
    assert_eq!(
        result.err().unwrap().message(),
        "invalid time interval 's'"
    );
}

#[test]
fn parse_interval_empty_token_is_invalid() {
    let result = parse_interval(&Args {
        number: vec!["".into()],
        progress: false,
    });
    assert_eq!(result.err().unwrap().message(), "invalid time interval ''");
}

#[test]
fn parse_interval_signed_tokens() {
    let result = parse_interval(&Args {
        number: vec!["+2".into(), "-1".into()],
        progress: false,
    });
    assert_eq!(result.ok(), Some(1000));
}

#[test]
fn parse_interval_negative_total_clamps_to_zero() {
    let result = parse_interval(&Args {
        number: vec!["-5".into()],
        progress: false,
    });
    assert_eq!(result.ok(), Some(0));
}

#[test]
fn parse_interval_bare_dot_forms() {
    let with_trailing_dot = parse_interval(&Args {
        number: vec!["1.".into()],
        progress: false,
    });
    assert_eq!(with_trailing_dot.ok(), Some(1000));
    let with_leading_dot = parse_interval(&Args {
        number: vec![".5".into()],
        progress: false,
    });
    assert_eq!(with_leading_dot.ok(), Some(500));
    let lone_dot = parse_interval(&Args {
        number: vec![".".into()],
        progress: false,
    });
    assert_eq!(
        lone_dot.err().unwrap().message(),
        "invalid time interval '.'"
    );
}

#[test]
fn parse_interval_two_dots_is_invalid() {
    let result = parse_interval(&Args {
        number: vec!["1.2.3".into()],
        progress: false,
    });
    assert_eq!(
        result.err().unwrap().message(),
        "invalid time interval '1.2.3'"
    );
}

#[test]
fn parse_interval_rounds_half_away_from_zero() {
    let result = parse_interval(&Args {
        number: vec!["0.0005".into()],
        progress: false,
    });
    assert_eq!(result.ok(), Some(1));
    let below_half = parse_interval(&Args {
        number: vec!["0.0004".into()],
        progress: false,
    });
    assert_eq!(below_half.ok(), Some(0));
}

#[test]
fn parse_interval_tiny_fraction_rounds_to_zero() {
    let result = parse_interval(&Args {
        number: vec!["0.0000000001".into()],
        progress: false,
    });
    assert_eq!(result.ok(), Some(0));
}

#[test]
fn parse_interval_progress_flag_has_no_effect() {
    let plain = parse_interval(&Args {
        number: vec!["1.023".into(), "2m".into()],
        progress: false,
    });
    let with_progress = parse_interval(&Args {
        number: vec!["1.023".into(), "2m".into()],
        progress: true,
    });
    let plain_ms = plain.ok();
    assert_eq!(plain_ms, with_progress.ok());
    assert_eq!(plain_ms, Some(121023));
}

#[test]
fn parse_interval_huge_token_saturates() {
    let result = parse_interval(&Args {
        number: vec!["999999999999999999999999999999d".into()],
        progress: false,
    });
    assert_eq!(result.ok(), Some(u64::MAX));
}

#[test]
fn parse_interval_exponent_notation() {
    let result = parse_interval(&Args {
        number: vec!["1e3".into()],
        progress: false,
    });
    assert_eq!(result.ok(), Some(1000000));
    let upper_marker = parse_interval(&Args {
        number: vec!["2E2".into()],
        progress: false,
    });
    assert_eq!(upper_marker.ok(), Some(200000));
    let with_fraction = parse_interval(&Args {
        number: vec!["1.5e2".into()],
        progress: false,
    });
    assert_eq!(with_fraction.ok(), Some(150000));
}

#[test]
fn parse_interval_negative_exponent() {
    let result = parse_interval(&Args {
        number: vec!["1e-3".into()],
        progress: false,
    });
    assert_eq!(result.ok(), Some(1));
    let signed = parse_interval(&Args {
        number: vec!["5e+2".into()],
        progress: false,
    });
    assert_eq!(signed.ok(), Some(500000));
    let tiny = parse_interval(&Args {
        number: vec!["1e-12".into()],
        progress: false,
    });
    assert_eq!(tiny.ok(), Some(0));
}

#[test]
fn parse_interval_malformed_exponents() {
    let bare_marker = parse_interval(&Args {
        number: vec!["1e".into()],
        progress: false,
    });
    assert_eq!(
        bare_marker.err().unwrap().message(),
        "invalid time interval '1e'"
    );
    let sign_only = parse_interval(&Args {
        number: vec!["1e+".into()],
        progress: false,
    });
    assert_eq!(
        sign_only.err().unwrap().message(),
        "invalid time interval '1e+'"
    );
    let double_marker = parse_interval(&Args {
        number: vec!["1e3e4".into()],
        progress: false,
    });
    assert_eq!(
        double_marker.err().unwrap().message(),
        "invalid time interval '1e3e4'"
    );
    let dotted_exponent = parse_interval(&Args {
        number: vec!["1e3.5".into()],
        progress: false,
    });
    assert_eq!(
        dotted_exponent.err().unwrap().message(),
        "invalid time interval '1e3.5'"
    );
}

#[test]
fn parse_interval_zero_mantissa_huge_exponent() {
    let result = parse_interval(&Args {
        number: vec!["0e999999999999999999999999999999999999".into()],
        progress: false,
    });
    assert_eq!(result.ok(), Some(0));
}

#[test]
fn parse_interval_huge_exponent_saturates() {
    let result = parse_interval(&Args {
        number: vec!["1e40".into()],
        progress: false,
    });
    assert_eq!(result.ok(), Some(u64::MAX));
}
