use catalyst_toolbox::amount::parse_amount;
use catalyst_toolbox::RewardsError;

#[test]
fn whole_units_scale_to_minor() {
    assert_eq!(parse_amount("123"), Ok(123_000_000));
    assert_eq!(parse_amount("0"), Ok(0));
}

#[test]
fn fractions_pad_to_six_places() {
    assert_eq!(parse_amount("12.34"), Ok(12_340_000));
    assert_eq!(parse_amount("0.5"), Ok(500_000));
    assert_eq!(parse_amount("0.000001"), Ok(1));
    assert_eq!(parse_amount("1.234567"), Ok(1_234_567));
    assert_eq!(parse_amount("1.2345678"), Err(RewardsError::InvalidInput));
}

#[test]
fn leading_zeros_are_fine() {
    assert_eq!(parse_amount("000123.450000"), Ok(123_450_000));
}

#[test]
fn largest_amount_parses() {
    assert_eq!(parse_amount("18446744073709.551615"), Ok(u64::MAX));
}

#[test]
fn out_of_range_rejected() {
    assert_eq!(
        parse_amount("18446744073709.551616"),
        Err(RewardsError::InvalidInput)
    );
    assert_eq!(
        parse_amount("99999999999999999999"),
        Err(RewardsError::InvalidInput)
    );
}

#[test]
fn malformed_rejected() {
    for bad in ["", ".", "1.", ".5", "12a", "1.2.3", "-1", "1,5", " 1"] {
        assert_eq!(parse_amount(bad), Err(RewardsError::InvalidInput), "{}", bad);
    }
}
