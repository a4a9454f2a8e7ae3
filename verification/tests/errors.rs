use tidb_query::error::{
    from_regexp_error, from_serde_error, Error, ERR_DATA_OUT_OF_RANGE, ERR_DATA_TOO_LONG,
    ERR_DIVISION_BY_ZERO, ERR_REGEXP, ERR_TRUNCATE_WRONG_VALUE, ERR_UNKNOWN,
    ERR_UNKNOWN_TIMEZONE, WARN_DATA_TRUNCATED, ZLIB_DATA_CORRUPTED, ZLIB_LENGTH_CORRUPTED,
};

#[test]
fn overflow_message_and_code() {
    let e = Error::overflow("BIGINT", "1 + 1");
    assert_eq!(e.code(), ERR_DATA_OUT_OF_RANGE);
    assert_eq!(e.code(), 1690);
    assert!(e.is_overflow());
    assert_eq!(e.message(), "BIGINT value is out of range in '1 + 1'");
}

#[test]
fn truncated_wrong_val_message_and_code() {
    let e = Error::truncated_wrong_val("DOUBLE", "abc");
    assert_eq!(e.code(), ERR_TRUNCATE_WRONG_VALUE);
    assert_eq!(e.code(), 1292);
    assert!(!e.is_overflow());
    assert_eq!(e.message(), "Truncated incorrect DOUBLE value: 'abc'");
}

#[test]
fn truncated_warning_code() {
    let e = Error::truncated();
    assert_eq!(e.code(), WARN_DATA_TRUNCATED);
    assert_eq!(e.code(), 1265);
    assert_eq!(e.message(), "Data Truncated");
}

#[test]
fn cast_helpers_use_unknown_code() {
    let e = Error::cast_neg_int_as_unsigned();
    assert_eq!(e.code(), ERR_UNKNOWN);
    assert_eq!(
        e.message(),
        "Cast to unsigned converted negative integer to it's positive complement"
    );
    let e = Error::cast_as_signed_overflow();
    assert_eq!(e.code(), 1105);
    assert_eq!(
        e.message(),
        "Cast to signed converted positive out-of-range integer to it's negative complement"
    );
}

#[test]
fn invalid_timezone_message_and_code() {
    let e = Error::invalid_timezone("Mars/Olympus");
    assert_eq!(e.code(), ERR_UNKNOWN_TIMEZONE);
    assert_eq!(e.code(), 1298);
    assert_eq!(e.message(), "unknown or incorrect time zone: Mars/Olympus");
}

#[test]
fn division_by_zero_message_and_code() {
    let e = Error::division_by_zero();
    assert_eq!(e.code(), ERR_DIVISION_BY_ZERO);
    assert_eq!(e.code(), 1365);
    assert_eq!(e.message(), "Division by 0");
}

#[test]
fn data_too_long_defaults_empty_message() {
    let e = Error::data_too_long(String::new());
    assert_eq!(e.code(), ERR_DATA_TOO_LONG);
    assert_eq!(e.code(), 1406);
    assert_eq!(e.message(), "Data Too Long");
    let e = Error::data_too_long("way too long".to_string());
    assert_eq!(e.message(), "way too long");
}

#[test]
fn time_format_helpers() {
    let e = Error::invalid_time_format("25:61");
    assert_eq!(e.code(), ERR_TRUNCATE_WRONG_VALUE);
    assert_eq!(e.message(), "invalid time format: '25:61'");
    let e = Error::incorrect_datetime_value("2020-13-40");
    assert_eq!(e.code(), ERR_TRUNCATE_WRONG_VALUE);
    assert_eq!(e.message(), "Incorrect datetime value: '2020-13-40'");
}

#[test]
fn zlib_helpers() {
    let e = Error::zlib_length_corrupted();
    assert_eq!(e.code(), ZLIB_LENGTH_CORRUPTED);
    assert_eq!(e.code(), 1258);
    let e = Error::zlib_data_corrupted();
    assert_eq!(e.code(), ZLIB_DATA_CORRUPTED);
    assert_eq!(e.code(), 1259);
    assert_eq!(e.message(), "ZLIB: Input data corrupted");
}

#[test]
fn non_eval_variants_report_unknown_code() {
    assert_eq!(Error::ColumnOffset(3).code(), ERR_UNKNOWN);
    assert_eq!(Error::ColumnOffset(3).message(), "illegal column offset: 3");
    assert_eq!(Error::ColumnOffset(1204).message(), "illegal column offset: 1204");
    assert_eq!(Error::ColumnOffset(0).message(), "illegal column offset: 0");
    assert_eq!(Error::InvalidDataType("bad".to_string()).code(), ERR_UNKNOWN);
    assert_eq!(Error::Encoding(2).code(), ERR_UNKNOWN);
    assert_eq!(Error::Other("x".to_string()).code(), ERR_UNKNOWN);
    assert_eq!(Error::UnknownSignature("SUM".to_string()).code(), ERR_UNKNOWN);
}

#[test]
fn error_response_carries_code_and_message() {
    let e = Error::overflow("INT", "abs(x)");
    let resp = e.to_error_response();
    assert_eq!(resp.code, 1690);
    assert_eq!(resp.msg, "INT value is out of range in 'abs(x)'");
    let resp = Error::UnknownSignature("FOO".to_string()).to_error_response();
    assert_eq!(resp.code, 1105);
    assert_eq!(resp.msg, "Unknown signature: FOO");
}

#[test]
fn unexpected_eof_is_wrapped_opaquely() {
    let e = Error::unexpected_eof();
    assert_eq!(e.code(), ERR_UNKNOWN);
    assert_eq!(e.message(), "codec:unexpected end of input");
}

#[test]
fn regexp_error_becomes_eval_failure() {
    let bad = regex::Regex::new("[").unwrap_err();
    let e = from_regexp_error(&bad);
    assert_eq!(e.code(), ERR_REGEXP);
    assert_eq!(e.code(), 1139);
    let msg = e.message();
    assert!(msg.starts_with("Got error '"));
    assert!(msg.ends_with("' from regexp"));
    assert!(msg.len() <= "Got error '' from regexp".len() + 4 * 64);
}

#[test]
fn serde_error_is_wrapped_opaquely() {
    let bad = serde_json::from_str::<serde_json::Value>("{not json").unwrap_err();
    let e = from_serde_error(&bad);
    assert_eq!(e.code(), ERR_UNKNOWN);
    let msg = e.message();
    assert!(msg.starts_with("serde:"));
    assert!(msg.len() > "serde:".len());
}
