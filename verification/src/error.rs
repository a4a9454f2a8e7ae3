//! The error taxonomy: one type, MySQL-compatible codes, and the
//! boundary conversions from outside failures.

use vstd::prelude::*;
use vstd::string::StringExecFns;
use regex::Error as RegexpError;
use serde_json::Error as SerdeError;

verus! {

/// MySQL-compatible numeric codes reported to the query layer.
pub const ERR_UNKNOWN: i32 = 1105;

pub const ERR_REGEXP: i32 = 1139;

pub const ZLIB_LENGTH_CORRUPTED: i32 = 1258;

pub const ZLIB_DATA_CORRUPTED: i32 = 1259;

pub const WARN_DATA_TRUNCATED: i32 = 1265;

pub const ERR_TRUNCATE_WRONG_VALUE: i32 = 1292;

pub const ERR_UNKNOWN_TIMEZONE: i32 = 1298;

pub const ERR_DIVISION_BY_ZERO: i32 = 1365;

pub const ERR_DATA_TOO_LONG: i32 = 1406;

pub const ERR_DATA_OUT_OF_RANGE: i32 = 1690;

/// The single error type of the engine.
///
/// `Eval` carries a message and the numeric code surfaced downstream; the
/// other variants map to `ERR_UNKNOWN` when a code is requested.
#[derive(Debug)]
pub enum Error {
    /// A value had a type the operation cannot work on.
    InvalidDataType(String),
    /// Stored bytes were not valid UTF-8; carries how many leading bytes were valid.
    Encoding(usize),
    /// A column offset pointed outside the schema.
    ColumnOffset(usize),
    /// An aggregate signature the engine does not know; carries its rendering.
    UnknownSignature(String),
    /// An evaluation failure: message and MySQL-compatible code.
    Eval(String, i32),
    /// An opaque failure from outside this engine, kept as its rendering.
    Other(String),
}

impl Error {
    /// The numeric code of this error: the stored code for `Eval`,
    /// `ERR_UNKNOWN` for every other variant.
    pub open spec fn spec_code(&self) -> i32 {
        match self {
            Error::Eval(_, c) => *c,
            _ => ERR_UNKNOWN,
        }
    }

    pub fn code(&self) -> (r: i32)
        ensures
            r == self.spec_code(),
    {
        match self {
            Error::Eval(_, c) => *c,
            _ => ERR_UNKNOWN,
        }
    }

    pub fn is_overflow(&self) -> (r: bool)
        ensures
            r == (self.spec_code() == ERR_DATA_OUT_OF_RANGE),
    {
        self.code() == ERR_DATA_OUT_OF_RANGE
    }

    pub fn overflow(data: &str, expr: &str) -> (r: Error)
        ensures
            (r matches Error::Eval(m, c) && m@ == overflow_msg(data@, expr@) && c
                == ERR_DATA_OUT_OF_RANGE),
    {
        let mut m = data.to_owned();
        m.append(" value is out of range in '");
        m.append(expr);
        m.append("'");
        Error::Eval(m, ERR_DATA_OUT_OF_RANGE)
    }

    pub fn truncated_wrong_val(data_type: &str, val: &str) -> (r: Error)
        ensures
            (r matches Error::Eval(m, c) && m@ == truncated_wrong_val_msg(data_type@, val@) && c
                == ERR_TRUNCATE_WRONG_VALUE),
    {
        let mut m = "Truncated incorrect ".to_owned();
        m.append(data_type);
        m.append(" value: '");
        m.append(val);
        m.append("'");
        Error::Eval(m, ERR_TRUNCATE_WRONG_VALUE)
    }

    pub fn truncated() -> (r: Error)
        ensures
            (r matches Error::Eval(m, c) && m@ == "Data Truncated"@ && c == WARN_DATA_TRUNCATED),
    {
        Error::Eval("Data Truncated".to_owned(), WARN_DATA_TRUNCATED)
    }

    pub fn cast_neg_int_as_unsigned() -> (r: Error)
        ensures
            (r matches Error::Eval(m, c) && m@
                == "Cast to unsigned converted negative integer to it's positive complement"@ && c
                == ERR_UNKNOWN),
    {
        Error::Eval(
            "Cast to unsigned converted negative integer to it's positive complement".to_owned(),
            ERR_UNKNOWN,
        )
    }

    pub fn cast_as_signed_overflow() -> (r: Error)
        ensures
            (r matches Error::Eval(m, c) && m@
                == "Cast to signed converted positive out-of-range integer to it's negative complement"@
                && c == ERR_UNKNOWN),
    {
        Error::Eval(
            "Cast to signed converted positive out-of-range integer to it's negative complement".to_owned(),
            ERR_UNKNOWN,
        )
    }

    pub fn invalid_timezone(given_time_zone: &str) -> (r: Error)
        ensures
            (r matches Error::Eval(m, c) && m@ == invalid_timezone_msg(given_time_zone@) && c
                == ERR_UNKNOWN_TIMEZONE),
    {
        let mut m = "unknown or incorrect time zone: ".to_owned();
        m.append(given_time_zone);
        Error::Eval(m, ERR_UNKNOWN_TIMEZONE)
    }

    pub fn division_by_zero() -> (r: Error)
        ensures
            (r matches Error::Eval(m, c) && m@ == "Division by 0"@ && c == ERR_DIVISION_BY_ZERO),
    {
        Error::Eval("Division by 0".to_owned(), ERR_DIVISION_BY_ZERO)
    }

    /// An empty message is replaced by the fixed default; the code is always
    /// `ERR_DATA_TOO_LONG`.
    pub fn data_too_long(msg: String) -> (r: Error)
        ensures
            (r matches Error::Eval(m, c) && c == ERR_DATA_TOO_LONG && m@ == (if msg@.len() == 0 {
                "Data Too Long"@
            } else {
                msg@
            })),
    {
        if msg.as_str().is_empty() {
            Error::Eval("Data Too Long".to_owned(), ERR_DATA_TOO_LONG)
        } else {
            Error::Eval(msg, ERR_DATA_TOO_LONG)
        }
    }

    pub fn invalid_time_format(val: &str) -> (r: Error)
        ensures
            (r matches Error::Eval(m, c) && m@ == invalid_time_format_msg(val@) && c
                == ERR_TRUNCATE_WRONG_VALUE),
    {
        let mut m = "invalid time format: '".to_owned();
        m.append(val);
        m.append("'");
        Error::Eval(m, ERR_TRUNCATE_WRONG_VALUE)
    }

    pub fn incorrect_datetime_value(val: &str) -> (r: Error)
        ensures
            (r matches Error::Eval(m, c) && m@ == incorrect_datetime_value_msg(val@) && c
                == ERR_TRUNCATE_WRONG_VALUE),
    {
        let mut m = "Incorrect datetime value: '".to_owned();
        m.append(val);
        m.append("'");
        Error::Eval(m, ERR_TRUNCATE_WRONG_VALUE)
    }

    pub fn zlib_length_corrupted() -> (r: Error)
        ensures
            (r matches Error::Eval(m, c) && m@
                == "ZLIB: Not enough room in the output buffer (probably, length of uncompressed data was corrupted)"@
                && c == ZLIB_LENGTH_CORRUPTED),
    {
        Error::Eval(
            "ZLIB: Not enough room in the output buffer (probably, length of uncompressed data was corrupted)".to_owned(),
            ZLIB_LENGTH_CORRUPTED,
        )
    }

    /// An unexpected end of input while decoding a stored value, wrapped
    /// opaquely like other codec-layer failures.
    pub fn unexpected_eof() -> (r: Error)
        ensures
            (r matches Error::Other(m) && m@ == "codec:unexpected end of input"@),
            r.spec_code() == ERR_UNKNOWN,
    {
        Error::Other("codec:unexpected end of input".to_owned())
    }

    pub fn zlib_data_corrupted() -> (r: Error)
        ensures
            (r matches Error::Eval(m, c) && m@ == "ZLIB: Input data corrupted"@ && c
                == ZLIB_DATA_CORRUPTED),
    {
        Error::Eval("ZLIB: Input data corrupted".to_owned(), ZLIB_DATA_CORRUPTED)
    }
}

/// The decimal digit character for one value below ten.
pub open spec fn dec_digit(d: int) -> char {
    if d == 0 {
        '0'
    } else if d == 1 {
        '1'
    } else if d == 2 {
        '2'
    } else if d == 3 {
        '3'
    } else if d == 4 {
        '4'
    } else if d == 5 {
        '5'
    } else if d == 6 {
        '6'
    } else if d == 7 {
        '7'
    } else if d == 8 {
        '8'
    } else {
        '9'
    }
}

/// The decimal rendering of a number, most significant digit first.
pub open spec fn dec_str(n: nat) -> Seq<char>
    decreases n,
{
    if n < 10 {
        seq![dec_digit(n as int)]
    } else {
        dec_str(n / 10) + seq![dec_digit((n % 10) as int)]
    }
}

/// Renders a number in decimal, exactly as `dec_str` says.
pub fn u64_to_dec(n: u64) -> (r: String)
    ensures
        r@ == dec_str(n as nat),
    decreases n,
{
    let d = n % 10;
    let ch: &str = if d == 0 {
        "0"
    } else if d == 1 {
        "1"
    } else if d == 2 {
        "2"
    } else if d == 3 {
        "3"
    } else if d == 4 {
        "4"
    } else if d == 5 {
        "5"
    } else if d == 6 {
        "6"
    } else if d == 7 {
        "7"
    } else if d == 8 {
        "8"
    } else {
        "9"
    };
    proof {
        reveal_strlit("0");
        reveal_strlit("1");
        reveal_strlit("2");
        reveal_strlit("3");
        reveal_strlit("4");
        reveal_strlit("5");
        reveal_strlit("6");
        reveal_strlit("7");
        reveal_strlit("8");
        reveal_strlit("9");
        assert(ch@ =~= seq![dec_digit(d as int)]);
    }
    if n < 10 {
        let r = ch.to_owned();
        proof {
            assert(r@ =~= dec_str(n as nat));
        }
        r
    } else {
        let mut s = u64_to_dec(n / 10);
        s.append(ch);
        proof {
            assert(s@ =~= dec_str(n as nat));
        }
        s
    }
}

/// The structured response handed to the query layer: a numeric code and a
/// message, never a raw fault.
pub struct ErrorResponse {
    pub code: i32,
    pub msg: String,
}

impl Error {
    /// The message of this error, as the query layer sees it.
    pub open spec fn spec_message(&self) -> Seq<char> {
        match self {
            Error::InvalidDataType(s) => s@,
            Error::Encoding(_) => "encoding failed"@,
            Error::ColumnOffset(o) => "illegal column offset: "@ + dec_str(*o as nat),
            Error::UnknownSignature(s) => "Unknown signature: "@ + s@,
            Error::Eval(s, _) => s@,
            Error::Other(s) => s@,
        }
    }

    pub fn message(&self) -> (r: String)
        ensures
            r@ == self.spec_message(),
    {
        match self {
            Error::InvalidDataType(s) => s.clone(),
            Error::Encoding(_) => "encoding failed".to_owned(),
            Error::ColumnOffset(o) => {
                let mut m = "illegal column offset: ".to_owned();
                let d = u64_to_dec(*o as u64);
                m.append(d.as_str());
                m
            },
            Error::UnknownSignature(s) => {
                let mut m = "Unknown signature: ".to_owned();
                m.append(s.as_str());
                m
            },
            Error::Eval(s, _) => s.clone(),
            Error::Other(s) => s.clone(),
        }
    }

    /// Flatten this error into the code-and-message pair that travels back
    /// over the wire.
    pub fn to_error_response(&self) -> (r: ErrorResponse)
        ensures
            r.code == self.spec_code(),
            r.msg@ == self.spec_message(),
    {
        ErrorResponse { code: self.code(), msg: self.message() }
    }
}

/// Holds of the message built for a regular-expression failure: the fixed
/// frame around at most 64 characters taken from the outside error.
pub open spec fn is_regexp_msg(s: Seq<char>) -> bool {
    exists|mid: Seq<char>| mid.len() <= 64 && s == "Got error '"@ + mid + "' from regexp"@
}

/// Holds of the rendering of a wrapped JSON failure: the fixed prefix
/// followed by the outside error's own text.
pub open spec fn is_serde_msg(s: Seq<char>) -> bool {
    exists|rest: Seq<char>| s == "serde:"@ + rest
}

#[verifier::external_type_specification]
#[verifier::external_body]
pub struct ExRegexpError(RegexpError);

/// Relies on `std::error::Error::description` of `regex`'s error, which
/// returns the syntax-error text or a fixed size-limit description, and on
/// `format!`'s `{:.64}` precision, which keeps at most 64 characters of it.
#[allow(deprecated)]
#[verifier::external_body]
fn regexp_error_msg(err: &RegexpError) -> (r: String)
    ensures
        is_regexp_msg(r@),
{
    format!("Got error '{:.64}' from regexp", std::error::Error::description(err))
}

/// A regular-expression failure becomes an evaluation failure with the fixed
/// regexp code and a message naming the regexp engine.
pub fn from_regexp_error(err: &RegexpError) -> (r: Error)
    ensures
        (r matches Error::Eval(m, c) && c == ERR_REGEXP && is_regexp_msg(m@)),
        r.spec_code() == ERR_REGEXP,
{
    Error::Eval(regexp_error_msg(err), ERR_REGEXP)
}

#[verifier::external_type_specification]
#[verifier::external_body]
pub struct ExSerdeError(SerdeError);

/// Relies on `format!` with a `Debug` argument: the result is the literal
/// prefix followed by the debug rendering of `serde_json`'s error.
#[verifier::external_body]
fn serde_error_msg(err: &SerdeError) -> (r: String)
    ensures
        is_serde_msg(r@),
{
    format!("serde:{:?}", err)
}

/// A JSON decoding failure is wrapped opaquely: the engine never
/// reinterprets it, and its code is the unknown-error code.
pub fn from_serde_error(err: &SerdeError) -> (r: Error)
    ensures
        (r matches Error::Other(m) && is_serde_msg(m@)),
        r.spec_code() == ERR_UNKNOWN,
{
    Error::Other(serde_error_msg(err))
}

pub open spec fn overflow_msg(data: Seq<char>, expr: Seq<char>) -> Seq<char> {
    data + " value is out of range in '"@ + expr + "'"@
}

pub open spec fn truncated_wrong_val_msg(data_type: Seq<char>, val: Seq<char>) -> Seq<char> {
    "Truncated incorrect "@ + data_type + " value: '"@ + val + "'"@
}

pub open spec fn invalid_timezone_msg(tz: Seq<char>) -> Seq<char> {
    "unknown or incorrect time zone: "@ + tz
}

pub open spec fn invalid_time_format_msg(val: Seq<char>) -> Seq<char> {
    "invalid time format: '"@ + val + "'"@
}

pub open spec fn incorrect_datetime_value_msg(val: Seq<char>) -> Seq<char> {
    "Incorrect datetime value: '"@ + val + "'"@
}

} // verus!
