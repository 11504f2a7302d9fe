//! Scalar values: text, 32-bit integers and timestamps with second precision.

use vstd::prelude::*;
use vstd::std_specs::cmp::PartialEqSpecImpl;

verus! {

/// Seconds since the Unix epoch of `0000-01-01 00:00:00`, the earliest timestamp.
pub const TIMESTAMP_MIN: i64 = -62_167_219_200;

/// Seconds since the Unix epoch of `9999-12-31 23:59:59`, the latest timestamp.
pub const TIMESTAMP_MAX: i64 = 253_402_300_799;

/// Why an operation on a store or a value failed.
#[derive(Clone, Copy, Debug, PartialEq, Eq, Structural)]
pub enum DbError {
    /// The persisted file of the store is missing.
    NotFound,
    /// Text does not have the expected form.
    FormatError,
    /// The persisted file cannot be created or written.
    IoError,
}

/// A calendar date and time of day with second precision, in the years 0000
/// through 9999, held as the number of non-leap seconds since
/// `1970-01-01 00:00:00`.
#[derive(Clone, Copy, Debug, PartialEq, Eq, Structural, Hash)]
pub struct Timestamp {
    secs: i64,
}

impl View for Timestamp {
    type V = int;

    /// The seconds since the Unix epoch.
    closed spec fn view(&self) -> int {
        self.secs as int
    }
}

impl Timestamp {
    #[verifier::type_invariant]
    spec fn in_range(self) -> bool {
        TIMESTAMP_MIN <= self.secs <= TIMESTAMP_MAX
    }

    /// The timestamp `secs` seconds after the Unix epoch, or `None` where that
    /// lies outside the years 0000 through 9999.
    pub fn from_secs(secs: i64) -> (r: Option<Timestamp>)
        ensures
            r is Some <==> TIMESTAMP_MIN <= secs <= TIMESTAMP_MAX,
            r matches Some(t) ==> t@ == secs,
    {
        if TIMESTAMP_MIN <= secs && secs <= TIMESTAMP_MAX {
            Some(Timestamp { secs })
        } else {
            None
        }
    }

    /// The seconds since the Unix epoch.
    pub fn secs(&self) -> (r: i64)
        ensures
            r == self@,
            TIMESTAMP_MIN <= r <= TIMESTAMP_MAX,
    {
        proof {
            use_type_invariant(self);
        }
        self.secs
    }
}

/// What `chrono::NaiveDateTime::parse_from_str` makes of a text under the
/// format `%Y-%m-%d %H:%M:%S`: the seconds since the Unix epoch of the date and
/// time it reads, or `None` where it rejects the text.
pub uninterp spec fn parsed_datetime(text: Seq<char>) -> Option<int>;

/// The text that `chrono::NaiveDateTime::format` gives for the date and time
/// `secs` seconds after the Unix epoch under the format `fmt`.
pub uninterp spec fn formatted_datetime(secs: int, fmt: Seq<char>) -> Seq<char>;

/// Whether `needle` occurs in `hay` as a run of consecutive characters.
pub open spec fn is_substring(needle: Seq<char>, hay: Seq<char>) -> bool {
    exists|i: int|
        0 <= i && i + needle.len() <= hay.len() && #[trigger] hay.subrange(
            i,
            i + needle.len(),
        ) == needle
}

/// The ten decimal digits, in order.
pub open spec fn digits() -> Seq<char> {
    seq!['0', '1', '2', '3', '4', '5', '6', '7', '8', '9']
}

/// The decimal digits of a natural number, most significant first.
pub open spec fn decimal_nat(n: nat) -> Seq<char>
    decreases n,
{
    if n < 10 {
        seq![digits()[n as int]]
    } else {
        decimal_nat(n / 10).push(digits()[(n % 10) as int])
    }
}

/// The decimal text of an integer: its digits, after a minus sign if it is
/// negative.
pub open spec fn decimal(n: int) -> Seq<char> {
    if n < 0 {
        seq!['-'] + decimal_nat((-n) as nat)
    } else {
        decimal_nat(n as nat)
    }
}

/// The format of a timestamp with minutes, as shown to a reader.
pub open spec fn minute_format() -> Seq<char> {
    "%Y-%m-%d %H:%M"@
}

/// The format of a timestamp's calendar date.
pub open spec fn date_format() -> Seq<char> {
    "%Y-%m-%d"@
}

/// The format of a timestamp with seconds, as it is read and stored.
pub open spec fn second_format() -> Seq<char> {
    "%Y-%m-%d %H:%M:%S"@
}

/// The error that `chrono` reports for a text it cannot read.
#[verifier::external_type_specification]
#[verifier::external_body]
pub struct ExParseError(chrono::ParseError);

/// Calls `str::starts_with` with a string pattern: whether the characters of
/// `needle` are the first characters of `hay`.
#[verifier::external_body]
fn text_starts_with(hay: &str, needle: &str) -> (r: bool)
    ensures
        r == needle@.is_prefix_of(hay@),
{
    hay.starts_with(needle)
}

/// Calls `str::contains` with a string pattern: whether the characters of
/// `needle` occur in `hay` one after the other.
#[verifier::external_body]
fn text_contains(hay: &str, needle: &str) -> (r: bool)
    ensures
        r == is_substring(needle@, hay@),
{
    hay.contains(needle)
}

/// Calls `i32::to_string`: the decimal text of `n`.
#[verifier::external_body]
fn i32_to_text(n: i32) -> (r: String)
    ensures
        r@ == decimal(n as int),
{
    n.to_string()
}

/// Calls `chrono::NaiveDateTime::parse_from_str` with the format
/// `%Y-%m-%d %H:%M:%S` and hands back the seconds since the Unix epoch
/// (`chrono::DateTime::timestamp`) of what it read, or its error.
#[verifier::external_body]
fn parse_datetime(text: &str) -> (r: Result<i64, chrono::ParseError>)
    ensures
        r matches Ok(secs) ==> parsed_datetime(text@) == Some(secs as int),
        r is Err ==> parsed_datetime(text@) is None,
{
    match chrono::NaiveDateTime::parse_from_str(text, "%Y-%m-%d %H:%M:%S") {
        Ok(read) => Ok(read.and_utc().timestamp()),
        Err(error) => Err(error),
    }
}

/// Calls `chrono::NaiveDateTime::format` on the date and time `secs` seconds
/// after the Unix epoch (`chrono::DateTime::from_timestamp`), with one of the
/// three formats of this library, and collects the text.
#[verifier::external_body]
fn format_datetime(secs: i64, fmt: &str) -> (r: String)
    requires
        TIMESTAMP_MIN <= secs <= TIMESTAMP_MAX,
        fmt@ == minute_format() || fmt@ == date_format() || fmt@ == second_format(),
    ensures
        r@ == formatted_datetime(secs as int, fmt@),
{
    chrono::DateTime::from_timestamp(secs, 0).unwrap().naive_utc().format(fmt).to_string()
}

/// Calls `chrono::Local::now` and hands back the seconds since the Unix epoch
/// of the local date and time it reports. Nothing is promised of the number:
/// it depends on the clock and the time zone of the machine.
#[verifier::external_body]
fn local_now_secs() -> (r: i64) {
    chrono::Local::now().naive_local().and_utc().timestamp()
}

impl Timestamp {
    /// The timestamp nearest to `secs` seconds after the Unix epoch.
    pub fn saturating_from_secs(secs: i64) -> (r: Timestamp)
        ensures
            r@ == if secs < TIMESTAMP_MIN {
                TIMESTAMP_MIN as int
            } else if secs > TIMESTAMP_MAX {
                TIMESTAMP_MAX as int
            } else {
                secs as int
            },
    {
        if secs < TIMESTAMP_MIN {
            Timestamp { secs: TIMESTAMP_MIN }
        } else if secs > TIMESTAMP_MAX {
            Timestamp { secs: TIMESTAMP_MAX }
        } else {
            Timestamp { secs }
        }
    }

    /// Reads a timestamp written as `YYYY-MM-DD HH:MM:SS`.
    ///
    /// Fails with `FormatError` where the text is not of that form or names a
    /// moment outside the years 0000 through 9999.
    pub fn parse(text: &str) -> (r: Result<Timestamp, DbError>)
        ensures
            r is Ok <==> (parsed_datetime(text@) matches Some(secs) && TIMESTAMP_MIN <= secs
                <= TIMESTAMP_MAX),
            r matches Ok(t) ==> parsed_datetime(text@) == Some(t@),
            r matches Err(e) ==> e == DbError::FormatError,
    {
        match parse_datetime(text) {
            Ok(secs) => match Timestamp::from_secs(secs) {
                Some(t) => Ok(t),
                None => Err(DbError::FormatError),
            },
            Err(_) => Err(DbError::FormatError),
        }
    }

    /// The timestamp as `YYYY-MM-DD HH:MM:SS`, the form in which it is stored.
    pub fn to_text(&self) -> (r: String)
        ensures
            r@ == formatted_datetime(self@, second_format()),
    {
        proof {
            use_type_invariant(self);
        }
        format_datetime(self.secs, "%Y-%m-%d %H:%M:%S")
    }
}

/// A value of the store: a text, a 32-bit integer or a timestamp.
#[derive(Debug, Hash)]
pub enum Data {
    DbString(String),
    DbI32(i32),
    DbDateTime(Timestamp),
}

/// What a value is: its kind and its content.
pub enum DataView {
    Text(Seq<char>),
    Integer(int),
    Timestamp(int),
}

impl View for Data {
    type V = DataView;

    open spec fn view(&self) -> DataView {
        match self {
            Data::DbString(text) => DataView::Text(text@),
            Data::DbI32(number) => DataView::Integer(*number as int),
            Data::DbDateTime(timestamp) => DataView::Timestamp(timestamp@),
        }
    }
}

impl PartialEq for Data {
    /// Two values are equal where they are of one kind and hold the same.
    fn eq(&self, other: &Data) -> (r: bool) {
        self.same(other)
    }
}

impl PartialEqSpecImpl for Data {
    open spec fn obeys_eq_spec() -> bool {
        true
    }

    open spec fn eq_spec(&self, other: &Data) -> bool {
        self@ == other@
    }
}

impl Eq for Data {

}

impl Clone for Data {
    fn clone(&self) -> (r: Data)
        ensures
            r@ == self@,
    {
        match self {
            Data::DbString(text) => Data::DbString(text.clone()),
            Data::DbI32(number) => Data::DbI32(*number),
            Data::DbDateTime(timestamp) => Data::DbDateTime(*timestamp),
        }
    }
}

impl DataView {
    /// Whether both values are texts and `self` begins with `prefix`.
    pub open spec fn starts_with(self, prefix: DataView) -> bool {
        match (self, prefix) {
            (DataView::Text(left), DataView::Text(right)) => right.is_prefix_of(left),
            _ => false,
        }
    }

    /// Whether both values are texts and `part` occurs in `self`.
    pub open spec fn contains(self, part: DataView) -> bool {
        match (self, part) {
            (DataView::Text(left), DataView::Text(right)) => is_substring(right, left),
            _ => false,
        }
    }

    /// The text that shows a value to a reader: a text as it is, an integer in
    /// decimal, a timestamp as `YYYY-MM-DD HH:MM`.
    pub open spec fn shown(self) -> Seq<char> {
        match self {
            DataView::Text(text) => text,
            DataView::Integer(number) => decimal(number),
            DataView::Timestamp(secs) => formatted_datetime(secs, minute_format()),
        }
    }

    /// The calendar date of a timestamp as `YYYY-MM-DD`; other kinds have none.
    pub open spec fn date(self) -> Option<Seq<char>> {
        match self {
            DataView::Timestamp(secs) => Some(formatted_datetime(secs, date_format())),
            _ => None,
        }
    }
}

impl Data {
    /// Whether the two values are of one kind and hold the same.
    pub fn same(&self, other: &Data) -> (r: bool)
        ensures
            r == (self@ == other@),
    {
        match self {
            Data::DbString(left) => match other {
                Data::DbString(right) => *left == *right,
                _ => false,
            },
            Data::DbI32(left) => match other {
                Data::DbI32(right) => *left == *right,
                _ => false,
            },
            Data::DbDateTime(left) => match other {
                Data::DbDateTime(right) => left.secs() == right.secs(),
                _ => false,
            },
        }
    }

    /// Whether both values are texts and `self` begins with `data`. Any other
    /// pair of kinds gives `false`.
    pub fn starts_with(&self, data: &Data) -> (r: bool)
        ensures
            r == self@.starts_with(data@),
    {
        match self {
            Data::DbString(left) => match data {
                Data::DbString(right) => text_starts_with(left.as_str(), right.as_str()),
                _ => false,
            },
            _ => false,
        }
    }

    /// Whether both values are texts and `data` occurs in `self`. Any other pair
    /// of kinds gives `false`.
    pub fn contains(&self, data: &Data) -> (r: bool)
        ensures
            r == self@.contains(data@),
    {
        match self {
            Data::DbString(left) => match data {
                Data::DbString(right) => text_contains(left.as_str(), right.as_str()),
                _ => false,
            },
            _ => false,
        }
    }

    /// The timestamp of this moment on the local clock, brought into the years
    /// 0000 through 9999.
    pub fn now() -> (r: Data)
        ensures
            r@ is Timestamp,
    {
        Data::DbDateTime(Timestamp::saturating_from_secs(local_now_secs()))
    }

    /// The calendar date of a timestamp as `YYYY-MM-DD`; `None` for a text or
    /// an integer.
    pub fn date(&self) -> (r: Option<String>)
        ensures
            r is Some <==> self@.date() is Some,
            r matches Some(text) ==> self@.date() == Some(text@),
    {
        match self {
            Data::DbDateTime(timestamp) => Some(format_datetime(timestamp.secs(), "%Y-%m-%d")),
            _ => None,
        }
    }

    /// The text that shows the value to a reader: a text as it is, an integer
    /// in decimal, a timestamp as `YYYY-MM-DD HH:MM`.
    pub fn to_string(&self) -> (r: String)
        ensures
            r@ == self@.shown(),
    {
        match self {
            Data::DbDateTime(timestamp) => format_datetime(timestamp.secs(), "%Y-%m-%d %H:%M"),
            Data::DbI32(number) => i32_to_text(*number),
            Data::DbString(text) => text.clone(),
        }
    }
}

} // verus!
