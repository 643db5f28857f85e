//! The current time, as text.

use crate::number;
use crate::text;
use vstd::prelude::*;

verus! {

/// The time now, in UTC, in the notation of RFC 3339 (`chrono::Utc::now` and
/// `DateTime::to_rfc3339`). What it is depends on the clock; it always has the
/// shape of `is_utc_stamp`. A clock set before 1970 makes the call panic.
#[verifier::external_body]
pub(crate) fn now_rfc3339() -> (stamp: String)
    ensures
        is_utc_stamp(stamp@),
{
    chrono::Utc::now().to_rfc3339()
}

/// Whether the characters of `s` up to position `n` are a year: at least four
/// digits, with a `+` in front where there are more.
pub open spec fn is_year(s: Seq<char>, n: int) -> bool {
    &&& 4 <= n <= s.len()
    &&& forall|i: int|
        0 <= i < n ==> number::is_digit(#[trigger] s[i]) || (i == 0 && n > 4 && s[i] == '+')
}

/// Whether two digits stand in `s` from position `at` on.
pub open spec fn is_pair_of_digits(s: Seq<char>, at: int) -> bool {
    number::is_digit(s[at]) && number::is_digit(s[at + 1])
}

/// Whether a time stamp has the shape `YYYY-MM-DDTHH:MM:SS`, a fraction of the
/// given length, dot and all, and `+00:00`.
pub open spec fn is_utc_stamp_with(stamp: Seq<char>, fraction: int) -> bool {
    let at = stamp.len() - 6 - fraction - 15;
    &&& is_year(stamp, at)
    &&& stamp[at] == '-' && is_pair_of_digits(stamp, at + 1)
    &&& stamp[at + 3] == '-' && is_pair_of_digits(stamp, at + 4)
    &&& stamp[at + 6] == 'T' && is_pair_of_digits(stamp, at + 7)
    &&& stamp[at + 9] == ':' && is_pair_of_digits(stamp, at + 10)
    &&& stamp[at + 12] == ':' && is_pair_of_digits(stamp, at + 13)
    &&& fraction > 0 ==> stamp[at + 15] == '.'
    &&& forall|i: int|
        at + 15 < i < at + 15 + fraction ==> number::is_digit(#[trigger] stamp[i])
    &&& text::ends_with(stamp, seq!['+', '0', '0', ':', '0', '0'])
}

/// Whether a time stamp has the shape of RFC 3339, in UTC: the date and the time
/// of day, with no fraction of a second or one of three, six or nine digits.
pub open spec fn is_utc_stamp(stamp: Seq<char>) -> bool {
    ||| is_utc_stamp_with(stamp, 0)
    ||| is_utc_stamp_with(stamp, 4)
    ||| is_utc_stamp_with(stamp, 7)
    ||| is_utc_stamp_with(stamp, 10)
}

/// The format of the time stamp in a file's name.
pub open spec fn file_stamp_format() -> Seq<char> {
    "%Y-%m-%d_%H%M%S"@
}

/// Whether a time stamp has the shape of that format: the year in at least four
/// digits, with a `+` in front where it has more, then `-` and the month, `-` and
/// the day, `_` and the time of day, each part in two digits.
pub open spec fn is_file_stamp(stamp: Seq<char>) -> bool {
    let n = stamp.len();
    &&& is_year(stamp, n - 13)
    &&& stamp[n - 13] == '-' && is_pair_of_digits(stamp, n - 12)
    &&& stamp[n - 10] == '-' && is_pair_of_digits(stamp, n - 9)
    &&& stamp[n - 7] == '_' && is_pair_of_digits(stamp, n - 6)
    &&& is_pair_of_digits(stamp, n - 4) && is_pair_of_digits(stamp, n - 2)
}

/// The time now, in UTC, in the given format (`chrono::Utc::now` and
/// `DateTime::format`). What it is depends on the clock; in the one format that
/// is allowed it has the shape of `is_file_stamp`. A clock set before 1970 makes
/// the call panic.
#[verifier::external_body]
pub(crate) fn now_formatted(format: &str) -> (stamp: String)
    requires
        format@ == file_stamp_format(),
    ensures
        is_file_stamp(stamp@),
{
    chrono::Utc::now().format(format).to_string()
}

} // verus!
