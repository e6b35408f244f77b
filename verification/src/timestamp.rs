//! Event timestamps and the calendar day that a timestamp names.
//!
//! A timestamp comes either as text or as seconds since the Unix epoch; osmio
//! turns one form into the other. The day is read off the text: the year from
//! its first four bytes, the month from bytes five and six, the day of the
//! month from bytes eight and nine (counting from zero).

use crate::calendar::{calendar_day_number, Day};
use osmio::TimestampFormat;
use vstd::prelude::*;
use vstd::utf8::encode_utf8;

verus! {

/// The seconds since the Unix epoch that osmio's `TimestampFormat::to_epoch_number`
/// reads from a timestamp given as text.
pub uninterp spec fn iso_text_epoch(text: Seq<char>) -> i64;

/// The text that osmio's `TimestampFormat::to_iso_string` writes for a
/// timestamp given as seconds since the Unix epoch.
pub uninterp spec fn epoch_iso_text(epoch: i64) -> Seq<char>;

/// Calls osmio's `TimestampFormat::to_epoch_number` on a timestamp held as
/// text. Trusted: the result is what the name `iso_text_epoch` stands for.
#[verifier::external_body]
fn osmio_epoch_of_text(text: &str) -> (epoch: i64)
    ensures
        epoch == iso_text_epoch(text@),
{
    TimestampFormat::ISOString(text.to_owned()).to_epoch_number()
}

/// Calls osmio's `TimestampFormat::to_iso_string` on a timestamp held as
/// seconds. Trusted: the result is what the name `epoch_iso_text` stands for.
#[verifier::external_body]
fn osmio_text_of_epoch(epoch: i64) -> (text: String)
    ensures
        text@ == epoch_iso_text(epoch),
{
    TimestampFormat::EpochNumber(epoch).to_iso_string()
}

/// Whether `b` is an ASCII decimal digit.
pub open spec fn is_digit(b: u8) -> bool {
    0x30 <= b <= 0x39
}

/// Whether `s` holds decimal digits only.
pub open spec fn all_digits(s: Seq<u8>) -> bool {
    forall|i: int| 0 <= i < s.len() ==> is_digit(#[trigger] s[i])
}

/// The number that the decimal digits in `s` write.
pub open spec fn digits_value(s: Seq<u8>) -> int
    decreases s.len(),
{
    if s.len() == 0 {
        0
    } else {
        digits_value(s.drop_last()) * 10 + (s.last() - 0x30)
    }
}

/// The number written by one or more decimal digits.
pub open spec fn plain_decimal(s: Seq<u8>) -> Option<int> {
    if s.len() > 0 && all_digits(s) {
        Some(digits_value(s))
    } else {
        None
    }
}

/// The number written by an optional plus sign and one or more decimal digits.
pub open spec fn unsigned_decimal(s: Seq<u8>) -> Option<int> {
    if s.len() > 0 && s[0] == 0x2b {
        plain_decimal(s.skip(1))
    } else {
        plain_decimal(s)
    }
}

/// The number written by an optional sign and one or more decimal digits.
pub open spec fn signed_decimal(s: Seq<u8>) -> Option<int> {
    if s.len() > 0 && s[0] == 0x2d {
        match plain_decimal(s.skip(1)) {
            Some(v) => Some(-v),
            None => None,
        }
    } else {
        unsigned_decimal(s)
    }
}

/// Year, month and day of the month as the bytes of a timestamp's text write
/// them; what stands between the three fields and behind them is not read.
pub open spec fn iso_date_fields(bytes: Seq<u8>) -> Option<(int, int, int)> {
    if bytes.len() < 10 {
        None
    } else {
        match (
            signed_decimal(bytes.subrange(0, 4)),
            unsigned_decimal(bytes.subrange(5, 7)),
            unsigned_decimal(bytes.subrange(8, 10)),
        ) {
            (Some(year), Some(month), Some(day)) => Some((year, month, day)),
            _ => None,
        }
    }
}

/// A run of at most `n` digits writes a number below the `n`-th power of ten.
pub proof fn lemma_digits_bound(s: Seq<u8>)
    requires
        all_digits(s),
        s.len() <= 4,
    ensures
        0 <= digits_value(s) <= 9999,
        s.len() <= 2 ==> digits_value(s) <= 99,
    decreases s.len(),
{
    if s.len() > 0 {
        let head = s.drop_last();
        assert(all_digits(head)) by {
            assert forall|i: int| 0 <= i < head.len() implies is_digit(#[trigger] head[i]) by {
                assert(head[i] == s[i]);
            }
        }
        assert(is_digit(s[s.len() - 1]));
        lemma_digits_bound(head);
        if head.len() > 0 {
            let head2 = head.drop_last();
            assert(all_digits(head2)) by {
                assert forall|i: int| 0 <= i < head2.len() implies is_digit(
                    #[trigger] head2[i],
                ) by {
                    assert(head2[i] == s[i]);
                }
            }
            lemma_digits_bound(head2);
            assert(is_digit(head[head.len() - 1]));
            if head2.len() > 0 {
                let head3 = head2.drop_last();
                assert(all_digits(head3)) by {
                    assert forall|i: int| 0 <= i < head3.len() implies is_digit(
                        #[trigger] head3[i],
                    ) by {
                        assert(head3[i] == s[i]);
                    }
                }
                lemma_digits_bound(head3);
                assert(is_digit(head2[head2.len() - 1]));
            }
        }
    }
}

/// Reads the digits that stand in `bytes` from `from` up to `to`.
fn read_digits(bytes: &[u8], from: usize, to: usize) -> (value: Option<u32>)
    requires
        from <= to <= bytes@.len(),
        to - from <= 4,
    ensures
        value is Some <==> plain_decimal(bytes@.subrange(from as int, to as int)) is Some,
        value matches Some(v) ==> plain_decimal(bytes@.subrange(from as int, to as int))
            == Some(v as int) && v <= 9999 && (to - from <= 2 ==> v <= 99),
{
    if from == to {
        return None;
    }
    let ghost field = bytes@.subrange(from as int, to as int);
    let mut value: u32 = 0;
    let mut i: usize = from;
    while i < to
        invariant
            from <= i <= to <= bytes@.len(),
            to - from <= 4,
            field == bytes@.subrange(from as int, to as int),
            all_digits(field.take(i - from)),
            value == digits_value(field.take(i - from)),
            value <= 9999,
        decreases to - i,
    {
        let b: u8 = bytes[i];
        if b < 0x30 || b > 0x39 {
            assert(!is_digit(field[i - from]));
            return None;
        }
        proof {
            let head = field.take(i - from);
            let next = field.take(i - from + 1);
            assert(next.drop_last() =~= head);
            assert(next.last() == b);
            assert(all_digits(next)) by {
                assert forall|k: int| 0 <= k < next.len() implies is_digit(#[trigger] next[k]) by {
                    if k < head.len() {
                        assert(next[k] == head[k]);
                    }
                }
            }
            lemma_digits_bound(next);
        }
        value = value * 10 + (b - 0x30) as u32;
        i = i + 1;
    }
    proof {
        assert(field.take(to - from) =~= field);
        lemma_digits_bound(field);
    }
    Some(value)
}

/// Reads year, month and day of the month from the bytes of a timestamp's text.
pub fn read_date_fields(bytes: &[u8]) -> (fields: Option<(i32, u32, u32)>)
    ensures
        fields is Some <==> iso_date_fields(bytes@) is Some,
        fields matches Some((year, month, day)) ==> iso_date_fields(bytes@) == Some(
            (year as int, month as int, day as int),
        ),
{
    if bytes.len() < 10 {
        return None;
    }
    let ghost year_field = bytes@.subrange(0, 4);
    let ghost month_field = bytes@.subrange(5, 7);
    let ghost day_field = bytes@.subrange(8, 10);
    let negative: bool = bytes[0] == 0x2d;
    let year_from: usize = if bytes[0] == 0x2d || bytes[0] == 0x2b {
        1
    } else {
        0
    };
    let month_from: usize = if bytes[5] == 0x2b {
        6
    } else {
        5
    };
    let day_from: usize = if bytes[8] == 0x2b {
        9
    } else {
        8
    };
    proof {
        assert(year_field[0] == bytes@[0]);
        assert(month_field[0] == bytes@[5]);
        assert(day_field[0] == bytes@[8]);
        assert(bytes@.subrange(1, 4) =~= year_field.skip(1));
        assert(bytes@.subrange(6, 7) =~= month_field.skip(1));
        assert(bytes@.subrange(9, 10) =~= day_field.skip(1));
    }
    let year = match read_digits(bytes, year_from, 4) {
        Some(v) => v,
        None => {
            return None;
        },
    };
    let month = match read_digits(bytes, month_from, 7) {
        Some(v) => v,
        None => {
            return None;
        },
    };
    let day = match read_digits(bytes, day_from, 10) {
        Some(v) => v,
        None => {
            return None;
        },
    };
    let signed_year: i32 = if negative {
        0 - (year as i32)
    } else {
        year as i32
    };
    Some((signed_year, month, day))
}

/// The number of the day that the text of a timestamp names, where it names one.
pub open spec fn day_number_of_text(text: Seq<char>) -> Option<i32> {
    match iso_date_fields(encode_utf8(text)) {
        Some((year, month, day)) => calendar_day_number(year as i32, month as u32, day as u32),
        None => None,
    }
}

/// The calendar day that the text of a timestamp names; `None` where its
/// fields are not numbers or the calendar has no such date.
pub fn day_from_text(text: &str) -> (day: Option<Day>)
    ensures
        day is Some <==> day_number_of_text(text@) is Some,
        day matches Some(d) ==> d.valid() && day_number_of_text(text@) == Some(d@ as i32),
{
    match read_date_fields(text.as_bytes()) {
        Some((year, month, day)) => Day::from_ymd(year, month, day),
        None => None,
    }
}

/// The time of an event, as text or as seconds since the Unix epoch.
#[derive(Clone, Debug)]
pub enum Timestamp {
    /// The time written out, year first.
    Iso(String),
    /// Seconds since the start of 1970.
    Epoch(i64),
}

impl Timestamp {
    /// The time as seconds since the Unix epoch.
    pub open spec fn epoch_of(&self) -> i64 {
        match self {
            Timestamp::Iso(text) => iso_text_epoch(text@),
            Timestamp::Epoch(seconds) => *seconds,
        }
    }

    /// The time as text.
    pub open spec fn text_of(&self) -> Seq<char> {
        match self {
            Timestamp::Iso(text) => text@,
            Timestamp::Epoch(seconds) => epoch_iso_text(*seconds),
        }
    }

    /// The time as seconds since the Unix epoch.
    pub fn epoch(&self) -> (seconds: i64)
        ensures
            seconds == self.epoch_of(),
    {
        match self {
            Timestamp::Iso(text) => osmio_epoch_of_text(text.as_str()),
            Timestamp::Epoch(seconds) => *seconds,
        }
    }

    /// The time as text.
    pub fn text(&self) -> (text: String)
        ensures
            text@ == self.text_of(),
    {
        match self {
            Timestamp::Iso(text) => text.clone(),
            Timestamp::Epoch(seconds) => osmio_text_of_epoch(*seconds),
        }
    }

    /// The calendar day of the time, read off its text.
    pub fn day(&self) -> (day: Option<Day>)
        ensures
            day is Some <==> day_number_of_text(self.text_of()) is Some,
            day matches Some(d) ==> d.valid() && day_number_of_text(self.text_of()) == Some(
                d@ as i32,
            ),
    {
        let text = self.text();
        day_from_text(text.as_str())
    }
}

} // verus!
