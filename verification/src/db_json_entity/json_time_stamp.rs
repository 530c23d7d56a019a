use vstd::prelude::*;
use vstd::string::StringSliceAdditionalSpecFns;
use vstd::utf8::encode_utf8;
use crate::date_time::date_time_as_microseconds::lemma_iso_text_is_ascii;
use crate::date_time::iso_text::{has_iso_text, iso_text};
use crate::date_time::DateTimeAsMicroseconds;
use crate::text::text_of_ascii;

verus! {

/// The first instant that has a text: 0001-01-01T00:00:00.
pub const FIRST_TEXT_MICROSECONDS: i64 = -62_135_596_800_000_000;

/// The last instant that has a text: 9999-12-31T23:59:59.999999.
pub const LAST_TEXT_MICROSECONDS: i64 = 253_402_300_799_999_999;

/// The instant at which a row is written, together with the text
/// `YYYY-MM-DDTHH:MM:SS.ffffff` that goes into the row's `TimeStamp`.
pub struct JsonTimeStamp {
    pub date_time: DateTimeAsMicroseconds,
    pub str_value: String,
}

/// The instant nearest to `moment` among those that have a text.
pub open spec fn nearest_with_text(moment: int) -> int {
    if moment < FIRST_TEXT_MICROSECONDS {
        FIRST_TEXT_MICROSECONDS as int
    } else if moment > LAST_TEXT_MICROSECONDS {
        LAST_TEXT_MICROSECONDS as int
    } else {
        moment
    }
}

pub proof fn lemma_nearest_has_text(moment: int)
    ensures
        has_iso_text(nearest_with_text(moment)),
        has_iso_text(moment) ==> nearest_with_text(moment) == moment,
{
    assert(crate::date_time::calendar::days_before_year(10_000) == 3_652_059);
}

impl JsonTimeStamp {
    /// The bytes of the text.
    pub open spec fn text(&self) -> Seq<u8> {
        encode_utf8(self.str_value@)
    }

    /// The text is that of the instant.
    pub open spec fn wf(&self) -> bool {
        &&& self.date_time.has_text()
        &&& self.text() == iso_text(self.date_time.unix_microseconds as int)
    }

    /// The time stamp of an instant. An instant outside the years 1 to
    /// 9999 has no text; the nearest one that has is taken in its place.
    pub fn from_date_time(date_time: DateTimeAsMicroseconds) -> (r: Self)
        ensures
            r.wf(),
            r.date_time.unix_microseconds == nearest_with_text(
                date_time.unix_microseconds as int,
            ),
    {
        proof {
            lemma_nearest_has_text(date_time.unix_microseconds as int);
        }
        let unix_microseconds: i64 = if date_time.unix_microseconds < FIRST_TEXT_MICROSECONDS {
            FIRST_TEXT_MICROSECONDS
        } else if date_time.unix_microseconds > LAST_TEXT_MICROSECONDS {
            LAST_TEXT_MICROSECONDS
        } else {
            date_time.unix_microseconds
        };
        let date_time = DateTimeAsMicroseconds::new(unix_microseconds);
        let bytes = date_time.to_iso_bytes();
        proof {
            lemma_iso_text_is_ascii(unix_microseconds as int);
        }
        JsonTimeStamp { date_time, str_value: text_of_ascii(bytes.as_slice()) }
    }

    /// The time stamp of the instant that the machine's clock shows, which
    /// does not lie before the Unix epoch.
    pub fn now() -> (r: Self)
        ensures
            r.wf(),
            r.date_time.unix_microseconds >= 0,
    {
        Self::from_date_time(DateTimeAsMicroseconds::now())
    }

    /// The time stamp that an ISO-8601 text names; where it names none,
    /// that of the instant that the machine's clock shows.
    pub fn parse_or_now(src: &str) -> (r: Self)
        ensures
            r.wf(),
            DateTimeAsMicroseconds::from_text(src.spec_bytes()) matches Some(moment)
                ==> r.date_time.unix_microseconds == nearest_with_text(moment),
    {
        match DateTimeAsMicroseconds::from_str(src) {
            Some(date_time) => Self::from_date_time(date_time),
            None => Self::now(),
        }
    }

    pub fn as_str(&self) -> (r: &str)
        ensures
            r.spec_bytes() == self.text(),
    {
        self.str_value.as_str()
    }

    pub fn as_slice(&self) -> (r: &[u8])
        ensures
            r@ == self.text(),
    {
        self.str_value.as_str().as_bytes()
    }
}

} // verus!
