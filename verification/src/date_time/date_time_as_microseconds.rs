use vstd::prelude::*;
use std::time::{Duration, SystemTime, UNIX_EPOCH};
use vstd::utf8::encode_utf8;
use vstd::string::StringSliceAdditionalSpecFns;
use crate::date_time::iso_text::{
    has_iso_text, iso_instant, iso_text, iso_text_of, lemma_iso_text_round_trip, parse_iso_micros,
};
use crate::text::{is_ascii_bytes, text_of_ascii};

verus! {

/// An instant on the UTC time line, counted in microseconds since
/// 1970-01-01T00:00:00Z.
#[derive(Clone, Copy, Debug, PartialEq, Eq, Structural)]
pub struct DateTimeAsMicroseconds {
    pub unix_microseconds: i64,
}

/// An instant of the machine's clock, as std tells it. Nothing of it is
/// seen here; it is only handed on.
#[verifier::external_type_specification]
#[verifier::external_body]
pub struct ExSystemTime(SystemTime);

/// `SystemTime::now` of std: the instant that the machine's clock shows.
/// Nothing is claimed of it.
#[verifier::external_body]
fn system_clock() -> SystemTime {
    SystemTime::now()
}

/// `SystemTime::duration_since` of std, against the Unix epoch: the time
/// from the epoch to the instant, and nothing where the instant lies
/// before the epoch. Nothing is claimed of the time.
#[verifier::external_body]
fn time_since_unix_epoch(moment: &SystemTime) -> Option<Duration> {
    match moment.duration_since(UNIX_EPOCH) {
        Ok(span) => Some(span),
        Err(_) => None,
    }
}

/// `Duration::as_micros` of std: the whole microseconds of a time.
/// Nothing is claimed of the number.
#[verifier::external_body]
fn whole_microseconds(span: &Duration) -> u128 {
    span.as_micros()
}

/// The most microseconds that an instant can count.
pub const MOST_MICROSECONDS: u128 = 9_223_372_036_854_775_807u128;

/// The microseconds since the Unix epoch that a time from the epoch
/// makes: none where there is no time, because the clock stands before
/// the epoch, and no more than an instant can count.
pub open spec fn microseconds_of(micros: Option<u128>) -> int {
    match micros {
        Some(n) => if n <= MOST_MICROSECONDS {
            n as int
        } else {
            MOST_MICROSECONDS as int
        },
        None => 0,
    }
}

impl DateTimeAsMicroseconds {
    pub fn new(unix_microseconds: i64) -> (r: Self)
        ensures
            r.unix_microseconds == unix_microseconds,
    {
        DateTimeAsMicroseconds { unix_microseconds }
    }

    /// The instant of so many microseconds from the Unix epoch, as a
    /// clock tells them.
    pub fn from_clock(micros: Option<u128>) -> (r: Self)
        ensures
            r.unix_microseconds == microseconds_of(micros),
    {
        let unix_microseconds: i64 = match micros {
            Some(n) => if n <= MOST_MICROSECONDS {
                n as i64
            } else {
                i64::MAX
            },
            None => 0,
        };
        DateTimeAsMicroseconds { unix_microseconds }
    }

    /// The instant that the machine's clock shows. Which one that is, is
    /// known only once the clock was read; it does not lie before the Unix
    /// epoch.
    pub fn now() -> (r: Self)
        ensures
            r.unix_microseconds >= 0,
    {
        let moment = system_clock();
        let micros: Option<u128> = match time_since_unix_epoch(&moment) {
            Some(span) => Some(whole_microseconds(&span)),
            None => None,
        };
        Self::from_clock(micros)
    }

    /// The microseconds of the instant that an ISO-8601 text names.
    pub open spec fn from_text(src: Seq<u8>) -> Option<int> {
        iso_instant(src)
    }

    /// The instant that an ISO-8601 text names.
    pub fn parse_iso_string(src: &[u8]) -> (r: Option<Self>)
        ensures
            r is Some <==> iso_instant(src@) is Some,
            r matches Some(moment) ==> iso_instant(src@) == Some(moment.unix_microseconds as int),
    {
        match parse_iso_micros(src) {
            Some(unix_microseconds) => Some(DateTimeAsMicroseconds { unix_microseconds }),
            None => None,
        }
    }

    /// The instant that an ISO-8601 text names.
    pub fn from_str(src: &str) -> (r: Option<Self>)
        ensures
            r is Some <==> iso_instant(src.spec_bytes()) is Some,
            r matches Some(moment) ==> iso_instant(src.spec_bytes()) == Some(
                moment.unix_microseconds as int,
            ),
    {
        Self::parse_iso_string(src.as_bytes())
    }

    /// Whether the instant lies in the years 1 to 9999, which have a text.
    pub open spec fn has_text(&self) -> bool {
        has_iso_text(self.unix_microseconds as int)
    }

    /// The text `YYYY-MM-DDTHH:MM:SS.ffffff` of the instant, as bytes.
    pub fn to_iso_bytes(&self) -> (r: Vec<u8>)
        requires
            self.has_text(),
        ensures
            r@ == iso_text(self.unix_microseconds as int),
    {
        iso_text_of(self.unix_microseconds)
    }

    /// The text `YYYY-MM-DDTHH:MM:SS.ffffffZ` of the instant.
    pub fn to_rfc3339(&self) -> (r: String)
        requires
            self.has_text(),
        ensures
            encode_utf8(r@) == iso_text(self.unix_microseconds as int).push(90u8),
    {
        let mut bytes = iso_text_of(self.unix_microseconds);
        bytes.push(90u8);
        proof {
            lemma_iso_text_is_ascii(self.unix_microseconds as int);
        }
        text_of_ascii(bytes.as_slice())
    }

    /// Moves the instant by a number of seconds.
    pub fn add_seconds(&mut self, seconds: i64)
        requires
            i64::MIN <= seconds * 1_000_000 <= i64::MAX,
            i64::MIN <= old(self).unix_microseconds + seconds * 1_000_000 <= i64::MAX,
        ensures
            final(self).unix_microseconds == old(self).unix_microseconds + seconds * 1_000_000,
    {
        self.unix_microseconds = self.unix_microseconds + seconds * 1_000_000;
    }
}

/// The text of an instant holds digits and punctuation only.
#[verifier::rlimit(30)]
pub proof fn lemma_iso_text_is_ascii(instant: int)
    requires
        has_iso_text(instant),
    ensures
        is_ascii_bytes(iso_text(instant)),
        is_ascii_bytes(iso_text(instant).push(90u8)),
{
    lemma_iso_text_round_trip(instant);
    let s = iso_text(instant);
    assert forall|i: int| 0 <= i < s.len() implies #[trigger] s[i] < 128 by {
    }
}

} // verus!
