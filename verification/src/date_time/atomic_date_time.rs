use vstd::prelude::*;
use std::sync::atomic::AtomicI64;
use std::sync::atomic::Ordering;
use crate::date_time::date_time_as_microseconds::DateTimeAsMicroseconds;

verus! {

/// An instant that may be replaced through a shared reference. Readers and
/// writers on other threads may come in between, so what a read returns is
/// known only when it has been made.
pub struct AtomicDateTimeAsMicroseconds {
    unix_microseconds: AtomicI64,
}

impl AtomicDateTimeAsMicroseconds {
    pub fn new(unix_microseconds: i64) -> Self {
        AtomicDateTimeAsMicroseconds { unix_microseconds: AtomicI64::new(unix_microseconds) }
    }

    pub fn now() -> Self {
        Self::new(DateTimeAsMicroseconds::now().unix_microseconds)
    }

    pub fn update(&self, value: DateTimeAsMicroseconds) {
        self.unix_microseconds.store(value.unix_microseconds, Ordering::Relaxed);
    }

    pub fn get_unix_microseconds(&self) -> i64 {
        self.unix_microseconds.load(Ordering::Relaxed)
    }

    pub fn as_date_time(&self) -> DateTimeAsMicroseconds {
        DateTimeAsMicroseconds::new(self.get_unix_microseconds())
    }
}

} // verus!
