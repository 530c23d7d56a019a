pub mod atomic_date_time;
pub mod calendar;
pub mod date_time_as_microseconds;
pub mod iso_text;

pub use atomic_date_time::AtomicDateTimeAsMicroseconds;
pub use date_time_as_microseconds::DateTimeAsMicroseconds;
