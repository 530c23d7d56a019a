use std::sync::Arc;
use vstd::prelude::*;
use vstd::string::StringSliceAdditionalSpecFns;
use vstd::utf8::encode_utf8;
use crate::date_time::iso_text::iso_text;
use crate::date_time::{AtomicDateTimeAsMicroseconds, DateTimeAsMicroseconds};
use crate::date_time::iso_text::lemma_iso_text_round_trip;
use crate::db_json_entity::db_json_entity::{instant_value, parse_entity, span_of};
use crate::db_json_entity::rewriting_laws::{
    has_one_expires_at_most, lemma_expires_is_read_back, lemma_expires_removed_is_read_back,
    lemma_iso_text_is_plain,
};
use crate::db_json_entity::expires_update::{
    compile_data_with_new_expires, data_with_expires, data_without_expires, expires_span_in,
    remove_expiration_time,
};
use crate::db_json_entity::{DbJsonEntity, JsonKeyValuePosition, JsonTimeStamp};
use crate::expiration_index::ExpirationItemsAreSame;
use crate::text::text_of_ascii;

verus! {

/// One row: its two keys, its JSON bytes, its expiration with the place of
/// the `Expires` field in the bytes, the text of its time stamp, and the
/// instant at which it was last read.
pub struct DbRow {
    pub partition_key: String,
    pub row_key: String,
    pub data: Vec<u8>,
    pub expires: Option<DateTimeAsMicroseconds>,
    pub expires_json_position: Option<JsonKeyValuePosition>,
    pub time_stamp: String,
    pub last_read_access: AtomicDateTimeAsMicroseconds,
}

/// `Arc::clone` of std: one more handle to the same value.
#[verifier::external_body]
pub(crate) fn share<T>(handle: &Arc<T>) -> (r: Arc<T>)
    ensures
        r == *handle,
{
    Arc::clone(handle)
}

/// Whether `new` is the row `old` with the expiration `expiration_time`:
/// the same keys and time stamp, and the bytes with the `Expires` field
/// written, put in or taken out accordingly.
pub open spec fn is_with_expiration(
    new: DbRow,
    old: DbRow,
    expiration_time: Option<DateTimeAsMicroseconds>,
) -> bool {
    &&& new.wf()
    &&& new.partition_key == old.partition_key
    &&& new.row_key == old.row_key
    &&& new.time_stamp == old.time_stamp
    &&& new.expires == expiration_time
    &&& match expiration_time {
        Some(moment) => {
            let text = iso_text(moment.unix_microseconds as int);
            &&& new.data@ == data_with_expires(old.data@, span_of(old.expires_json_position), text)
            &&& span_of(new.expires_json_position) == Some(
                expires_span_in(old.data@, span_of(old.expires_json_position), text),
            )
        },
        None => {
            &&& new.data@ == data_without_expires(old.data@, span_of(old.expires_json_position))
            &&& new.expires_json_position is None
        },
    }
}

/// The most bytes by which a new expiration makes a row longer: those of
/// `"Expires":"YYYY-MM-DDTHH:MM:SS.ffffff",`.
pub const EXPIRES_FIELD_LEN: usize = 39;

/// A row with another expiration is longer than the row by the bytes of
/// an `Expires` field at most.
pub proof fn lemma_with_expiration_len(
    new: Arc<DbRow>,
    old: Arc<DbRow>,
    expiration_time: Option<DateTimeAsMicroseconds>,
)
    requires
        old.wf(),
        is_with_expiration(*new, *old, expiration_time),
    ensures
        new.data@.len() <= old.data@.len() + EXPIRES_FIELD_LEN,
{
    match expiration_time {
        Some(moment) => {
            let text = iso_text(moment.unix_microseconds as int);
            crate::date_time::iso_text::lemma_iso_text_bytes(moment.unix_microseconds as int);
            assert(crate::db_json_entity::consts::expires_name().len() == 7);
            assert(crate::db_json_entity::expires_update::expires_field(text).len() == 38);
            crate::db_json_entity::expires_update::lemma_open_brace_range(old.data@, 0);
        },
        None => {
            if let Some(position) = old.expires_json_position {
                let behind = crate::db_json_entity::first_line_reader::skip_spaces(
                    old.data@,
                    position.value_end as int,
                );
                crate::db_json_entity::first_line_reader::lemma_skip_spaces_range(
                    old.data@,
                    position.value_end as int,
                );
                crate::db_json_entity::expires_update::lemma_last_mark_before_range(
                    old.data@,
                    position.key_start as int,
                );
            }
        },
    }
}

/// A row with a new expiration is read back from its bytes: the keys and
/// the time stamp as before, the new expiration, and the `Expires` field
/// at the place that the row names.
pub proof fn lemma_new_expiration_is_read_back(
    old: DbRow,
    new: DbRow,
    moment: DateTimeAsMicroseconds,
)
    requires
        old.parses_back(),
        moment.has_text(),
        is_with_expiration(new, old, Some(moment)),
    ensures
        new.parses_back(),
        (parse_entity(new.data@)->Ok_0).expires == Some(moment.unix_microseconds as int),
        (parse_entity(new.data@)->Ok_0).time_stamp == (parse_entity(old.data@)->Ok_0).time_stamp,
{
    lemma_iso_text_is_plain(moment.unix_microseconds as int);
    lemma_iso_text_round_trip(moment.unix_microseconds as int);
    lemma_expires_is_read_back(old.data@, iso_text(moment.unix_microseconds as int));
}

/// A row that lost its expiration is read back from its bytes: the keys
/// and the time stamp as before, and no `Expires` field, where the bytes
/// held no second one.
pub proof fn lemma_no_expiration_is_read_back(old: DbRow, new: DbRow)
    requires
        old.parses_back(),
        has_one_expires_at_most(old.data@),
        is_with_expiration(new, old, None),
    ensures
        new.parses_back(),
        has_one_expires_at_most(new.data@),
        (parse_entity(new.data@)->Ok_0).expires_value_position is None,
        (parse_entity(new.data@)->Ok_0).time_stamp == (parse_entity(old.data@)->Ok_0).time_stamp,
{
    lemma_expires_removed_is_read_back(old.data@);
}

/// Taking the expiration out of a row before a new one is written gives a
/// row that says the same as the row into which the new one is written
/// at once: the same keys, expiration and time stamp.
pub proof fn lemma_expiration_by_way_of_none(
    row: DbRow,
    without: DbRow,
    by_way: DbRow,
    direct: DbRow,
    moment: DateTimeAsMicroseconds,
)
    requires
        row.parses_back(),
        has_one_expires_at_most(row.data@),
        moment.has_text(),
        is_with_expiration(without, row, None),
        is_with_expiration(by_way, without, Some(moment)),
        is_with_expiration(direct, row, Some(moment)),
    ensures
        by_way.parses_back(),
        direct.parses_back(),
        (parse_entity(by_way.data@)->Ok_0).partition_key == (parse_entity(
            direct.data@,
        )->Ok_0).partition_key,
        (parse_entity(by_way.data@)->Ok_0).row_key == (parse_entity(direct.data@)->Ok_0).row_key,
        (parse_entity(by_way.data@)->Ok_0).expires == (parse_entity(direct.data@)->Ok_0).expires,
        (parse_entity(by_way.data@)->Ok_0).time_stamp == (parse_entity(
            direct.data@,
        )->Ok_0).time_stamp,
        by_way.partition_key == direct.partition_key,
        by_way.row_key == direct.row_key,
        by_way.expires == direct.expires,
{
    lemma_no_expiration_is_read_back(row, without);
    lemma_new_expiration_is_read_back(without, by_way, moment);
    lemma_new_expiration_is_read_back(row, direct, moment);
}

impl DbRow {
    /// The bytes of the row key.
    pub open spec fn key(&self) -> Seq<u8> {
        encode_utf8(self.row_key@)
    }

    /// The bytes of the partition key.
    pub open spec fn partition(&self) -> Seq<u8> {
        encode_utf8(self.partition_key@)
    }

    /// Reading the bytes gives the row back: its keys, its expiration and
    /// the place of its `Expires` field.
    pub open spec fn parses_back(&self) -> bool {
        parse_entity(self.data@) matches Ok(entity) && entity.partition_key == self.partition()
            && entity.row_key == self.key() && entity.expires == instant_value(self.expires)
            && entity.expires_value_position == span_of(self.expires_json_position)
    }

    /// The place of the `Expires` field lies within the bytes.
    pub open spec fn wf(&self) -> bool {
        self.expires_json_position matches Some(position) ==> position@.fits(
            self.data@.len() as int,
        )
    }

    /// A row with the keys and the expiration of `db_json_entity`, the bytes
    /// `data` and the time stamp's text, last read at the time stamp.
    pub fn new(db_json_entity: &DbJsonEntity, data: Vec<u8>, time_stamp: &JsonTimeStamp) -> (r:
        Self)
        ensures
            r.partition() == db_json_entity.partition_key.spec_bytes(),
            r.key() == db_json_entity.row_key.spec_bytes(),
            r.data@ == data@,
            r.expires == db_json_entity.expires,
            r.expires_json_position == db_json_entity.expires_value_position,
            encode_utf8(r.time_stamp@) == time_stamp.text(),
    {
        DbRow {
            partition_key: db_json_entity.partition_key.to_owned(),
            row_key: db_json_entity.row_key.to_owned(),
            data,
            expires: db_json_entity.expires,
            expires_json_position: db_json_entity.expires_value_position,
            time_stamp: time_stamp.as_str().to_owned(),
            last_read_access: AtomicDateTimeAsMicroseconds::new(
                time_stamp.date_time.unix_microseconds,
            ),
        }
    }

    /// Notes that the row was read at `now`.
    pub fn update_last_read_access(&self, now: DateTimeAsMicroseconds) {
        self.last_read_access.update(now);
    }

    /// The same row with another expiration: the bytes get, keep or lose
    /// their `Expires` field accordingly.
    pub fn create_with_new_expiration_time(
        &self,
        expiration_time: Option<DateTimeAsMicroseconds>,
    ) -> (r: DbRow)
        requires
            self.wf(),
            expiration_time matches Some(moment) ==> moment.has_text(),
        ensures
            is_with_expiration(r, *self, expiration_time),
            (self.parses_back() && (expiration_time is Some || has_one_expires_at_most(
                self.data@,
            ))) ==> r.parses_back() && (parse_entity(r.data@)->Ok_0).time_stamp == (parse_entity(
                self.data@,
            )->Ok_0).time_stamp,
    {
        let last_read_access = AtomicDateTimeAsMicroseconds::new(
            self.last_read_access.get_unix_microseconds(),
        );
        match expiration_time {
            Some(moment) => {
                let bytes = moment.to_iso_bytes();
                proof {
                    crate::date_time::date_time_as_microseconds::lemma_iso_text_is_ascii(
                        moment.unix_microseconds as int,
                    );
                }
                let value = text_of_ascii(bytes.as_slice());
                let (data, position) = compile_data_with_new_expires(self, value.as_str());
                proof {
                    if self.parses_back() {
                        lemma_iso_text_is_plain(moment.unix_microseconds as int);
                        lemma_iso_text_round_trip(moment.unix_microseconds as int);
                        lemma_expires_is_read_back(
                            self.data@,
                            iso_text(moment.unix_microseconds as int),
                        );
                    }
                }
                DbRow {
                    partition_key: self.partition_key.clone(),
                    row_key: self.row_key.clone(),
                    data,
                    expires: Some(moment),
                    expires_json_position: Some(position),
                    time_stamp: self.time_stamp.clone(),
                    last_read_access,
                }
            },
            None => {
                proof {
                    if self.parses_back() && has_one_expires_at_most(self.data@) {
                        lemma_expires_removed_is_read_back(self.data@);
                    }
                }
                DbRow {
                    partition_key: self.partition_key.clone(),
                    row_key: self.row_key.clone(),
                    data: remove_expiration_time(self),
                    expires: None,
                    expires_json_position: None,
                    time_stamp: self.time_stamp.clone(),
                    last_read_access,
                }
            },
        }
    }
}

impl ExpirationItemsAreSame<Arc<DbRow>> for Arc<DbRow> {
    /// Two rows are the same where their row keys are.
    open spec fn same_as(&self, other_one: &Arc<DbRow>) -> bool {
        self.row_key@ == other_one.row_key@
    }

    fn are_same(&self, other_one: &Arc<DbRow>) -> (r: bool) {
        self.row_key == other_one.row_key
    }
}

} // verus!
