pub mod array_parser;
pub mod consts;
pub mod date_time_injector;
pub mod db_json_entity;
pub mod error;
pub mod expires_update;
pub mod first_line_reader;
pub mod json_key_value_position;
pub mod json_time_stamp;
pub mod rewriting_laws;
pub mod scanning_laws;

pub use db_json_entity::DbJsonEntity;
pub use error::{DbEntityParseFail, JsonParseError};
pub use expires_update::{compile_data_with_new_expires, remove_expiration_time};
pub use json_key_value_position::JsonKeyValuePosition;
pub use json_time_stamp::JsonTimeStamp;
