pub mod db_partition;
pub mod db_row;
pub mod db_snapshots;
pub mod db_table;

pub use db_partition::{
    DbPartition, DbRowsContainer, UpdateExpirationDateTime, UpdateExpirationTimeModel,
    UpdatePartitionReadMoment,
};
pub use db_row::DbRow;
pub use db_table::{DataToGc, DataToGceInner, DbPartitionsContainer, DbTable, DbTableAttributes};
