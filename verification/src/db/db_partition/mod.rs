pub mod db_partition;
pub mod db_rows_container;

pub use db_partition::{
    DbPartition, UpdateExpirationDateTime, UpdateExpirationTimeModel, UpdatePartitionReadMoment,
};
pub use db_rows_container::DbRowsContainer;
