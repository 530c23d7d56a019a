pub mod db_partition_snapshot;
pub mod db_rows_snapshot;
pub mod db_table_snapshot;

pub use db_partition_snapshot::DbPartitionSnapshot;
pub use db_rows_snapshot::DbRowsSnapshot;
pub use db_table_snapshot::DbTableSnapshot;
