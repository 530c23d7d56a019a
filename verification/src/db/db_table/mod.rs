pub mod data_to_gc;
pub mod db_partitions_container;
pub mod db_table;
pub mod db_table_attributes;
pub mod db_table_master_node;

pub use data_to_gc::{DataToGc, DataToGceInner};
pub use db_partitions_container::DbPartitionsContainer;
pub use db_table::DbTable;
pub use db_table_attributes::DbTableAttributes;
pub use db_table::lemma_total_split;
