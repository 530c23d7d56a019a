pub mod sync_to_main_node_event;

pub use sync_to_main_node_event::SyncToMainNodeEvent;
