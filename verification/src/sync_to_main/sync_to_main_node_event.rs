use std::sync::Arc;
use vstd::prelude::*;

verus! {

/// What happens on the way to the main node: a connection comes or goes,
/// a ping is to be sent, or a delivery was confirmed.
pub enum SyncToMainNodeEvent<DataReaderTcpConnection: Send + Sync + 'static> {
    Connected(Arc<DataReaderTcpConnection>),
    Disconnected(Arc<DataReaderTcpConnection>),
    PingToDeliver,
    Delivered(i64),
}

} // verus!
