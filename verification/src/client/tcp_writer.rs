//! The handle through which a client's packets reach its TCP connection.

use vstd::prelude::*;
use tokio::sync::mpsc::UnboundedSender;
use super::channel_send;
use crate::protocol::copy_bytes;

verus! {

/// Requests for the task that owns a connection's write half.
#[derive(Debug)]
pub enum TcpWriterMsg {
    /// Write these bytes to the connection.
    WritePacket(Vec<u8>),
}

/// Handle for sending write requests to a connection's writer task.
pub struct TcpWriterHandle {
    sender: UnboundedSender<TcpWriterMsg>,
}

impl TcpWriterHandle {
    /// The channel on which this handle's requests go to the writer task.
    pub closed spec fn channel(&self) -> UnboundedSender<TcpWriterMsg> {
        self.sender
    }

    /// A handle whose requests go to `sender`.
    pub fn new(sender: UnboundedSender<TcpWriterMsg>) -> (handle: Self)
        ensures
            handle.channel() == sender,
    {
        TcpWriterHandle { sender }
    }

    /// Asks the writer task to write `packet` to the connection. When the
    /// task is gone, the request comes back.
    pub fn write_packet(&self, packet: &[u8]) -> (res: Result<(), TcpWriterMsg>)
        ensures
            res matches Err(back) ==> (back matches TcpWriterMsg::WritePacket(b) && b@ == packet@),
    {
        let bytes = copy_bytes(packet, 0, packet.len());
        assert(bytes@ =~= packet@);
        channel_send(&self.sender, TcpWriterMsg::WritePacket(bytes))
    }
}

} // verus!
