//! The host's game state and how it answers download requests.
use vstd::prelude::*;
use crate::tick::TickId;
use crate::client_to_host::DownloadGameStateRequest;
use crate::host_to_client::DownloadGameStateResponse;

verus! {

/// A serialized game state and its tick.
#[derive(Debug, Clone)]
pub struct State {
    pub data: Vec<u8>,
    pub tick_id: TickId,
}

impl State {
    pub fn new(tick_id: TickId, state: &[u8]) -> (s: State)
        ensures
            s.data@ == state@,
            s.tick_id == tick_id,
    {
        State { data: vstd::slice::slice_to_vec(state), tick_id }
    }
}

/// A connection's download bookkeeping: the request it answers, the blob-stream
/// channel assigned to it and the last channel handed out.
#[derive(Debug, Clone, Copy, PartialEq, Eq, Structural)]
pub struct HostStateConnection {
    pub client_request: Option<u8>,
    pub assigned_blob_stream_channel: Option<u16>,
    pub last_blob_stream_channel: u16,
    pub blob_stream_channel: Option<u8>,
}

/// The state the host hands out.
#[derive(Debug, Clone)]
pub struct HostState {
    pub state: State,
}

impl HostState {
    pub fn new(state: State) -> (h: HostState)
        ensures
            h.state == state,
    {
        HostState { state }
    }

    pub fn set_state(&mut self, state: State)
        ensures
            final(self).state == state,
    {
        self.state = state;
    }

    /// Answers a download request. A request id other than the one the connection
    /// answers takes the next channel; the same id gets the channel it already has.
    pub fn request(&self, connection: &mut HostStateConnection, request: DownloadGameStateRequest) -> (r:
        DownloadGameStateResponse)
        requires
            old(connection).client_request != Some(request.request_id) ==> old(connection).last_blob_stream_channel
                < u16::MAX,
            old(connection).client_request == Some(request.request_id) ==> old(
                connection,
            ).assigned_blob_stream_channel is Some,
        ensures
            old(connection).client_request == Some(request.request_id) ==> *final(connection) == *old(connection)
                && r.blob_stream_channel == old(connection).assigned_blob_stream_channel->Some_0,
            old(connection).client_request != Some(request.request_id) ==> final(connection).client_request == Some(
                request.request_id,
            ) && final(connection).assigned_blob_stream_channel == Some(old(connection).last_blob_stream_channel)
                && final(connection).last_blob_stream_channel == old(connection).last_blob_stream_channel + 1
                && final(connection).blob_stream_channel == old(connection).blob_stream_channel
                && r.blob_stream_channel == old(connection).last_blob_stream_channel,
            r.client_request == request.request_id,
            r.tick_id == self.state.tick_id,
    {
        let was_same = match connection.client_request {
            Some(found) => found == request.request_id,
            None => false,
        };
        if !was_same {
            connection.client_request = Some(request.request_id);
            connection.assigned_blob_stream_channel = Some(connection.last_blob_stream_channel);
            connection.last_blob_stream_channel = connection.last_blob_stream_channel + 1;
        }
        let client_request = connection.client_request.unwrap();
        let channel = connection.assigned_blob_stream_channel.unwrap();
        DownloadGameStateResponse { client_request, tick_id: TickId(self.state.tick_id.0), blob_stream_channel: channel }
    }
}

} // verus!
