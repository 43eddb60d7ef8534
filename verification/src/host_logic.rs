//! The host's logic: connections come and go, clients join with local players who
//! become participants, send their predicted steps, and download the game state over
//! a blob stream.
use vstd::prelude::*;
use std::time::Instant;
use crate::participant::ParticipantId;
use crate::freelist::{FreeList, already_freed_message};
use crate::combinator::Combinator;
use crate::host_state::State;
use crate::tick::TickId;
use crate::protocol::SessionConnectionSecret;
use crate::client_to_host::{
    ClientToHostCommands, DownloadGameStateRequest, JoinGameRequest, StepsRequest, PredictedStep,
};
use crate::host_to_client::{
    HostToClientCommands, JoinGameAccepted, JoinGameParticipants, PartyAndSessionSecret,
    GameStepResponse, GameStepResponseHeader, AuthoritativeStepRanges, DownloadGameStateResponse,
};
use crate::blob_commands::{ReceiverToSenderFrontCommands, SenderToReceiverFrontCommands, StartTransferData};
use crate::blob_sender::{BlobSender, BlobStreamError, chunk_count, all_chunks, acked_chunks, ack_contradicts};

verus! {

/// The size of the chunks of a game state download.
pub const FIXED_CHUNK_SIZE: usize = 1024;

/// How long a sent chunk waits for its acknowledgement before it is sent again.
pub const RESEND_MILLIS: u64 = 96;

/// A connection to a client, numbered by the host.
#[derive(Debug, Clone, Copy, PartialEq, Eq, Structural)]
pub struct ConnectionId(pub u8);

/// A participant and the local player of its client.
#[derive(Debug, Clone, Copy, PartialEq, Eq, Structural)]
pub struct Participant {
    pub id: ParticipantId,
    pub client_local_index: u8,
}

/// The position of `key` among keyed entries, if it is there.
fn key_index<X>(entries: &Vec<(u8, X)>, key: u8) -> (r: Option<usize>)
    ensures
        r matches Some(i) ==> i < entries@.len() && entries@[i as int].0 == key,
        r is None ==> forall|i: int| 0 <= i < entries@.len() ==> (#[trigger] entries@[i]).0 != key,
{
    let mut i: usize = 0;
    while i < entries.len()
        invariant
            i <= entries@.len(),
            forall|h: int| 0 <= h < i ==> (#[trigger] entries@[h]).0 != key,
        decreases entries@.len() - i,
    {
        if entries[i].0 == key {
            return Some(i);
        }
        i = i + 1;
    }
    None
}

/// No key occurs twice.
pub open spec fn u8_keys_distinct<X>(entries: Seq<(u8, X)>) -> bool {
    forall|i: int, j: int| 0 <= i < j < entries.len() ==> (#[trigger] entries[i]).0 != (#[trigger] entries[j]).0
}

/// The game session: its state, its participants and the participant ids still free.
pub struct GameSession {
    pub state: State,
    pub participants: Vec<(ParticipantId, Participant)>,
    pub participant_ids: FreeList,
}

impl GameSession {
    pub fn new(state: State) -> (s: GameSession)
        ensures
            s.state == state,
            s.participants@.len() == 0,
            s.participant_ids@ == crate::freelist::initial_free(0xff),
            s.participant_ids.wf(),
    {
        GameSession { state, participants: Vec::new(), participant_ids: FreeList::new(0xff) }
    }

    pub fn state(&self) -> (r: &State)
        ensures
            *r == self.state,
    {
        &self.state
    }

    /// Makes a participant with the next free id for the client's local player; `None`
    /// when every id is in use.
    pub(crate) fn create_participant(&mut self, client_local_index: u8) -> (r: Option<Participant>)
        ensures
            final(self).state == old(self).state,
            old(self).participant_ids@.len() == 0 ==> r is None && final(self).participants@ == old(
                self,
            ).participants@ && final(self).participant_ids@ == old(self).participant_ids@,
            old(self).participant_ids@.len() > 0 ==> r == Some(
                Participant { id: ParticipantId(old(self).participant_ids@.last()), client_local_index },
            ) && final(self).participant_ids@ == old(self).participant_ids@.drop_last(),
            old(self).participant_ids.wf() ==> final(self).participant_ids.wf(),
            old(self).participant_ids@.len() > 0 ==> {
                let pid = ParticipantId(old(self).participant_ids@.last());
                &&& final(self).participants@.len() >= old(self).participants@.len()
                &&& has_participant(final(self).participants@, pid, Participant { id: pid, client_local_index })
                &&& forall|i: int|
                    0 <= i < old(self).participants@.len() && (#[trigger] old(self).participants@[i]).0 != pid
                        ==> final(self).participants@[i] == old(self).participants@[i]
            },
    {
        match self.participant_ids.allocate() {
            Some(id_value) => {
                let participant_id = ParticipantId(id_value);
                let participant = Participant { client_local_index, id: participant_id };
                let mut at: usize = 0;
                let mut found = false;
                while at < self.participants.len() && !found
                    invariant
                        at <= self.participants@.len(),
                        found ==> at < self.participants@.len() && self.participants@[at as int].0.0 == id_value,
                    decreases self.participants@.len() - at + (if found { 0int } else { 1int }),
                {
                    if self.participants[at].0.0 == id_value {
                        found = true;
                    } else {
                        at = at + 1;
                    }
                }
                let ghost before = self.participants@;
                if found {
                    self.participants.set(at, (participant_id, participant));
                    assert(self.participants@[at as int] == (participant_id, participant));
                } else {
                    self.participants.push((participant_id, participant));
                    assert(self.participants@[before.len() as int] == (participant_id, participant));
                }
                Some(participant)
            },
            None => None,
        }
    }
}

/// The participants hold `participant` under `id`.
pub open spec fn has_participant(participants: Seq<(ParticipantId, Participant)>, id: ParticipantId, participant: Participant) -> bool {
    exists|i: int| 0 <= i < participants.len() && participants[i] == (id, participant)
}

/// A connection's players, its game state download and its bookkeeping.
#[derive(Debug)]
pub struct Connection {
    pub participant_lookup: Vec<(u8, Participant)>,
    pub out_blob_stream: Option<BlobSender>,
    pub blob_stream_for_client_request: Option<u8>,
    last_transfer_id: u16,
    debug_counter: u16,
}

impl Connection {
    /// The connection's local players and their participants.
    pub closed spec fn lookup(&self) -> Seq<(u8, Participant)> {
        self.participant_lookup@
    }

    /// Whether a game state download was started.
    pub closed spec fn has_download(&self) -> bool {
        self.out_blob_stream is Some
    }

    /// The request the download answers, if one is recorded.
    pub closed spec fn download_request(&self) -> Option<u8> {
        self.blob_stream_for_client_request
    }

    /// The id of the last blob transfer started on the connection.
    pub closed spec fn last_transfer(&self) -> u16 {
        self.last_transfer_id
    }

    /// How many chunks the current game state download spans (none without one).
    pub closed spec fn download_chunks(&self) -> nat {
        match self.out_blob_stream {
            Some(sender) => sender.chunks(),
            None => 0,
        }
    }

    /// Whether the receiver acknowledged the start of the current game state download.
    pub closed spec fn download_started(&self) -> bool {
        match self.out_blob_stream {
            Some(sender) => sender.started(),
            None => false,
        }
    }

    /// The chunks of the current game state download recorded as received by the
    /// remote (none without one).
    pub closed spec fn download_received(&self) -> Set<int> {
        match self.out_blob_stream {
            Some(sender) => sender.received(),
            None => Set::empty(),
        }
    }

    /// The sender of the current game state download (meaningful with one).
    pub closed spec fn download_sender(&self) -> BlobSender {
        self.out_blob_stream->Some_0
    }

    /// The transfer id of the current game state download.
    pub closed spec fn download_transfer(&self) -> u16 {
        match self.out_blob_stream {
            Some(sender) => sender.transfer(),
            None => 0,
        }
    }

    /// The connection's step counter.
    pub closed spec fn step_counter(&self) -> u16 {
        self.debug_counter
    }

    /// Everything but the step counter is the same.
    pub closed spec fn same_but_counter(&self, other: Connection) -> bool {
        &&& self.participant_lookup == other.participant_lookup
        &&& self.out_blob_stream == other.out_blob_stream
        &&& self.blob_stream_for_client_request == other.blob_stream_for_client_request
        &&& self.last_transfer_id == other.last_transfer_id
    }

    /// The players and the recorded request are the same.
    pub closed spec fn same_players(&self, other: Connection) -> bool {
        &&& self.participant_lookup == other.participant_lookup
        &&& self.blob_stream_for_client_request == other.blob_stream_for_client_request
    }

    pub fn new() -> (c: Connection)
        ensures
            c.lookup().len() == 0,
            !c.has_download(),
            c.download_request() is None,
            c.last_transfer() == 0,
    {
        Connection {
            participant_lookup: Vec::new(),
            out_blob_stream: None,
            blob_stream_for_client_request: None,
            last_transfer_id: 0,
            debug_counter: 0,
        }
    }

    /// Whether the game state download was fully acknowledged, every chunk recorded as
    /// received; false without one.
    pub fn is_state_received_by_remote(&self) -> (b: bool)
        ensures
            b == (self.has_download() && self.download_received() == all_chunks(self.download_chunks())),
            !self.has_download() ==> !b,
            !self.download_started() ==> !b,
    {
        match &self.out_blob_stream {
            Some(stream) => stream.is_received_by_remote(),
            None => false,
        }
    }
}

/// Why the host refused a request.
#[derive(Debug)]
pub enum HostLogicError {
    UnknownConnectionId(ConnectionId),
    FreeListError { connection_id: ConnectionId, message: String },
    UnknownPartyMemberIndex(u8),
    NoFreeParticipantIds,
    BlobStreamErr(BlobStreamError),
}

/// The local indices of the predicted steps, tick by tick.
pub open spec fn predicted_local_indices<StepT>(steps: Seq<PredictedStep<StepT>>) -> Seq<u8>
    decreases steps.len(),
{
    if steps.len() == 0 {
        Seq::empty()
    } else {
        predicted_local_indices(steps.drop_last()) + steps.last().predicted_players@.map_values(|e: (u8, StepT)| e.0)
    }
}

/// How many players the predicted steps name, over all ticks.
pub open spec fn predicted_player_count<StepT>(steps: Seq<PredictedStep<StepT>>) -> nat
    decreases steps.len(),
{
    if steps.len() == 0 {
        0
    } else {
        predicted_player_count(steps.drop_last()) + steps.last().predicted_players@.len()
    }
}

/// Some tick of the predicted steps names local player `k`.
pub open spec fn named_in_steps<StepT>(steps: Seq<PredictedStep<StepT>>, k: u8) -> bool {
    exists|t: int, j: int|
        0 <= t < steps.len() && 0 <= j < steps[t].predicted_players@.len() && #[trigger] steps[t].predicted_players@[j].0
            == k
}

/// The local indices that a steps request checks are those of every predicted player of
/// every tick: each one named by any tick is among them, each of them is named by some
/// tick, and there are as many as the ticks name players in all.
pub proof fn lemma_predicted_local_indices_cover<StepT>(steps: Seq<PredictedStep<StepT>>)
    ensures
        forall|t: int, j: int|
            0 <= t < steps.len() && 0 <= j < steps[t].predicted_players@.len()
                ==> predicted_local_indices(steps).contains(#[trigger] steps[t].predicted_players@[j].0),
        forall|k: u8| #[trigger] predicted_local_indices(steps).contains(k) <==> named_in_steps(steps, k),
        predicted_local_indices(steps).len() == predicted_player_count(steps),
    decreases steps.len(),
{
    if steps.len() > 0 {
        let front = steps.drop_last();
        lemma_predicted_local_indices_cover(front);
        let prefix = predicted_local_indices(front);
        let last = steps.last().predicted_players@;
        let all = predicted_local_indices(steps);
        assert(all == prefix + last.map_values(|e: (u8, StepT)| e.0));
        assert forall|t: int, j: int|
            0 <= t < steps.len() && 0 <= j < steps[t].predicted_players@.len()
                implies all.contains(#[trigger] steps[t].predicted_players@[j].0) by {
            if t < steps.len() - 1 {
                assert(front[t] == steps[t]);
                assert(prefix.contains(front[t].predicted_players@[j].0));
                let w = choose|w: int| 0 <= w < prefix.len() && prefix[w] == front[t].predicted_players@[j].0;
                assert(all[w] == prefix[w]);
            } else {
                assert(all[prefix.len() + j] == last[j].0);
            }
        }
        assert forall|k: u8| #[trigger] all.contains(k) implies named_in_steps(steps, k) by {
            let q = choose|q: int| 0 <= q < all.len() && all[q] == k;
            if q < prefix.len() {
                assert(all[q] == prefix[q]);
                assert(prefix.contains(k));
                let (t, j) = choose|t: int, j: int|
                    0 <= t < front.len() && 0 <= j < front[t].predicted_players@.len()
                        && #[trigger] front[t].predicted_players@[j].0 == k;
                assert(front[t] == steps[t]);
                assert(steps[t].predicted_players@[j].0 == k);
            } else {
                let j = q - prefix.len();
                assert(all[q] == last[j].0);
                assert(steps[steps.len() - 1] == steps.last());
                assert(steps[steps.len() - 1].predicted_players@[j].0 == k);
            }
        }
        assert forall|k: u8| named_in_steps(steps, k) implies #[trigger] all.contains(k) by {
            let (t, j) = choose|t: int, j: int|
                0 <= t < steps.len() && 0 <= j < steps[t].predicted_players@.len()
                    && #[trigger] steps[t].predicted_players@[j].0 == k;
            assert(all.contains(steps[t].predicted_players@[j].0));
        }
    }
}

/// A steps request that names, in any tick, a local player without a participant on the
/// connection does not have all its indices known, so the host refuses it.
pub proof fn lemma_unknown_predicted_player<StepT>(
    lookup: Seq<(u8, Participant)>,
    steps: Seq<PredictedStep<StepT>>,
    t: int,
    j: int,
)
    requires
        0 <= t < steps.len(),
        0 <= j < steps[t].predicted_players@.len(),
        !has_local(lookup, steps[t].predicted_players@[j].0),
    ensures
        !all_known(lookup, predicted_local_indices(steps)),
{
    lemma_predicted_local_indices_cover(steps);
    let k = steps[t].predicted_players@[j].0;
    let all = predicted_local_indices(steps);
    assert(all.contains(k));
    let w = choose|w: int| 0 <= w < all.len() && all[w] == k;
    assert(!has_local(lookup, all[w]));
}

/// The connection has a participant for local player `k`.
pub open spec fn has_local(lookup: Seq<(u8, Participant)>, k: u8) -> bool {
    exists|i: int| 0 <= i < lookup.len() && lookup[i].0 == k
}

/// The host: its connections, the game session and the connection ids still free.
pub struct HostLogic<StepT> {
    combinator: Combinator<StepT>,
    connections: Vec<(u8, Connection)>,
    session: GameSession,
    free_list: FreeList,
}

impl<StepT> HostLogic<StepT> {
    /// The connections by id.
    pub closed spec fn connections(&self) -> Seq<(u8, Connection)> {
        self.connections@
    }

    /// The connection ids not in use.
    pub closed spec fn free_connection_ids(&self) -> Seq<u8> {
        self.free_list@
    }

    /// The game session.
    pub closed spec fn session(&self) -> GameSession {
        self.session
    }

    /// Connections have distinct ids, and the free lists hold no id twice.
    pub open spec fn wf(&self) -> bool {
        &&& u8_keys_distinct(self.connections())
        &&& self.free_connection_ids().no_duplicates()
        &&& self.session().participant_ids.wf()
        &&& forall|c: int| 0 <= c < self.connections().len() ==> u8_keys_distinct(
            (#[trigger] self.connections()[c]).1.lookup(),
        )
    }

    /// A host for the state: no connections, all ids free.
    pub fn new(last_known_state: State) -> (h: Self)
        ensures
            h.wf(),
            h.connections().len() == 0,
            h.free_connection_ids() == crate::freelist::initial_free(0xff),
            h.session().state == last_known_state,
            h.session().participants@.len() == 0,
    {
        let tick = last_known_state.tick_id;
        HostLogic {
            combinator: Combinator::new(tick),
            connections: Vec::new(),
            session: GameSession::new(last_known_state),
            free_list: FreeList::new(0xff),
        }
    }

    /// Opens a connection with the next free id; `None` when every id is in use.
    pub fn create_connection(&mut self) -> (r: Option<ConnectionId>)
        requires
            old(self).wf(),
        ensures
            final(self).wf(),
            final(self).session() == old(self).session(),
            old(self).free_connection_ids().len() == 0 ==> r is None && final(self).connections() == old(
                self,
            ).connections() && final(self).free_connection_ids() == old(self).free_connection_ids(),
            old(self).free_connection_ids().len() > 0 ==> {
                let id = old(self).free_connection_ids().last();
                &&& r == Some(ConnectionId(id))
                &&& final(self).free_connection_ids() == old(self).free_connection_ids().drop_last()
                &&& has_fresh_connection(final(self).connections(), id)
            },
    {
        match self.free_list.allocate() {
            Some(id) => {
                let ghost before = self.connections@;
                let connection = Connection::new();
                match key_index(&self.connections, id) {
                    Some(at) => {
                        self.connections.set(at, (id, connection));
                        proof {
                            assert forall|i: int, j: int| 0 <= i < j < self.connections@.len() implies (
                            #[trigger] self.connections@[i]).0 != (#[trigger] self.connections@[j]).0 by {
                                assert(self.connections@[i].0 == before[i].0);
                                assert(self.connections@[j].0 == before[j].0);
                            }
                            assert forall|c: int| 0 <= c < self.connections@.len() implies u8_keys_distinct(
                                (#[trigger] self.connections@[c]).1.lookup(),
                            ) by {
                                if c != at {
                                    assert(self.connections@[c] == before[c]);
                                }
                            }
                            assert(self.connections@[at as int].0 == id);
                            assert(self.connections@[at as int].1.lookup().len() == 0);
                            assert(!self.connections@[at as int].1.has_download());
                            assert(has_fresh_connection(self.connections@, id));
                        }
                    },
                    None => {
                        self.connections.push((id, connection));
                        proof {
                            assert forall|i: int, j: int| 0 <= i < j < self.connections@.len() implies (
                            #[trigger] self.connections@[i]).0 != (#[trigger] self.connections@[j]).0 by {
                                assert(self.connections@[i] == before[i]);
                                if j < before.len() {
                                    assert(self.connections@[j] == before[j]);
                                }
                            }
                            assert forall|c: int| 0 <= c < self.connections@.len() implies u8_keys_distinct(
                                (#[trigger] self.connections@[c]).1.lookup(),
                            ) by {
                                if c < before.len() {
                                    assert(self.connections@[c] == before[c]);
                                }
                            }
                            assert(self.connections@[before.len() as int].0 == id);
                            assert(self.connections@[before.len() as int].1.lookup().len() == 0);
                            assert(!self.connections@[before.len() as int].1.has_download());
                            assert(has_fresh_connection(self.connections@, id));
                        }
                    },
                }
                Some(ConnectionId(id))
            },
            None => None,
        }
    }

    /// The connection with the id, if it is open.
    pub fn get(&self, connection_id: ConnectionId) -> (r: Option<&Connection>)
        ensures
            r matches Some(c) ==> exists|i: int|
                0 <= i < self.connections().len() && self.connections()[i].0 == connection_id.0
                    && self.connections()[i].1 == *c,
            r is None ==> forall|i: int| 0 <= i < self.connections().len() ==> (#[trigger] self.connections()[i]).0
                != connection_id.0,
    {
        match key_index(&self.connections, connection_id.0) {
            Some(at) => {
                let c = &self.connections[at].1;
                assert(self.connections()[at as int].0 == connection_id.0 && self.connections()[at as int].1 == *c);
                Some(c)
            },
            None => None,
        }
    }

    /// Closes the connection and frees its id. An id that is already free is refused
    /// with the free list's message, changing nothing; an id that is freed but has no
    /// open connection is refused as unknown (the id stays freed).
    pub fn destroy_connection(&mut self, connection_id: ConnectionId) -> (r: Result<(), HostLogicError>)
        requires
            old(self).wf(),
        ensures
            final(self).wf(),
            final(self).session() == old(self).session(),
            old(self).free_connection_ids().contains(connection_id.0) ==> (r matches Err(
                HostLogicError::FreeListError { connection_id: c, message },
            ) && c == connection_id && message@ == already_freed_message(connection_id.0))
                && final(self).connections() == old(self).connections() && final(self).free_connection_ids()
                == old(self).free_connection_ids(),
            !old(self).free_connection_ids().contains(connection_id.0) ==> final(self).free_connection_ids()
                == seq![connection_id.0] + old(self).free_connection_ids() && (has_connection(
                old(self).connections(),
                connection_id.0,
            ) ==> r is Ok && final(self).connections().len() == old(self).connections().len() - 1
                && !has_connection(final(self).connections(), connection_id.0)) && (!has_connection(
                old(self).connections(),
                connection_id.0,
            ) ==> (r matches Err(HostLogicError::UnknownConnectionId(c)) && c == connection_id)
                && final(self).connections() == old(self).connections()),
    {
        match self.free_list.free(connection_id.0) {
            Ok(()) => {},
            Err(message) => {
                return Err(HostLogicError::FreeListError { connection_id, message });
            },
        }
        match key_index(&self.connections, connection_id.0) {
            Some(at) => {
                let ghost before = self.connections@;
                let _removed = self.connections.remove(at);
                proof {
                    assert forall|i: int| 0 <= i < self.connections@.len() implies #[trigger] self.connections@[i]
                        == (if i < at { before[i] } else { before[i + 1] }) by {}
                    assert forall|i: int, j: int| 0 <= i < j < self.connections@.len() implies (
                    #[trigger] self.connections@[i]).0 != (#[trigger] self.connections@[j]).0 by {
                        let bi = if i < at { i } else { i + 1 };
                        let bj = if j < at { j } else { j + 1 };
                        assert(self.connections@[i] == before[bi]);
                        assert(self.connections@[j] == before[bj]);
                    }
                    assert forall|c: int| 0 <= c < self.connections@.len() implies u8_keys_distinct(
                        (#[trigger] self.connections@[c]).1.lookup(),
                    ) by {
                        let bc = if c < at { c } else { c + 1 };
                        assert(self.connections@[c] == before[bc]);
                    }
                    assert(!has_connection(self.connections@, connection_id.0)) by {
                        if has_connection(self.connections@, connection_id.0) {
                            let i = choose|i: int| 0 <= i < self.connections@.len() && self.connections@[i].0 == connection_id.0;
                            let bi = if i < at { i } else { i + 1 };
                            assert(self.connections@[i] == before[bi]);
                            assert(before[bi].0 == before[at as int].0);
                        }
                    }
                }
                Ok(())
            },
            None => Err(HostLogicError::UnknownConnectionId(connection_id)),
        }
    }
}

/// Some connection has the id, no players, no download, no recorded download request
/// and no transfer yet.
pub open spec fn has_fresh_connection(connections: Seq<(u8, Connection)>, id: u8) -> bool {
    exists|c: int|
        0 <= c < connections.len() && connections[c].0 == id && connections[c].1.lookup().len() == 0
            && !connections[c].1.has_download() && connections[c].1.download_request() is None
            && connections[c].1.last_transfer() == 0
}

/// Some connection has the id.
pub open spec fn has_connection(connections: Seq<(u8, Connection)>, id: u8) -> bool {
    exists|i: int| 0 <= i < connections.len() && connections[i].0 == id
}

/// The connection with the id.
pub open spec fn connection_of(connections: Seq<(u8, Connection)>, id: u8) -> Connection {
    connections[choose|i: int| 0 <= i < connections.len() && connections[i].0 == id].1
}

/// Whether a download request starts a new transfer: when no request is recorded, or
/// the recorded one has the same id.
pub open spec fn starts_new_transfer(c: Connection, request_id: u8) -> bool {
    match c.download_request() {
        None => true,
        Some(x) => x == request_id,
    }
}

/// Puts `participant` for local player `k` into the lookup: it replaces the entry of
/// `k`, or comes last.
fn put_participant(lookup: &mut Vec<(u8, Participant)>, k: u8, participant: Participant)
    requires
        u8_keys_distinct(old(lookup)@),
    ensures
        u8_keys_distinct(final(lookup)@),
        has_local(final(lookup)@, k),
        forall|i: int| 0 <= i < final(lookup)@.len() && (#[trigger] final(lookup)@[i]).0 == k ==> final(lookup)@[i].1 == participant,
        forall|x: u8| x != k ==> (has_local(old(lookup)@, x) <==> has_local(final(lookup)@, x)),
{
    let ghost before = lookup@;
    match key_index(lookup, k) {
        Some(at) => {
            lookup.set(at, (k, participant));
            proof {
                assert forall|i: int, j: int| 0 <= i < j < lookup@.len() implies (#[trigger] lookup@[i]).0 != (
                #[trigger] lookup@[j]).0 by {
                    assert(lookup@[i].0 == before[i].0 && lookup@[j].0 == before[j].0);
                }
                assert(lookup@[at as int].0 == k);
                assert forall|i: int| 0 <= i < lookup@.len() && (#[trigger] lookup@[i]).0 == k implies lookup@[i].1
                    == participant by {
                    if i != at {
                        assert(before[i].0 == before[at as int].0);
                    }
                }
                assert forall|x: u8| x != k implies (has_local(before, x) <==> has_local(lookup@, x)) by {
                    if has_local(before, x) {
                        let i = choose|i: int| 0 <= i < before.len() && before[i].0 == x;
                        assert(lookup@[i].0 == x);
                    }
                    if has_local(lookup@, x) {
                        let i = choose|i: int| 0 <= i < lookup@.len() && lookup@[i].0 == x;
                        assert(before[i].0 == x);
                    }
                }
            }
        },
        None => {
            lookup.push((k, participant));
            proof {
                assert forall|i: int, j: int| 0 <= i < j < lookup@.len() implies (#[trigger] lookup@[i]).0 != (
                #[trigger] lookup@[j]).0 by {
                    assert(lookup@[i] == before[i]);
                    if j < before.len() {
                        assert(lookup@[j] == before[j]);
                    }
                }
                assert(lookup@[before.len() as int].0 == k);
                assert forall|x: u8| x != k implies (has_local(before, x) <==> has_local(lookup@, x)) by {
                    if has_local(before, x) {
                        let i = choose|i: int| 0 <= i < before.len() && before[i].0 == x;
                        assert(lookup@[i].0 == x);
                    }
                    if has_local(lookup@, x) {
                        let i = choose|i: int| 0 <= i < lookup@.len() && lookup@[i].0 == x;
                        if i < before.len() {
                            assert(before[i].0 == x);
                        }
                    }
                }
            }
        },
    }
}

impl<StepT> HostLogic<StepT> {
    /// Takes the connection with the id out of the list, keeping the others in order.
    fn take_connection(&mut self, at: usize) -> (c: Connection)
        requires
            old(self).wf(),
            at < old(self).connections().len(),
        ensures
            c == old(self).connections()[at as int].1,
            final(self).connections() == old(self).connections().remove(at as int),
            final(self).free_connection_ids() == old(self).free_connection_ids(),
            final(self).session() == old(self).session(),
    {
        let (_id, c) = self.connections.remove(at);
        c
    }

    /// Puts a connection back where it was taken from.
    fn put_back_connection(&mut self, at: usize, id: u8, c: Connection)
        requires
            at <= old(self).connections().len(),
            u8_keys_distinct(old(self).connections().insert(at as int, (id, c))),
            old(self).free_connection_ids().no_duplicates(),
            old(self).session().participant_ids.wf(),
            forall|k: int| 0 <= k < old(self).connections().len() ==> u8_keys_distinct(
                (#[trigger] old(self).connections()[k]).1.lookup(),
            ),
            u8_keys_distinct(c.lookup()),
        ensures
            final(self).connections() == old(self).connections().insert(at as int, (id, c)),
            final(self).free_connection_ids() == old(self).free_connection_ids(),
            final(self).session() == old(self).session(),
            final(self).wf(),
    {
        self.connections.insert(at, (id, c));
        proof {
            let before = old(self).connections();
            assert forall|k: int| 0 <= k < self.connections@.len() implies u8_keys_distinct(
                (#[trigger] self.connections@[k]).1.lookup(),
            ) by {
                if k < at {
                    assert(self.connections@[k] == before[k]);
                } else if k > at {
                    assert(self.connections@[k] == before[k - 1]);
                }
            }
        }
    }

    /// A join: makes a participant for the request's first local player, then records
    /// it on the connection, and accepts with an empty participant list, a zero secret
    /// and party. No free participant id is refused first; an unknown connection after
    /// the participant was made.
    fn on_join(&mut self, connection_id: ConnectionId, request: &JoinGameRequest) -> (r: Result<
        HostToClientCommands<StepT>,
        HostLogicError,
    >)
        requires
            old(self).wf(),
            request.player_requests.players@.len() > 0,
        ensures
            final(self).wf(),
            join_done(*old(self), *final(self), connection_id, *request, r),
    {
        let local_index = request.player_requests.players[0].local_index;
        let join_accepted = JoinGameAccepted {
            client_request_id: request.client_request_id,
            party_and_session_secret: PartyAndSessionSecret {
                session_secret: SessionConnectionSecret { value: 0 },
                party_id: 0,
            },
            participants: JoinGameParticipants(Vec::new()),
        };
        let participant = match self.session.create_participant(local_index) {
            Some(p) => p,
            None => return Err(HostLogicError::NoFreeParticipantIds),
        };
        let at = match key_index(&self.connections, connection_id.0) {
            Some(at) => at,
            None => return Err(HostLogicError::UnknownConnectionId(connection_id)),
        };
        let ghost before = self.connections@;
        proof {
            lemma_connection_at(before, connection_id.0, at as int);
        }
        let mut connection = self.take_connection(at);
        put_participant(&mut connection.participant_lookup, local_index, participant);
        let ghost placed = connection;
        self.put_back_connection(at, connection_id.0, connection);
        proof {
            assert(self.connections@ =~= before.update(at as int, (connection_id.0, placed)));
            lemma_connection_at(self.connections@, connection_id.0, at as int);
        }
        Ok(HostToClientCommands::JoinGame(join_accepted))
    }

    /// Predicted steps: each local player named in them must have a participant on the
    /// connection (the first one that does not is refused); a step counter of the
    /// connection grows by each named player's local index, wrapping at 16 bits, up to
    /// the first unknown one. Answered with an empty game step.
    fn on_steps(&mut self, connection_id: ConnectionId, request: &StepsRequest<StepT>) -> (r: Result<
        HostToClientCommands<StepT>,
        HostLogicError,
    >)
        requires
            old(self).wf(),
        ensures
            final(self).wf(),
            steps_done(*old(self), *final(self), connection_id, *request, r),
    {
        let at = match key_index(&self.connections, connection_id.0) {
            Some(at) => at,
            None => return Err(HostLogicError::UnknownConnectionId(connection_id)),
        };
        let indices = local_indices(&request.combined_predicted_steps.steps);
        let ghost before = self.connections@;
        proof {
            lemma_connection_at(before, connection_id.0, at as int);
        }
        let mut connection = self.take_connection(at);
        let ghost taken = connection;
        let mut unknown: Option<u8> = None;
        let mut i: usize = 0;
        while i < indices.len() && unknown.is_none()
            invariant
                i <= indices@.len(),
                connection.same_but_counter(taken),
                u8_keys_distinct(taken.lookup()),
                connection.debug_counter == (taken.debug_counter + counter_growth(
                    taken.lookup(),
                    indices@.take(i as int),
                )) % 0x10000,
                unknown is None ==> forall|q: int| 0 <= q < i ==> has_local(taken.lookup(), #[trigger] indices@[q]),
                unknown matches Some(k) ==> i < indices@.len() && first_unknown_at(taken.lookup(), indices@, i as int)
                    && indices@[i as int] == k,
            decreases indices@.len() - i + (if unknown is None { 1int } else { 0int }),
        {
            let k = indices[i];
            match key_index(&connection.participant_lookup, k) {
                Some(p) => {
                    let added = connection.participant_lookup[p].1.client_local_index as u16;
                    let ghost counted = connection.debug_counter;
                    connection.debug_counter = connection.debug_counter.wrapping_add(added);
                    proof {
                        assert(taken.lookup()[p as int].0 == k);
                        let lookup = taken.lookup();
                        let w = choose|w: int| 0 <= w < lookup.len() && lookup[w].0 == k;
                        assert(w == p) by {
                            if w != p {
                                if w < p {
                                    assert(lookup[w].0 != lookup[p as int].0);
                                } else {
                                    assert(lookup[p as int].0 != lookup[w].0);
                                }
                            }
                        }
                        assert(participant_local_index(lookup, k) == added);
                        assert(indices@.take(i + 1).drop_last() =~= indices@.take(i as int));
                        let g = counter_growth(lookup, indices@.take(i as int));
                        let base = taken.debug_counter as int;
                        assert(counter_growth(lookup, indices@.take(i + 1)) == g + added);
                        assert(connection.debug_counter == (counted + added) % 0x10000) by {
                            if counted + added > u16::MAX {
                                assert((counted + added) % 0x10000 == counted + added - 0x10000) by (nonlinear_arith)
                                    requires
                                        0x10000 <= counted + added < 0x20000,
                                ;
                            } else {
                                assert((counted + added) % 0x10000 == counted + added) by (nonlinear_arith)
                                    requires
                                        0 <= counted + added < 0x10000,
                                ;
                            }
                        }
                        vstd::arithmetic::div_mod::lemma_add_mod_noop(base + g, added as int, 0x10000);
                        vstd::arithmetic::div_mod::lemma_small_mod(added as nat, 0x10000);
                    }
                    i = i + 1;
                },
                None => {
                    unknown = Some(k);
                    proof {
                        assert(!has_local(taken.lookup(), k)) by {
                            if has_local(taken.lookup(), k) {
                                let w = choose|w: int| 0 <= w < taken.lookup().len() && taken.lookup()[w].0 == k;
                                assert(connection.participant_lookup@[w].0 == k);
                            }
                        }
                    }
                },
            }
        }
        let ghost placed = connection;
        self.put_back_connection(at, connection_id.0, connection);
        proof {
            assert(self.connections@ =~= before.update(at as int, (connection_id.0, placed)));
            lemma_connection_at(self.connections@, connection_id.0, at as int);
        }
        proof {
            if unknown is None {
                assert(indices@.take(i as int) =~= indices@);
            }
        }
        match unknown {
            Some(k) => {
                proof {
                    assert(first_unknown_at(taken.lookup(), indices@, i as int));
                    assert(!has_local(taken.lookup(), indices@[i as int]));
                    assert(!all_known(taken.lookup(), indices@));
                    assert forall|p: int| #[trigger] first_unknown_at(taken.lookup(), indices@, p) implies p == i by {
                        if p < i {
                            assert(has_local(taken.lookup(), indices@[p]));
                        }
                        if p > i {
                            assert(has_local(taken.lookup(), indices@[i as int]));
                        }
                    }
                }
                Err(HostLogicError::UnknownPartyMemberIndex(k))
            },
            None => Ok(
                HostToClientCommands::GameStep(
                    GameStepResponse {
                        response_header: GameStepResponseHeader {
                            connection_buffer_count: 0,
                            delta_buffer: 0,
                            last_step_received_from_client: 0,
                        },
                        authoritative_steps: AuthoritativeStepRanges { ranges: Vec::new() },
                    },
                ),
            ),
        }
    }

    /// A game state download: a new transfer (when no request is recorded, or the
    /// recorded one has the same id) takes the next transfer id and a sender of
    /// the session's state; the answer names the request, the state's tick and the
    /// transfer, followed by the first blob commands.
    fn on_download(&mut self, connection_id: ConnectionId, now: Instant, request: &DownloadGameStateRequest) -> (r:
        Result<Vec<HostToClientCommands<StepT>>, HostLogicError>)
        requires
            old(self).wf(),
            has_connection(old(self).connections(), connection_id.0) ==> download_allowed(
                connection_of(old(self).connections(), connection_id.0),
                request.request_id,
                old(self).session().state.data@.len(),
            ),
        ensures
            final(self).wf(),
            download_done(*old(self), *final(self), connection_id, *request, r),
    {
        let at = match key_index(&self.connections, connection_id.0) {
            Some(at) => at,
            None => return Err(HostLogicError::UnknownConnectionId(connection_id)),
        };
        let ghost before = self.connections@;
        proof {
            lemma_connection_at(before, connection_id.0, at as int);
        }
        let mut connection = self.take_connection(at);
        let is_new_request = match connection.blob_stream_for_client_request {
            Some(x) => x == request.request_id,
            None => true,
        };
        if is_new_request {
            connection.last_transfer_id = connection.last_transfer_id + 1;
            connection.out_blob_stream = Some(
                BlobSender::new(
                    connection.last_transfer_id,
                    FIXED_CHUNK_SIZE,
                    RESEND_MILLIS,
                    self.session.state.data.as_slice(),
                ),
            );
        }
        let mut sender = connection.out_blob_stream.take().unwrap();
        let response = DownloadGameStateResponse {
            client_request: request.request_id,
            tick_id: self.session.state.tick_id,
            blob_stream_channel: sender.transfer_id(),
        };
        let ghost fresh = sender;
        let sent = sender.send(now);
        let ghost after_send = sender;
        connection.out_blob_stream = Some(sender);
        let ghost placed = connection;
        self.put_back_connection(at, connection_id.0, connection);
        proof {
            assert(self.connections@ =~= before.update(at as int, (connection_id.0, placed)));
            lemma_connection_at(self.connections@, connection_id.0, at as int);
        }
        let blob_commands = match sent {
            Ok(c) => c,
            Err(e) => return Err(HostLogicError::BlobStreamErr(e)),
        };
        let mut commands: Vec<HostToClientCommands<StepT>> = Vec::new();
        commands.push(HostToClientCommands::DownloadGameState(response));
        let ghost blob = blob_commands@;
        append_blob_commands(&mut commands, blob_commands);
        assert forall|i: int| 1 <= i < commands@.len() implies #[trigger] commands@[i] is BlobStreamChannel by {
            assert(commands@[1 + (i - 1)] == HostToClientCommands::<StepT>::BlobStreamChannel(blob[i - 1]));
        }
        proof {
            assert(after_send.sent_commands(blob));
            assert(commands@.skip(1) =~= blob_channel_commands::<StepT>(blob));
            if is_new_request {
                assert(fresh.sent_commands(blob));
                assert(blob.len() == 1);
                assert(commands@[1 + 0int] == HostToClientCommands::<StepT>::BlobStreamChannel(blob[0]));
            }
        }
        Ok(commands)
    }

    /// A blob stream acknowledgement for the connection's download: taken in, then the
    /// commands due now are sent. Without a download it is refused as an unknown
    /// connection.
    fn on_blob_stream(&mut self, connection_id: ConnectionId, now: Instant, command: &ReceiverToSenderFrontCommands) -> (r:
        Result<Vec<HostToClientCommands<StepT>>, HostLogicError>)
        requires
            old(self).wf(),
            has_connection(old(self).connections(), connection_id.0) ==> ack_allowed(
                connection_of(old(self).connections(), connection_id.0),
                *command,
            ),
        ensures
            final(self).wf(),
            blob_done(*old(self), *final(self), connection_id, *command, r),
    {
        let at = match key_index(&self.connections, connection_id.0) {
            Some(at) => at,
            None => return Err(HostLogicError::UnknownConnectionId(connection_id)),
        };
        let ghost before = self.connections@;
        proof {
            lemma_connection_at(before, connection_id.0, at as int);
        }
        let mut connection = self.take_connection(at);
        let mut sender = match connection.out_blob_stream.take() {
            Some(s) => s,
            None => {
                let ghost placed = connection;
                self.put_back_connection(at, connection_id.0, connection);
                proof {
                    assert(self.connections@ =~= before);
                }
                return Err(HostLogicError::UnknownConnectionId(connection_id));
            },
        };
        let received = sender.receive(command);
        let ghost mut sent_by = sender;
        let sent = match received {
            Ok(()) => {
                let s = sender.send(now);
                proof {
                    sent_by = sender;
                }
                Some(s)
            },
            Err(_) => None,
        };
        connection.out_blob_stream = Some(sender);
        let ghost placed = connection;
        self.put_back_connection(at, connection_id.0, connection);
        proof {
            assert(self.connections@ =~= before.update(at as int, (connection_id.0, placed)));
            lemma_connection_at(self.connections@, connection_id.0, at as int);
        }
        let blob_commands = match received {
            Err(e) => return Err(HostLogicError::BlobStreamErr(e)),
            Ok(()) => match sent {
                Some(Ok(c)) => c,
                Some(Err(e)) => return Err(HostLogicError::BlobStreamErr(e)),
                None => Vec::new(),
            },
        };
        let mut commands: Vec<HostToClientCommands<StepT>> = Vec::new();
        let ghost blob = blob_commands@;
        append_blob_commands(&mut commands, blob_commands);
        assert forall|i: int| 0 <= i < commands@.len() implies #[trigger] commands@[i] is BlobStreamChannel by {
            assert(commands@[0 + i] == HostToClientCommands::<StepT>::BlobStreamChannel(blob[i]));
        }
        proof {
            assert(sent_by.sent_commands(blob));
            assert(commands@ =~= blob_channel_commands::<StepT>(blob));
        }
        Ok(commands)
    }

    /// Whether the host can take in the command from the connection: a join names a
    /// player; a download that starts a new transfer has a transfer id left and a
    /// state to send, and one that does not has a download to answer from; once the
    /// start of the download is acknowledged, a blob acknowledgement waits for no chunk
    /// past its last.
    pub open spec fn update_allowed(&self, connection_id: ConnectionId, request: ClientToHostCommands<StepT>) -> bool {
        match request {
            ClientToHostCommands::JoinGameType(j) => j.player_requests.players@.len() > 0,
            ClientToHostCommands::Steps(_) => true,
            ClientToHostCommands::DownloadGameState(d) => has_connection(self.connections(), connection_id.0)
                ==> download_allowed(
                connection_of(self.connections(), connection_id.0),
                d.request_id,
                self.session().state.data@.len(),
            ),
            ClientToHostCommands::BlobStreamChannel(c) => has_connection(self.connections(), connection_id.0)
                ==> ack_allowed(connection_of(self.connections(), connection_id.0), c),
        }
    }

    /// Tests `update_allowed`, so that a command read from the network can be checked
    /// before it is handed to `update`.
    pub fn is_update_allowed(&self, connection_id: ConnectionId, request: &ClientToHostCommands<StepT>) -> (b: bool)
        requires
            self.wf(),
        ensures
            b == self.update_allowed(connection_id, *request),
    {
        match request {
            ClientToHostCommands::JoinGameType(j) => j.player_requests.players.len() > 0,
            ClientToHostCommands::Steps(_) => true,
            ClientToHostCommands::DownloadGameState(d) => {
                match key_index(&self.connections, connection_id.0) {
                    None => true,
                    Some(at) => {
                        proof {
                            lemma_connection_at(self.connections@, connection_id.0, at as int);
                        }
                        let c = &self.connections[at].1;
                        let new_transfer = match c.blob_stream_for_client_request {
                            None => true,
                            Some(x) => x == d.request_id,
                        };
                        if new_transfer {
                            c.last_transfer_id < u16::MAX && self.session.state.data.len() > 0
                        } else {
                            c.out_blob_stream.is_some()
                        }
                    },
                }
            },
            ClientToHostCommands::BlobStreamChannel(command) => {
                match key_index(&self.connections, connection_id.0) {
                    None => true,
                    Some(at) => {
                        proof {
                            lemma_connection_at(self.connections@, connection_id.0, at as int);
                        }
                        match &self.connections[at].1.out_blob_stream {
                            None => true,
                            Some(sender) => {
                                if sender.is_started() {
                                    match command {
                                        ReceiverToSenderFrontCommands::AckChunk(a) => (a.waiting_for_chunk_index as usize)
                                            <= sender.chunk_total(),
                                        ReceiverToSenderFrontCommands::AckStart(_) => true,
                                    }
                                } else {
                                    true
                                }
                            },
                        }
                    },
                }
            },
        }
    }

    /// Takes in a command from the connection at `now` and gives the answers.
    pub fn update(&mut self, connection_id: ConnectionId, now: Instant, request: &ClientToHostCommands<StepT>) -> (r:
        Result<Vec<HostToClientCommands<StepT>>, HostLogicError>)
        requires
            old(self).wf(),
            old(self).update_allowed(connection_id, *request),
        ensures
            final(self).wf(),
            match *request {
                ClientToHostCommands::JoinGameType(j) => (r matches Ok(v) ==> v@.len() == 1) && join_done(
                    *old(self),
                    *final(self),
                    connection_id,
                    j,
                    first_of(r),
                ),
                ClientToHostCommands::Steps(s) => (r matches Ok(v) ==> v@.len() == 1) && steps_done(
                    *old(self),
                    *final(self),
                    connection_id,
                    s,
                    first_of(r),
                ),
                ClientToHostCommands::DownloadGameState(d) => download_done(*old(self), *final(self), connection_id, d, r),
                ClientToHostCommands::BlobStreamChannel(c) => blob_done(*old(self), *final(self), connection_id, c, r),
            },
    {
        match request {
            ClientToHostCommands::JoinGameType(join_game_request) => {
                match self.on_join(connection_id, join_game_request) {
                    Ok(c) => Ok(vec![c]),
                    Err(e) => Err(e),
                }
            },
            ClientToHostCommands::Steps(add_steps_request) => {
                match self.on_steps(connection_id, add_steps_request) {
                    Ok(c) => Ok(vec![c]),
                    Err(e) => Err(e),
                }
            },
            ClientToHostCommands::DownloadGameState(download_game_state_request) => {
                self.on_download(connection_id, now, download_game_state_request)
            },
            ClientToHostCommands::BlobStreamChannel(blob_stream_command) => {
                self.on_blob_stream(connection_id, now, blob_stream_command)
            },
        }
    }
}

/// The first command of an answer of one command.
pub open spec fn first_of<C, E>(r: Result<Vec<C>, E>) -> Result<C, E> {
    match r {
        Ok(v) => Ok(v@[0]),
        Err(e) => Err(e),
    }
}

/// The connection at `at` is the one with its id.
proof fn lemma_connection_at(connections: Seq<(u8, Connection)>, id: u8, at: int)
    requires
        u8_keys_distinct(connections),
        0 <= at < connections.len(),
        connections[at].0 == id,
    ensures
        has_connection(connections, id),
        connection_of(connections, id) == connections[at].1,
{
    let c = choose|i: int| 0 <= i < connections.len() && connections[i].0 == id;
    assert(0 <= c < connections.len() && connections[c].0 == id);
    if c < at {
        assert(connections[c].0 != connections[at].0);
    } else if c > at {
        assert(connections[at].0 != connections[c].0);
    }
}

/// The same connection ids in the same order, and the connections other than the one
/// with `id` unchanged.
pub open spec fn others_kept(before: Seq<(u8, Connection)>, after: Seq<(u8, Connection)>, id: u8) -> bool {
    &&& after.len() == before.len()
    &&& forall|i: int| 0 <= i < before.len() ==> (#[trigger] after[i]).0 == before[i].0
    &&& forall|i: int| 0 <= i < before.len() && before[i].0 != id ==> (#[trigger] after[i]).1 == before[i].1
}

/// What a join did: see `HostLogic::update`.
pub open spec fn join_done<StepT>(
    before: HostLogic<StepT>,
    after: HostLogic<StepT>,
    connection_id: ConnectionId,
    request: JoinGameRequest,
    r: Result<HostToClientCommands<StepT>, HostLogicError>,
) -> bool {
    let id = connection_id.0;
    let ids = before.session().participant_ids@;
    &&& after.free_connection_ids() == before.free_connection_ids()
    &&& after.session().state == before.session().state
    &&& ids.len() == 0 ==> (r matches Err(HostLogicError::NoFreeParticipantIds)) && after.connections()
        == before.connections() && after.session().participant_ids@ == ids && after.session().participants@
        == before.session().participants@
    &&& ids.len() > 0 ==> after.session().participant_ids@ == ids.drop_last() && has_participant(
        after.session().participants@,
        ParticipantId(ids.last()),
        Participant { id: ParticipantId(ids.last()), client_local_index: request.player_requests.players@[0].local_index },
    )
    &&& ids.len() > 0 && !has_connection(before.connections(), id) ==> (r matches Err(
        HostLogicError::UnknownConnectionId(c),
    ) && c == connection_id) && after.connections() == before.connections()
    &&& ids.len() > 0 && has_connection(before.connections(), id) ==> {
        let local = request.player_requests.players@[0].local_index;
        let participant = Participant { id: ParticipantId(ids.last()), client_local_index: local };
        let old_c = connection_of(before.connections(), id);
        let new_c = connection_of(after.connections(), id);
        &&& r matches Ok(HostToClientCommands::JoinGame(a)) && a.client_request_id == request.client_request_id
            && a.party_and_session_secret == (PartyAndSessionSecret {
            session_secret: SessionConnectionSecret { value: 0 },
            party_id: 0,
        }) && a.participants.0@.len() == 0
        &&& others_kept(before.connections(), after.connections(), id)
        &&& has_local(new_c.lookup(), local)
        &&& forall|i: int| 0 <= i < new_c.lookup().len() && (#[trigger] new_c.lookup()[i]).0 == local
            ==> new_c.lookup()[i].1 == participant
        &&& forall|x: u8| x != local ==> (has_local(old_c.lookup(), x) <==> has_local(new_c.lookup(), x))
    }
}

/// Some position of the indices is the first whose player the lookup lacks.
pub open spec fn first_unknown_at(lookup: Seq<(u8, Participant)>, indices: Seq<u8>, p: int) -> bool {
    &&& 0 <= p < indices.len()
    &&& !has_local(lookup, indices[p])
    &&& forall|q: int| 0 <= q < p ==> has_local(lookup, #[trigger] indices[q])
}

/// The local index of the participant that `lookup` holds under `key`.
pub open spec fn participant_local_index(lookup: Seq<(u8, Participant)>, key: u8) -> int {
    lookup[choose|w: int| 0 <= w < lookup.len() && lookup[w].0 == key].1.client_local_index as int
}

/// How much the step counter grows for the local indices `indices`: by the local index
/// of each one's participant.
pub open spec fn counter_growth(lookup: Seq<(u8, Participant)>, indices: Seq<u8>) -> int
    decreases indices.len(),
{
    if indices.len() == 0 {
        0
    } else {
        counter_growth(lookup, indices.drop_last()) + participant_local_index(lookup, indices.last())
    }
}

/// Every index names a player of the lookup.
pub open spec fn all_known(lookup: Seq<(u8, Participant)>, indices: Seq<u8>) -> bool {
    forall|q: int| 0 <= q < indices.len() ==> has_local(lookup, #[trigger] indices[q])
}

/// A game step answer with a zero header and no ranges.
pub open spec fn is_empty_game_step<StepT>(g: GameStepResponse<StepT>) -> bool {
    &&& g.response_header == GameStepResponseHeader {
        connection_buffer_count: 0,
        delta_buffer: 0,
        last_step_received_from_client: 0,
    }
    &&& g.authoritative_steps.ranges@.len() == 0
}

/// What predicted steps did: see `HostLogic::update`.
pub open spec fn steps_done<StepT>(
    before: HostLogic<StepT>,
    after: HostLogic<StepT>,
    connection_id: ConnectionId,
    request: StepsRequest<StepT>,
    r: Result<HostToClientCommands<StepT>, HostLogicError>,
) -> bool {
    let id = connection_id.0;
    &&& after.session() == before.session()
    &&& after.free_connection_ids() == before.free_connection_ids()
    &&& others_kept(before.connections(), after.connections(), id)
    &&& !has_connection(before.connections(), id) ==> (r matches Err(HostLogicError::UnknownConnectionId(c)) && c
        == connection_id) && after.connections() == before.connections()
    &&& has_connection(before.connections(), id) ==> {
        let old_c = connection_of(before.connections(), id);
        let indices = predicted_local_indices(request.combined_predicted_steps.steps@);
        let new_c = connection_of(after.connections(), id);
        &&& new_c.same_but_counter(old_c)
        &&& all_known(old_c.lookup(), indices) ==> (r matches Ok(HostToClientCommands::GameStep(g))
            && is_empty_game_step(g))
        &&& all_known(old_c.lookup(), indices) ==> new_c.step_counter() == (old_c.step_counter() + counter_growth(
            old_c.lookup(),
            indices,
        )) % 0x10000
        &&& forall|p: int| #[trigger]
            first_unknown_at(old_c.lookup(), indices, p) ==> new_c.step_counter() == (old_c.step_counter()
                + counter_growth(old_c.lookup(), indices.take(p))) % 0x10000
        &&& !all_known(old_c.lookup(), indices) ==> (r matches Err(HostLogicError::UnknownPartyMemberIndex(k))
            && exists|p: int| first_unknown_at(old_c.lookup(), indices, p) && indices[p] == k)
    }
}

/// A download can go ahead on the connection: a new transfer needs a transfer id left
/// and a state to send; otherwise there is a download to answer from.
pub open spec fn download_allowed(c: Connection, request_id: u8, state_len: nat) -> bool {
    if starts_new_transfer(c, request_id) {
        c.last_transfer() < u16::MAX && state_len > 0
    } else {
        c.has_download()
    }
}

/// The host commands that carry the blob sender commands `v`, in order.
pub open spec fn blob_channel_commands<StepT>(v: Seq<SenderToReceiverFrontCommands>) -> Seq<HostToClientCommands<StepT>> {
    v.map_values(|c: SenderToReceiverFrontCommands| HostToClientCommands::<StepT>::BlobStreamChannel(c))
}

/// The commands after the first are blob stream commands.
pub open spec fn rest_are_blob_commands<StepT>(cmds: Seq<HostToClientCommands<StepT>>) -> bool {
    forall|i: int| 1 <= i < cmds.len() ==> #[trigger] cmds[i] is BlobStreamChannel
}

/// What a download request did: see `HostLogic::update`.
pub open spec fn download_done<StepT>(
    before: HostLogic<StepT>,
    after: HostLogic<StepT>,
    connection_id: ConnectionId,
    request: DownloadGameStateRequest,
    r: Result<Vec<HostToClientCommands<StepT>>, HostLogicError>,
) -> bool {
    let id = connection_id.0;
    &&& after.session() == before.session()
    &&& after.free_connection_ids() == before.free_connection_ids()
    &&& others_kept(before.connections(), after.connections(), id)
    &&& !has_connection(before.connections(), id) ==> (r matches Err(HostLogicError::UnknownConnectionId(c)) && c
        == connection_id) && after.connections() == before.connections()
    &&& has_connection(before.connections(), id) ==> {
        let old_c = connection_of(before.connections(), id);
        let new_c = connection_of(after.connections(), id);
        let state = before.session().state;
        &&& new_c.same_players(old_c)
        &&& new_c.has_download()
        &&& starts_new_transfer(old_c, request.request_id) ==> new_c.last_transfer() == old_c.last_transfer() + 1
            && new_c.download_transfer() == new_c.last_transfer() && new_c.download_chunks() == chunk_count(
            state.data@.len(),
            FIXED_CHUNK_SIZE as nat,
        )
        &&& !starts_new_transfer(old_c, request.request_id) ==> new_c.last_transfer() == old_c.last_transfer()
            && new_c.download_transfer() == old_c.download_transfer() && new_c.download_chunks()
            == old_c.download_chunks()
        &&& starts_new_transfer(old_c, request.request_id) ==> !new_c.download_started()
            && new_c.download_received() == Set::<int>::empty()
        &&& !starts_new_transfer(old_c, request.request_id) ==> new_c.download_started() == old_c.download_started()
            && new_c.download_received() == old_c.download_received()
        &&& r matches Ok(cmds) && cmds@.len() >= 1 && cmds@[0] == HostToClientCommands::<StepT>::DownloadGameState(
            DownloadGameStateResponse {
                client_request: request.request_id,
                tick_id: state.tick_id,
                blob_stream_channel: new_c.download_transfer(),
            },
        ) && rest_are_blob_commands(cmds@)
        &&& r matches Ok(cmds) ==> exists|v: Seq<SenderToReceiverFrontCommands>|
            new_c.download_sender().sent_commands(v) && cmds@.skip(1) == blob_channel_commands::<StepT>(v)
        &&& starts_new_transfer(old_c, request.request_id) ==> (r matches Ok(cmds) && cmds@.len() == 2 && cmds@[1]
            == HostToClientCommands::<StepT>::BlobStreamChannel(
            SenderToReceiverFrontCommands::StartTransfer(
                StartTransferData {
                    transfer_id: new_c.download_transfer(),
                    total_octet_size: state.data@.len() as u32,
                    chunk_size: FIXED_CHUNK_SIZE as u16,
                },
            ),
        ))
    }
}

/// Once the start of the connection's download is acknowledged, an acknowledgement
/// waits for no chunk past its last.
pub open spec fn ack_allowed(c: Connection, command: ReceiverToSenderFrontCommands) -> bool {
    c.download_started() ==> (command matches ReceiverToSenderFrontCommands::AckChunk(d)
        ==> d.waiting_for_chunk_index <= c.download_chunks())
}

/// What a blob stream acknowledgement did: see `HostLogic::update`.
pub open spec fn blob_done<StepT>(
    before: HostLogic<StepT>,
    after: HostLogic<StepT>,
    connection_id: ConnectionId,
    command: ReceiverToSenderFrontCommands,
    r: Result<Vec<HostToClientCommands<StepT>>, HostLogicError>,
) -> bool {
    let id = connection_id.0;
    &&& after.session() == before.session()
    &&& after.free_connection_ids() == before.free_connection_ids()
    &&& others_kept(before.connections(), after.connections(), id)
    &&& !has_connection(before.connections(), id) ==> (r matches Err(HostLogicError::UnknownConnectionId(c)) && c
        == connection_id) && after.connections() == before.connections()
    &&& has_connection(before.connections(), id) ==> {
        let old_c = connection_of(before.connections(), id);
        let new_c = connection_of(after.connections(), id);
        &&& !old_c.has_download() ==> (r matches Err(HostLogicError::UnknownConnectionId(c)) && c == connection_id)
            && after.connections() == before.connections()
        &&& old_c.has_download() ==> {
            &&& new_c.same_players(old_c)
            &&& new_c.last_transfer() == old_c.last_transfer()
            &&& new_c.has_download()
            &&& new_c.download_transfer() == old_c.download_transfer()
            &&& new_c.download_chunks() == old_c.download_chunks()
            &&& r matches Ok(cmds) ==> forall|i: int| 0 <= i < cmds@.len() ==> #[trigger] cmds@[i] is BlobStreamChannel
            &&& r matches Ok(cmds) ==> exists|v: Seq<SenderToReceiverFrontCommands>|
                new_c.download_sender().sent_commands(v) && cmds@ == blob_channel_commands::<StepT>(v)
            &&& new_c.download_started() == (old_c.download_started() || command
                == ReceiverToSenderFrontCommands::AckStart(old_c.download_transfer()))
            &&& r matches Err(e) ==> (e == HostLogicError::BlobStreamErr(
                BlobStreamError::ChunkPreviouslyReceivedMarkedAsNotReceived,
            ) && old_c.download_started() && command is AckChunk)
            &&& !(old_c.download_started() && command is AckChunk) ==> r is Ok && new_c.download_received()
                == old_c.download_received()
            &&& old_c.download_started() ==> (command matches ReceiverToSenderFrontCommands::AckChunk(d) ==> {
                &&& (r is Err <==> ack_contradicts(
                    old_c.download_received(),
                    d.waiting_for_chunk_index as nat,
                    d.receive_mask_after_last,
                    old_c.download_chunks(),
                ))
                &&& r is Ok ==> new_c.download_received() == old_c.download_received() + acked_chunks(
                    d.waiting_for_chunk_index as nat,
                    d.receive_mask_after_last,
                    old_c.download_chunks(),
                )
            })
        }
    }
}

/// The local indices of the predicted steps, tick by tick.
fn local_indices<StepT>(steps: &Vec<PredictedStep<StepT>>) -> (r: Vec<u8>)
    ensures
        r@ == predicted_local_indices(steps@),
{
    let mut r: Vec<u8> = Vec::new();
    let mut s: usize = 0;
    while s < steps.len()
        invariant
            s <= steps@.len(),
            r@ == predicted_local_indices(steps@.take(s as int)),
        decreases steps@.len() - s,
    {
        let players = &steps[s].predicted_players;
        let ghost prefix = r@;
        let mut j: usize = 0;
        while j < players.len()
            invariant
                s < steps@.len(),
                players@ == steps@[s as int].predicted_players@,
                prefix == predicted_local_indices(steps@.take(s as int)),
                j <= players@.len(),
                r@ == prefix + players@.take(j as int).map_values(|e: (u8, StepT)| e.0),
            decreases players@.len() - j,
        {
            r.push(players[j].0);
            proof {
                assert(players@.take(j + 1).map_values(|e: (u8, StepT)| e.0) =~= players@.take(j as int).map_values(
                    |e: (u8, StepT)| e.0,
                ).push(players@[j as int].0));
            }
            j = j + 1;
        }
        proof {
            assert(players@.take(j as int) =~= players@);
            assert(steps@.take(s + 1).drop_last() =~= steps@.take(s as int));
            assert(steps@.take(s + 1).last() == steps@[s as int]);
        }
        s = s + 1;
    }
    assert(steps@.take(s as int) =~= steps@);
    r
}

/// Appends the blob commands, each as a host command, in order.
fn append_blob_commands<StepT>(commands: &mut Vec<HostToClientCommands<StepT>>, blob: Vec<SenderToReceiverFrontCommands>)
    ensures
        final(commands)@.len() == old(commands)@.len() + blob@.len(),
        forall|i: int| 0 <= i < old(commands)@.len() ==> final(commands)@[i] == old(commands)@[i],
        forall|i: int|
            0 <= i < blob@.len() ==> final(commands)@[old(commands)@.len() + i]
                == HostToClientCommands::<StepT>::BlobStreamChannel(#[trigger] blob@[i]),
{
    let ghost all = blob@;
    let ghost start = commands@;
    let mut rest = blob;
    while rest.len() > 0
        invariant
            start.len() <= commands@.len(),
            commands@.len() - start.len() + rest@.len() == all.len(),
            rest@ == all.subrange(commands@.len() - start.len(), all.len() as int),
            forall|i: int| 0 <= i < start.len() ==> commands@[i] == start[i],
            forall|i: int|
                0 <= i < commands@.len() - start.len() ==> commands@[start.len() + i]
                    == HostToClientCommands::<StepT>::BlobStreamChannel(#[trigger] all[i]),
        decreases rest@.len(),
    {
        let c = rest.remove(0);
        commands.push(HostToClientCommands::BlobStreamChannel(c));
    }
}

/// A connection that was just opened can be closed, and only once: right after
/// `create_connection` its id is in use and its connection is open, which is when
/// `destroy_connection` succeeds; after that the id is free again, which is when a
/// second `destroy_connection` is refused.
pub proof fn lemma_opened_connection_closes_once<StepT>(
    before: HostLogic<StepT>,
    opened: HostLogic<StepT>,
    closed: HostLogic<StepT>,
)
    requires
        before.wf(),
        before.free_connection_ids().len() > 0,
        opened.free_connection_ids() == before.free_connection_ids().drop_last(),
        has_fresh_connection(opened.connections(), before.free_connection_ids().last()),
        closed.free_connection_ids() == seq![before.free_connection_ids().last()] + opened.free_connection_ids(),
    ensures
        !opened.free_connection_ids().contains(before.free_connection_ids().last()),
        has_connection(opened.connections(), before.free_connection_ids().last()),
        closed.free_connection_ids().contains(before.free_connection_ids().last()),
{
    let free = before.free_connection_ids();
    let id = free.last();
    if opened.free_connection_ids().contains(id) {
        let k = choose|k: int| 0 <= k < opened.free_connection_ids().len() && opened.free_connection_ids()[k] == id;
        assert(free[k] == free[free.len() - 1]);
    }
    let c = choose|c: int|
        0 <= c < opened.connections().len() && opened.connections()[c].0 == id && opened.connections()[c].1.lookup().len() == 0
            && !opened.connections()[c].1.has_download();
    assert(opened.connections()[c].0 == id);
    assert(closed.free_connection_ids()[0] == id);
}

} // verus!
