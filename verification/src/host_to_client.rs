//! Messages from the host to a client: join answers, authoritative steps, game state
//! download answers and blob-stream chunks.
use vstd::prelude::*;
use flood_rs::in_stream::InOctetStream;
use flood_rs::out_stream::OutOctetStream;
use crate::stream::{
    Serialize, Deserialize, out_octets, in_remaining, be_u16, be_u32, parse_u8, parse_u16,
    parse_u32, parsed_from, write_u8, write_i8, write_u16, write_u32, read_u8_checked,
    read_u16_checked, read_u32_checked, read_i8, lemma_skip_skip, lemma_skip_prefix,
    lemma_parse_u16_be, lemma_parse_u32_be, StreamError, new_in_stream,
};
use crate::protocol::{ClientRequestId, SessionConnectionSecret};
use crate::participant::ParticipantId;
use crate::tick::TickId;
use crate::blob_commands::{SenderToReceiverFrontCommands, SenderCommandView, sender_command_octets, parse_sender_command};
use crate::codec::{views, items_octets, lemma_views_remove_first};
use crate::client_to_host::{
    AuthoritativeStep, SerializeAuthoritativeStepRangeForAllParticipants,
    SerializeAuthoritativeStepVectorForOneParticipants, all_participants_octets,
    participant_vectors_octets, participant_vector_octets, parse_participant_vectors, put_entries,
    keys_distinct, entry_views, vector_view, vector_views, lemma_vector_views_remove_first,
};
use crate::grouping::{
    group_keys, flat_keys, first_keys, positions_of, int_pairs, row_views, groups_of,
    lemma_flat_keys_valid, lemma_positions_valid, lemma_positions_present, entry_of,
};

verus! {

/// The kinds of host-to-client commands.
#[derive(Debug, Clone, Copy, PartialEq, Eq, Structural)]
pub enum HostToClientCommand {
    GameStep,
    JoinGame,
    DownloadGameState,
    BlobStreamChannel,
}

/// The octet of a command kind: 0x08 game step, 0x09 join, 0x0B download, 0x0C blob stream.
pub open spec fn host_command_octet(c: HostToClientCommand) -> u8 {
    match c {
        HostToClientCommand::GameStep => 0x08,
        HostToClientCommand::JoinGame => 0x09,
        HostToClientCommand::DownloadGameState => 0x0B,
        HostToClientCommand::BlobStreamChannel => 0x0C,
    }
}

impl HostToClientCommand {
    pub fn to_octet(&self) -> (o: u8)
        ensures
            o == host_command_octet(*self),
    {
        match self {
            HostToClientCommand::GameStep => 0x08,
            HostToClientCommand::JoinGame => 0x09,
            HostToClientCommand::DownloadGameState => 0x0B,
            HostToClientCommand::BlobStreamChannel => 0x0C,
        }
    }

    /// The command kind of an octet; any other octet is refused.
    pub fn try_from_octet(value: u8) -> (r: Result<HostToClientCommand, StreamError>)
        ensures
            value == 0x08 ==> r == Ok::<HostToClientCommand, StreamError>(HostToClientCommand::GameStep),
            value == 0x09 ==> r == Ok::<HostToClientCommand, StreamError>(HostToClientCommand::JoinGame),
            value == 0x0B ==> r == Ok::<HostToClientCommand, StreamError>(HostToClientCommand::DownloadGameState),
            value == 0x0C ==> r == Ok::<HostToClientCommand, StreamError>(HostToClientCommand::BlobStreamChannel),
            value != 0x08 && value != 0x09 && value != 0x0B && value != 0x0C ==> r == Err::<
                HostToClientCommand,
                StreamError,
            >(StreamError::UnknownValue(value)),
    {
        if value == 0x09 {
            Ok(HostToClientCommand::JoinGame)
        } else if value == 0x08 {
            Ok(HostToClientCommand::GameStep)
        } else if value == 0x0B {
            Ok(HostToClientCommand::DownloadGameState)
        } else if value == 0x0C {
            Ok(HostToClientCommand::BlobStreamChannel)
        } else {
            Err(StreamError::UnknownValue(value))
        }
    }
}

/// Writing and reading tick ids as four big-endian octets.
#[derive(Debug, Clone, Copy, PartialEq, Eq, Structural)]
pub struct TickIdUtil;

impl TickIdUtil {
    pub fn to_stream(tick_id: TickId, stream: &mut OutOctetStream)
        ensures
            out_octets(*final(stream)) == out_octets(*old(stream)) + be_u32(tick_id.0),
    {
        write_u32(stream, tick_id.0);
    }

    pub fn from_stream(stream: &mut InOctetStream) -> (r: Result<TickId, StreamError>)
        ensures
            match parse_u32(in_remaining(*old(stream))) {
                Ok((v, n)) => r == Ok::<TickId, StreamError>(TickId(v)) && in_remaining(*final(stream))
                    == in_remaining(*old(stream)).skip(n as int),
                Err(e) => r == Err::<TickId, StreamError>(e),
            },
    {
        match read_u32_checked(stream) {
            Ok(v) => Ok(TickId(v)),
            Err(e) => Err(e),
        }
    }
}

/// The host's answer to a download request: the tick of the state and the blob-stream
/// channel that will carry it.
#[derive(Debug, Clone, Copy, PartialEq, Eq, Structural)]
pub struct DownloadGameStateResponse {
    pub client_request: u8,
    pub tick_id: TickId,
    pub blob_stream_channel: u16,
}

impl DownloadGameStateResponse {
    /// The request id, the tick (four octets) and the channel (two octets).
    pub open spec fn octets(self) -> Seq<u8> {
        seq![self.client_request] + be_u32(self.tick_id.0) + be_u16(self.blob_stream_channel)
    }

    pub open spec fn parse(data: Seq<u8>) -> Result<(DownloadGameStateResponse, nat), StreamError> {
        if data.len() >= 7 {
            Ok(
                (
                    DownloadGameStateResponse {
                        client_request: data[0],
                        tick_id: TickId(parse_u32(data.skip(1))->Ok_0.0),
                        blob_stream_channel: parse_u16(data.skip(5))->Ok_0.0,
                    },
                    7,
                ),
            )
        } else {
            Err(StreamError::UnexpectedEnd)
        }
    }

    pub fn to_stream(&self, stream: &mut OutOctetStream)
        ensures
            out_octets(*final(stream)) == out_octets(*old(stream)) + self.octets(),
    {
        write_u8(stream, self.client_request);
        TickIdUtil::to_stream(self.tick_id, stream);
        write_u16(stream, self.blob_stream_channel);
        assert(out_octets(*stream) =~= out_octets(*old(stream)) + self.octets());
    }

    pub fn from_stream(stream: &mut InOctetStream) -> (r: Result<DownloadGameStateResponse, StreamError>)
        ensures
            parsed_from(
                DownloadGameStateResponse::parse(in_remaining(*old(stream))),
                r,
                *old(stream),
                *final(stream),
            ),
    {
        let ghost start = in_remaining(*stream);
        let client_request = match read_u8_checked(stream) {
            Ok(v) => v,
            Err(e) => return Err(e),
        };
        let tick_id = match TickIdUtil::from_stream(stream) {
            Ok(v) => v,
            Err(e) => return Err(e),
        };
        proof {
            lemma_skip_skip(start, 1, 4);
        }
        let channel = match read_u16_checked(stream) {
            Ok(v) => v,
            Err(e) => return Err(e),
        };
        proof {
            lemma_skip_skip(start, 5, 2);
        }
        Ok(DownloadGameStateResponse { client_request, tick_id, blob_stream_channel: channel })
    }

    /// Reading the octets of an answer gives it back, whatever follows them.
    pub proof fn lemma_roundtrip(self, rest: Seq<u8>)
        ensures
            DownloadGameStateResponse::parse(self.octets() + rest) == Ok::<
                (DownloadGameStateResponse, nat),
                StreamError,
            >((self, 7)),
    {
        let d = self.octets() + rest;
        let t = be_u16(self.blob_stream_channel) + rest;
        assert(d =~= seq![self.client_request] + (be_u32(self.tick_id.0) + t));
        lemma_skip_prefix(seq![self.client_request], be_u32(self.tick_id.0) + t);
        lemma_parse_u32_be(self.tick_id.0, t);
        assert(d.skip(5) =~= t);
        lemma_parse_u16_be(self.blob_stream_channel, rest);
    }
}

/// A part of the game state, carried by a blob-stream command.
#[derive(Debug)]
pub struct GameStatePart {
    pub blob_stream_command: SenderToReceiverFrontCommands,
}

/// The party a client joined and the session secret.
#[derive(Debug, Clone, Copy, PartialEq, Eq, Structural)]
pub struct PartyAndSessionSecret {
    pub session_secret: SessionConnectionSecret,
    pub party_id: u8,
}

impl PartyAndSessionSecret {
    /// The secret (eight octets), then the party id.
    pub open spec fn octets(self) -> Seq<u8> {
        self.session_secret.octets() + seq![self.party_id]
    }

    pub open spec fn parse(data: Seq<u8>) -> Result<(PartyAndSessionSecret, nat), StreamError> {
        match SessionConnectionSecret::parse(data) {
            Err(e) => Err(e),
            Ok((s, n)) => match parse_u8(data.skip(8)) {
                Err(e) => Err(e),
                Ok((p, m)) => Ok((PartyAndSessionSecret { session_secret: s, party_id: p }, 9)),
            },
        }
    }

    pub fn to_stream(&self, stream: &mut OutOctetStream)
        ensures
            out_octets(*final(stream)) == out_octets(*old(stream)) + self.octets(),
    {
        self.session_secret.to_stream(stream);
        write_u8(stream, self.party_id);
        assert(out_octets(*stream) =~= out_octets(*old(stream)) + self.octets());
    }

    pub fn from_stream(stream: &mut InOctetStream) -> (r: Result<PartyAndSessionSecret, StreamError>)
        ensures
            parsed_from(PartyAndSessionSecret::parse(in_remaining(*old(stream))), r, *old(stream), *final(stream)),
    {
        let ghost start = in_remaining(*stream);
        let session_secret = match SessionConnectionSecret::from_stream(stream) {
            Ok(v) => v,
            Err(e) => return Err(e),
        };
        let party_id = match read_u8_checked(stream) {
            Ok(v) => v,
            Err(e) => return Err(e),
        };
        proof {
            lemma_skip_skip(start, 8, 1);
        }
        Ok(PartyAndSessionSecret { session_secret, party_id })
    }

    /// Reading the octets gives them back, whatever follows them.
    pub proof fn lemma_roundtrip(self, rest: Seq<u8>)
        ensures
            PartyAndSessionSecret::parse(self.octets() + rest) == Ok::<(PartyAndSessionSecret, nat), StreamError>(
                (self, 9),
            ),
    {
        let d = self.octets() + rest;
        assert(d =~= self.session_secret.octets() + (seq![self.party_id] + rest));
        self.session_secret.lemma_roundtrip(seq![self.party_id] + rest);
        lemma_skip_prefix(self.session_secret.octets(), seq![self.party_id] + rest);
    }
}

/// A local player of the client and the participant the host made of it.
#[derive(Debug, Clone, Copy, PartialEq, Eq, Structural)]
pub struct JoinGameParticipant {
    pub local_index: u8,
    pub participant_id: ParticipantId,
}

impl JoinGameParticipant {
    /// The local index, then the participant id.
    pub open spec fn octets(self) -> Seq<u8> {
        seq![self.local_index, self.participant_id.0]
    }

    pub open spec fn parse(data: Seq<u8>) -> Result<(JoinGameParticipant, nat), StreamError> {
        if data.len() >= 2 {
            Ok((JoinGameParticipant { local_index: data[0], participant_id: ParticipantId(data[1]) }, 2))
        } else {
            Err(StreamError::UnexpectedEnd)
        }
    }

    pub fn to_stream(&self, stream: &mut OutOctetStream)
        ensures
            out_octets(*final(stream)) == out_octets(*old(stream)) + self.octets(),
    {
        write_u8(stream, self.local_index);
        self.participant_id.to_stream(stream);
        assert(out_octets(*stream) =~= out_octets(*old(stream)) + self.octets());
    }

    pub fn from_stream(stream: &mut InOctetStream) -> (r: Result<JoinGameParticipant, StreamError>)
        ensures
            parsed_from(JoinGameParticipant::parse(in_remaining(*old(stream))), r, *old(stream), *final(stream)),
    {
        let ghost start = in_remaining(*stream);
        let local_index = match read_u8_checked(stream) {
            Ok(v) => v,
            Err(e) => return Err(e),
        };
        let participant_id = match ParticipantId::from_stream(stream) {
            Ok(v) => v,
            Err(e) => return Err(e),
        };
        proof {
            lemma_skip_skip(start, 1, 1);
        }
        Ok(JoinGameParticipant { local_index, participant_id })
    }
}

/// The octets of participants one after another.
pub open spec fn join_participants_octets(ps: Seq<JoinGameParticipant>) -> Seq<u8>
    decreases ps.len(),
{
    if ps.len() == 0 {
        Seq::<u8>::empty()
    } else {
        join_participants_octets(ps.drop_last()) + ps.last().octets()
    }
}

/// Reading `count` participants.
pub open spec fn parse_join_participants(data: Seq<u8>, count: nat) -> Result<(Seq<JoinGameParticipant>, nat), StreamError>
    decreases count,
{
    if count == 0 {
        Ok((Seq::empty(), 0))
    } else {
        match parse_join_participants(data, (count - 1) as nat) {
            Err(e) => Err(e),
            Ok((ps, n)) => match JoinGameParticipant::parse(data.skip(n as int)) {
                Err(e) => Err(e),
                Ok((p, m)) => Ok((ps.push(p), n + m)),
            },
        }
    }
}

proof fn lemma_parse_join_participants_error(data: Seq<u8>, k: nat, count: nat, n: nat)
    requires
        k < count,
        parse_join_participants(data, k) matches Ok((_, c)) && c == n,
        JoinGameParticipant::parse(data.skip(n as int)) is Err,
    ensures
        parse_join_participants(data, count) == Err::<(Seq<JoinGameParticipant>, nat), StreamError>(
            JoinGameParticipant::parse(data.skip(n as int))->Err_0,
        ),
    decreases count - k,
{
    if count > k + 1 {
        lemma_parse_join_participants_error(data, k, (count - 1) as nat, n);
    }
}

/// The participants the host made of a client's local players.
#[derive(Debug, Clone, PartialEq, Eq)]
pub struct JoinGameParticipants(pub Vec<JoinGameParticipant>);

impl JoinGameParticipants {
    /// The count (truncated to an octet), then each participant.
    pub open spec fn octets(&self) -> Seq<u8> {
        seq![self.0@.len() as u8] + join_participants_octets(self.0@)
    }

    pub open spec fn parse(data: Seq<u8>) -> Result<(Seq<JoinGameParticipant>, nat), StreamError> {
        match parse_u8(data) {
            Err(e) => Err(e),
            Ok((count, n)) => match parse_join_participants(data.skip(1), count as nat) {
                Err(e) => Err(e),
                Ok((ps, m)) => Ok((ps, 1 + m)),
            },
        }
    }

    pub fn to_stream(&self, stream: &mut OutOctetStream)
        ensures
            out_octets(*final(stream)) == out_octets(*old(stream)) + self.octets(),
    {
        let ghost start = out_octets(*stream);
        write_u8(stream, self.0.len() as u8);
        let mut i: usize = 0;
        while i < self.0.len()
            invariant
                i <= self.0@.len(),
                out_octets(*stream) == start + seq![self.0@.len() as u8] + join_participants_octets(
                    self.0@.take(i as int),
                ),
            decreases self.0@.len() - i,
        {
            self.0[i].to_stream(stream);
            assert(self.0@.take(i + 1).drop_last() =~= self.0@.take(i as int));
            i = i + 1;
        }
        assert(self.0@.take(self.0@.len() as int) =~= self.0@);
        assert(out_octets(*stream) =~= start + self.octets());
    }

    pub fn from_stream(stream: &mut InOctetStream) -> (r: Result<JoinGameParticipants, StreamError>)
        ensures
            match JoinGameParticipants::parse(in_remaining(*old(stream))) {
                Ok((ps, n)) => {
                    &&& r matches Ok(v) && v.0@ == ps
                    &&& n <= in_remaining(*old(stream)).len()
                    &&& in_remaining(*final(stream)) == in_remaining(*old(stream)).skip(n as int)
                },
                Err(e) => r == Err::<JoinGameParticipants, StreamError>(e),
            },
    {
        let ghost start = in_remaining(*stream);
        let count = match read_u8_checked(stream) {
            Ok(v) => v,
            Err(e) => return Err(e),
        };
        let ghost data = start.skip(1);
        let mut participants: Vec<JoinGameParticipant> = Vec::new();
        let ghost mut consumed: nat = 0;
        let mut k: u8 = 0;
        while k < count
            invariant
                k <= count,
                data == start.skip(1),
                start.len() >= 1,
                start == in_remaining(*old(stream)),
                parse_u8(start) == Ok::<(u8, nat), StreamError>((count, 1)),
                parse_join_participants(data, k as nat) == Ok::<(Seq<JoinGameParticipant>, nat), StreamError>(
                    (participants@, consumed),
                ),
                consumed <= data.len(),
                in_remaining(*stream) == data.skip(consumed as int),
            decreases count - k,
        {
            let p = match JoinGameParticipant::from_stream(stream) {
                Ok(v) => v,
                Err(e) => {
                    proof {
                        lemma_parse_join_participants_error(data, k as nat, count as nat, consumed);
                    }
                    return Err(e);
                },
            };
            proof {
                lemma_skip_skip(data, consumed as int, 2);
                consumed = consumed + 2;
            }
            participants.push(p);
            k = k + 1;
        }
        proof {
            lemma_skip_skip(start, 1, consumed as int);
        }
        Ok(JoinGameParticipants(participants))
    }
}

/// The host accepted a join: the request it answers, the party and secret, and the
/// participants.
#[derive(Debug, Clone, PartialEq, Eq)]
pub struct JoinGameAccepted {
    pub client_request_id: ClientRequestId,
    pub party_and_session_secret: PartyAndSessionSecret,
    pub participants: JoinGameParticipants,
}

impl JoinGameAccepted {
    /// The request id, the party and secret, the participants.
    pub open spec fn octets(&self) -> Seq<u8> {
        self.client_request_id.octets() + self.party_and_session_secret.octets() + self.participants.octets()
    }

    /// Reading an accepted join: the request id, the party and secret, the participants.
    pub open spec fn parse(data: Seq<u8>) -> Result<((ClientRequestId, PartyAndSessionSecret, Seq<JoinGameParticipant>), nat), StreamError> {
        match ClientRequestId::parse(data) {
            Err(e) => Err(e),
            Ok((id, n1)) => match PartyAndSessionSecret::parse(data.skip(1)) {
                Err(e) => Err(e),
                Ok((ps, n2)) => match JoinGameParticipants::parse(data.skip(10)) {
                    Err(e) => Err(e),
                    Ok((parts, n3)) => Ok(((id, ps, parts), 10 + n3)),
                },
            },
        }
    }

    pub fn to_stream(&self, stream: &mut OutOctetStream)
        ensures
            out_octets(*final(stream)) == out_octets(*old(stream)) + self.octets(),
    {
        self.client_request_id.serialize(stream);
        self.party_and_session_secret.to_stream(stream);
        self.participants.to_stream(stream);
        assert(out_octets(*stream) =~= out_octets(*old(stream)) + self.octets());
    }

    pub fn from_stream(stream: &mut InOctetStream) -> (r: Result<JoinGameAccepted, StreamError>)
        ensures
            match JoinGameAccepted::parse(in_remaining(*old(stream))) {
                Ok(((id, ps, parts), n)) => {
                    &&& r matches Ok(v) && v.client_request_id == id && v.party_and_session_secret == ps
                        && v.participants.0@ == parts
                    &&& n <= in_remaining(*old(stream)).len()
                    &&& in_remaining(*final(stream)) == in_remaining(*old(stream)).skip(n as int)
                },
                Err(e) => r == Err::<JoinGameAccepted, StreamError>(e),
            },
    {
        let ghost start = in_remaining(*stream);
        let client_request_id = match ClientRequestId::deserialize(stream) {
            Ok(v) => v,
            Err(e) => return Err(e),
        };
        let party_and_session_secret = match PartyAndSessionSecret::from_stream(stream) {
            Ok(v) => v,
            Err(e) => return Err(e),
        };
        proof {
            lemma_skip_skip(start, 1, 9);
        }
        let participants = match JoinGameParticipants::from_stream(stream) {
            Ok(v) => v,
            Err(e) => return Err(e),
        };
        proof {
            let n3 = JoinGameParticipants::parse(start.skip(10))->Ok_0.1;
            lemma_skip_skip(start, 10, n3 as int);
        }
        Ok(JoinGameAccepted { client_request_id, party_and_session_secret, participants })
    }
}

/// The header of a game step answer.
#[derive(Debug, Clone, Copy, PartialEq, Eq, Structural)]
pub struct GameStepResponseHeader {
    pub connection_buffer_count: u8,
    pub delta_buffer: i8,
    pub last_step_received_from_client: u32,
}

impl GameStepResponseHeader {
    /// The buffer count, the buffer delta (two's complement) and the last received tick.
    pub open spec fn octets(self) -> Seq<u8> {
        seq![self.connection_buffer_count, self.delta_buffer as u8] + be_u32(self.last_step_received_from_client)
    }

    pub open spec fn parse(data: Seq<u8>) -> Result<(GameStepResponseHeader, nat), StreamError> {
        if data.len() >= 6 {
            Ok(
                (
                    GameStepResponseHeader {
                        connection_buffer_count: data[0],
                        delta_buffer: data[1] as i8,
                        last_step_received_from_client: parse_u32(data.skip(2))->Ok_0.0,
                    },
                    6,
                ),
            )
        } else {
            Err(StreamError::UnexpectedEnd)
        }
    }

    pub fn to_stream(&self, stream: &mut OutOctetStream)
        ensures
            out_octets(*final(stream)) == out_octets(*old(stream)) + self.octets(),
    {
        write_u8(stream, self.connection_buffer_count);
        write_i8(stream, self.delta_buffer);
        write_u32(stream, self.last_step_received_from_client);
        assert(out_octets(*stream) =~= out_octets(*old(stream)) + self.octets());
    }

    pub fn from_stream(stream: &mut InOctetStream) -> (r: Result<GameStepResponseHeader, StreamError>)
        ensures
            parsed_from(GameStepResponseHeader::parse(in_remaining(*old(stream))), r, *old(stream), *final(stream)),
    {
        let ghost start = in_remaining(*stream);
        let count = match read_u8_checked(stream) {
            Ok(v) => v,
            Err(e) => return Err(e),
        };
        let delta = match read_i8(stream) {
            Some(v) => v,
            None => return Err(StreamError::UnexpectedEnd),
        };
        proof {
            lemma_skip_skip(start, 1, 1);
        }
        let last = match read_u32_checked(stream) {
            Ok(v) => v,
            Err(e) => return Err(e),
        };
        proof {
            lemma_skip_skip(start, 2, 4);
        }
        Ok(GameStepResponseHeader { connection_buffer_count: count, delta_buffer: delta, last_step_received_from_client: last })
    }
}

/// The steps of consecutive ticks starting at `tick_id`.
#[derive(Debug)]
pub struct AuthoritativeStepRange<StepT> {
    pub tick_id: TickId,
    pub authoritative_steps: Vec<AuthoritativeStep<StepT>>,
}

/// A range by view: its first tick and each tick's (participant, step) entries.
pub open spec fn range_view<StepT: View>(r: AuthoritativeStepRange<StepT>) -> (u32, Seq<Seq<(u8, StepT::V)>>) {
    (r.tick_id.0, views(r.authoritative_steps@))
}

/// The participants (keys) of each tick's entries.
pub open spec fn step_keys<V>(steps: Seq<Seq<(u8, V)>>) -> Seq<Seq<u8>> {
    steps.map_values(|s: Seq<(u8, V)>| s.map_values(|e: (u8, V)| e.0))
}

/// The steps of a range gathered per participant: for each participant in order of
/// first appearance, the index of its first tick in the range (as an octet) and its
/// steps in tick order.
pub open spec fn converted_range<V>(steps: Seq<Seq<(u8, V)>>) -> Seq<(u8, u8, Seq<V>)> {
    let f = flat_keys(step_keys(steps));
    first_keys(f).map_values(
        |k: u8|
            (
                k,
                positions_of(f, k)[0].0 as u8,
                positions_of(f, k).map_values(|p: (int, int)| steps[p.0][p.1].1),
            ),
    )
}

/// The tick before which range `i` must not start: the first range's own tick, then
/// the tick after the previous range (its tick plus its step count taken as 32 bits).
pub open spec fn range_floor<V>(ranges: Seq<(u32, Seq<Seq<(u8, V)>>)>, i: int) -> int {
    if i == 0 {
        ranges[0].0 as int
    } else {
        ranges[i - 1].0 + (ranges[i - 1].1.len() as u32)
    }
}

/// Range `i` starts at or after its floor.
pub open spec fn starts_in_order<V>(ranges: Seq<(u32, Seq<Seq<(u8, V)>>)>, i: int) -> bool {
    ranges[i].0 >= range_floor(ranges, i)
}

/// Range `i` ends at or before the largest tick.
pub open spec fn ends_in_range<V>(ranges: Seq<(u32, Seq<Seq<(u8, V)>>)>, i: int) -> bool {
    ranges[i].0 + (ranges[i].1.len() as u32) <= u32::MAX
}

/// Every range starts at or after its floor.
pub open spec fn ranges_ordered<V>(ranges: Seq<(u32, Seq<Seq<(u8, V)>>)>) -> bool {
    forall|i: int| 0 <= i < ranges.len() ==> #[trigger] starts_in_order(ranges, i)
}

/// No range that is reached (all ranges up to it in order) ends past the largest tick.
pub open spec fn ranges_fit<V>(ranges: Seq<(u32, Seq<Seq<(u8, V)>>)>) -> bool {
    forall|i: int|
        0 <= i < ranges.len() && (forall|j: int| 0 <= j <= i ==> #[trigger] starts_in_order(ranges, j))
            ==> #[trigger] ends_in_range(ranges, i)
}

/// How far range `i` starts after its floor, truncated to an octet.
pub open spec fn range_delta<V>(ranges: Seq<(u32, Seq<Seq<(u8, V)>>)>, i: int) -> u8 {
    (ranges[i].0 - range_floor(ranges, i)) as u8
}

/// The ranges as they are sent: each range's delta and its steps per participant.
pub open spec fn converted_ranges<V>(ranges: Seq<(u32, Seq<Seq<(u8, V)>>)>) -> Seq<(u8, Seq<(u8, u8, Seq<V>)>)> {
    Seq::new(ranges.len(), |i: int| (range_delta(ranges, i), converted_range(ranges[i].1)))
}

/// The octets of sent ranges one after another: each delta, then its participants.
pub open spec fn serialized_ranges_octets<T: Serialize>(ranges: Seq<(u8, Seq<(u8, u8, Seq<T::V>)>)>) -> Seq<u8>
    decreases ranges.len(),
{
    if ranges.len() == 0 {
        Seq::<u8>::empty()
    } else {
        serialized_ranges_octets::<T>(ranges.drop_last()) + seq![ranges.last().0] + all_participants_octets::<T>(
            ranges.last().1,
        )
    }
}

/// The octets of authoritative ranges: the first range's tick, the range count
/// (truncated to an octet), then the ranges as they are sent.
pub open spec fn authoritative_ranges_octets<T: Serialize>(ranges: Seq<(u32, Seq<Seq<(u8, T::V)>>)>) -> Seq<u8> {
    be_u32(ranges[0].0) + seq![ranges.len() as u8] + serialized_ranges_octets::<T>(converted_ranges(ranges))
}

/// Writes the steps of a range gathered per participant: the participant count, then
/// for each participant its id, its first tick's index, its step count and its steps.
fn write_grouped_steps<StepT: Serialize>(steps: &Vec<AuthoritativeStep<StepT>>, stream: &mut OutOctetStream)
    ensures
        out_octets(*final(stream)) == out_octets(*old(stream)) + all_participants_octets::<StepT>(
            converted_range(views(steps@)),
        ),
{
    let ghost v = views(steps@);
    let mut rows: Vec<Vec<u8>> = Vec::new();
    let mut i: usize = 0;
    while i < steps.len()
        invariant
            i <= steps@.len(),
            v == views(steps@),
            row_views(rows@) == step_keys(v).take(i as int),
        decreases steps@.len() - i,
    {
        let entries = &steps[i].authoritative_participants;
        let mut row: Vec<u8> = Vec::new();
        let mut j: usize = 0;
        while j < entries.len()
            invariant
                j <= entries@.len(),
                row@ == entries@.take(j as int).map_values(|e: (ParticipantId, StepT)| e.0.0),
            decreases entries@.len() - j,
        {
            row.push(entries[j].0.0);
            assert(entries@.take(j + 1).map_values(|e: (ParticipantId, StepT)| e.0.0) =~= entries@.take(
                j as int,
            ).map_values(|e: (ParticipantId, StepT)| e.0.0).push(entries@[j as int].0.0));
            j = j + 1;
        }
        let ghost before = rows@;
        rows.push(row);
        proof {
            assert(entries@.take(entries@.len() as int) =~= entries@);
            assert(v[i as int] == entry_views(entries@));
            assert(step_keys(v)[i as int] =~= row@);
            assert(row_views(rows@) =~= row_views(before).push(rows@[i as int]@));
            assert(step_keys(v).take(i + 1) =~= step_keys(v).take(i as int).push(step_keys(v)[i as int]));
        }
        i = i + 1;
    }
    assert(step_keys(v).take(steps@.len() as int) =~= step_keys(v));
    let groups = group_keys(&rows);
    let ghost keys = step_keys(v);
    let ghost f = flat_keys(keys);
    let ghost conv = converted_range(v);
    proof {
        lemma_flat_keys_valid(keys);
    }
    let ghost start = out_octets(*stream);
    write_u8(stream, groups.len() as u8);
    let mut g: usize = 0;
    while g < groups.len()
        invariant
            g <= groups@.len(),
            v == views(steps@),
            keys == step_keys(v),
            f == flat_keys(keys),
            conv == converted_range(v),
            conv.len() == groups@.len(),
            forall|e: int| 0 <= e < f.len() ==> entry_of(keys, #[trigger] f[e]),
            groups_of(groups@, f),
            out_octets(*stream) == start + seq![conv.len() as u8] + participant_vectors_octets::<StepT>(
                conv.take(g as int),
            ),
        decreases groups@.len() - g,
    {
        let group = &groups[g];
        let ghost k = group.key;
        let ghost ps = positions_of(f, k);
        proof {
            assert(groups@[g as int].key == first_keys(f)[g as int]);
            assert(first_keys(f).contains(k));
            lemma_positions_present(f, k);
            lemma_positions_valid(keys, f, k);
            assert(int_pairs(group.positions@) == ps);
            assert(int_pairs(group.positions@)[0] == ps[0]);
            assert(conv[g as int] == (k, ps[0].0 as u8, ps.map_values(|p: (int, int)| v[p.0][p.1].1)));
        }
        let ghost before = out_octets(*stream);
        write_u8(stream, group.key);
        write_u8(stream, group.positions[0].0 as u8);
        write_u8(stream, group.positions.len() as u8);
        let ghost items = ps.map_values(|p: (int, int)| v[p.0][p.1].1);
        let ghost head = out_octets(*stream);
        let mut q: usize = 0;
        assert(items_octets::<StepT>(items.take(0)) =~= Seq::<u8>::empty()) by {
            assert(items.take(0) =~= Seq::<StepT::V>::empty());
        }
        while q < group.positions.len()
            invariant
                q <= group.positions@.len(),
                int_pairs(group.positions@) == ps,
                v == views(steps@),
                keys == step_keys(v),
                items == ps.map_values(|p: (int, int)| v[p.0][p.1].1),
                forall|x: int| 0 <= x < ps.len() ==> entry_of(keys, ((#[trigger] ps[x]).0, ps[x].1, k)),
                out_octets(*stream) == head + items_octets::<StepT>(items.take(q as int)),
            decreases group.positions@.len() - q,
        {
            let pos = group.positions[q];
            proof {
                assert(int_pairs(group.positions@)[q as int] == ps[q as int]);
                assert(entry_of(keys, (ps[q as int].0, ps[q as int].1, k)));
                assert(keys[pos.0 as int] == v[pos.0 as int].map_values(|e: (u8, StepT::V)| e.0));
                assert(v[pos.0 as int] == entry_views(steps@[pos.0 as int].authoritative_participants@));
            }
            let step = &steps[pos.0].authoritative_participants[pos.1].1;
            step.serialize(stream);
            proof {
                assert(items[q as int] == step@);
                assert(items.take(q + 1).drop_last() =~= items.take(q as int));
            }
            q = q + 1;
        }
        proof {
            assert(items.take(items.len() as int) =~= items);
            assert(out_octets(*stream) =~= before + participant_vector_octets::<StepT>(conv[g as int]));
            assert(conv.take(g + 1).drop_last() =~= conv.take(g as int));
        }
        g = g + 1;
    }
    assert(conv.take(conv.len() as int) =~= conv);
}

/// Authoritative steps in ranges of consecutive ticks.
#[derive(Debug)]
pub struct AuthoritativeStepRanges<StepT> {
    pub ranges: Vec<AuthoritativeStepRange<StepT>>,
}

impl<StepT: View> AuthoritativeStepRanges<StepT> {
    /// The ranges by view.
    pub open spec fn ranges_view(&self) -> Seq<(u32, Seq<Seq<(u8, StepT::V)>>)> {
        self.ranges@.map_values(|r: AuthoritativeStepRange<StepT>| range_view(r))
    }
}

/// Each tick of each range lists each participant once: a tick's participants form a
/// map.
pub open spec fn participants_distinct<V>(ranges: Seq<(u32, Seq<Seq<(u8, V)>>)>) -> bool {
    forall|r: int, i: int|
        0 <= r < ranges.len() && 0 <= i < ranges[r].1.len() ==> (#[trigger] ranges[r].1[i]).map_values(
            |e: (u8, V)| e.0,
        ).no_duplicates()
}

impl<StepT: Serialize + Deserialize> AuthoritativeStepRanges<StepT> {
    /// Whether every range starts at or after the end of the previous one.
    fn starts_in_order_all(ranges: &Vec<AuthoritativeStepRange<StepT>>) -> (ok: bool)
        requires
            ranges@.len() > 0,
            ranges_fit(ranges@.map_values(|r: AuthoritativeStepRange<StepT>| range_view(r))),
        ensures
            ok == ranges_ordered(ranges@.map_values(|r: AuthoritativeStepRange<StepT>| range_view(r))),
    {
        let ghost rv = ranges@.map_values(|r: AuthoritativeStepRange<StepT>| range_view(r));
        let mut tick: u32 = ranges[0].tick_id.0;
        let mut i: usize = 0;
        while i < ranges.len()
            invariant
                0 < ranges@.len(),
                i <= ranges@.len(),
                rv == ranges@.map_values(|r: AuthoritativeStepRange<StepT>| range_view(r)),
                ranges_fit(rv),
                forall|j: int| 0 <= j < i ==> #[trigger] starts_in_order(rv, j),
                i < rv.len() ==> tick == range_floor(rv, i as int),
            decreases ranges@.len() - i,
        {
            let range = &ranges[i];
            assert(rv[i as int] == range_view(*range));
            if range.tick_id.0 < tick {
                assert(!starts_in_order(rv, i as int));
                return false;
            }
            proof {
                assert(starts_in_order(rv, i as int));
                assert(forall|j: int| 0 <= j <= i ==> #[trigger] starts_in_order(rv, j));
                assert(ends_in_range(rv, i as int));
                assert(rv[i as int].1.len() == range.authoritative_steps@.len());
            }
            tick = range.tick_id.0 + range.authoritative_steps.len() as u32;
            i = i + 1;
        }
        true
    }

    /// Writes the ranges gathered per participant, each range's start as a delta from
    /// the end of the previous one. A range that starts before the end of the previous
    /// one is refused with `InvalidData`, and then nothing is written. There must be a
    /// range, no range that is reached may end past the largest tick id, and each tick
    /// lists each participant once (its participants form a map).
    pub fn serialize(&self, stream: &mut OutOctetStream) -> (r: Result<(), StreamError>)
        requires
            self.ranges@.len() > 0,
            ranges_fit(self.ranges_view()),
            participants_distinct(self.ranges_view()),
        ensures
            ranges_ordered(self.ranges_view()) ==> r is Ok && out_octets(*final(stream)) == out_octets(
                *old(stream),
            ) + authoritative_ranges_octets::<StepT>(self.ranges_view()),
            !ranges_ordered(self.ranges_view()) ==> r == Err::<(), StreamError>(StreamError::InvalidData)
                && out_octets(*final(stream)) == out_octets(*old(stream)),
    {
        let ghost rv = self.ranges_view();
        let root_tick_id = self.ranges[0].tick_id;
        if !Self::starts_in_order_all(&self.ranges) {
            return Err(StreamError::InvalidData);
        }
        let ghost conv = converted_ranges(rv);
        let ghost start = out_octets(*stream);
        write_u32(stream, root_tick_id.0);
        write_u8(stream, self.ranges.len() as u8);
        let mut tick: u32 = root_tick_id.0;
        let mut i: usize = 0;
        while i < self.ranges.len()
            invariant
                0 < self.ranges@.len(),
                i <= self.ranges@.len(),
                rv == self.ranges_view(),
                ranges_ordered(rv),
                ranges_fit(rv),
                conv == converted_ranges(rv),
                root_tick_id.0 == rv[0].0,
                i < rv.len() ==> tick == range_floor(rv, i as int),
                out_octets(*stream) == start + be_u32(root_tick_id.0) + seq![rv.len() as u8]
                    + serialized_ranges_octets::<StepT>(conv.take(i as int)),
            decreases self.ranges@.len() - i,
        {
            let range = &self.ranges[i];
            proof {
                assert(rv[i as int] == range_view(*range));
                assert(starts_in_order(rv, i as int));
                assert(forall|j: int| 0 <= j <= i ==> #[trigger] starts_in_order(rv, j));
                assert(ends_in_range(rv, i as int));
                assert(rv[i as int].1.len() == range.authoritative_steps@.len());
            }
            let delta = ((range.tick_id.0 as i64) - (tick as i64)) as u8;
            let ghost before = out_octets(*stream);
            write_u8(stream, delta);
            write_grouped_steps(&range.authoritative_steps, stream);
            proof {
                assert(conv[i as int] == (range_delta(rv, i as int), converted_range(rv[i as int].1)));
                assert(conv.take(i + 1).drop_last() =~= conv.take(i as int));
                assert(out_octets(*stream) =~= start + be_u32(root_tick_id.0) + seq![rv.len() as u8]
                    + serialized_ranges_octets::<StepT>(conv.take(i + 1)));
            }
            tick = range.tick_id.0 + range.authoritative_steps.len() as u32;
            i = i + 1;
        }
        assert(conv.take(conv.len() as int) =~= conv);
        assert(out_octets(*stream) =~= start + authoritative_ranges_octets::<StepT>(rv));
        Ok(())
    }
}

/// A range as it is sent: its delta and its steps per participant.
#[derive(Debug)]
pub struct SerializeAuthoritativeStepRange<StepT> {
    pub delta_steps_from_previous: u8,
    pub authoritative_steps: SerializeAuthoritativeStepRangeForAllParticipants<StepT>,
}

impl<StepT: View> View for SerializeAuthoritativeStepRange<StepT> {
    type V = (u8, Seq<(u8, u8, Seq<StepT::V>)>);

    open spec fn view(&self) -> (u8, Seq<(u8, u8, Seq<StepT::V>)>) {
        (self.delta_steps_from_previous, self.authoritative_steps@)
    }
}

/// Reading a sent range: its delta, its participant count and each participant's
/// vector, gathered as into a map.
pub open spec fn parse_serialized_range<T: Deserialize>(data: Seq<u8>) -> Result<((u8, Seq<(u8, u8, Seq<T::V>)>), nat), StreamError> {
    match parse_u8(data) {
        Err(e) => Err(e),
        Ok((delta, _)) => match parse_u8(data.skip(1)) {
            Err(e) => Err(e),
            Ok((count, _)) => match parse_participant_vectors::<T>(data.skip(2), count as nat) {
                Err(e) => Err(e),
                Ok((entries, n)) => Ok(((delta, put_entries(entries)), 2 + n)),
            },
        },
    }
}

impl<StepT: Serialize + Deserialize> SerializeAuthoritativeStepRange<StepT> {
    pub fn to_stream(&self, stream: &mut OutOctetStream)
        ensures
            out_octets(*final(stream)) == out_octets(*old(stream)) + seq![self.delta_steps_from_previous]
                + all_participants_octets::<StepT>(self.authoritative_steps@),
    {
        write_u8(stream, self.delta_steps_from_previous);
        self.authoritative_steps.serialize_with_len(stream);
        assert(out_octets(*stream) =~= out_octets(*old(stream)) + seq![self.delta_steps_from_previous]
            + all_participants_octets::<StepT>(self.authoritative_steps@));
    }

    pub fn from_stream(stream: &mut InOctetStream) -> (r: Result<SerializeAuthoritativeStepRange<StepT>, StreamError>)
        ensures
            crate::stream::parsed_view_from(
                parse_serialized_range::<StepT>(in_remaining(*old(stream))),
                r,
                *old(stream),
                *final(stream),
            ),
    {
        let ghost start = in_remaining(*stream);
        let delta = match read_u8_checked(stream) {
            Ok(v) => v,
            Err(e) => return Err(e),
        };
        proof {
            if start.len() >= 2 {
                assert(start.skip(1).skip(1) =~= start.skip(2));
            }
        }
        let steps = match SerializeAuthoritativeStepRangeForAllParticipants::<StepT>::deserialize_with_len(stream) {
            Ok(v) => v,
            Err(e) => return Err(e),
        };
        proof {
            let n = parse_participant_vectors::<StepT>(start.skip(2), start[1] as nat)->Ok_0.1;
            assert(start.skip(1).skip(1) =~= start.skip(2));
            lemma_skip_skip(start, 1, 1 + n as int);
        }
        Ok(SerializeAuthoritativeStepRange { delta_steps_from_previous: delta, authoritative_steps: steps })
    }
}

/// Reading `count` sent ranges one after another.
pub open spec fn parse_serialized_ranges<T: Deserialize>(data: Seq<u8>, count: nat) -> Result<
    (Seq<(u8, Seq<(u8, u8, Seq<T::V>)>)>, nat),
    StreamError,
>
    decreases count,
{
    if count == 0 {
        Ok((Seq::empty(), 0))
    } else {
        match parse_serialized_ranges::<T>(data, (count - 1) as nat) {
            Err(e) => Err(e),
            Ok((rs, n)) => match parse_serialized_range::<T>(data.skip(n as int)) {
                Err(e) => Err(e),
                Ok((r, m)) => Ok((rs.push(r), n + m)),
            },
        }
    }
}

proof fn lemma_parse_ranges_error<T: Deserialize>(data: Seq<u8>, k: nat, count: nat, n: nat)
    requires
        k < count,
        parse_serialized_ranges::<T>(data, k) matches Ok((_, c)) && c == n,
        parse_serialized_range::<T>(data.skip(n as int)) is Err,
    ensures
        parse_serialized_ranges::<T>(data, count) == Err::<(Seq<(u8, Seq<(u8, u8, Seq<T::V>)>)>, nat), StreamError>(
            parse_serialized_range::<T>(data.skip(n as int))->Err_0,
        ),
    decreases count - k,
{
    if count > k + 1 {
        lemma_parse_ranges_error::<T>(data, k, (count - 1) as nat, n);
    }
}

/// Reading the ranges message: the root tick, the range count and the ranges.
pub open spec fn parse_ranges_message<T: Deserialize>(data: Seq<u8>) -> Result<
    ((u32, Seq<(u8, Seq<(u8, u8, Seq<T::V>)>)>), nat),
    StreamError,
> {
    match parse_u32(data) {
        Err(e) => Err(e),
        Ok((root, _)) => match parse_u8(data.skip(4)) {
            Err(e) => Err(e),
            Ok((count, _)) => match parse_serialized_ranges::<T>(data.skip(5), count as nat) {
                Err(e) => Err(e),
                Ok((ranges, n)) => Ok(((root, ranges), 5 + n)),
            },
        },
    }
}

/// The ranges as they are sent: the root tick and each range.
#[derive(Debug)]
pub struct SerializeAuthoritativeStepRanges<StepT> {
    pub root_tick_id: TickId,
    pub ranges: Vec<SerializeAuthoritativeStepRange<StepT>>,
}

impl<StepT: View> View for SerializeAuthoritativeStepRanges<StepT> {
    type V = (u32, Seq<(u8, Seq<(u8, u8, Seq<StepT::V>)>)>);

    open spec fn view(&self) -> (u32, Seq<(u8, Seq<(u8, u8, Seq<StepT::V>)>)>) {
        (self.root_tick_id.0, views(self.ranges@))
    }
}

impl<StepT: Serialize + Deserialize> SerializeAuthoritativeStepRanges<StepT> {
    /// The root tick, the range count (truncated to an octet), then each range.
    pub fn to_stream(&self, stream: &mut OutOctetStream)
        ensures
            out_octets(*final(stream)) == out_octets(*old(stream)) + be_u32(self.root_tick_id.0) + seq![
                self.ranges@.len() as u8,
            ] + serialized_ranges_octets::<StepT>(self@.1),
    {
        let ghost start = out_octets(*stream);
        let ghost rs = self@.1;
        TickIdUtil::to_stream(self.root_tick_id, stream);
        write_u8(stream, self.ranges.len() as u8);
        let mut i: usize = 0;
        while i < self.ranges.len()
            invariant
                i <= self.ranges@.len(),
                rs == views(self.ranges@),
                out_octets(*stream) == start + be_u32(self.root_tick_id.0) + seq![self.ranges@.len() as u8]
                    + serialized_ranges_octets::<StepT>(rs.take(i as int)),
            decreases self.ranges@.len() - i,
        {
            self.ranges[i].to_stream(stream);
            proof {
                assert(rs[i as int] == self.ranges@[i as int]@);
                assert(rs.take(i + 1).drop_last() =~= rs.take(i as int));
            }
            i = i + 1;
        }
        assert(rs.take(rs.len() as int) =~= rs);
    }

    pub fn from_stream(stream: &mut InOctetStream) -> (r: Result<SerializeAuthoritativeStepRanges<StepT>, StreamError>)
        ensures
            crate::stream::parsed_view_from(
                parse_ranges_message::<StepT>(in_remaining(*old(stream))),
                r,
                *old(stream),
                *final(stream),
            ),
    {
        let ghost start = in_remaining(*stream);
        let root_tick_id = match TickIdUtil::from_stream(stream) {
            Ok(v) => v,
            Err(e) => return Err(e),
        };
        let count = match read_u8_checked(stream) {
            Ok(v) => v,
            Err(e) => return Err(e),
        };
        proof {
            lemma_skip_skip(start, 4, 1);
        }
        let ghost data = start.skip(5);
        let mut ranges: Vec<SerializeAuthoritativeStepRange<StepT>> = Vec::new();
        assert(views(ranges@) =~= Seq::<(u8, Seq<(u8, u8, Seq<StepT::V>)>)>::empty());
        let ghost mut consumed: nat = 0;
        let mut k: u8 = 0;
        while k < count
            invariant
                k <= count,
                start.len() >= 5,
                data == start.skip(5),
                start == in_remaining(*old(stream)),
                parse_u32(start) == Ok::<(u32, nat), StreamError>((root_tick_id.0, 4)),
                parse_u8(start.skip(4)) == Ok::<(u8, nat), StreamError>((count, 1)),
                parse_serialized_ranges::<StepT>(data, k as nat) == Ok::<(Seq<(u8, Seq<(u8, u8, Seq<StepT::V>)>)>, nat), StreamError>(
                    (views(ranges@), consumed),
                ),
                consumed <= data.len(),
                in_remaining(*stream) == data.skip(consumed as int),
            decreases count - k,
        {
            let range = match SerializeAuthoritativeStepRange::<StepT>::from_stream(stream) {
                Ok(v) => v,
                Err(e) => {
                    proof {
                        lemma_parse_ranges_error::<StepT>(data, k as nat, count as nat, consumed);
                    }
                    return Err(e);
                },
            };
            proof {
                let m = parse_serialized_range::<StepT>(data.skip(consumed as int))->Ok_0.1;
                lemma_skip_skip(data, consumed as int, m as int);
                consumed = consumed + m;
            }
            let ghost before = ranges@;
            ranges.push(range);
            assert(views(ranges@) =~= views(before).push(range@));
            k = k + 1;
        }
        proof {
            lemma_skip_skip(start, 5, consumed as int);
        }
        Ok(SerializeAuthoritativeStepRanges { root_tick_id, ranges })
    }
}

/// Each participant's step at index `i` of a range, in participant order (participants
/// with fewer steps are left out).
pub open spec fn column<V>(entries: Seq<(u8, u8, Seq<V>)>, i: int) -> Seq<(u8, V)>
    decreases entries.len(),
{
    if entries.len() == 0 {
        Seq::empty()
    } else {
        let c = column(entries.drop_last(), i);
        if i < entries.last().2.len() {
            c.push((entries.last().0, entries.last().2[i]))
        } else {
            c
        }
    }
}

/// The largest step count of the participants.
pub open spec fn max_steps<V>(entries: Seq<(u8, u8, Seq<V>)>) -> nat
    decreases entries.len(),
{
    if entries.len() == 0 {
        0
    } else {
        let m = max_steps(entries.drop_last());
        if entries.last().2.len() > m {
            entries.last().2.len()
        } else {
            m
        }
    }
}

/// The steps of a received range: as many ticks as the longest participant vector,
/// each with every participant's step at that index. Each participant's steps are
/// placed from the range's first tick on; where they started within the range is not
/// used.
pub open spec fn expanded_range<V>(entries: Seq<(u8, u8, Seq<V>)>) -> Seq<Seq<(u8, V)>> {
    Seq::new(max_steps(entries), |i: int| column(entries, i))
}

/// The root tick plus the deltas of the first `count` received ranges.
pub open spec fn ticks_through<V>(root: int, ranges: Seq<(u8, Seq<(u8, u8, Seq<V>)>)>, count: nat) -> int
    decreases count,
{
    if count == 0 {
        root
    } else {
        ticks_through(root, ranges, (count - 1) as nat) + ranges[count - 1].0
    }
}

/// The received ranges: range `k` starts at the root tick plus the deltas of ranges 0
/// to `k`, each delta counted from the start of the previous range.
pub open spec fn expanded_ranges<V>(root: u32, ranges: Seq<(u8, Seq<(u8, u8, Seq<V>)>)>) -> Seq<(u32, Seq<Seq<(u8, V)>>)> {
    Seq::new(ranges.len(), |k: int| (ticks_through(root as int, ranges, (k + 1) as nat) as u32, expanded_range(ranges[k].1)))
}

/// Every gathered participant has at most the largest step count.
pub proof fn lemma_max_steps<V>(entries: Seq<(u8, u8, Seq<V>)>)
    ensures
        forall|p: int| 0 <= p < entries.len() ==> (#[trigger] entries[p]).2.len() <= max_steps(entries),
    decreases entries.len(),
{
    if entries.len() > 0 {
        lemma_max_steps(entries.drop_last());
        assert forall|p: int| 0 <= p < entries.len() implies (#[trigger] entries[p]).2.len() <= max_steps(entries) by {
            if p < entries.len() - 1 {
                assert(entries[p] == entries.drop_last()[p]);
            }
        }
    }
}

proof fn lemma_ticks_monotone<V>(root: int, ranges: Seq<(u8, Seq<(u8, u8, Seq<V>)>)>, a: nat, b: nat)
    requires
        a <= b,
    ensures
        ticks_through(root, ranges, a) <= ticks_through(root, ranges, b),
    decreases b,
{
    if a < b {
        lemma_ticks_monotone(root, ranges, a, (b - 1) as nat);
    }
}

/// Lays out each participant's steps by index: step `i` of every participant goes to
/// tick `i` of the range.
fn expand_participants<StepT: View>(
    entries: Vec<(ParticipantId, SerializeAuthoritativeStepVectorForOneParticipants<StepT>)>,
) -> (r: Vec<AuthoritativeStep<StepT>>)
    ensures
        views(r@) == expanded_range(vector_views(entries@)),
{
    let ghost all = vector_views(entries@);
    let mut max_len: usize = 0;
    let mut i: usize = 0;
    while i < entries.len()
        invariant
            i <= entries@.len(),
            all == vector_views(entries@),
            max_len == max_steps(all.take(i as int)),
        decreases entries@.len() - i,
    {
        proof {
            assert(all.take(i + 1).drop_last() =~= all.take(i as int));
            assert(all[i as int] == vector_view(entries@[i as int]));
            assert(all[i as int].2.len() == entries@[i as int].1.steps@.len());
        }
        if entries[i].1.steps.len() > max_len {
            max_len = entries[i].1.steps.len();
        }
        i = i + 1;
    }
    assert(all.take(entries@.len() as int) =~= all);
    let mut out: Vec<AuthoritativeStep<StepT>> = Vec::new();
    let mut i: usize = 0;
    while i < max_len
        invariant
            i <= max_len,
            out@.len() == i,
            forall|x: int| 0 <= x < i ==> (#[trigger] out@[x])@ == Seq::<(u8, StepT::V)>::empty(),
        decreases max_len - i,
    {
        out.push(AuthoritativeStep { authoritative_participants: Vec::new() });
        assert(out@[i as int]@ =~= Seq::<(u8, StepT::V)>::empty());
        i = i + 1;
    }
    let out_len = out.len();
    proof {
        lemma_max_steps(all);
        assert forall|x: int| 0 <= x < out@.len() implies (#[trigger] out@[x])@ == column(all.take(0), x) by {
            assert(all.take(0) =~= Seq::<(u8, u8, Seq<StepT::V>)>::empty());
        }
    }
    let mut rest = entries;
    let ghost mut p: int = 0;
    assert(vector_views(rest@) =~= all.skip(0));
    while rest.len() > 0
        invariant
            0 <= p <= all.len(),
            vector_views(rest@) == all.skip(p),
            out@.len() == max_steps(all),
            out@.len() == out_len,
            forall|q: int| 0 <= q < all.len() ==> (#[trigger] all[q]).2.len() <= max_steps(all),
            forall|x: int| 0 <= x < out@.len() ==> (#[trigger] out@[x])@ == column(all.take(p), x),
        decreases rest@.len(),
    {
        proof {
            assert(vector_views(rest@).len() == rest@.len());
            assert(all.skip(p).len() == all.len() - p);
            assert(all.skip(p)[0] == all[p]);
            lemma_vector_views_remove_first(rest@);
            assert(all.skip(p).skip(1) =~= all.skip(p + 1));
        }
        let entry = rest.remove(0);
        let pid = entry.0;
        let mut steps = entry.1.steps;
        let ghost here = all[p];
        let ghost before_out = out@;
        let mut idx: usize = 0;
        assert(views(steps@) =~= here.2.skip(0));
        while steps.len() > 0
            invariant
                0 <= p < all.len(),
                here == all[p],
                here.0 == pid.0,
                idx <= here.2.len(),
                views(steps@) == here.2.skip(idx as int),
                here.2.len() <= max_steps(all),
                out@.len() == before_out.len(),
                out@.len() == max_steps(all),
                out@.len() == out_len,
                forall|x: int| 0 <= x < before_out.len() ==> (#[trigger] before_out[x])@ == column(all.take(p), x),
                forall|x: int| 0 <= x < idx ==> (#[trigger] out@[x])@ == before_out[x]@.push((here.0, here.2[x])),
                forall|x: int| idx <= x < out@.len() ==> (#[trigger] out@[x])@ == before_out[x]@,
            decreases steps@.len(),
        {
            proof {
                assert(views(steps@).len() == steps@.len());
                assert(here.2.skip(idx as int).len() == here.2.len() - idx);
                assert(here.2.skip(idx as int)[0] == here.2[idx as int]);
                lemma_views_remove_first(steps@);
                assert(here.2.skip(idx as int).skip(1) =~= here.2.skip(idx + 1));
            }
            let step = steps.remove(0);
            let ghost old_out = out@;
            out[idx].authoritative_participants.push((pid, step));
            proof {
                assert(out@[idx as int]@ =~= old_out[idx as int]@.push((pid.0, step@)));
                assert forall|x: int| 0 <= x < out@.len() && x != idx implies #[trigger] out@[x] == old_out[x] by {}
            }
            idx = idx + 1;
        }
        proof {
            assert(views(steps@).len() == steps@.len());
            assert(here.2.skip(idx as int).len() == here.2.len() - idx);
            assert(idx == here.2.len());
            let t = all.take(p + 1);
            assert(t.drop_last() =~= all.take(p));
            assert(t.last() == here);
            assert forall|x: int| 0 <= x < out@.len() implies (#[trigger] out@[x])@ == column(all.take(p + 1), x) by {
                assert(column(t, x) == (if x < here.2.len() { column(all.take(p), x).push((here.0, here.2[x])) } else { column(all.take(p), x) }));
            }
            p = p + 1;
        }
    }
    proof {
        assert(vector_views(rest@).len() == rest@.len());
        assert(all.skip(p).len() == all.len() - p);
        assert(p == all.len());
        assert(all.take(p) =~= all);
        assert(views(out@) =~= expanded_range(all));
    }
    out
}

impl<StepT: Serialize + Deserialize> AuthoritativeStepRanges<StepT> {
    /// Reads the ranges as they are sent and lays each one out by tick: range `k`
    /// starts at the root tick plus the deltas of ranges 0 to `k`, and each
    /// participant's steps are placed from the range's first tick on. The ticks must
    /// stay within the largest tick id.
    pub fn deserialize(stream: &mut InOctetStream) -> (r: Result<AuthoritativeStepRanges<StepT>, StreamError>)
        requires
            match parse_ranges_message::<StepT>(in_remaining(*old(stream))) {
                Ok(((root, rs), _)) => ticks_through(root as int, rs, rs.len()) <= u32::MAX,
                Err(_) => true,
            },
        ensures
            match parse_ranges_message::<StepT>(in_remaining(*old(stream))) {
                Ok(((root, rs), n)) => {
                    &&& r matches Ok(v) && v.ranges_view() == expanded_ranges(root, rs)
                    &&& n <= in_remaining(*old(stream)).len()
                    &&& in_remaining(*final(stream)) == in_remaining(*old(stream)).skip(n as int)
                },
                Err(e) => r == Err::<AuthoritativeStepRanges<StepT>, StreamError>(e),
            },
    {
        let source = match SerializeAuthoritativeStepRanges::<StepT>::from_stream(stream) {
            Ok(v) => v,
            Err(e) => return Err(e),
        };
        let ghost root = source@.0;
        let ghost rs = source@.1;
        let SerializeAuthoritativeStepRanges { root_tick_id, ranges } = source;
        let mut rest = ranges;
        let mut tick: u32 = root_tick_id.0;
        let mut converted: Vec<AuthoritativeStepRange<StepT>> = Vec::new();
        let ghost mut k: nat = 0;
        assert(views(rest@) =~= rs.skip(0));
        while rest.len() > 0
            invariant
                k <= rs.len(),
                views(rest@) == rs.skip(k as int),
                tick == ticks_through(root as int, rs, k),
                ticks_through(root as int, rs, rs.len()) <= u32::MAX,
                converted@.map_values(|r: AuthoritativeStepRange<StepT>| range_view(r)) == expanded_ranges(root, rs).take(
                    k as int,
                ),
            decreases rest@.len(),
        {
            proof {
                assert(views(rest@).len() == rest@.len());
                assert(rs.skip(k as int).len() == rs.len() - k);
                assert(rs.skip(k as int)[0] == rs[k as int]);
                lemma_views_remove_first(rest@);
                assert(rs.skip(k as int).skip(1) =~= rs.skip(k + 1int));
                lemma_ticks_monotone(root as int, rs, k + 1, rs.len());
            }
            let range = rest.remove(0);
            let ghost rk = range@;
            let ghost parts = vector_views(range.authoritative_steps.authoritative_participants@);
            assert(rk == rs[k as int]);
            assert(rk.1 == parts);
            tick = tick + range.delta_steps_from_previous as u32;
            assert(tick == ticks_through(root as int, rs, k + 1));
            let steps = expand_participants(range.authoritative_steps.authoritative_participants);
            assert(views(steps@) == expanded_range(rs[k as int].1));
            let ghost before = converted@;
            converted.push(AuthoritativeStepRange { tick_id: TickId(tick), authoritative_steps: steps });
            proof {
                assert(before.map_values(|r: AuthoritativeStepRange<StepT>| range_view(r)).len() == before.len());
                assert(before.len() == k);
                assert(converted@[k as int].tick_id.0 == tick);
                assert(converted@[k as int].authoritative_steps@ == steps@);
                assert((ticks_through(root as int, rs, (k + 1) as nat) as u32) == tick);
                assert(expanded_ranges(root, rs)[k as int] == range_view(converted@[k as int]));
                k = k + 1;
                assert(converted@.map_values(|r: AuthoritativeStepRange<StepT>| range_view(r)) =~= expanded_ranges(
                    root,
                    rs,
                ).take(k as int));
            }
        }
        proof {
            assert(k == rs.len());
            assert(expanded_ranges(root, rs).take(k as int) =~= expanded_ranges(root, rs));
        }
        Ok(AuthoritativeStepRanges { ranges: converted })
    }
}

/// The host's answer to steps: a header and the authoritative steps.
#[derive(Debug)]
pub struct GameStepResponse<StepT> {
    pub response_header: GameStepResponseHeader,
    pub authoritative_steps: AuthoritativeStepRanges<StepT>,
}

/// The ticks of a received game step answer (header, then ranges) stay within the
/// largest tick id.
pub open spec fn game_step_ticks_fit<T: Deserialize>(data: Seq<u8>) -> bool {
    match parse_ranges_message::<T>(data.skip(6)) {
        Ok(((root, rs), _)) => data.len() < 6 || ticks_through(root as int, rs, rs.len()) <= u32::MAX,
        Err(_) => true,
    }
}

/// Whether the ticks of the sent ranges, counted from the root tick, stay within the
/// largest tick id.
fn ranges_ticks_fit<StepT: View>(source: &SerializeAuthoritativeStepRanges<StepT>) -> (b: bool)
    ensures
        b == (ticks_through(source@.0 as int, source@.1, source@.1.len()) <= u32::MAX),
{
    let ghost root = source@.0 as int;
    let ghost rs = source@.1;
    let mut tick: u64 = source.root_tick_id.0 as u64;
    let mut k: usize = 0;
    while k < source.ranges.len()
        invariant
            root == source@.0 as int,
            rs == source@.1,
            rs.len() == source.ranges@.len(),
            k <= source.ranges@.len(),
            tick == ticks_through(root, rs, k as nat),
            tick <= u32::MAX,
        decreases source.ranges@.len() - k,
    {
        assert(rs[k as int].0 == source.ranges@[k as int].delta_steps_from_previous);
        tick = tick + source.ranges[k].delta_steps_from_previous as u64;
        if tick > u32::MAX as u64 {
            proof {
                lemma_ticks_monotone(root, rs, (k + 1) as nat, rs.len());
            }
            return false;
        }
        k = k + 1;
    }
    true
}

/// Tests `game_step_ticks_fit` on the octets of a game step answer.
pub fn game_step_ticks_fit_in<StepT: Serialize + Deserialize>(data: &[u8]) -> (b: bool)
    ensures
        b == game_step_ticks_fit::<StepT>(data@),
{
    if data.len() < 6 {
        return true;
    }
    let rest = vstd::slice::slice_subrange(data, 6, data.len());
    assert(rest@ =~= data@.skip(6));
    let mut stream = new_in_stream(rest);
    match SerializeAuthoritativeStepRanges::<StepT>::from_stream(&mut stream) {
        Err(_) => true,
        Ok(source) => ranges_ticks_fit(&source),
    }
}

/// Reading a game step answer: the header, then the ranges laid out by tick.
pub open spec fn parse_game_step<T: Deserialize>(data: Seq<u8>) -> Result<
    ((GameStepResponseHeader, Seq<(u32, Seq<Seq<(u8, T::V)>>)>), nat),
    StreamError,
> {
    match GameStepResponseHeader::parse(data) {
        Err(e) => Err(e),
        Ok((header, _)) => match parse_ranges_message::<T>(data.skip(6)) {
            Err(e) => Err(e),
            Ok(((root, rs), n)) => Ok(((header, expanded_ranges(root, rs)), 6 + n)),
        },
    }
}

impl<StepT: Serialize + Deserialize> GameStepResponse<StepT> {
    /// The header, then the ranges. Ranges out of order are refused with `InvalidData`
    /// after the header is written.
    pub fn to_stream(&self, stream: &mut OutOctetStream) -> (r: Result<(), StreamError>)
        requires
            self.authoritative_steps.ranges@.len() > 0,
            ranges_fit(self.authoritative_steps.ranges_view()),
            participants_distinct(self.authoritative_steps.ranges_view()),
        ensures
            ranges_ordered(self.authoritative_steps.ranges_view()) ==> r is Ok && out_octets(*final(stream))
                == out_octets(*old(stream)) + self.response_header.octets() + authoritative_ranges_octets::<StepT>(
                self.authoritative_steps.ranges_view(),
            ),
            !ranges_ordered(self.authoritative_steps.ranges_view()) ==> r == Err::<(), StreamError>(
                StreamError::InvalidData,
            ) && out_octets(*final(stream)) == out_octets(*old(stream)) + self.response_header.octets(),
    {
        self.response_header.to_stream(stream);
        self.authoritative_steps.serialize(stream)
    }

    pub fn from_stream(stream: &mut InOctetStream) -> (r: Result<GameStepResponse<StepT>, StreamError>)
        requires
            game_step_ticks_fit::<StepT>(in_remaining(*old(stream))),
        ensures
            match parse_game_step::<StepT>(in_remaining(*old(stream))) {
                Ok(((header, ranges), n)) => {
                    &&& r matches Ok(g) && g.response_header == header && g.authoritative_steps.ranges_view() == ranges
                    &&& n <= in_remaining(*old(stream)).len()
                    &&& in_remaining(*final(stream)) == in_remaining(*old(stream)).skip(n as int)
                },
                Err(e) => r == Err::<GameStepResponse<StepT>, StreamError>(e),
            },
    {
        let ghost start = in_remaining(*stream);
        let response_header = match GameStepResponseHeader::from_stream(stream) {
            Ok(v) => v,
            Err(e) => return Err(e),
        };
        let authoritative_steps = match AuthoritativeStepRanges::<StepT>::deserialize(stream) {
            Ok(v) => v,
            Err(e) => return Err(e),
        };
        proof {
            let n = parse_ranges_message::<StepT>(start.skip(6))->Ok_0.1;
            lemma_skip_skip(start, 6, n as int);
        }
        Ok(GameStepResponse { response_header, authoritative_steps })
    }
}

/// A host command by value: the parts of each kind of command.
pub enum HostCommandView<V> {
    JoinGame(ClientRequestId, PartyAndSessionSecret, Seq<JoinGameParticipant>),
    GameStep(GameStepResponseHeader, Seq<(u32, Seq<Seq<(u8, V)>>)>),
    DownloadGameState(DownloadGameStateResponse),
    BlobStreamChannel(SenderCommandView),
}

/// The commands the host sends to a client.
#[derive(Debug)]
pub enum HostToClientCommands<StepT> {
    JoinGame(JoinGameAccepted),
    GameStep(GameStepResponse<StepT>),
    DownloadGameState(DownloadGameStateResponse),
    BlobStreamChannel(SenderToReceiverFrontCommands),
}

impl<StepT: View> View for HostToClientCommands<StepT> {
    type V = HostCommandView<StepT::V>;

    open spec fn view(&self) -> HostCommandView<StepT::V> {
        match self {
            HostToClientCommands::JoinGame(j) => HostCommandView::JoinGame(
                j.client_request_id,
                j.party_and_session_secret,
                j.participants.0@,
            ),
            HostToClientCommands::GameStep(g) => HostCommandView::GameStep(
                g.response_header,
                g.authoritative_steps.ranges_view(),
            ),
            HostToClientCommands::DownloadGameState(d) => HostCommandView::DownloadGameState(*d),
            HostToClientCommands::BlobStreamChannel(b) => HostCommandView::BlobStreamChannel(b@),
        }
    }
}

/// The command kind of a host command.
pub open spec fn host_command_kind<V>(c: HostCommandView<V>) -> HostToClientCommand {
    match c {
        HostCommandView::JoinGame(..) => HostToClientCommand::JoinGame,
        HostCommandView::GameStep(..) => HostToClientCommand::GameStep,
        HostCommandView::DownloadGameState(..) => HostToClientCommand::DownloadGameState,
        HostCommandView::BlobStreamChannel(..) => HostToClientCommand::BlobStreamChannel,
    }
}

/// The octets of a host command: its command octet, then the command.
pub open spec fn host_command_octets<T: Serialize>(c: HostCommandView<T::V>) -> Seq<u8> {
    seq![host_command_octet(host_command_kind(c))] + match c {
        HostCommandView::JoinGame(id, ps, parts) => id.octets() + ps.octets() + seq![parts.len() as u8]
            + join_participants_octets(parts),
        HostCommandView::GameStep(header, ranges) => header.octets() + authoritative_ranges_octets::<T>(ranges),
        HostCommandView::DownloadGameState(d) => d.octets(),
        HostCommandView::BlobStreamChannel(b) => sender_command_octets(b),
    }
}

/// Reading a host command: a command octet (0x08, 0x09, 0x0B or 0x0C; anything else is
/// refused), then the command.
pub open spec fn parse_host_command<T: Deserialize>(data: Seq<u8>) -> Result<(HostCommandView<T::V>, nat), StreamError> {
    match parse_u8(data) {
        Err(e) => Err(e),
        Ok((c, _)) => if c == 0x09 {
            match JoinGameAccepted::parse(data.skip(1)) {
                Err(e) => Err(e),
                Ok(((id, ps, parts), n)) => Ok((HostCommandView::JoinGame(id, ps, parts), 1 + n)),
            }
        } else if c == 0x08 {
            match parse_game_step::<T>(data.skip(1)) {
                Err(e) => Err(e),
                Ok(((header, ranges), n)) => Ok((HostCommandView::GameStep(header, ranges), 1 + n)),
            }
        } else if c == 0x0B {
            match DownloadGameStateResponse::parse(data.skip(1)) {
                Err(e) => Err(e),
                Ok((d, n)) => Ok((HostCommandView::DownloadGameState(d), 1 + n)),
            }
        } else if c == 0x0C {
            match parse_sender_command(data.skip(1)) {
                Err(e) => Err(e),
                Ok((b, n)) => Ok((HostCommandView::BlobStreamChannel(b), 1 + n)),
            }
        } else {
            Err(StreamError::UnknownValue(c))
        },
    }
}

impl<StepT: Serialize + Deserialize> HostToClientCommands<StepT> {
    pub fn to_octet(&self) -> (o: u8)
        ensures
            o == host_command_octet(host_command_kind(self@)),
    {
        match self {
            HostToClientCommands::JoinGame(_) => 0x09,
            HostToClientCommands::GameStep(_) => 0x08,
            HostToClientCommands::DownloadGameState(_) => 0x0B,
            HostToClientCommands::BlobStreamChannel(_) => 0x0C,
        }
    }

    /// A game step answer has ranges, none that is reached ends past the largest tick,
    /// and each tick lists each participant once.
    pub open spec fn ranges_writable(&self) -> bool {
        match self {
            HostToClientCommands::GameStep(g) => g.authoritative_steps.ranges@.len() > 0 && ranges_fit(
                g.authoritative_steps.ranges_view(),
            ) && participants_distinct(g.authoritative_steps.ranges_view()),
            _ => true,
        }
    }

    /// A game step answer whose ranges are out of order.
    pub open spec fn ranges_refused(&self) -> bool {
        match self {
            HostToClientCommands::GameStep(g) => !ranges_ordered(g.authoritative_steps.ranges_view()),
            _ => false,
        }
    }

    /// The command octet, then the command. A game step answer whose ranges are out of
    /// order is refused with `InvalidData` after its command octet and header are written.
    pub fn to_stream(&self, stream: &mut OutOctetStream) -> (r: Result<(), StreamError>)
        requires
            self.ranges_writable(),
        ensures
            !self.ranges_refused() ==> r is Ok && out_octets(*final(stream)) == out_octets(*old(stream))
                + host_command_octets::<StepT>(self@),
            self.ranges_refused() ==> r == Err::<(), StreamError>(StreamError::InvalidData) && (
            self matches HostToClientCommands::GameStep(g) && out_octets(*final(stream)) == out_octets(
                *old(stream),
            ) + seq![0x08u8] + g.response_header.octets()),
    {
        let ghost start = out_octets(*stream);
        write_u8(stream, self.to_octet());
        match self {
            HostToClientCommands::JoinGame(join_game_response) => {
                join_game_response.to_stream(stream);
                assert(out_octets(*stream) =~= start + host_command_octets::<StepT>(self@));
                Ok(())
            },
            HostToClientCommands::GameStep(game_step_response) => {
                let r = game_step_response.to_stream(stream);
                assert(r is Ok ==> out_octets(*stream) =~= start + host_command_octets::<StepT>(self@));
                assert(r is Err ==> out_octets(*stream) =~= start + seq![0x08u8] + game_step_response.response_header.octets());
                r
            },
            HostToClientCommands::DownloadGameState(download_game_state_response) => {
                download_game_state_response.to_stream(stream);
                assert(out_octets(*stream) =~= start + host_command_octets::<StepT>(self@));
                Ok(())
            },
            HostToClientCommands::BlobStreamChannel(blob_stream_command) => {
                blob_stream_command.serialize(stream);
                assert(out_octets(*stream) =~= start + host_command_octets::<StepT>(self@));
                Ok(())
            },
        }
    }

    /// Reads a command from `data`: a game step answer whose ticks would pass the
    /// largest tick id is refused with `InvalidData`; any other input is read as
    /// `from_stream` reads it.
    pub fn from_octets(data: &[u8]) -> (r: Result<HostToClientCommands<StepT>, StreamError>)
        ensures
            if data@.len() >= 1 && data@[0] == 0x08 && !game_step_ticks_fit::<StepT>(data@.skip(1)) {
                r == Err::<HostToClientCommands<StepT>, StreamError>(StreamError::InvalidData)
            } else {
                match parse_host_command::<StepT>(data@) {
                    Ok((v, _)) => r matches Ok(c) && c@ == v,
                    Err(e) => r == Err::<HostToClientCommands<StepT>, StreamError>(e),
                }
            },
    {
        if data.len() >= 1 && data[0] == 0x08 {
            let rest = vstd::slice::slice_subrange(data, 1, data.len());
            assert(rest@ =~= data@.skip(1));
            if !game_step_ticks_fit_in::<StepT>(rest) {
                return Err(StreamError::InvalidData);
            }
        }
        let mut stream = new_in_stream(data);
        Self::from_stream(&mut stream)
    }

    /// Reads a command octet and the command it names.
    pub fn from_stream(stream: &mut InOctetStream) -> (r: Result<HostToClientCommands<StepT>, StreamError>)
        requires
            in_remaining(*old(stream)).len() >= 1 && in_remaining(*old(stream))[0] == 0x08 ==> game_step_ticks_fit::<StepT>(
                in_remaining(*old(stream)).skip(1),
            ),
        ensures
            crate::stream::parsed_view_from(
                parse_host_command::<StepT>(in_remaining(*old(stream))),
                r,
                *old(stream),
                *final(stream),
            ),
    {
        let ghost start = in_remaining(*stream);
        let command_value = match read_u8_checked(stream) {
            Ok(v) => v,
            Err(e) => return Err(e),
        };
        let command = match HostToClientCommand::try_from_octet(command_value) {
            Ok(c) => c,
            Err(e) => return Err(e),
        };
        match command {
            HostToClientCommand::JoinGame => match JoinGameAccepted::from_stream(stream) {
                Ok(v) => {
                    proof {
                        let n = JoinGameAccepted::parse(start.skip(1))->Ok_0.1;
                        lemma_skip_skip(start, 1, n as int);
                    }
                    Ok(HostToClientCommands::JoinGame(v))
                },
                Err(e) => Err(e),
            },
            HostToClientCommand::GameStep => match GameStepResponse::<StepT>::from_stream(stream) {
                Ok(v) => {
                    proof {
                        let n = parse_game_step::<StepT>(start.skip(1))->Ok_0.1;
                        lemma_skip_skip(start, 1, n as int);
                    }
                    Ok(HostToClientCommands::GameStep(v))
                },
                Err(e) => Err(e),
            },
            HostToClientCommand::DownloadGameState => match DownloadGameStateResponse::from_stream(stream) {
                Ok(v) => {
                    proof {
                        lemma_skip_skip(start, 1, 7);
                    }
                    Ok(HostToClientCommands::DownloadGameState(v))
                },
                Err(e) => Err(e),
            },
            HostToClientCommand::BlobStreamChannel => match SenderToReceiverFrontCommands::deserialize(stream) {
                Ok(v) => {
                    proof {
                        let n = parse_sender_command(start.skip(1))->Ok_0.1;
                        lemma_skip_skip(start, 1, n as int);
                    }
                    Ok(HostToClientCommands::BlobStreamChannel(v))
                },
                Err(e) => Err(e),
            },
        }
    }
}

} // verus!
