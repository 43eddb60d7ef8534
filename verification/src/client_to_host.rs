//! Messages from a client to the host: joining a game, predicted steps with their
//! acknowledgement, game state download requests and blob-stream acknowledgements.
use vstd::prelude::*;
use flood_rs::in_stream::InOctetStream;
use flood_rs::out_stream::OutOctetStream;
use crate::stream::{
    Serialize, Deserialize, out_octets, in_remaining, be_u32, be_u64, parse_u8, parse_u32,
    parse_u64, parsed_from, write_u8, write_u32, write_u64, read_u8_checked, read_u32_checked,
    read_u64_checked, lemma_skip_skip, lemma_skip_prefix, lemma_parse_u32_be, lemma_parse_u64_be,
    StreamError,
};
use crate::protocol::{ClientRequestId, SessionConnectionSecret};
use crate::participant::ParticipantId;
use crate::codec::{views, items_octets, parse_items, write_items, read_items};
use crate::tick::TickId;
use crate::blob_commands::{ReceiverToSenderFrontCommands, receiver_command_octets, parse_receiver_command};
use crate::grouping::{
    KeyGroup, group_keys, flat_keys, first_keys, positions_of, int_pairs, row_views,
    lemma_flat_keys_valid, lemma_positions_valid, lemma_positions_present, entry_of,
};

verus! {

/// A client asks for the game state; the host answers with the same request id.
#[derive(Debug, Clone, Copy, PartialEq, Eq, Structural)]
pub struct DownloadGameStateRequest {
    pub request_id: u8,
}

impl DownloadGameStateRequest {
    /// The request id as one octet.
    pub open spec fn octets(self) -> Seq<u8> {
        seq![self.request_id]
    }

    pub open spec fn parse(data: Seq<u8>) -> Result<(DownloadGameStateRequest, nat), StreamError> {
        match parse_u8(data) {
            Ok((v, n)) => Ok((DownloadGameStateRequest { request_id: v }, n)),
            Err(e) => Err(e),
        }
    }

    pub fn to_stream(&self, stream: &mut OutOctetStream)
        ensures
            out_octets(*final(stream)) == out_octets(*old(stream)) + self.octets(),
    {
        write_u8(stream, self.request_id);
        assert(out_octets(*stream) =~= out_octets(*old(stream)) + self.octets());
    }

    pub fn from_stream(stream: &mut InOctetStream) -> (r: Result<DownloadGameStateRequest, StreamError>)
        ensures
            parsed_from(
                DownloadGameStateRequest::parse(in_remaining(*old(stream))),
                r,
                *old(stream),
                *final(stream),
            ),
    {
        match read_u8_checked(stream) {
            Ok(v) => Ok(DownloadGameStateRequest { request_id: v }),
            Err(e) => Err(e),
        }
    }
}

/// The kind of a join: without a secret, with the session secret, or as a participant
/// migrating from another host.
#[derive(Debug, Clone, Copy, PartialEq, Eq, Structural)]
pub enum JoinGameTypeValue {
    NoSecret,
    SessionSecret,
    HostMigrationParticipantId,
}

/// The octet of a join kind: 0x00, 0x01 or 0x02.
pub open spec fn join_kind_octet(v: JoinGameTypeValue) -> u8 {
    match v {
        JoinGameTypeValue::NoSecret => 0x00,
        JoinGameTypeValue::SessionSecret => 0x01,
        JoinGameTypeValue::HostMigrationParticipantId => 0x02,
    }
}

/// Reading a join kind from one octet; an octet above 0x02 is refused.
pub open spec fn parse_join_kind(data: Seq<u8>) -> Result<(JoinGameTypeValue, nat), StreamError> {
    match parse_u8(data) {
        Err(e) => Err(e),
        Ok((v, n)) => if v == 0x00 {
            Ok((JoinGameTypeValue::NoSecret, n))
        } else if v == 0x01 {
            Ok((JoinGameTypeValue::SessionSecret, n))
        } else if v == 0x02 {
            Ok((JoinGameTypeValue::HostMigrationParticipantId, n))
        } else {
            Err(StreamError::UnknownValue(v))
        },
    }
}

impl JoinGameTypeValue {
    pub fn to_octet(&self) -> (o: u8)
        ensures
            o == join_kind_octet(*self),
    {
        match self {
            JoinGameTypeValue::NoSecret => 0x00,
            JoinGameTypeValue::SessionSecret => 0x01,
            JoinGameTypeValue::HostMigrationParticipantId => 0x02,
        }
    }

    pub fn to_stream(self, stream: &mut OutOctetStream)
        ensures
            out_octets(*final(stream)) == out_octets(*old(stream)).push(join_kind_octet(self)),
    {
        write_u8(stream, self.to_octet());
    }

    pub fn from_stream(stream: &mut InOctetStream) -> (r: Result<JoinGameTypeValue, StreamError>)
        ensures
            parsed_from(parse_join_kind(in_remaining(*old(stream))), r, *old(stream), *final(stream)),
    {
        let raw = match read_u8_checked(stream) {
            Ok(v) => v,
            Err(e) => return Err(e),
        };
        JoinGameTypeValue::try_from_octet(raw)
    }

    /// The join kind of an octet; an octet above 0x02 is refused.
    pub fn try_from_octet(value: u8) -> (r: Result<JoinGameTypeValue, StreamError>)
        ensures
            value == 0x00 ==> r == Ok::<JoinGameTypeValue, StreamError>(JoinGameTypeValue::NoSecret),
            value == 0x01 ==> r == Ok::<JoinGameTypeValue, StreamError>(JoinGameTypeValue::SessionSecret),
            value == 0x02 ==> r == Ok::<JoinGameTypeValue, StreamError>(
                JoinGameTypeValue::HostMigrationParticipantId,
            ),
            value > 0x02 ==> r == Err::<JoinGameTypeValue, StreamError>(StreamError::UnknownValue(value)),
    {
        if value == 0x00 {
            Ok(JoinGameTypeValue::NoSecret)
        } else if value == 0x01 {
            Ok(JoinGameTypeValue::SessionSecret)
        } else if value == 0x02 {
            Ok(JoinGameTypeValue::HostMigrationParticipantId)
        } else {
            Err(StreamError::UnknownValue(value))
        }
    }
}

/// How a client joins: without a secret, with the session secret, or as the
/// participant it was on a previous host.
#[derive(Debug, Clone, Copy, PartialEq, Eq, Structural)]
pub enum JoinGameType {
    NoSecret,
    UseSessionSecret(SessionConnectionSecret),
    HostMigrationParticipantId(ParticipantId),
}

/// The kind of a join.
pub open spec fn join_kind(j: JoinGameType) -> JoinGameTypeValue {
    match j {
        JoinGameType::NoSecret => JoinGameTypeValue::NoSecret,
        JoinGameType::UseSessionSecret(_) => JoinGameTypeValue::SessionSecret,
        JoinGameType::HostMigrationParticipantId(_) => JoinGameTypeValue::HostMigrationParticipantId,
    }
}

impl JoinGameType {
    pub fn to_octet(&self) -> (o: u8)
        ensures
            o == join_kind_octet(join_kind(*self)),
    {
        match self {
            JoinGameType::NoSecret => 0x00,
            JoinGameType::UseSessionSecret(_) => 0x01,
            JoinGameType::HostMigrationParticipantId(_) => 0x02,
        }
    }

    /// The kind octet, then the secret or the participant id.
    pub open spec fn octets(self) -> Seq<u8> {
        seq![join_kind_octet(join_kind(self))] + match self {
            JoinGameType::NoSecret => Seq::<u8>::empty(),
            JoinGameType::UseSessionSecret(s) => s.octets(),
            JoinGameType::HostMigrationParticipantId(p) => p.octets(),
        }
    }

    /// Reading a join: the kind, then what that kind carries.
    pub open spec fn parse(data: Seq<u8>) -> Result<(JoinGameType, nat), StreamError> {
        match parse_join_kind(data) {
            Err(e) => Err(e),
            Ok((kind, n)) => match kind {
                JoinGameTypeValue::NoSecret => Ok((JoinGameType::NoSecret, n)),
                JoinGameTypeValue::SessionSecret => match SessionConnectionSecret::parse(data.skip(1)) {
                    Err(e) => Err(e),
                    Ok((s, m)) => Ok((JoinGameType::UseSessionSecret(s), n + m)),
                },
                JoinGameTypeValue::HostMigrationParticipantId => match ParticipantId::parse(data.skip(1)) {
                    Err(e) => Err(e),
                    Ok((p, m)) => Ok((JoinGameType::HostMigrationParticipantId(p), n + m)),
                },
            },
        }
    }

    pub fn to_stream(&self, stream: &mut OutOctetStream)
        ensures
            out_octets(*final(stream)) == out_octets(*old(stream)) + self.octets(),
    {
        write_u8(stream, self.to_octet());
        match self {
            JoinGameType::NoSecret => {},
            JoinGameType::UseSessionSecret(session_secret) => session_secret.to_stream(stream),
            JoinGameType::HostMigrationParticipantId(participant_id) => participant_id.to_stream(stream),
        }
        assert(out_octets(*stream) =~= out_octets(*old(stream)) + self.octets());
    }

    pub fn from_stream(stream: &mut InOctetStream) -> (r: Result<JoinGameType, StreamError>)
        ensures
            parsed_from(JoinGameType::parse(in_remaining(*old(stream))), r, *old(stream), *final(stream)),
    {
        let ghost start = in_remaining(*stream);
        let value = match JoinGameTypeValue::from_stream(stream) {
            Ok(v) => v,
            Err(e) => return Err(e),
        };
        match value {
            JoinGameTypeValue::NoSecret => Ok(JoinGameType::NoSecret),
            JoinGameTypeValue::SessionSecret => match SessionConnectionSecret::from_stream(stream) {
                Ok(s) => {
                    proof {
                        lemma_skip_skip(start, 1, 8);
                    }
                    Ok(JoinGameType::UseSessionSecret(s))
                },
                Err(e) => Err(e),
            },
            JoinGameTypeValue::HostMigrationParticipantId => match ParticipantId::from_stream(stream) {
                Ok(p) => {
                    proof {
                        lemma_skip_skip(start, 1, 1);
                    }
                    Ok(JoinGameType::HostMigrationParticipantId(p))
                },
                Err(e) => Err(e),
            },
        }
    }

    /// Reading the octets of a join gives it back, whatever follows them.
    pub proof fn lemma_roundtrip(self, rest: Seq<u8>)
        ensures
            JoinGameType::parse(self.octets() + rest) == Ok::<(JoinGameType, nat), StreamError>(
                (self, self.octets().len()),
            ),
    {
        let d = self.octets() + rest;
        match self {
            JoinGameType::NoSecret => {},
            JoinGameType::UseSessionSecret(s) => {
                assert(d.skip(1) =~= s.octets() + rest);
                s.lemma_roundtrip(rest);
            },
            JoinGameType::HostMigrationParticipantId(p) => {
                assert(d.skip(1) =~= p.octets() + rest);
            },
        }
    }
}

/// A local player of a client that asks to join.
#[derive(Debug, Clone, Copy, PartialEq, Eq, Structural)]
pub struct JoinPlayerRequest {
    pub local_index: u8,
}

impl JoinPlayerRequest {
    /// The local index as one octet.
    pub open spec fn octets(self) -> Seq<u8> {
        seq![self.local_index]
    }

    pub fn to_stream(&self, stream: &mut OutOctetStream)
        ensures
            out_octets(*final(stream)) == out_octets(*old(stream)) + self.octets(),
    {
        write_u8(stream, self.local_index);
        assert(out_octets(*stream) =~= out_octets(*old(stream)) + self.octets());
    }

    pub fn from_stream(stream: &mut InOctetStream) -> (r: Result<JoinPlayerRequest, StreamError>)
        ensures
            match parse_u8(in_remaining(*old(stream))) {
                Ok((v, n)) => r == Ok::<JoinPlayerRequest, StreamError>(JoinPlayerRequest { local_index: v })
                    && in_remaining(*final(stream)) == in_remaining(*old(stream)).skip(n as int),
                Err(e) => r == Err::<JoinPlayerRequest, StreamError>(e),
            },
    {
        match read_u8_checked(stream) {
            Ok(v) => Ok(JoinPlayerRequest { local_index: v }),
            Err(e) => Err(e),
        }
    }
}

/// The octets of the local players: one octet each.
pub open spec fn players_octets(players: Seq<JoinPlayerRequest>) -> Seq<u8>
    decreases players.len(),
{
    if players.len() == 0 {
        Seq::<u8>::empty()
    } else {
        players_octets(players.drop_last()) + players.last().octets()
    }
}

/// The local players that ask to join.
#[derive(Debug, Clone, PartialEq, Eq)]
pub struct JoinPlayerRequests {
    pub players: Vec<JoinPlayerRequest>,
}

impl JoinPlayerRequests {
    /// The player count as one octet (truncated), then each player.
    pub open spec fn octets(&self) -> Seq<u8> {
        seq![self.players@.len() as u8] + players_octets(self.players@)
    }

    pub fn to_stream(&self, stream: &mut OutOctetStream)
        ensures
            out_octets(*final(stream)) == out_octets(*old(stream)) + self.octets(),
    {
        let ghost start = out_octets(*stream);
        write_u8(stream, self.players.len() as u8);
        let mut i: usize = 0;
        while i < self.players.len()
            invariant
                i <= self.players@.len(),
                out_octets(*stream) == start + seq![self.players@.len() as u8] + players_octets(
                    self.players@.take(i as int),
                ),
            decreases self.players@.len() - i,
        {
            self.players[i].to_stream(stream);
            assert(self.players@.take(i + 1).drop_last() =~= self.players@.take(i as int));
            i = i + 1;
        }
        assert(self.players@.take(self.players@.len() as int) =~= self.players@);
        assert(out_octets(*stream) =~= start + self.octets());
    }

    /// Reads the player count and no player: the count octet is the only one consumed
    /// and the players come back empty.
    pub fn from_stream(stream: &mut InOctetStream) -> (r: Result<JoinPlayerRequests, StreamError>)
        ensures
            match parse_u8(in_remaining(*old(stream))) {
                Ok((count, n)) => (r matches Ok(p) && p.players@.len() == 0) && in_remaining(
                    *final(stream),
                ) == in_remaining(*old(stream)).skip(n as int),
                Err(e) => r == Err::<JoinPlayerRequests, StreamError>(e),
            },
    {
        let _count = match read_u8_checked(stream) {
            Ok(v) => v,
            Err(e) => return Err(e),
        };
        let players: Vec<JoinPlayerRequest> = Vec::new();
        Ok(JoinPlayerRequests { players })
    }
}

/// A client asks to join the game with some local players.
#[derive(Debug, Clone, PartialEq, Eq)]
pub struct JoinGameRequest {
    pub client_request_id: ClientRequestId,
    pub join_game_type: JoinGameType,
    pub player_requests: JoinPlayerRequests,
}

impl JoinGameRequest {
    /// The request id, the join, then the players.
    pub open spec fn octets(&self) -> Seq<u8> {
        self.client_request_id.octets() + self.join_game_type.octets() + self.player_requests.octets()
    }

    /// What reading a join request gives: the request id, the join and how many octets
    /// they and the player count span (the players themselves are not read).
    pub open spec fn parse_header(data: Seq<u8>) -> Result<(ClientRequestId, JoinGameType, nat), StreamError> {
        match ClientRequestId::parse(data) {
            Err(e) => Err(e),
            Ok((id, n1)) => match JoinGameType::parse(data.skip(n1 as int)) {
                Err(e) => Err(e),
                Ok((join, n2)) => match parse_u8(data.skip((n1 + n2) as int)) {
                    Err(e) => Err(e),
                    Ok((_, n3)) => Ok((id, join, n1 + n2 + n3)),
                },
            },
        }
    }

    pub fn to_stream(&self, stream: &mut OutOctetStream)
        ensures
            out_octets(*final(stream)) == out_octets(*old(stream)) + self.octets(),
    {
        self.client_request_id.serialize(stream);
        self.join_game_type.to_stream(stream);
        self.player_requests.to_stream(stream);
        assert(out_octets(*stream) =~= out_octets(*old(stream)) + self.octets());
    }

    pub fn from_stream(stream: &mut InOctetStream) -> (r: Result<JoinGameRequest, StreamError>)
        ensures
            match JoinGameRequest::parse_header(in_remaining(*old(stream))) {
                Ok((id, join, n)) => {
                    &&& r matches Ok(req) && req.client_request_id == id && req.join_game_type == join
                        && req.player_requests.players@.len() == 0
                    &&& n <= in_remaining(*old(stream)).len()
                    &&& in_remaining(*final(stream)) == in_remaining(*old(stream)).skip(n as int)
                },
                Err(e) => r == Err::<JoinGameRequest, StreamError>(e),
            },
    {
        let ghost start = in_remaining(*stream);
        let client_request_id = match ClientRequestId::deserialize(stream) {
            Ok(v) => v,
            Err(e) => return Err(e),
        };
        let ghost n1 = 1int;
        let ghost mid = in_remaining(*stream);
        let join_game_type = match JoinGameType::from_stream(stream) {
            Ok(v) => v,
            Err(e) => return Err(e),
        };
        let ghost n2 = JoinGameType::parse(mid)->Ok_0.1;
        proof {
            lemma_skip_skip(start, 1, n2 as int);
        }
        let player_requests = match JoinPlayerRequests::from_stream(stream) {
            Ok(v) => v,
            Err(e) => return Err(e),
        };
        proof {
            lemma_skip_skip(start, 1 + n2 as int, 1);
        }
        Ok(JoinGameRequest { client_request_id, join_game_type, player_requests })
    }
}

/// Which steps the client has received: the tick it waits for, and a mask of the ticks
/// after it that it lost.
#[derive(Debug, Clone, Copy, PartialEq, Eq, Structural)]
pub struct StepsAck {
    pub waiting_for_tick_id: u32,
    pub lost_steps_mask_after_last_received: u64,
}

impl StepsAck {
    /// The waited-for tick (four octets) and the mask (eight octets), big-endian.
    pub open spec fn octets(self) -> Seq<u8> {
        be_u32(self.waiting_for_tick_id) + be_u64(self.lost_steps_mask_after_last_received)
    }

    pub open spec fn parse(data: Seq<u8>) -> Result<(StepsAck, nat), StreamError> {
        if data.len() >= 12 {
            Ok(
                (
                    StepsAck {
                        waiting_for_tick_id: parse_u32(data)->Ok_0.0,
                        lost_steps_mask_after_last_received: parse_u64(data.skip(4))->Ok_0.0,
                    },
                    12,
                ),
            )
        } else {
            Err(StreamError::UnexpectedEnd)
        }
    }

    pub fn to_stream(&self, stream: &mut OutOctetStream)
        ensures
            out_octets(*final(stream)) == out_octets(*old(stream)) + self.octets(),
    {
        write_u32(stream, self.waiting_for_tick_id);
        write_u64(stream, self.lost_steps_mask_after_last_received);
        assert(out_octets(*stream) =~= out_octets(*old(stream)) + self.octets());
    }

    pub fn from_stream(stream: &mut InOctetStream) -> (r: Result<StepsAck, StreamError>)
        ensures
            parsed_from(StepsAck::parse(in_remaining(*old(stream))), r, *old(stream), *final(stream)),
    {
        let ghost start = in_remaining(*stream);
        let waiting_for_tick_id = match read_u32_checked(stream) {
            Ok(v) => v,
            Err(e) => return Err(e),
        };
        let lost = match read_u64_checked(stream) {
            Ok(v) => v,
            Err(e) => return Err(e),
        };
        proof {
            lemma_skip_skip(start, 4, 8);
        }
        Ok(StepsAck { waiting_for_tick_id, lost_steps_mask_after_last_received: lost })
    }

    /// Reading the octets of an acknowledgement gives it back, whatever follows them.
    pub proof fn lemma_roundtrip(self, rest: Seq<u8>)
        ensures
            StepsAck::parse(self.octets() + rest) == Ok::<(StepsAck, nat), StreamError>((self, 12)),
    {
        let d = self.octets() + rest;
        assert(d =~= be_u32(self.waiting_for_tick_id) + (be_u64(self.lost_steps_mask_after_last_received) + rest));
        lemma_parse_u32_be(self.waiting_for_tick_id, be_u64(self.lost_steps_mask_after_last_received) + rest);
        lemma_skip_prefix(be_u32(self.waiting_for_tick_id), be_u64(self.lost_steps_mask_after_last_received) + rest);
        lemma_parse_u64_be(self.lost_steps_mask_after_last_received, rest);
    }
}

/// The steps that the host settled for one tick, one per participant.
#[derive(Debug)]
pub struct AuthoritativeStep<StepT> {
    pub authoritative_participants: Vec<(ParticipantId, StepT)>,
}

/// The (participant, step) entries of keyed steps, by view.
pub open spec fn entry_views<StepT: View>(entries: Seq<(ParticipantId, StepT)>) -> Seq<(u8, StepT::V)> {
    entries.map_values(|e: (ParticipantId, StepT)| (e.0.0, e.1@))
}

impl<StepT: View> View for AuthoritativeStep<StepT> {
    type V = Seq<(u8, StepT::V)>;

    open spec fn view(&self) -> Seq<(u8, StepT::V)> {
        entry_views(self.authoritative_participants@)
    }
}

/// One participant's consecutive steps within a range, and where in the range they start.
#[derive(Debug)]
pub struct SerializeAuthoritativeStepVectorForOneParticipants<StepT> {
    pub delta_tick_id_from_range: u8,
    pub steps: Vec<StepT>,
}

/// Each participant's steps within a range.
#[derive(Debug)]
pub struct SerializeAuthoritativeStepRangeForAllParticipants<StepT> {
    pub authoritative_participants: Vec<(ParticipantId, SerializeAuthoritativeStepVectorForOneParticipants<StepT>)>,
}

/// A participant, where its steps start and the steps, by view.
pub open spec fn vector_view<StepT: View>(
    e: (ParticipantId, SerializeAuthoritativeStepVectorForOneParticipants<StepT>),
) -> (u8, u8, Seq<StepT::V>) {
    (e.0.0, e.1.delta_tick_id_from_range, views(e.1.steps@))
}

/// Participants' vectors by view.
pub open spec fn vector_views<StepT: View>(
    entries: Seq<(ParticipantId, SerializeAuthoritativeStepVectorForOneParticipants<StepT>)>,
) -> Seq<(u8, u8, Seq<StepT::V>)> {
    entries.map_values(
        |e: (ParticipantId, SerializeAuthoritativeStepVectorForOneParticipants<StepT>)| vector_view(e),
    )
}

/// Taking the first participant off leaves the views of the rest.
pub proof fn lemma_vector_views_remove_first<StepT: View>(
    s: Seq<(ParticipantId, SerializeAuthoritativeStepVectorForOneParticipants<StepT>)>,
)
    requires
        s.len() > 0,
    ensures
        vector_views(s.remove(0)) == vector_views(s).skip(1),
        vector_views(s)[0] == vector_view(s[0]),
{
    assert forall|i: int| 0 <= i < s.len() - 1 implies vector_views(s.remove(0))[i] == vector_views(s).skip(1)[i] by {
        assert(s.remove(0)[i] == s[i + 1]);
    }
    assert(vector_views(s.remove(0)) =~= vector_views(s).skip(1));
}

impl<StepT: View> View for SerializeAuthoritativeStepRangeForAllParticipants<StepT> {
    type V = Seq<(u8, u8, Seq<StepT::V>)>;

    open spec fn view(&self) -> Seq<(u8, u8, Seq<StepT::V>)> {
        vector_views(self.authoritative_participants@)
    }
}

/// The octets of one participant's vector: the participant, the start, the step count
/// (truncated to an octet) and the steps.
pub open spec fn participant_vector_octets<T: Serialize>(e: (u8, u8, Seq<T::V>)) -> Seq<u8> {
    seq![e.0, e.1, e.2.len() as u8] + items_octets::<T>(e.2)
}

/// The octets of participant vectors one after another.
pub open spec fn participant_vectors_octets<T: Serialize>(entries: Seq<(u8, u8, Seq<T::V>)>) -> Seq<u8>
    decreases entries.len(),
{
    if entries.len() == 0 {
        Seq::<u8>::empty()
    } else {
        participant_vectors_octets::<T>(entries.drop_last()) + participant_vector_octets::<T>(entries.last())
    }
}

/// The octets of all participants of a range: the count (truncated to an octet), then
/// each participant's vector.
pub open spec fn all_participants_octets<T: Serialize>(entries: Seq<(u8, u8, Seq<T::V>)>) -> Seq<u8> {
    seq![entries.len() as u8] + participant_vectors_octets::<T>(entries)
}

/// Reading one participant's vector.
pub open spec fn parse_participant_vector<T: Deserialize>(data: Seq<u8>) -> Result<
    ((u8, u8, Seq<T::V>), nat),
    StreamError,
> {
    if data.len() < 3 {
        Err(StreamError::UnexpectedEnd)
    } else {
        match parse_items::<T>(data.skip(3), data[2] as nat) {
            Err(e) => Err(e),
            Ok((items, n)) => Ok(((data[0], data[1], items), 3 + n)),
        }
    }
}

/// Reading `count` participant vectors one after another.
pub open spec fn parse_participant_vectors<T: Deserialize>(data: Seq<u8>, count: nat) -> Result<
    (Seq<(u8, u8, Seq<T::V>)>, nat),
    StreamError,
>
    decreases count,
{
    if count == 0 {
        Ok((Seq::empty(), 0))
    } else {
        match parse_participant_vectors::<T>(data, (count - 1) as nat) {
            Err(e) => Err(e),
            Ok((es, n)) => match parse_participant_vector::<T>(data.skip(n as int)) {
                Err(e) => Err(e),
                Ok((e, m)) => Ok((es.push(e), n + m)),
            },
        }
    }
}

/// Keyed entries with the entry `e` put in: it replaces the entry with the same key, or
/// comes last.
pub open spec fn put_entry<A, B>(entries: Seq<(u8, A, B)>, e: (u8, A, B)) -> Seq<(u8, A, B)> {
    if exists|i: int| 0 <= i < entries.len() && entries[i].0 == e.0 {
        entries.update(choose|i: int| 0 <= i < entries.len() && entries[i].0 == e.0, e)
    } else {
        entries.push(e)
    }
}

/// Keyed entries put in one after another, as into a map.
pub open spec fn put_entries<A, B>(entries: Seq<(u8, A, B)>) -> Seq<(u8, A, B)>
    decreases entries.len(),
{
    if entries.len() == 0 {
        Seq::empty()
    } else {
        put_entry(put_entries(entries.drop_last()), entries.last())
    }
}

/// No key occurs twice.
pub open spec fn keys_distinct<A, B>(entries: Seq<(u8, A, B)>) -> bool {
    forall|i: int, j: int|
        0 <= i < j < entries.len() ==> (#[trigger] entries[i]).0 != (#[trigger] entries[j]).0
}

proof fn lemma_put_entry_distinct<A, B>(entries: Seq<(u8, A, B)>, e: (u8, A, B))
    requires
        keys_distinct(entries),
    ensures
        keys_distinct(put_entry(entries, e)),
{
    if exists|i: int| 0 <= i < entries.len() && entries[i].0 == e.0 {
        let k = choose|i: int| 0 <= i < entries.len() && entries[i].0 == e.0;
        let r = entries.update(k, e);
        assert forall|i: int, j: int| 0 <= i < j < r.len() implies (#[trigger] r[i]).0 != (#[trigger] r[j]).0 by {
            if i != k && j != k {
                assert(r[i] == entries[i] && r[j] == entries[j]);
            } else if i == k {
                assert(r[j] == entries[j]);
                assert(entries[k].0 != entries[j].0);
            } else {
                assert(r[i] == entries[i]);
                assert(entries[i].0 != entries[k].0);
            }
        }
    } else {
        let r = entries.push(e);
        assert forall|i: int, j: int| 0 <= i < j < r.len() implies (#[trigger] r[i]).0 != (#[trigger] r[j]).0 by {
            if j == entries.len() {
                assert(r[i] == entries[i]);
            } else {
                assert(r[i] == entries[i] && r[j] == entries[j]);
            }
        }
    }
}

impl<StepT: Serialize + Deserialize> SerializeAuthoritativeStepRangeForAllParticipants<StepT> {
    /// The participant count, then each participant's vector.
    pub fn serialize_with_len(&self, stream: &mut OutOctetStream)
        ensures
            out_octets(*final(stream)) == out_octets(*old(stream)) + all_participants_octets::<StepT>(self@),
    {
        let ghost start = out_octets(*stream);
        write_u8(stream, self.authoritative_participants.len() as u8);
        let mut i: usize = 0;
        while i < self.authoritative_participants.len()
            invariant
                i <= self@.len(),
                self@.len() == self.authoritative_participants@.len(),
                out_octets(*stream) == start + seq![self@.len() as u8] + participant_vectors_octets::<StepT>(
                    self@.take(i as int),
                ),
            decreases self@.len() - i,
        {
            let entry = &self.authoritative_participants[i];
            let ghost before = out_octets(*stream);
            entry.0.to_stream(stream);
            write_u8(stream, entry.1.delta_tick_id_from_range);
            write_u8(stream, entry.1.steps.len() as u8);
            write_items(&entry.1.steps, stream);
            proof {
                assert(self@[i as int] == vector_view(self.authoritative_participants@[i as int]));
                assert(views(entry.1.steps@).len() == entry.1.steps@.len());
                assert(out_octets(*stream) =~= before + participant_vector_octets::<StepT>(self@[i as int]));
                assert(self@.take(i + 1).drop_last() =~= self@.take(i as int));
            }
            i = i + 1;
        }
        assert(self@.take(self@.len() as int) =~= self@);
    }

    /// Reads the participant count and each participant's vector; a participant that
    /// comes again replaces its earlier vector, as in a map.
    pub fn deserialize_with_len(stream: &mut InOctetStream) -> (r: Result<
        SerializeAuthoritativeStepRangeForAllParticipants<StepT>,
        StreamError,
    >)
        ensures
            match parse_u8(in_remaining(*old(stream))) {
                Err(e) => r == Err::<SerializeAuthoritativeStepRangeForAllParticipants<StepT>, StreamError>(e),
                Ok((count, n)) => match parse_participant_vectors::<StepT>(
                    in_remaining(*old(stream)).skip(1),
                    count as nat,
                ) {
                    Err(e) => r == Err::<SerializeAuthoritativeStepRangeForAllParticipants<StepT>, StreamError>(e),
                    Ok((entries, m)) => {
                        &&& r matches Ok(v) && v@ == put_entries(entries) && keys_distinct(v@)
                        &&& 1 + m <= in_remaining(*old(stream)).len()
                        &&& in_remaining(*final(stream)) == in_remaining(*old(stream)).skip(1 + m as int)
                    },
                },
            },
    {
        let ghost start = in_remaining(*stream);
        let count = match read_u8_checked(stream) {
            Ok(v) => v,
            Err(e) => return Err(e),
        };
        let ghost data = start.skip(1);
        let mut participants: Vec<(ParticipantId, SerializeAuthoritativeStepVectorForOneParticipants<StepT>)> =
            Vec::new();
        let ghost mut read: Seq<(u8, u8, Seq<StepT::V>)> = Seq::empty();
        let ghost mut consumed: nat = 0;
        let mut k: u8 = 0;
        while k < count
            invariant
                k <= count,
                data == start.skip(1),
                start.len() >= 1,
                start == in_remaining(*old(stream)),
                parse_u8(start) == Ok::<(u8, nat), StreamError>((count, 1)),
                parse_participant_vectors::<StepT>(data, k as nat) == Ok::<(Seq<(u8, u8, Seq<StepT::V>)>, nat), StreamError>(
                    (read, consumed),
                ),
                consumed <= data.len(),
                in_remaining(*stream) == data.skip(consumed as int),
                vector_views(participants@) == put_entries(read),
                keys_distinct(put_entries(read)),
            decreases count - k,
        {
            let ghost here = in_remaining(*stream);
            let participant_id = match ParticipantId::from_stream(stream) {
                Ok(v) => v,
                Err(e) => {
                    proof {
                        assert(parse_participant_vector::<StepT>(here) == Err::<((u8, u8, Seq<StepT::V>), nat), StreamError>(e));
                        lemma_parse_vectors_error::<StepT>(data, k as nat, count as nat, consumed);
                    }
                    return Err(e);
                },
            };
            let ghost here1 = in_remaining(*stream);
            let delta = match read_u8_checked(stream) {
                Ok(v) => v,
                Err(e) => {
                    proof {
                        assert(here1.len() == here.len() - 1);
                        assert(parse_participant_vector::<StepT>(here) == Err::<((u8, u8, Seq<StepT::V>), nat), StreamError>(e));
                        lemma_parse_vectors_error::<StepT>(data, k as nat, count as nat, consumed);
                    }
                    return Err(e);
                },
            };
            proof { lemma_skip_skip(here, 1, 1); }
            let ghost here2 = in_remaining(*stream);
            let step_count = match read_u8_checked(stream) {
                Ok(v) => v,
                Err(e) => {
                    proof {
                        assert(here2.len() == here.len() - 2);
                        assert(parse_participant_vector::<StepT>(here) == Err::<((u8, u8, Seq<StepT::V>), nat), StreamError>(e));
                        lemma_parse_vectors_error::<StepT>(data, k as nat, count as nat, consumed);
                    }
                    return Err(e);
                },
            };
            proof {
                lemma_skip_skip(here, 2, 1);
                assert(here.skip(3) == in_remaining(*stream));
            }
            let steps = match read_items::<StepT>(step_count as usize, stream) {
                Ok(v) => v,
                Err(e) => {
                    proof { lemma_parse_vectors_error::<StepT>(data, k as nat, count as nat, consumed); }
                    return Err(e);
                },
            };
            let ghost m = parse_participant_vector::<StepT>(here)->Ok_0.1;
            let ghost item = (participant_id.0, delta, views(steps@));
            proof {
                assert(parse_participant_vector::<StepT>(here) == Ok::<((u8, u8, Seq<StepT::V>), nat), StreamError>((item, m)));
                lemma_skip_skip(here, 3, (m - 3) as int);
                lemma_skip_skip(data, consumed as int, m as int);
            }
            let vector = SerializeAuthoritativeStepVectorForOneParticipants { delta_tick_id_from_range: delta, steps };
            let ghost before = participants@;
            let mut at: usize = 0;
            let mut found = false;
            while at < participants.len() && !found
                invariant
                    at <= participants@.len(),
                    found ==> at < participants@.len() && participants@[at as int].0 == participant_id,
                    forall|h: int| 0 <= h < at ==> (#[trigger] participants@[h]).0 != participant_id,
                decreases participants@.len() - at + (if found { 0int } else { 1int }),
            {
                if participants[at].0.0 == participant_id.0 {
                    found = true;
                } else {
                    at = at + 1;
                }
            }
            let ghost old_read = read;
            proof {
                read = read.push(item);
                consumed = consumed + m;
                assert(read.drop_last() =~= old_read);
                let pe = put_entries(old_read);
                assert(pe.len() == before.len());
                assert forall|h: int| 0 <= h < before.len() implies #[trigger] pe[h] == vector_view(before[h]) by {
                    assert(vector_views(before)[h] == vector_view(before[h]));
                }
                lemma_put_entry_distinct(pe, item);
            }
            if found {
                proof {
                    let pe = put_entries(old_read);
                    assert(pe[at as int].0 == item.0);
                    let c = choose|i: int| 0 <= i < pe.len() && pe[i].0 == item.0;
                    assert(c == at as int);
                }
                participants.set(at, (participant_id, vector));
            } else {
                proof {
                    let pe = put_entries(old_read);
                    assert(!exists|i: int| 0 <= i < pe.len() && pe[i].0 == item.0) by {
                        if exists|i: int| 0 <= i < pe.len() && pe[i].0 == item.0 {
                            let i = choose|i: int| 0 <= i < pe.len() && pe[i].0 == item.0;
                            assert(before[i].0 == participant_id);
                        }
                    }
                }
                participants.push((participant_id, vector));
            }
            proof {
                assert(vector_views(participants@) =~= put_entries(read));
            }
            k = k + 1;
        }
        proof {
            lemma_skip_skip(start, 1, consumed as int);
        }
        Ok(SerializeAuthoritativeStepRangeForAllParticipants { authoritative_participants: participants })
    }
}

/// Once reading `k` participant vectors succeeded and the next one fails, reading more
/// fails with the same error.
proof fn lemma_parse_vectors_error<T: Deserialize>(data: Seq<u8>, k: nat, count: nat, n: nat)
    requires
        k < count,
        parse_participant_vectors::<T>(data, k) matches Ok((_, c)) && c == n,
        parse_participant_vector::<T>(data.skip(n as int)) is Err,
    ensures
        parse_participant_vectors::<T>(data, count) == Err::<(Seq<(u8, u8, Seq<T::V>)>, nat), StreamError>(
            parse_participant_vector::<T>(data.skip(n as int))->Err_0,
        ),
    decreases count - k,
{
    if count > k + 1 {
        lemma_parse_vectors_error::<T>(data, k, (count - 1) as nat, n);
    }
}

/// The predicted steps of a client's local players for one tick, by local index.
#[derive(Debug)]
pub struct PredictedStep<StepT> {
    pub predicted_players: Vec<(u8, StepT)>,
}

/// The keys (local indices) of each predicted step.
pub open spec fn predicted_keys<StepT>(steps: Seq<PredictedStep<StepT>>) -> Seq<Seq<u8>> {
    steps.map_values(|s: PredictedStep<StepT>| s.predicted_players@.map_values(|e: (u8, StepT)| e.0))
}

/// Predicted steps for consecutive ticks starting at `first_tick`.
#[derive(Debug)]
pub struct CombinedPredictedSteps<StepT> {
    pub first_tick: TickId,
    pub steps: Vec<PredictedStep<StepT>>,
}

/// One local player's predicted steps for consecutive ticks from `first_tick_id`.
#[derive(Debug)]
pub struct SerializePredictedStepsVectorForOnePlayer<StepT> {
    pub first_tick_id: TickId,
    pub predicted_steps: Vec<StepT>,
}

/// The predicted steps of each local player.
#[derive(Debug)]
pub struct SerializePredictedStepsForAllPlayers<StepT> {
    pub predicted_players: Vec<(u8, SerializePredictedStepsVectorForOnePlayer<StepT>)>,
}

impl<StepT: Clone> CombinedPredictedSteps<StepT> {
    /// Each local player's predicted steps, gathered from the ticks in order: one entry
    /// per local index in order of first appearance, starting at the tick of its first
    /// step, with copies of its steps.
    pub fn player_vectors(&self) -> (r: Vec<(u8, SerializePredictedStepsVectorForOnePlayer<StepT>)>)
        requires
            self.first_tick.0 + self.steps@.len() <= u32::MAX,
        ensures
            ({
                let f = flat_keys(predicted_keys(self.steps@));
                &&& r@.len() == first_keys(f).len()
                &&& forall|g: int| 0 <= g < r@.len() ==> {
                    let k = first_keys(f)[g];
                    let ps = positions_of(f, k);
                    &&& (#[trigger] r@[g]).0 == k
                    &&& ps.len() > 0
                    &&& r@[g].1.first_tick_id.0 == self.first_tick.0 + ps[0].0
                    &&& r@[g].1.predicted_steps@.len() == ps.len()
                    &&& forall|q: int| 0 <= q < ps.len() ==> cloned(
                        self.steps@[ps[q].0].predicted_players@[ps[q].1].1,
                        #[trigger] r@[g].1.predicted_steps@[q],
                    )
                }
            }),
    {
        let mut rows: Vec<Vec<u8>> = Vec::new();
        let mut i: usize = 0;
        while i < self.steps.len()
            invariant
                i <= self.steps@.len(),
                row_views(rows@) == predicted_keys(self.steps@).take(i as int),
            decreases self.steps@.len() - i,
        {
            let players = &self.steps[i].predicted_players;
            let mut row: Vec<u8> = Vec::new();
            let mut j: usize = 0;
            while j < players.len()
                invariant
                    j <= players@.len(),
                    row@ == players@.take(j as int).map_values(|e: (u8, StepT)| e.0),
                decreases players@.len() - j,
            {
                row.push(players[j].0);
                assert(players@.take(j + 1).map_values(|e: (u8, StepT)| e.0) =~= players@.take(j as int).map_values(|e: (u8, StepT)| e.0).push(players@[j as int].0));
                j = j + 1;
            }
            assert(players@.take(players@.len() as int) =~= players@);
            let ghost before = rows@;
            rows.push(row);
            proof {
                assert(predicted_keys(self.steps@)[i as int] == players@.map_values(|e: (u8, StepT)| e.0));
                assert(row_views(rows@) =~= row_views(before).push(rows@[i as int]@));
                assert(predicted_keys(self.steps@).take(i + 1) =~= predicted_keys(self.steps@).take(i as int).push(predicted_keys(self.steps@)[i as int]));
            }
            i = i + 1;
        }
        assert(predicted_keys(self.steps@).take(self.steps@.len() as int) =~= predicted_keys(self.steps@));
        let groups = group_keys(&rows);
        let ghost keys = predicted_keys(self.steps@);
        let ghost f = flat_keys(keys);
        proof {
            lemma_flat_keys_valid(keys);
        }
        let mut out: Vec<(u8, SerializePredictedStepsVectorForOnePlayer<StepT>)> = Vec::new();
        let mut g: usize = 0;
        while g < groups.len()
            invariant
                g <= groups@.len(),
                f == flat_keys(keys),
                keys == predicted_keys(self.steps@),
                self.first_tick.0 + self.steps@.len() <= u32::MAX,
                forall|e: int| 0 <= e < f.len() ==> entry_of(keys, #[trigger] f[e]),
                crate::grouping::groups_of(groups@, f),
                out@.len() == g,
                forall|h: int| 0 <= h < g ==> {
                    let k = first_keys(f)[h];
                    let ps = positions_of(f, k);
                    &&& (#[trigger] out@[h]).0 == k
                    &&& ps.len() > 0
                    &&& out@[h].1.first_tick_id.0 == self.first_tick.0 + ps[0].0
                    &&& out@[h].1.predicted_steps@.len() == ps.len()
                    &&& forall|q: int| 0 <= q < ps.len() ==> cloned(
                        self.steps@[ps[q].0].predicted_players@[ps[q].1].1,
                        #[trigger] out@[h].1.predicted_steps@[q],
                    )
                },
            decreases groups@.len() - g,
        {
            let group = &groups[g];
            let ghost k = group.key;
            let ghost ps = positions_of(f, k);
            proof {
                assert(groups@[g as int].key == first_keys(f)[g as int]);
                assert(first_keys(f).contains(k));
                lemma_positions_present(f, k);
                lemma_positions_valid(keys, f, k);
                assert(int_pairs(group.positions@) == ps);
                assert(int_pairs(group.positions@)[0] == ps[0]);
            }
            let first_row = group.positions[0].0;
            proof {
                assert(entry_of(keys, (ps[0].0, ps[0].1, k)));
            }
            let first_tick_id = TickId(self.first_tick.0 + first_row as u32);
            let mut predicted_steps: Vec<StepT> = Vec::new();
            let mut q: usize = 0;
            while q < group.positions.len()
                invariant
                    q <= group.positions@.len(),
                    int_pairs(group.positions@) == ps,
                    keys == predicted_keys(self.steps@),
                    forall|x: int| 0 <= x < ps.len() ==> entry_of(keys, ((#[trigger] ps[x]).0, ps[x].1, k)),
                    predicted_steps@.len() == q,
                    forall|x: int| 0 <= x < q ==> cloned(
                        self.steps@[ps[x].0].predicted_players@[ps[x].1].1,
                        #[trigger] predicted_steps@[x],
                    ),
                decreases group.positions@.len() - q,
            {
                let pos = group.positions[q];
                proof {
                    assert(int_pairs(group.positions@)[q as int] == ps[q as int]);
                    assert(entry_of(keys, (ps[q as int].0, ps[q as int].1, k)));
                    assert(keys[pos.0 as int] == self.steps@[pos.0 as int].predicted_players@.map_values(|e: (u8, StepT)| e.0));
                }
                let copy = self.steps[pos.0].predicted_players[pos.1].1.clone();
                predicted_steps.push(copy);
                q = q + 1;
            }
            out.push((group.key, SerializePredictedStepsVectorForOnePlayer { first_tick_id, predicted_steps }));
            g = g + 1;
        }
        out
    }

    /// Gathers each local player's steps and writes nothing: the octets of predicted
    /// steps are not sent (the tick count must not run past the largest tick id).
    pub fn serialize(&self, stream: &mut OutOctetStream)
        requires
            self.first_tick.0 + self.steps@.len() <= u32::MAX,
        ensures
            out_octets(*final(stream)) == out_octets(*old(stream)),
    {
        let _gathered = self.player_vectors();
    }

    /// Reads nothing and gives no steps from tick 0: predicted steps are not sent.
    pub fn deserialize(stream: &mut InOctetStream) -> (r: Result<CombinedPredictedSteps<StepT>, StreamError>)
        ensures
            r matches Ok(c) && c.first_tick == TickId(0) && c.steps@.len() == 0,
            in_remaining(*final(stream)) == in_remaining(*old(stream)),
    {
        Ok(CombinedPredictedSteps { first_tick: TickId(0), steps: Vec::new() })
    }
}

/// A player's vector by view: the first tick and the steps.
pub open spec fn predicted_vector_view<StepT: View>(
    e: (u8, SerializePredictedStepsVectorForOnePlayer<StepT>),
) -> (u8, u32, Seq<StepT::V>) {
    (e.0, e.1.first_tick_id.0, views(e.1.predicted_steps@))
}

impl<StepT: Serialize + Deserialize> SerializePredictedStepsVectorForOnePlayer<StepT> {
    /// The first tick (four octets), the step count (truncated to an octet), the steps.
    pub open spec fn octets(&self) -> Seq<u8> {
        be_u32(self.first_tick_id.0) + seq![self.predicted_steps@.len() as u8] + items_octets::<StepT>(
            views(self.predicted_steps@),
        )
    }

    pub fn to_stream(&self, stream: &mut OutOctetStream)
        ensures
            out_octets(*final(stream)) == out_octets(*old(stream)) + self.octets(),
    {
        write_u32(stream, self.first_tick_id.0);
        write_u8(stream, self.predicted_steps.len() as u8);
        write_items(&self.predicted_steps, stream);
        assert(out_octets(*stream) =~= out_octets(*old(stream)) + self.octets());
    }

    pub fn from_stream(stream: &mut InOctetStream) -> (r: Result<SerializePredictedStepsVectorForOnePlayer<StepT>, StreamError>)
        ensures
            match parse_predicted_vector::<StepT>(in_remaining(*old(stream))) {
                Ok(((tick, steps), n)) => {
                    &&& r matches Ok(v) && v.first_tick_id.0 == tick && views(v.predicted_steps@) == steps
                    &&& n <= in_remaining(*old(stream)).len()
                    &&& in_remaining(*final(stream)) == in_remaining(*old(stream)).skip(n as int)
                },
                Err(e) => r == Err::<SerializePredictedStepsVectorForOnePlayer<StepT>, StreamError>(e),
            },
    {
        let ghost start = in_remaining(*stream);
        let tick = match read_u32_checked(stream) {
            Ok(v) => v,
            Err(e) => return Err(e),
        };
        let count = match read_u8_checked(stream) {
            Ok(v) => v,
            Err(e) => return Err(e),
        };
        proof {
            lemma_skip_skip(start, 4, 1);
        }
        let steps = match read_items::<StepT>(count as usize, stream) {
            Ok(v) => v,
            Err(e) => return Err(e),
        };
        proof {
            let n = parse_items::<StepT>(start.skip(5), count as nat)->Ok_0.1;
            lemma_skip_skip(start, 5, n as int);
        }
        Ok(SerializePredictedStepsVectorForOnePlayer { first_tick_id: TickId(tick), predicted_steps: steps })
    }
}

/// Reading a player's vector: the first tick, the count, the steps.
pub open spec fn parse_predicted_vector<T: Deserialize>(data: Seq<u8>) -> Result<((u32, Seq<T::V>), nat), StreamError> {
    match parse_u32(data) {
        Err(e) => Err(e),
        Ok((tick, _)) => match parse_u8(data.skip(4)) {
            Err(e) => Err(e),
            Ok((count, _)) => match parse_items::<T>(data.skip(5), count as nat) {
                Err(e) => Err(e),
                Ok((steps, n)) => Ok(((tick, steps), 5 + n)),
            },
        },
    }
}

/// The octets of the players' vectors one after another, each preceded by its local index.
pub open spec fn predicted_players_octets<T: Serialize + Deserialize>(players: Seq<(u8, SerializePredictedStepsVectorForOnePlayer<T>)>) -> Seq<u8>
    decreases players.len(),
{
    if players.len() == 0 {
        Seq::<u8>::empty()
    } else {
        predicted_players_octets::<T>(players.drop_last()) + seq![players.last().0] + players.last().1.octets()
    }
}

/// Reading one player's entry: the vector first and the local index after it (the
/// reverse of the order in which they are written).
pub open spec fn parse_predicted_player<T: Deserialize>(data: Seq<u8>) -> Result<((u8, u32, Seq<T::V>), nat), StreamError> {
    match parse_predicted_vector::<T>(data) {
        Err(e) => Err(e),
        Ok(((tick, steps), n)) => match parse_u8(data.skip(n as int)) {
            Err(e) => Err(e),
            Ok((index, m)) => Ok(((index, tick, steps), n + m)),
        },
    }
}

/// Reading `count` players' entries one after another.
pub open spec fn parse_predicted_players<T: Deserialize>(data: Seq<u8>, count: nat) -> Result<
    (Seq<(u8, u32, Seq<T::V>)>, nat),
    StreamError,
>
    decreases count,
{
    if count == 0 {
        Ok((Seq::empty(), 0))
    } else {
        match parse_predicted_players::<T>(data, (count - 1) as nat) {
            Err(e) => Err(e),
            Ok((es, n)) => match parse_predicted_player::<T>(data.skip(n as int)) {
                Err(e) => Err(e),
                Ok((e, m)) => Ok((es.push(e), n + m)),
            },
        }
    }
}

proof fn lemma_parse_players_error<T: Deserialize>(data: Seq<u8>, k: nat, count: nat, n: nat)
    requires
        k < count,
        parse_predicted_players::<T>(data, k) matches Ok((_, c)) && c == n,
        parse_predicted_player::<T>(data.skip(n as int)) is Err,
    ensures
        parse_predicted_players::<T>(data, count) == Err::<(Seq<(u8, u32, Seq<T::V>)>, nat), StreamError>(
            parse_predicted_player::<T>(data.skip(n as int))->Err_0,
        ),
    decreases count - k,
{
    if count > k + 1 {
        lemma_parse_players_error::<T>(data, k, (count - 1) as nat, n);
    }
}

impl<StepT: Serialize + Deserialize> SerializePredictedStepsForAllPlayers<StepT> {
    /// The player count (truncated to an octet), then each local index and its vector.
    pub open spec fn octets(&self) -> Seq<u8> {
        seq![self.predicted_players@.len() as u8] + predicted_players_octets::<StepT>(self.predicted_players@)
    }

    pub fn to_stream(&self, stream: &mut OutOctetStream)
        ensures
            out_octets(*final(stream)) == out_octets(*old(stream)) + self.octets(),
    {
        let ghost start = out_octets(*stream);
        let players = &self.predicted_players;
        write_u8(stream, players.len() as u8);
        let mut i: usize = 0;
        while i < players.len()
            invariant
                i <= players@.len(),
                out_octets(*stream) == start + seq![players@.len() as u8] + predicted_players_octets::<StepT>(
                    players@.take(i as int),
                ),
            decreases players@.len() - i,
        {
            write_u8(stream, players[i].0);
            players[i].1.to_stream(stream);
            assert(players@.take(i + 1).drop_last() =~= players@.take(i as int));
            assert(out_octets(*stream) =~= start + seq![players@.len() as u8] + predicted_players_octets::<StepT>(
                players@.take(i + 1),
            ));
            i = i + 1;
        }
        assert(players@.take(players@.len() as int) =~= players@);
    }

    /// Reads the player count and each player's entry, vector first and local index
    /// after it; a local index that comes again replaces its earlier vector.
    pub fn from_stream(stream: &mut InOctetStream) -> (r: Result<SerializePredictedStepsForAllPlayers<StepT>, StreamError>)
        ensures
            match parse_u8(in_remaining(*old(stream))) {
                Err(e) => r == Err::<SerializePredictedStepsForAllPlayers<StepT>, StreamError>(e),
                Ok((count, n)) => match parse_predicted_players::<StepT>(in_remaining(*old(stream)).skip(1), count as nat) {
                    Err(e) => r == Err::<SerializePredictedStepsForAllPlayers<StepT>, StreamError>(e),
                    Ok((entries, m)) => {
                        &&& r matches Ok(v) && v.predicted_players@.map_values(
                            |e: (u8, SerializePredictedStepsVectorForOnePlayer<StepT>)| predicted_vector_view(e),
                        ) == put_entries(entries)
                        &&& 1 + m <= in_remaining(*old(stream)).len()
                        &&& in_remaining(*final(stream)) == in_remaining(*old(stream)).skip(1 + m as int)
                    },
                },
            },
    {
        let ghost start = in_remaining(*stream);
        let count = match read_u8_checked(stream) {
            Ok(v) => v,
            Err(e) => return Err(e),
        };
        let ghost data = start.skip(1);
        let mut players: Vec<(u8, SerializePredictedStepsVectorForOnePlayer<StepT>)> = Vec::new();
        let ghost mut read: Seq<(u8, u32, Seq<StepT::V>)> = Seq::empty();
        let ghost mut consumed: nat = 0;
        let mut k: u8 = 0;
        while k < count
            invariant
                k <= count,
                data == start.skip(1),
                start.len() >= 1,
                start == in_remaining(*old(stream)),
                parse_u8(start) == Ok::<(u8, nat), StreamError>((count, 1)),
                parse_predicted_players::<StepT>(data, k as nat) == Ok::<(Seq<(u8, u32, Seq<StepT::V>)>, nat), StreamError>(
                    (read, consumed),
                ),
                consumed <= data.len(),
                in_remaining(*stream) == data.skip(consumed as int),
                players@.map_values(|e: (u8, SerializePredictedStepsVectorForOnePlayer<StepT>)| predicted_vector_view(e))
                    == put_entries(read),
                keys_distinct(put_entries(read)),
            decreases count - k,
        {
            let ghost here = in_remaining(*stream);
            let vector = match SerializePredictedStepsVectorForOnePlayer::<StepT>::from_stream(stream) {
                Ok(v) => v,
                Err(e) => {
                    proof {
                        assert(parse_predicted_player::<StepT>(here) == Err::<((u8, u32, Seq<StepT::V>), nat), StreamError>(e));
                        lemma_parse_players_error::<StepT>(data, k as nat, count as nat, consumed);
                    }
                    return Err(e);
                },
            };
            let ghost n = parse_predicted_vector::<StepT>(here)->Ok_0.1;
            let index = match read_u8_checked(stream) {
                Ok(v) => v,
                Err(e) => {
                    proof {
                        assert(parse_predicted_player::<StepT>(here) == Err::<((u8, u32, Seq<StepT::V>), nat), StreamError>(e));
                        lemma_parse_players_error::<StepT>(data, k as nat, count as nat, consumed);
                    }
                    return Err(e);
                },
            };
            let ghost item = (index, vector.first_tick_id.0, views(vector.predicted_steps@));
            proof {
                lemma_skip_skip(here, n as int, 1);
                lemma_skip_skip(data, consumed as int, n + 1int);
                assert(parse_predicted_player::<StepT>(here) == Ok::<((u8, u32, Seq<StepT::V>), nat), StreamError>((item, n + 1)));
            }
            let ghost before = players@;
            let mut at: usize = 0;
            let mut found = false;
            while at < players.len() && !found
                invariant
                    at <= players@.len(),
                    found ==> at < players@.len() && players@[at as int].0 == index,
                    forall|h: int| 0 <= h < at ==> (#[trigger] players@[h]).0 != index,
                decreases players@.len() - at + (if found { 0int } else { 1int }),
            {
                if players[at].0 == index {
                    found = true;
                } else {
                    at = at + 1;
                }
            }
            let ghost old_read = read;
            proof {
                read = read.push(item);
                consumed = consumed + n + 1;
                assert(read.drop_last() =~= old_read);
                let pe = put_entries(old_read);
                assert forall|h: int| 0 <= h < before.len() implies #[trigger] pe[h] == predicted_vector_view(before[h]) by {
                    assert(before.map_values(|e: (u8, SerializePredictedStepsVectorForOnePlayer<StepT>)| predicted_vector_view(e))[h] == predicted_vector_view(before[h]));
                }
                lemma_put_entry_distinct(pe, item);
            }
            if found {
                proof {
                    let pe = put_entries(old_read);
                    assert(pe[at as int].0 == item.0);
                    let c = choose|i: int| 0 <= i < pe.len() && pe[i].0 == item.0;
                    assert(c == at as int);
                }
                players.set(at, (index, vector));
            } else {
                proof {
                    let pe = put_entries(old_read);
                    assert(!exists|i: int| 0 <= i < pe.len() && pe[i].0 == item.0) by {
                        if exists|i: int| 0 <= i < pe.len() && pe[i].0 == item.0 {
                            let i = choose|i: int| 0 <= i < pe.len() && pe[i].0 == item.0;
                            assert(before[i].0 == index);
                        }
                    }
                }
                players.push((index, vector));
            }
            proof {
                assert(players@.map_values(|e: (u8, SerializePredictedStepsVectorForOnePlayer<StepT>)| predicted_vector_view(e))
                    =~= put_entries(read));
            }
            k = k + 1;
        }
        proof {
            lemma_skip_skip(start, 1, consumed as int);
        }
        Ok(SerializePredictedStepsForAllPlayers { predicted_players: players })
    }
}

/// A client's predicted steps and its acknowledgement of the host's steps.
#[derive(Debug)]
pub struct StepsRequest<StepT> {
    pub ack: StepsAck,
    pub combined_predicted_steps: CombinedPredictedSteps<StepT>,
}

impl<StepT: Clone> StepsRequest<StepT> {
    /// The acknowledgement; the predicted steps add no octets.
    pub open spec fn octets(&self) -> Seq<u8> {
        self.ack.octets()
    }

    pub fn to_stream(&self, stream: &mut OutOctetStream)
        requires
            self.combined_predicted_steps.first_tick.0 + self.combined_predicted_steps.steps@.len() <= u32::MAX,
        ensures
            out_octets(*final(stream)) == out_octets(*old(stream)) + self.octets(),
    {
        self.ack.to_stream(stream);
        self.combined_predicted_steps.serialize(stream);
    }

    /// Reads the acknowledgement; the predicted steps come back empty.
    pub fn from_stream(stream: &mut InOctetStream) -> (r: Result<StepsRequest<StepT>, StreamError>)
        ensures
            match StepsAck::parse(in_remaining(*old(stream))) {
                Ok((ack, n)) => {
                    &&& r matches Ok(req) && req.ack == ack && req.combined_predicted_steps.first_tick == TickId(0)
                        && req.combined_predicted_steps.steps@.len() == 0
                    &&& in_remaining(*final(stream)) == in_remaining(*old(stream)).skip(n as int)
                },
                Err(e) => r == Err::<StepsRequest<StepT>, StreamError>(e),
            },
    {
        let ack = match StepsAck::from_stream(stream) {
            Ok(v) => v,
            Err(e) => return Err(e),
        };
        let combined = match CombinedPredictedSteps::deserialize(stream) {
            Ok(v) => v,
            Err(e) => return Err(e),
        };
        Ok(StepsRequest { ack, combined_predicted_steps: combined })
    }
}

/// The commands a client sends to the host.
#[derive(Debug)]
pub enum ClientToHostCommands<StepT> {
    JoinGameType(JoinGameRequest),
    Steps(StepsRequest<StepT>),
    DownloadGameState(DownloadGameStateRequest),
    BlobStreamChannel(ReceiverToSenderFrontCommands),
}

/// The command octet: 0x01 join, 0x02 steps, 0x03 download, 0x04 blob stream.
pub open spec fn client_command_octet<StepT>(c: &ClientToHostCommands<StepT>) -> u8 {
    match c {
        ClientToHostCommands::JoinGameType(_) => 0x01,
        ClientToHostCommands::Steps(_) => 0x02,
        ClientToHostCommands::DownloadGameState(_) => 0x03,
        ClientToHostCommands::BlobStreamChannel(_) => 0x04,
    }
}

impl<StepT: Clone> ClientToHostCommands<StepT> {
    pub fn to_octet(&self) -> (o: u8)
        ensures
            o == client_command_octet(self),
    {
        match self {
            ClientToHostCommands::Steps(_) => 0x02,
            ClientToHostCommands::JoinGameType(_) => 0x01,
            ClientToHostCommands::DownloadGameState(_) => 0x03,
            ClientToHostCommands::BlobStreamChannel(_) => 0x04,
        }
    }

    /// The predicted steps of a steps command fit below the largest tick id.
    pub open spec fn ticks_fit(&self) -> bool {
        match self {
            ClientToHostCommands::Steps(s) => s.combined_predicted_steps.first_tick.0
                + s.combined_predicted_steps.steps@.len() <= u32::MAX,
            _ => true,
        }
    }

    /// The command octet, then the command.
    pub open spec fn octets(&self) -> Seq<u8> {
        seq![client_command_octet(self)] + match self {
            ClientToHostCommands::JoinGameType(j) => j.octets(),
            ClientToHostCommands::Steps(s) => s.octets(),
            ClientToHostCommands::DownloadGameState(d) => d.octets(),
            ClientToHostCommands::BlobStreamChannel(b) => receiver_command_octets(*b),
        }
    }

    pub fn serialize(&self, stream: &mut OutOctetStream)
        requires
            self.ticks_fit(),
        ensures
            out_octets(*final(stream)) == out_octets(*old(stream)) + self.octets(),
    {
        write_u8(stream, self.to_octet());
        match self {
            ClientToHostCommands::Steps(predicted_steps_and_ack) => predicted_steps_and_ack.to_stream(stream),
            ClientToHostCommands::JoinGameType(join_game_request) => join_game_request.to_stream(stream),
            ClientToHostCommands::DownloadGameState(download_game_state) => download_game_state.to_stream(stream),
            ClientToHostCommands::BlobStreamChannel(blob_stream_command) => blob_stream_command.serialize(stream),
        }
        assert(out_octets(*stream) =~= out_octets(*old(stream)) + self.octets());
    }

    /// Reads a command. Only join (0x01) and blob-stream (0x04) commands are
    /// accepted; any other command octet, steps and download included, is refused.
    pub fn deserialize(stream: &mut InOctetStream) -> (r: Result<ClientToHostCommands<StepT>, StreamError>)
        ensures
            match parse_u8(in_remaining(*old(stream))) {
                Err(e) => r == Err::<ClientToHostCommands<StepT>, StreamError>(e),
                Ok((command, _)) => if command == 0x01 {
                    match JoinGameRequest::parse_header(in_remaining(*old(stream)).skip(1)) {
                        Ok((id, join, n)) => {
                            &&& r matches Ok(ClientToHostCommands::JoinGameType(req)) && req.client_request_id == id
                                && req.join_game_type == join && req.player_requests.players@.len() == 0
                            &&& in_remaining(*final(stream)) == in_remaining(*old(stream)).skip(1 + n as int)
                        },
                        Err(e) => r == Err::<ClientToHostCommands<StepT>, StreamError>(e),
                    }
                } else if command == 0x04 {
                    match parse_receiver_command(in_remaining(*old(stream)).skip(1)) {
                        Ok((b, n)) => {
                            &&& r matches Ok(ClientToHostCommands::BlobStreamChannel(c)) && c == b
                            &&& in_remaining(*final(stream)) == in_remaining(*old(stream)).skip(1 + n as int)
                        },
                        Err(e) => r == Err::<ClientToHostCommands<StepT>, StreamError>(e),
                    }
                } else {
                    r == Err::<ClientToHostCommands<StepT>, StreamError>(StreamError::UnknownValue(command))
                },
            },
    {
        let ghost start = in_remaining(*stream);
        let command = match read_u8_checked(stream) {
            Ok(v) => v,
            Err(e) => return Err(e),
        };
        if command == 0x01 {
            match JoinGameRequest::from_stream(stream) {
                Ok(req) => {
                    proof {
                        let n = JoinGameRequest::parse_header(start.skip(1))->Ok_0.2;
                        lemma_skip_skip(start, 1, n as int);
                    }
                    Ok(ClientToHostCommands::JoinGameType(req))
                },
                Err(e) => Err(e),
            }
        } else if command == 0x04 {
            match ReceiverToSenderFrontCommands::deserialize(stream) {
                Ok(b) => {
                    proof {
                        let n = parse_receiver_command(start.skip(1))->Ok_0.1;
                        lemma_skip_skip(start, 1, n as int);
                    }
                    Ok(ClientToHostCommands::BlobStreamChannel(b))
                },
                Err(e) => Err(e),
            }
        } else {
            Err(StreamError::UnknownValue(command))
        }
    }
}

} // verus!
