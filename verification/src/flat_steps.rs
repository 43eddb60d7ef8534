//! Steps as they are sent tick by tick: each tick's step per participant, a player's
//! predicted steps from its first tick, the predicted steps of all local players, and
//! ranges of authoritative ticks after a start tick.
use vstd::prelude::*;
use flood_rs::in_stream::InOctetStream;
use flood_rs::out_stream::OutOctetStream;
use crate::stream::{
    Serialize, Deserialize, out_octets, in_remaining, in_within, be_u32, parse_u8, parse_u32,
    parsed_view_from, write_u8, write_u32, read_u8_checked, read_u32_checked, lemma_skip_skip,
    StreamError,
};
use crate::participant::ParticipantId;
use crate::codec::{views, items_octets, parse_items, write_items, read_items};
use crate::tick::TickId;

verus! {

/// Keyed entries with `e` put in, as into a map: it replaces the entry with the same
/// key, or comes last.
pub open spec fn put_pair<V>(entries: Seq<(u8, V)>, e: (u8, V)) -> Seq<(u8, V)> {
    if exists|i: int| 0 <= i < entries.len() && entries[i].0 == e.0 {
        entries.update(choose|i: int| 0 <= i < entries.len() && entries[i].0 == e.0, e)
    } else {
        entries.push(e)
    }
}

/// Keyed entries put in one after another, as into a map.
pub open spec fn put_pairs<V>(entries: Seq<(u8, V)>) -> Seq<(u8, V)>
    decreases entries.len(),
{
    if entries.len() == 0 {
        Seq::empty()
    } else {
        put_pair(put_pairs(entries.drop_last()), entries.last())
    }
}

/// No key occurs twice.
pub open spec fn pair_keys_distinct<V>(entries: Seq<(u8, V)>) -> bool {
    forall|i: int, j: int| 0 <= i < j < entries.len() ==> (#[trigger] entries[i]).0 != (#[trigger] entries[j]).0
}

proof fn lemma_put_pair_distinct<V>(entries: Seq<(u8, V)>, e: (u8, V))
    requires
        pair_keys_distinct(entries),
    ensures
        pair_keys_distinct(put_pair(entries, e)),
{
    if exists|i: int| 0 <= i < entries.len() && entries[i].0 == e.0 {
        let k = choose|i: int| 0 <= i < entries.len() && entries[i].0 == e.0;
        let r = entries.update(k, e);
        assert forall|i: int, j: int| 0 <= i < j < r.len() implies (#[trigger] r[i]).0 != (#[trigger] r[j]).0 by {
            if i != k && j != k {
                assert(r[i] == entries[i] && r[j] == entries[j]);
            } else if i == k {
                assert(r[j] == entries[j]);
                assert(entries[k].0 != entries[j].0);
            } else {
                assert(r[i] == entries[i]);
                assert(entries[i].0 != entries[k].0);
            }
        }
    } else {
        let r = entries.push(e);
        assert forall|i: int, j: int| 0 <= i < j < r.len() implies (#[trigger] r[i]).0 != (#[trigger] r[j]).0 by {
            if j == entries.len() {
                assert(r[i] == entries[i]);
            } else {
                assert(r[i] == entries[i] && r[j] == entries[j]);
            }
        }
    }
}

/// Where keys are distinct, the entry with key `e.0` at `at` is the one `put_pair`
/// replaces.
proof fn lemma_put_pair_at<V>(entries: Seq<(u8, V)>, e: (u8, V), at: int)
    requires
        pair_keys_distinct(entries),
        0 <= at < entries.len(),
        entries[at].0 == e.0,
    ensures
        put_pair(entries, e) == entries.update(at, e),
{
    let k = choose|i: int| 0 <= i < entries.len() && entries[i].0 == e.0;
    if k != at {
        if k < at {
            assert(entries[k].0 != entries[at].0);
        } else {
            assert(entries[at].0 != entries[k].0);
        }
    }
}

/// Reading `count` elements one after another with `elem`.
pub open spec fn parse_repeated<E>(
    data: Seq<u8>,
    count: nat,
    elem: spec_fn(Seq<u8>) -> Result<(E, nat), StreamError>,
) -> Result<(Seq<E>, nat), StreamError>
    decreases count,
{
    if count == 0 {
        Ok((Seq::<E>::empty(), 0))
    } else {
        match parse_repeated(data, (count - 1) as nat, elem) {
            Err(e) => Err(e),
            Ok((items, n)) => match elem(data.skip(n as int)) {
                Err(e) => Err(e),
                Ok((v, m)) => Ok((items.push(v), n + m)),
            },
        }
    }
}

/// Once reading element `i` fails, reading more elements fails with the same error.
proof fn lemma_parse_repeated_error<E>(
    data: Seq<u8>,
    i: nat,
    count: nat,
    n: nat,
    elem: spec_fn(Seq<u8>) -> Result<(E, nat), StreamError>,
)
    requires
        i < count,
        parse_repeated(data, i, elem) matches Ok((_, k)) && k == n,
        elem(data.skip(n as int)) is Err,
    ensures
        parse_repeated(data, count, elem) == Err::<(Seq<E>, nat), StreamError>(elem(data.skip(n as int))->Err_0),
    decreases count - i,
{
    if count > i + 1 {
        lemma_parse_repeated_error(data, i, (count - 1) as nat, n, elem);
    }
}

/// Reading one participant's step: its id, then the step.
pub open spec fn parse_participant_step<S: Deserialize>(data: Seq<u8>) -> Result<((u8, S::V), nat), StreamError> {
    match parse_u8(data) {
        Err(e) => Err(e),
        Ok((id, _)) => match S::parse(data.skip(1)) {
            Err(e) => Err(e),
            Ok((v, m)) => Ok(((id, v), 1 + m)),
        },
    }
}

/// The octets of participants' steps, one after another: each id, then its step.
pub open spec fn participant_steps_octets<S: Serialize>(entries: Seq<(u8, S::V)>) -> Seq<u8>
    decreases entries.len(),
{
    if entries.len() == 0 {
        Seq::empty()
    } else {
        participant_steps_octets::<S>(entries.drop_last()) + seq![entries.last().0] + S::octets_of(entries.last().1)
    }
}

/// The participants' entries of a tick, as values.
pub open spec fn participant_step_views<S: View>(entries: Seq<(ParticipantId, S)>) -> Seq<(u8, S::V)> {
    entries.map_values(|e: (ParticipantId, S)| (e.0.0, e.1@))
}

/// The step of each participant for one authoritative tick.
#[derive(Debug)]
pub struct AuthoritativeCombinedStepForAllParticipants<StepT> {
    pub authoritative_participants: Vec<(ParticipantId, StepT)>,
}

impl<StepT: View> View for AuthoritativeCombinedStepForAllParticipants<StepT> {
    type V = Seq<(u8, StepT::V)>;

    open spec fn view(&self) -> Seq<(u8, StepT::V)> {
        participant_step_views(self.authoritative_participants@)
    }
}

/// Puts a participant's step into a tick's entries, as into a map.
fn put_participant_step<S: View>(entries: &mut Vec<(ParticipantId, S)>, id: ParticipantId, step: S)
    requires
        pair_keys_distinct(participant_step_views(old(entries)@)),
    ensures
        participant_step_views(final(entries)@) == put_pair(participant_step_views(old(entries)@), (id.0, step@)),
        pair_keys_distinct(participant_step_views(final(entries)@)),
{
    let ghost before = participant_step_views(entries@);
    let ghost e = (id.0, step@);
    proof {
        lemma_put_pair_distinct(before, e);
    }
    let mut at: usize = 0;
    while at < entries.len()
        invariant
            at <= entries@.len(),
            before == participant_step_views(entries@),
            before == participant_step_views(old(entries)@),
            pair_keys_distinct(before),
            e == (id.0, step@),
            forall|h: int| 0 <= h < at ==> (#[trigger] entries@[h]).0 != id,
        decreases entries@.len() - at,
    {
        if entries[at].0 == id {
            proof {
                lemma_put_pair_at(before, e, at as int);
            }
            entries.set(at, (id, step));
            assert(participant_step_views(entries@) =~= before.update(at as int, e));
            return;
        }
        at = at + 1;
    }
    proof {
        assert forall|i: int| 0 <= i < before.len() implies before[i].0 != e.0 by {
            assert(entries@[i].0 != id);
        }
    }
    entries.push((id, step));
    assert(participant_step_views(entries@) =~= before.push(e));
}

impl<StepT: Serialize> Serialize for AuthoritativeCombinedStepForAllParticipants<StepT> {
    /// The participant count (truncated to an octet), then each participant's id and
    /// step.
    open spec fn octets_of(v: Seq<(u8, StepT::V)>) -> Seq<u8> {
        seq![v.len() as u8] + participant_steps_octets::<StepT>(v)
    }

    fn serialize(&self, stream: &mut OutOctetStream) {
        let ghost start = out_octets(*stream);
        let ghost all = self@;
        write_u8(stream, self.authoritative_participants.len() as u8);
        let mut i: usize = 0;
        while i < self.authoritative_participants.len()
            invariant
                i <= self.authoritative_participants@.len(),
                all == self@,
                all.len() == self.authoritative_participants@.len(),
                out_octets(*stream) == start + seq![all.len() as u8] + participant_steps_octets::<StepT>(
                    all.take(i as int),
                ),
            decreases self.authoritative_participants@.len() - i,
        {
            let entry = &self.authoritative_participants[i];
            let ghost before = out_octets(*stream);
            write_u8(stream, entry.0.0);
            entry.1.serialize(stream);
            proof {
                assert(all[i as int] == (entry.0.0, entry.1@));
                assert(all.take(i + 1).drop_last() =~= all.take(i as int));
                assert(out_octets(*stream) =~= start + seq![all.len() as u8] + participant_steps_octets::<StepT>(
                    all.take(i + 1),
                ));
            }
            i = i + 1;
        }
        assert(all.take(all.len() as int) =~= all);
    }
}

impl<StepT: Deserialize> Deserialize for AuthoritativeCombinedStepForAllParticipants<StepT> {
    /// The participant count, then each participant's id and step; a participant that
    /// comes again replaces its earlier step, as in a map.
    open spec fn parse(data: Seq<u8>) -> Result<(Seq<(u8, StepT::V)>, nat), StreamError> {
        match parse_u8(data) {
            Err(e) => Err(e),
            Ok((count, _)) => match parse_repeated(
                data.skip(1),
                count as nat,
                |d: Seq<u8>| parse_participant_step::<StepT>(d),
            ) {
                Err(e) => Err(e),
                Ok((entries, n)) => Ok((put_pairs(entries), 1 + n)),
            },
        }
    }

    fn deserialize(stream: &mut InOctetStream) -> (r: Result<Self, StreamError>) {
        let ghost elem = |d: Seq<u8>| parse_participant_step::<StepT>(d);
        let ghost start = in_remaining(*stream);
        let count = match read_u8_checked(stream) {
            Ok(v) => v,
            Err(e) => return Err(e),
        };
        let ghost data = start.skip(1);
        let mut participants: Vec<(ParticipantId, StepT)> = Vec::new();
        let ghost mut read: Seq<(u8, StepT::V)> = Seq::empty();
        let ghost mut consumed: nat = 0;
        let mut k: u8 = 0;
        assert(participant_step_views(participants@) =~= put_pairs(read));
        while k < count
            invariant
                k <= count,
                elem == (|d: Seq<u8>| parse_participant_step::<StepT>(d)),
                data == start.skip(1),
                start.len() >= 1,
                start == in_remaining(*old(stream)),
                parse_u8(start) == Ok::<(u8, nat), StreamError>((count, 1)),
                parse_repeated(data, k as nat, elem) == Ok::<(Seq<(u8, StepT::V)>, nat), StreamError>(
                    (read, consumed),
                ),
                consumed <= data.len(),
                in_remaining(*stream) == data.skip(consumed as int),
                in_within(*old(stream)) ==> in_within(*stream),
                participant_step_views(participants@) == put_pairs(read),
                pair_keys_distinct(put_pairs(read)),
            decreases count - k,
        {
            let ghost here = in_remaining(*stream);
            let id = match read_u8_checked(stream) {
                Ok(v) => v,
                Err(e) => {
                    proof {
                        assert(elem(here) == Err::<((u8, StepT::V), nat), StreamError>(e));
                        lemma_parse_repeated_error(data, k as nat, count as nat, consumed, elem);
                    }
                    return Err(e);
                },
            };
            let step = match StepT::deserialize(stream) {
                Ok(v) => v,
                Err(e) => {
                    proof {
                        assert(elem(here) == Err::<((u8, StepT::V), nat), StreamError>(e));
                        lemma_parse_repeated_error(data, k as nat, count as nat, consumed, elem);
                    }
                    return Err(e);
                },
            };
            let ghost m = elem(here)->Ok_0.1;
            proof {
                assert(elem(here) == Ok::<((u8, StepT::V), nat), StreamError>(((id, step@), m)));
                lemma_skip_skip(here, 1, (m - 1) as int);
                lemma_skip_skip(data, consumed as int, m as int);
                lemma_put_pair_distinct(put_pairs(read), (id, step@));
                assert(read.push((id, step@)).drop_last() =~= read);
            }
            put_participant_step(&mut participants, ParticipantId(id), step);
            proof {
                read = read.push((id, step@));
                consumed = consumed + m;
            }
            k = k + 1;
        }
        proof {
            lemma_skip_skip(start, 1, consumed as int);
        }
        Ok(AuthoritativeCombinedStepForAllParticipants { authoritative_participants: participants })
    }
}

/// A player's predicted steps from its first tick on.
#[derive(Debug)]
pub struct PredictedStepsForOnePlayer<StepT> {
    pub first_tick_id: TickId,
    pub predicted_steps: Vec<StepT>,
}

impl<StepT: View> View for PredictedStepsForOnePlayer<StepT> {
    type V = (u32, Seq<StepT::V>);

    open spec fn view(&self) -> (u32, Seq<StepT::V>) {
        (self.first_tick_id.0, views(self.predicted_steps@))
    }
}

impl<StepT: Serialize> Serialize for PredictedStepsForOnePlayer<StepT> {
    /// The first tick, the step count (truncated to an octet), then each step.
    open spec fn octets_of(v: (u32, Seq<StepT::V>)) -> Seq<u8> {
        be_u32(v.0) + seq![v.1.len() as u8] + items_octets::<StepT>(v.1)
    }

    fn serialize(&self, stream: &mut OutOctetStream) {
        let ghost start = out_octets(*stream);
        write_u32(stream, self.first_tick_id.0);
        write_u8(stream, self.predicted_steps.len() as u8);
        write_items(&self.predicted_steps, stream);
        assert(views(self.predicted_steps@).len() == self.predicted_steps@.len());
        assert(out_octets(*stream) =~= start + Self::octets_of(self@));
    }
}

impl<StepT: Deserialize> Deserialize for PredictedStepsForOnePlayer<StepT> {
    /// The first tick, the step count, then each step.
    open spec fn parse(data: Seq<u8>) -> Result<((u32, Seq<StepT::V>), nat), StreamError> {
        match parse_u32(data) {
            Err(e) => Err(e),
            Ok((tick, _)) => match parse_u8(data.skip(4)) {
                Err(e) => Err(e),
                Ok((count, _)) => match parse_items::<StepT>(data.skip(5), count as nat) {
                    Err(e) => Err(e),
                    Ok((steps, m)) => Ok(((tick, steps), 5 + m)),
                },
            },
        }
    }

    fn deserialize(stream: &mut InOctetStream) -> (r: Result<Self, StreamError>) {
        let ghost start = in_remaining(*stream);
        let tick = match read_u32_checked(stream) {
            Ok(v) => v,
            Err(e) => return Err(e),
        };
        let count = match read_u8_checked(stream) {
            Ok(v) => v,
            Err(e) => return Err(e),
        };
        proof {
            lemma_skip_skip(start, 4, 1);
        }
        let steps = match read_items::<StepT>(count as usize, stream) {
            Ok(v) => v,
            Err(e) => return Err(e),
        };
        proof {
            let m = parse_items::<StepT>(start.skip(5), count as nat)->Ok_0.1;
            lemma_skip_skip(start, 5, m as int);
        }
        Ok(PredictedStepsForOnePlayer { first_tick_id: TickId(tick), predicted_steps: steps })
    }
}

impl<StepT: Serialize + Deserialize> PredictedStepsForOnePlayer<StepT> {
    /// The first tick, the step count (truncated to an octet), then each step.
    pub fn to_stream(&self, stream: &mut OutOctetStream)
        ensures
            out_octets(*final(stream)) == out_octets(*old(stream)) + Self::octets_of(self@),
    {
        self.serialize(stream)
    }

    /// Reads the first tick, the step count and each step.
    pub fn from_stream(stream: &mut InOctetStream) -> (r: Result<Self, StreamError>)
        ensures
            parsed_view_from(Self::parse(in_remaining(*old(stream))), r, *old(stream), *final(stream)),
    {
        Self::deserialize(stream)
    }
}

/// Reading one local player's predicted steps as the message lays them out: the
/// player's steps, then its local index.
pub open spec fn parse_player_steps<S: Deserialize>(data: Seq<u8>) -> Result<
    ((u8, (u32, Seq<S::V>)), nat),
    StreamError,
> {
    match PredictedStepsForOnePlayer::<S>::parse(data) {
        Err(e) => Err(e),
        Ok((steps, n)) => match parse_u8(data.skip(n as int)) {
            Err(e) => Err(e),
            Ok((index, _)) => Ok(((index, steps), n + 1)),
        },
    }
}

/// The octets of local players' predicted steps, one after another: each local index,
/// then the player's steps.
pub open spec fn players_steps_octets<S: Serialize>(entries: Seq<(u8, (u32, Seq<S::V>))>) -> Seq<u8>
    decreases entries.len(),
{
    if entries.len() == 0 {
        Seq::empty()
    } else {
        players_steps_octets::<S>(entries.drop_last()) + seq![entries.last().0]
            + PredictedStepsForOnePlayer::<S>::octets_of(entries.last().1)
    }
}

/// The local players' entries, as values.
pub open spec fn player_steps_views<S: View>(entries: Seq<(u8, PredictedStepsForOnePlayer<S>)>) -> Seq<
    (u8, (u32, Seq<S::V>)),
> {
    entries.map_values(|e: (u8, PredictedStepsForOnePlayer<S>)| (e.0, e.1@))
}

/// The predicted steps of each local player, by local index.
#[derive(Debug)]
pub struct PredictedStepsForAllPlayers<StepT> {
    pub predicted_players: Vec<(u8, PredictedStepsForOnePlayer<StepT>)>,
}

impl<StepT: View> View for PredictedStepsForAllPlayers<StepT> {
    type V = Seq<(u8, (u32, Seq<StepT::V>))>;

    open spec fn view(&self) -> Seq<(u8, (u32, Seq<StepT::V>))> {
        player_steps_views(self.predicted_players@)
    }
}

/// Puts a local player's steps into the entries, as into a map.
fn put_player_steps<S: View>(
    entries: &mut Vec<(u8, PredictedStepsForOnePlayer<S>)>,
    index: u8,
    steps: PredictedStepsForOnePlayer<S>,
)
    requires
        pair_keys_distinct(player_steps_views(old(entries)@)),
    ensures
        player_steps_views(final(entries)@) == put_pair(player_steps_views(old(entries)@), (index, steps@)),
        pair_keys_distinct(player_steps_views(final(entries)@)),
{
    let ghost before = player_steps_views(entries@);
    let ghost e = (index, steps@);
    proof {
        lemma_put_pair_distinct(before, e);
    }
    let mut at: usize = 0;
    while at < entries.len()
        invariant
            at <= entries@.len(),
            before == player_steps_views(entries@),
            before == player_steps_views(old(entries)@),
            pair_keys_distinct(before),
            e == (index, steps@),
            forall|h: int| 0 <= h < at ==> (#[trigger] entries@[h]).0 != index,
        decreases entries@.len() - at,
    {
        if entries[at].0 == index {
            proof {
                lemma_put_pair_at(before, e, at as int);
            }
            entries.set(at, (index, steps));
            assert(player_steps_views(entries@) =~= before.update(at as int, e));
            return;
        }
        at = at + 1;
    }
    proof {
        assert forall|i: int| 0 <= i < before.len() implies before[i].0 != e.0 by {
            assert(entries@[i].0 != index);
        }
    }
    entries.push((index, steps));
    assert(player_steps_views(entries@) =~= before.push(e));
}

impl<StepT: Serialize + Deserialize> PredictedStepsForAllPlayers<StepT> {
    /// The octets: the player count (truncated to an octet), then for each player its
    /// local index and its steps.
    pub open spec fn octets(v: Seq<(u8, (u32, Seq<StepT::V>))>) -> Seq<u8> {
        seq![v.len() as u8] + players_steps_octets::<StepT>(v)
    }

    /// Reading the message: the player count, then for each player its steps and then
    /// its local index (the reverse of how they are written); a local index that comes
    /// again replaces the earlier steps, as in a map.
    pub open spec fn parse(data: Seq<u8>) -> Result<(Seq<(u8, (u32, Seq<StepT::V>))>, nat), StreamError> {
        match parse_u8(data) {
            Err(e) => Err(e),
            Ok((count, _)) => match parse_repeated(
                data.skip(1),
                count as nat,
                |d: Seq<u8>| parse_player_steps::<StepT>(d),
            ) {
                Err(e) => Err(e),
                Ok((entries, n)) => Ok((put_pairs(entries), 1 + n)),
            },
        }
    }

    /// Writes the player count, then for each player its local index and its steps.
    pub fn to_stream(&self, stream: &mut OutOctetStream)
        ensures
            out_octets(*final(stream)) == out_octets(*old(stream)) + Self::octets(self@),
    {
        let ghost start = out_octets(*stream);
        let ghost all = self@;
        write_u8(stream, self.predicted_players.len() as u8);
        let mut i: usize = 0;
        while i < self.predicted_players.len()
            invariant
                i <= self.predicted_players@.len(),
                all == self@,
                all.len() == self.predicted_players@.len(),
                out_octets(*stream) == start + seq![all.len() as u8] + players_steps_octets::<StepT>(all.take(i as int)),
            decreases self.predicted_players@.len() - i,
        {
            let entry = &self.predicted_players[i];
            write_u8(stream, entry.0);
            entry.1.to_stream(stream);
            proof {
                assert(all[i as int] == (entry.0, entry.1@));
                assert(all.take(i + 1).drop_last() =~= all.take(i as int));
                assert(out_octets(*stream) =~= start + seq![all.len() as u8] + players_steps_octets::<StepT>(
                    all.take(i + 1),
                ));
            }
            i = i + 1;
        }
        assert(all.take(all.len() as int) =~= all);
    }

    /// Reads the player count, then for each player its steps and its local index.
    pub fn from_stream(stream: &mut InOctetStream) -> (r: Result<Self, StreamError>)
        ensures
            parsed_view_from(Self::parse(in_remaining(*old(stream))), r, *old(stream), *final(stream)),
    {
        let ghost elem = |d: Seq<u8>| parse_player_steps::<StepT>(d);
        let ghost start = in_remaining(*stream);
        let count = match read_u8_checked(stream) {
            Ok(v) => v,
            Err(e) => return Err(e),
        };
        let ghost data = start.skip(1);
        let mut players: Vec<(u8, PredictedStepsForOnePlayer<StepT>)> = Vec::new();
        let ghost mut read: Seq<(u8, (u32, Seq<StepT::V>))> = Seq::empty();
        let ghost mut consumed: nat = 0;
        let mut k: u8 = 0;
        assert(player_steps_views(players@) =~= put_pairs(read));
        while k < count
            invariant
                k <= count,
                elem == (|d: Seq<u8>| parse_player_steps::<StepT>(d)),
                data == start.skip(1),
                start.len() >= 1,
                start == in_remaining(*old(stream)),
                parse_u8(start) == Ok::<(u8, nat), StreamError>((count, 1)),
                parse_repeated(data, k as nat, elem) == Ok::<(Seq<(u8, (u32, Seq<StepT::V>))>, nat), StreamError>(
                    (read, consumed),
                ),
                consumed <= data.len(),
                in_remaining(*stream) == data.skip(consumed as int),
                player_steps_views(players@) == put_pairs(read),
                pair_keys_distinct(put_pairs(read)),
            decreases count - k,
        {
            let ghost here = in_remaining(*stream);
            let steps = match PredictedStepsForOnePlayer::<StepT>::from_stream(stream) {
                Ok(v) => v,
                Err(e) => {
                    proof {
                        assert(elem(here) == Err::<((u8, (u32, Seq<StepT::V>)), nat), StreamError>(e));
                        lemma_parse_repeated_error(data, k as nat, count as nat, consumed, elem);
                    }
                    return Err(e);
                },
            };
            let ghost n = PredictedStepsForOnePlayer::<StepT>::parse(here)->Ok_0.1;
            let index = match read_u8_checked(stream) {
                Ok(v) => v,
                Err(e) => {
                    proof {
                        assert(elem(here) == Err::<((u8, (u32, Seq<StepT::V>)), nat), StreamError>(e));
                        lemma_parse_repeated_error(data, k as nat, count as nat, consumed, elem);
                    }
                    return Err(e);
                },
            };
            proof {
                assert(elem(here) == Ok::<((u8, (u32, Seq<StepT::V>)), nat), StreamError>(((index, steps@), n + 1)));
                lemma_skip_skip(here, n as int, 1);
                lemma_skip_skip(data, consumed as int, (n + 1) as int);
                lemma_put_pair_distinct(put_pairs(read), (index, steps@));
                assert(read.push((index, steps@)).drop_last() =~= read);
            }
            let ghost added = steps@;
            put_player_steps(&mut players, index, steps);
            proof {
                read = read.push((index, added));
                consumed = consumed + n + 1;
            }
            k = k + 1;
        }
        proof {
            lemma_skip_skip(start, 1, consumed as int);
        }
        Ok(PredictedStepsForAllPlayers { predicted_players: players })
    }
}

/// A range of authoritative ticks: how many ticks after the previous range it starts,
/// and each tick's steps.
#[derive(Debug)]
pub struct AuthoritativeStepRange<StepT> {
    pub delta_steps_from_previous: u8,
    pub authoritative_steps: Vec<AuthoritativeCombinedStepForAllParticipants<StepT>>,
}

impl<StepT: View> View for AuthoritativeStepRange<StepT> {
    type V = (u8, Seq<Seq<(u8, StepT::V)>>);

    open spec fn view(&self) -> (u8, Seq<Seq<(u8, StepT::V)>>) {
        (self.delta_steps_from_previous, views(self.authoritative_steps@))
    }
}

impl<StepT: Serialize> Serialize for AuthoritativeStepRange<StepT> {
    /// The delta, the tick count (truncated to an octet), then each tick's steps.
    open spec fn octets_of(v: (u8, Seq<Seq<(u8, StepT::V)>>)) -> Seq<u8> {
        seq![v.0, v.1.len() as u8] + items_octets::<AuthoritativeCombinedStepForAllParticipants<StepT>>(v.1)
    }

    fn serialize(&self, stream: &mut OutOctetStream) {
        let ghost start = out_octets(*stream);
        write_u8(stream, self.delta_steps_from_previous);
        write_u8(stream, self.authoritative_steps.len() as u8);
        write_items(&self.authoritative_steps, stream);
        assert(views(self.authoritative_steps@).len() == self.authoritative_steps@.len());
        assert(out_octets(*stream) =~= start + Self::octets_of(self@));
    }
}

impl<StepT: Deserialize> Deserialize for AuthoritativeStepRange<StepT> {
    /// The delta, the tick count, then each tick's steps.
    open spec fn parse(data: Seq<u8>) -> Result<((u8, Seq<Seq<(u8, StepT::V)>>), nat), StreamError> {
        match parse_u8(data) {
            Err(e) => Err(e),
            Ok((delta, _)) => match parse_u8(data.skip(1)) {
                Err(e) => Err(e),
                Ok((count, _)) => match parse_items::<AuthoritativeCombinedStepForAllParticipants<StepT>>(
                    data.skip(2),
                    count as nat,
                ) {
                    Err(e) => Err(e),
                    Ok((steps, m)) => Ok(((delta, steps), 2 + m)),
                },
            },
        }
    }

    fn deserialize(stream: &mut InOctetStream) -> (r: Result<Self, StreamError>) {
        let ghost start = in_remaining(*stream);
        let delta = match read_u8_checked(stream) {
            Ok(v) => v,
            Err(e) => return Err(e),
        };
        let count = match read_u8_checked(stream) {
            Ok(v) => v,
            Err(e) => return Err(e),
        };
        proof {
            lemma_skip_skip(start, 1, 1);
        }
        let steps = match read_items::<AuthoritativeCombinedStepForAllParticipants<StepT>>(count as usize, stream) {
            Ok(v) => v,
            Err(e) => return Err(e),
        };
        proof {
            let m = parse_items::<AuthoritativeCombinedStepForAllParticipants<StepT>>(
                start.skip(2),
                count as nat,
            )->Ok_0.1;
            lemma_skip_skip(start, 2, m as int);
        }
        Ok(AuthoritativeStepRange { delta_steps_from_previous: delta, authoritative_steps: steps })
    }
}

impl<StepT: Serialize + Deserialize> AuthoritativeStepRange<StepT> {
    /// The delta, the tick count (truncated to an octet), then each tick's steps.
    pub fn to_stream(&self, stream: &mut OutOctetStream)
        ensures
            out_octets(*final(stream)) == out_octets(*old(stream)) + Self::octets_of(self@),
    {
        self.serialize(stream)
    }

    /// Reads the delta, the tick count and each tick's steps.
    pub fn from_stream(stream: &mut InOctetStream) -> (r: Result<Self, StreamError>)
        ensures
            parsed_view_from(Self::parse(in_remaining(*old(stream))), r, *old(stream), *final(stream)),
    {
        Self::deserialize(stream)
    }
}

/// Ranges of authoritative ticks from a start tick.
#[derive(Debug)]
pub struct AuthoritativeStepRanges<StepT> {
    pub start_tick_id: TickId,
    pub ranges: Vec<AuthoritativeStepRange<StepT>>,
}

impl<StepT: View> View for AuthoritativeStepRanges<StepT> {
    type V = (u32, Seq<(u8, Seq<Seq<(u8, StepT::V)>>)>);

    open spec fn view(&self) -> (u32, Seq<(u8, Seq<Seq<(u8, StepT::V)>>)>) {
        (self.start_tick_id.0, views(self.ranges@))
    }
}

impl<StepT: Serialize + Deserialize> AuthoritativeStepRanges<StepT> {
    /// The octets: the start tick, the range count (truncated to an octet), then each
    /// range.
    pub open spec fn octets(v: (u32, Seq<(u8, Seq<Seq<(u8, StepT::V)>>)>)) -> Seq<u8> {
        be_u32(v.0) + seq![v.1.len() as u8] + items_octets::<AuthoritativeStepRange<StepT>>(v.1)
    }

    /// Reading the message: the start tick, the range count, then each range.
    pub open spec fn parse(data: Seq<u8>) -> Result<((u32, Seq<(u8, Seq<Seq<(u8, StepT::V)>>)>), nat), StreamError> {
        match parse_u32(data) {
            Err(e) => Err(e),
            Ok((tick, _)) => match parse_u8(data.skip(4)) {
                Err(e) => Err(e),
                Ok((count, _)) => match parse_items::<AuthoritativeStepRange<StepT>>(data.skip(5), count as nat) {
                    Err(e) => Err(e),
                    Ok((ranges, m)) => Ok(((tick, ranges), 5 + m)),
                },
            },
        }
    }

    /// Writes the start tick, the range count, then each range.
    pub fn to_stream(&self, stream: &mut OutOctetStream)
        ensures
            out_octets(*final(stream)) == out_octets(*old(stream)) + Self::octets(self@),
    {
        let ghost start = out_octets(*stream);
        write_u32(stream, self.start_tick_id.0);
        write_u8(stream, self.ranges.len() as u8);
        write_items(&self.ranges, stream);
        assert(views(self.ranges@).len() == self.ranges@.len());
        assert(out_octets(*stream) =~= start + Self::octets(self@));
    }

    /// Reads the start tick, the range count and each range.
    pub fn from_stream(stream: &mut InOctetStream) -> (r: Result<Self, StreamError>)
        ensures
            parsed_view_from(Self::parse(in_remaining(*old(stream))), r, *old(stream), *final(stream)),
    {
        let ghost start = in_remaining(*stream);
        let tick = match read_u32_checked(stream) {
            Ok(v) => v,
            Err(e) => return Err(e),
        };
        let count = match read_u8_checked(stream) {
            Ok(v) => v,
            Err(e) => return Err(e),
        };
        proof {
            lemma_skip_skip(start, 4, 1);
        }
        let ranges = match read_items::<AuthoritativeStepRange<StepT>>(count as usize, stream) {
            Ok(v) => v,
            Err(e) => return Err(e),
        };
        proof {
            let m = parse_items::<AuthoritativeStepRange<StepT>>(start.skip(5), count as nat)->Ok_0.1;
            lemma_skip_skip(start, 5, m as int);
        }
        Ok(AuthoritativeStepRanges { start_tick_id: TickId(tick), ranges })
    }
}

} // verus!
