//! A sample game: its steps (move left or right, jump, nothing), its state and how the
//! authoritative steps of a tick change it.
use vstd::prelude::*;
use flood_rs::in_stream::InOctetStream;
use flood_rs::out_stream::OutOctetStream;
use crate::stream::{
    Serialize, Deserialize, Roundtrip, StreamError, out_octets, in_remaining, be_u16, be_u32,
    u16_of, u32_of, parse_u8, write_u8, write_i16, write_i32, read_u8_checked, read_i16,
    read_i32, new_out_stream, out_stream_octets, new_in_stream, lemma_skip_skip,
    lemma_u16_roundtrip, lemma_u32_roundtrip,
};
use crate::steps::Step;
use crate::client_to_host::AuthoritativeStep;
use crate::participant::ParticipantId;

verus! {

/// A step of the sample game.
#[derive(Debug, Clone, PartialEq, Eq, Structural)]
pub enum SampleStep {
    MoveLeft(i16),
    MoveRight(i16),
    Jump,
    Nothing,
}

impl View for SampleStep {
    type V = SampleStep;

    open spec fn view(&self) -> SampleStep {
        *self
    }
}

/// The 16-bit value of two big-endian octets, as two's complement.
pub open spec fn i16_of(b0: u8, b1: u8) -> i16 {
    u16_of(b0, b1) as i16
}

impl Serialize for SampleStep {
    /// 0x00 nothing, 0x01 and the amount moving left, 0x02 and the amount moving right,
    /// 0x03 jump; amounts are two big-endian octets.
    open spec fn octets_of(v: SampleStep) -> Seq<u8> {
        match v {
            SampleStep::Nothing => seq![0x00u8],
            SampleStep::MoveLeft(a) => seq![0x01u8] + be_u16(a as u16),
            SampleStep::MoveRight(a) => seq![0x02u8] + be_u16(a as u16),
            SampleStep::Jump => seq![0x03u8],
        }
    }

    fn serialize(&self, stream: &mut OutOctetStream) {
        match self {
            SampleStep::Nothing => write_u8(stream, 0x00),
            SampleStep::MoveLeft(amount) => {
                write_u8(stream, 0x01);
                write_i16(stream, *amount);
            },
            SampleStep::MoveRight(amount) => {
                write_u8(stream, 0x02);
                write_i16(stream, *amount);
            },
            SampleStep::Jump => write_u8(stream, 0x03),
        }
        assert(out_octets(*stream) =~= out_octets(*old(stream)) + Self::octets_of(self@));
    }
}

impl Deserialize for SampleStep {
    /// A kind octet, then the amount for moves; a kind octet above 0x03 is refused.
    open spec fn parse(data: Seq<u8>) -> Result<(SampleStep, nat), StreamError> {
        match parse_u8(data) {
            Err(e) => Err(e),
            Ok((kind, _)) => if kind == 0x00 {
                Ok((SampleStep::Nothing, 1))
            } else if kind == 0x01 || kind == 0x02 {
                if data.len() >= 3 {
                    let a = i16_of(data[1], data[2]);
                    Ok((if kind == 0x01 { SampleStep::MoveLeft(a) } else { SampleStep::MoveRight(a) }, 3))
                } else {
                    Err(StreamError::UnexpectedEnd)
                }
            } else if kind == 0x03 {
                Ok((SampleStep::Jump, 1))
            } else {
                Err(StreamError::UnknownValue(kind))
            },
        }
    }

    fn deserialize(stream: &mut InOctetStream) -> (r: Result<SampleStep, StreamError>) {
        let ghost start = in_remaining(*stream);
        let octet = match read_u8_checked(stream) {
            Ok(v) => v,
            Err(e) => return Err(e),
        };
        if octet == 0x00 {
            Ok(SampleStep::Nothing)
        } else if octet == 0x01 || octet == 0x02 {
            let amount = match read_i16(stream) {
                Some(v) => v,
                None => return Err(StreamError::UnexpectedEnd),
            };
            proof {
                lemma_skip_skip(start, 1, 2);
            }
            if octet == 0x01 {
                Ok(SampleStep::MoveLeft(amount))
            } else {
                Ok(SampleStep::MoveRight(amount))
            }
        } else if octet == 0x03 {
            Ok(SampleStep::Jump)
        } else {
            Err(StreamError::UnknownValue(octet))
        }
    }
}

impl Roundtrip for SampleStep {
    open spec fn encodable(v: SampleStep) -> bool {
        true
    }

    proof fn lemma_roundtrip(v: SampleStep, rest: Seq<u8>) {
        let d = Self::octets_of(v) + rest;
        match v {
            SampleStep::MoveLeft(a) => {
                lemma_u16_roundtrip(a as u16);
                assert(d[1] == ((a as u16) >> 8u16) as u8 && d[2] == (a as u16) as u8);
                assert(((a as u16) as i16) == a) by (bit_vector);
            },
            SampleStep::MoveRight(a) => {
                lemma_u16_roundtrip(a as u16);
                assert(d[1] == ((a as u16) >> 8u16) as u8 && d[2] == (a as u16) as u8);
                assert(((a as u16) as i16) == a) by (bit_vector);
            },
            _ => {},
        }
    }
}

/// The state of the sample game: a position.
#[derive(Debug, Clone, Copy, PartialEq, Eq, Structural, Default)]
pub struct SampleState {
    pub x: i32,
    pub y: i32,
}

/// The position after one participant's step: moves change x by the amount, a jump and
/// a forced step raise y by one, anything else changes nothing.
pub open spec fn step_effect(x: int, y: int, step: Step<SampleStep>) -> (int, int) {
    match step {
        Step::Custom(SampleStep::MoveLeft(a)) => (x - a, y),
        Step::Custom(SampleStep::MoveRight(a)) => (x + a, y),
        Step::Custom(SampleStep::Jump) => (x, y + 1),
        Step::Forced => (x, y + 1),
        _ => (x, y),
    }
}

/// The position after the participants' steps, in order.
pub open spec fn after_steps(x: int, y: int, steps: Seq<Step<SampleStep>>) -> (int, int)
    decreases steps.len(),
{
    if steps.len() == 0 {
        (x, y)
    } else {
        let p = after_steps(x, y, steps.drop_last());
        step_effect(p.0, p.1, steps.last())
    }
}

/// How far a step moves the position along x: right by a move right's amount, left by
/// a move left's amount, not at all otherwise.
pub open spec fn x_shift(step: Step<SampleStep>) -> int {
    match step {
        Step::Custom(SampleStep::MoveLeft(a)) => -(a as int),
        Step::Custom(SampleStep::MoveRight(a)) => a as int,
        _ => 0,
    }
}

/// Whether a step raises the position by one: a jump or a forced step.
pub open spec fn is_lift(step: Step<SampleStep>) -> bool {
    step == Step::<SampleStep>::Custom(SampleStep::Jump) || step == Step::<SampleStep>::Forced
}

/// The sum of the steps' shifts along x.
pub open spec fn total_shift(steps: Seq<Step<SampleStep>>) -> int
    decreases steps.len(),
{
    if steps.len() == 0 {
        0
    } else {
        total_shift(steps.drop_last()) + x_shift(steps.last())
    }
}

/// How many of the steps are jumps or forced steps.
pub open spec fn lift_count(steps: Seq<Step<SampleStep>>) -> nat
    decreases steps.len(),
{
    if steps.len() == 0 {
        0
    } else {
        lift_count(steps.drop_last()) + if is_lift(steps.last()) { 1nat } else { 0nat }
    }
}

/// The position after a tick's steps is the start moved along x by the sum of the moves
/// (right minus left) and raised by the number of jumps and forced steps; no other step
/// moves it.
pub proof fn lemma_after_steps_counts(x: int, y: int, steps: Seq<Step<SampleStep>>)
    ensures
        after_steps(x, y, steps) == (x + total_shift(steps), y + lift_count(steps)),
    decreases steps.len(),
{
    if steps.len() > 0 {
        lemma_after_steps_counts(x, y, steps.drop_last());
    }
}

/// A `Nothing` step, or a step that is neither custom nor forced, leaves the position
/// where it was; a jump or a forced step raises it by one and keeps x; a move keeps y and
/// shifts x by its amount.
pub proof fn lemma_one_more_step(x: int, y: int, steps: Seq<Step<SampleStep>>, step: Step<SampleStep>)
    ensures
        ({
            let before = after_steps(x, y, steps);
            let after = after_steps(x, y, steps.push(step));
            &&& step == Step::<SampleStep>::Custom(SampleStep::Nothing) ==> after == before
            &&& (step matches Step::Custom(_)) || step is Forced || after == before
            &&& is_lift(step) ==> after == (before.0, before.1 + 1)
            &&& step matches Step::Custom(SampleStep::MoveLeft(a)) ==> after == (before.0 - a, before.1)
            &&& step matches Step::Custom(SampleStep::MoveRight(a)) ==> after == (before.0 + a, before.1)
        }),
{
    assert(steps.push(step).drop_last() =~= steps);
}

/// A tick in which every step is `Nothing` leaves the position where it was.
pub proof fn lemma_idle_tick(x: int, y: int, steps: Seq<Step<SampleStep>>)
    requires
        forall|i: int| 0 <= i < steps.len() ==> steps[i] == Step::<SampleStep>::Custom(SampleStep::Nothing),
    ensures
        after_steps(x, y, steps) == (x, y),
    decreases steps.len(),
{
    if steps.len() > 0 {
        lemma_idle_tick(x, y, steps.drop_last());
    }
}

/// Both coordinates fit 32 bits.
pub open spec fn fits_i32(p: (int, int)) -> bool {
    i32::MIN <= p.0 <= i32::MAX && i32::MIN <= p.1 <= i32::MAX
}

/// The steps of a tick's entries.
pub open spec fn entry_steps(entries: Seq<(ParticipantId, Step<SampleStep>)>) -> Seq<Step<SampleStep>> {
    entries.map_values(|e: (ParticipantId, Step<SampleStep>)| e.1)
}

/// The eight octets of a state: x then y, each four big-endian octets.
pub open spec fn state_octets(s: SampleState) -> Seq<u8> {
    be_u32(s.x as u32) + be_u32(s.y as u32)
}

impl SampleState {
    /// Applies every participant's step of the tick, in order. The position must stay
    /// within 32 bits after each step (the arithmetic panics otherwise).
    pub fn update(&mut self, step: &AuthoritativeStep<Step<SampleStep>>)
        requires
            forall|k: int|
                0 <= k <= step.authoritative_participants@.len() ==> fits_i32(
                    #[trigger] after_steps(
                        old(self).x as int,
                        old(self).y as int,
                        entry_steps(step.authoritative_participants@).take(k),
                    ),
                ),
        ensures
            (final(self).x as int, final(self).y as int) == after_steps(
                old(self).x as int,
                old(self).y as int,
                entry_steps(step.authoritative_participants@),
            ),
    {
        let entries = &step.authoritative_participants;
        let ghost steps = entry_steps(entries@);
        let mut i: usize = 0;
        assert(steps.take(0) =~= Seq::<Step<SampleStep>>::empty());
        while i < entries.len()
            invariant
                i <= entries@.len(),
                steps == entry_steps(entries@),
                steps.len() == entries@.len(),
                forall|k: int|
                    0 <= k <= entries@.len() ==> fits_i32(
                        #[trigger] after_steps(old(self).x as int, old(self).y as int, steps.take(k)),
                    ),
                (self.x as int, self.y as int) == after_steps(old(self).x as int, old(self).y as int, steps.take(i as int)),
            decreases entries@.len() - i,
        {
            proof {
                assert(steps.take(i + 1).drop_last() =~= steps.take(i as int));
                assert(steps.take(i + 1).last() == entries@[i as int].1);
                assert(fits_i32(after_steps(old(self).x as int, old(self).y as int, steps.take(i + 1))));
            }
            match &entries[i].1 {
                Step::Custom(custom) => match custom {
                    SampleStep::MoveLeft(amount) => self.x = self.x - *amount as i32,
                    SampleStep::MoveRight(amount) => self.x = self.x + *amount as i32,
                    SampleStep::Jump => self.y = self.y + 1,
                    SampleStep::Nothing => {},
                },
                Step::Forced => self.y = self.y + 1,
                _ => {},
            }
            i = i + 1;
        }
        assert(steps.take(entries@.len() as int) =~= steps);
    }

    /// Whether `update` with the tick's steps keeps the position within 32 bits after
    /// each step.
    pub fn can_update(&self, step: &AuthoritativeStep<Step<SampleStep>>) -> (b: bool)
        ensures
            b <==> forall|k: int|
                0 <= k <= step.authoritative_participants@.len() ==> fits_i32(
                    #[trigger] after_steps(self.x as int, self.y as int, entry_steps(step.authoritative_participants@).take(k)),
                ),
    {
        let entries = &step.authoritative_participants;
        let ghost steps = entry_steps(entries@);
        let mut x: i64 = self.x as i64;
        let mut y: i64 = self.y as i64;
        let mut i: usize = 0;
        assert(steps.take(0) =~= Seq::<Step<SampleStep>>::empty());
        while i < entries.len()
            invariant
                i <= entries@.len(),
                entries@ == step.authoritative_participants@,
                steps == entry_steps(entries@),
                steps.len() == entries@.len(),
                forall|k: int| 0 <= k <= i ==> fits_i32(#[trigger] after_steps(self.x as int, self.y as int, steps.take(k))),
                (x as int, y as int) == after_steps(self.x as int, self.y as int, steps.take(i as int)),
            decreases entries@.len() - i,
        {
            proof {
                assert(steps.take(i + 1).drop_last() =~= steps.take(i as int));
                assert(steps.take(i + 1).last() == entries@[i as int].1);
            }
            match &entries[i].1 {
                Step::Custom(custom) => match custom {
                    SampleStep::MoveLeft(amount) => x = x - *amount as i64,
                    SampleStep::MoveRight(amount) => x = x + *amount as i64,
                    SampleStep::Jump => y = y + 1,
                    SampleStep::Nothing => {},
                },
                Step::Forced => y = y + 1,
                _ => {},
            }
            if x < i32::MIN as i64 || x > i32::MAX as i64 || y < i32::MIN as i64 || y > i32::MAX as i64 {
                proof {
                    assert((x as int, y as int) == after_steps(self.x as int, self.y as int, steps.take(i + 1)));
                    assert(!fits_i32(after_steps(self.x as int, self.y as int, steps.take(i + 1))));
                }
                return false;
            }
            i = i + 1;
            proof {
                assert forall|k: int| 0 <= k <= i implies fits_i32(#[trigger] after_steps(self.x as int, self.y as int, steps.take(k))) by {
                    if k == i {
                    }
                }
            }
        }
        assert(steps.take(entries@.len() as int) =~= steps);
        true
    }

    /// The state's eight octets.
    pub fn to_octets(&self) -> (r: Result<Vec<u8>, StreamError>)
        ensures
            r matches Ok(v) && v@ == state_octets(*self),
    {
        let mut out = new_out_stream();
        write_i32(&mut out, self.x);
        write_i32(&mut out, self.y);
        assert(out_octets(out) =~= state_octets(*self));
        Ok(out_stream_octets(&out))
    }

    /// Reads x and y, four big-endian octets each; fewer than eight octets are refused.
    pub fn from_octets(payload: &[u8]) -> (r: Result<SampleState, StreamError>)
        ensures
            payload@.len() >= 8 ==> r == Ok::<SampleState, StreamError>(
                SampleState {
                    x: u32_of(payload@[0], payload@[1], payload@[2], payload@[3]) as i32,
                    y: u32_of(payload@[4], payload@[5], payload@[6], payload@[7]) as i32,
                },
            ),
            payload@.len() < 8 ==> r == Err::<SampleState, StreamError>(StreamError::UnexpectedEnd),
    {
        let mut in_stream = new_in_stream(payload);
        let x = match read_i32(&mut in_stream) {
            Some(v) => v,
            None => return Err(StreamError::UnexpectedEnd),
        };
        let y = match read_i32(&mut in_stream) {
            Some(v) => v,
            None => return Err(StreamError::UnexpectedEnd),
        };
        Ok(SampleState { x, y })
    }

    /// Reading the octets of a state gives it back.
    pub proof fn lemma_octets_roundtrip(self)
        ensures
            ({
                let d = state_octets(self);
                u32_of(d[0], d[1], d[2], d[3]) as i32 == self.x && u32_of(d[4], d[5], d[6], d[7]) as i32 == self.y
            }),
    {
        let x = self.x;
        let y = self.y;
        lemma_u32_roundtrip(x as u32);
        lemma_u32_roundtrip(y as u32);
        assert(((x as u32) as i32) == x) by (bit_vector);
        assert(((y as u32) as i32) == y) by (bit_vector);
    }
}

impl View for SampleState {
    type V = SampleState;

    open spec fn view(&self) -> SampleState {
        *self
    }
}

impl Serialize for SampleState {
    open spec fn octets_of(v: SampleState) -> Seq<u8> {
        state_octets(v)
    }

    fn serialize(&self, stream: &mut OutOctetStream) {
        write_i32(stream, self.x);
        write_i32(stream, self.y);
        assert(out_octets(*stream) =~= out_octets(*old(stream)) + state_octets(*self));
    }
}

impl Deserialize for SampleState {
    open spec fn parse(data: Seq<u8>) -> Result<(SampleState, nat), StreamError> {
        if data.len() >= 8 {
            Ok(
                (
                    SampleState {
                        x: u32_of(data[0], data[1], data[2], data[3]) as i32,
                        y: u32_of(data[4], data[5], data[6], data[7]) as i32,
                    },
                    8,
                ),
            )
        } else {
            Err(StreamError::UnexpectedEnd)
        }
    }

    fn deserialize(stream: &mut InOctetStream) -> (r: Result<SampleState, StreamError>) {
        let ghost start = in_remaining(*stream);
        let x = match read_i32(stream) {
            Some(v) => v,
            None => return Err(StreamError::UnexpectedEnd),
        };
        let y = match read_i32(stream) {
            Some(v) => v,
            None => return Err(StreamError::UnexpectedEnd),
        };
        proof {
            lemma_skip_skip(start, 4, 4);
        }
        Ok(SampleState { x, y })
    }
}

/// The sample game: a predicted and an authoritative state.
#[derive(Debug, Clone, Copy, PartialEq, Eq, Structural, Default)]
pub struct SampleGame {
    pub predicted: SampleState,
    pub authoritative: SampleState,
}

impl SampleGame {
    /// The octets of the authoritative state.
    pub fn authoritative_octets(&self) -> (r: Result<Vec<u8>, StreamError>)
        ensures
            r matches Ok(v) && v@ == state_octets(self.authoritative),
    {
        self.authoritative.to_octets()
    }
}

impl View for SampleGame {
    type V = SampleGame;

    open spec fn view(&self) -> SampleGame {
        *self
    }
}

impl Serialize for SampleGame {
    /// Only the authoritative state is written.
    open spec fn octets_of(v: SampleGame) -> Seq<u8> {
        state_octets(v.authoritative)
    }

    fn serialize(&self, stream: &mut OutOctetStream) {
        self.authoritative.serialize(stream);
    }
}

impl Deserialize for SampleGame {
    /// The authoritative state is read; the predicted state starts at the origin.
    open spec fn parse(data: Seq<u8>) -> Result<(SampleGame, nat), StreamError> {
        match SampleState::parse(data) {
            Err(e) => Err(e),
            Ok((a, n)) => Ok((SampleGame { predicted: SampleState { x: 0, y: 0 }, authoritative: a }, n)),
        }
    }

    fn deserialize(stream: &mut InOctetStream) -> (r: Result<SampleGame, StreamError>) {
        match SampleState::deserialize(stream) {
            Ok(a) => Ok(SampleGame { predicted: SampleState { x: 0, y: 0 }, authoritative: a }),
            Err(e) => Err(e),
        }
    }
}

} // verus!
