//! Steps: the per-tick inputs of a deterministic simulation, and a queue that stamps
//! each pushed step with consecutive tick ids.
use vstd::prelude::*;
use std::collections::VecDeque;
use flood_rs::in_stream::InOctetStream;
use flood_rs::out_stream::OutOctetStream;
use crate::stream::{
    Serialize, Deserialize, Roundtrip, StreamError, out_octets, in_remaining, parsed_view_from,
    be_u32, parse_u8, parse_u32, write_u8, write_u32, write_octets, read_u8_checked,
    read_u32_checked, read_octets, lemma_skip_skip, lemma_skip_prefix, lemma_parse_u32_be,
};
use crate::tick::TickId;

verus! {

/// A step that is an opaque octet payload, written after its length as one octet.
#[derive(Debug)]
pub struct GenericOctetStep {
    pub payload: Vec<u8>,
}

impl View for GenericOctetStep {
    type V = Seq<u8>;

    open spec fn view(&self) -> Seq<u8> {
        self.payload@
    }
}

impl Serialize for GenericOctetStep {
    /// The payload length as one octet (truncated), then the payload.
    open spec fn octets_of(v: Seq<u8>) -> Seq<u8> {
        seq![v.len() as u8] + v
    }

    fn serialize(&self, stream: &mut OutOctetStream) {
        write_u8(stream, self.payload.len() as u8);
        write_octets(stream, self.payload.as_slice());
        assert(out_octets(*stream) =~= out_octets(*old(stream)) + Self::octets_of(self@));
    }
}

impl Deserialize for GenericOctetStep {
    /// A length octet, then that many payload octets.
    open spec fn parse(data: Seq<u8>) -> Result<(Seq<u8>, nat), StreamError> {
        match parse_u8(data) {
            Err(e) => Err(e),
            Ok((len, n)) => if data.len() >= n + len {
                Ok((data.subrange(1, 1 + len), (n + len) as nat))
            } else {
                Err(StreamError::UnexpectedEnd)
            },
        }
    }

    fn deserialize(stream: &mut InOctetStream) -> (r: Result<GenericOctetStep, StreamError>) {
        let ghost start = in_remaining(*stream);
        let len = match read_u8_checked(stream) {
            Ok(l) => l,
            Err(e) => return Err(e),
        };
        match read_octets(stream, len as usize) {
            Some(payload) => {
                proof {
                    lemma_skip_skip(start, 1, len as int);
                    assert(payload@ =~= start.subrange(1, 1 + len));
                }
                Ok(GenericOctetStep { payload })
            },
            None => Err(StreamError::UnexpectedEnd),
        }
    }
}

impl Roundtrip for GenericOctetStep {
    open spec fn encodable(v: Seq<u8>) -> bool {
        v.len() <= 255
    }

    proof fn lemma_roundtrip(v: Seq<u8>, rest: Seq<u8>) {
        let d = Self::octets_of(v) + rest;
        assert(d[0] == v.len() as u8);
        assert(d.subrange(1, 1 + v.len() as int) =~= v);
    }
}

/// A participant joined at a tick.
#[derive(Debug, Clone, Copy, PartialEq, Eq, Structural)]
pub struct JoinedData {
    pub tick_id: TickId,
}

impl View for JoinedData {
    type V = JoinedData;

    open spec fn view(&self) -> JoinedData {
        *self
    }
}

impl Serialize for JoinedData {
    /// The tick id as four big-endian octets.
    open spec fn octets_of(v: JoinedData) -> Seq<u8> {
        be_u32(v.tick_id.0)
    }

    fn serialize(&self, stream: &mut OutOctetStream) {
        write_u32(stream, self.tick_id.0);
    }
}

impl Deserialize for JoinedData {
    open spec fn parse(data: Seq<u8>) -> Result<(JoinedData, nat), StreamError> {
        match parse_u32(data) {
            Err(e) => Err(e),
            Ok((t, n)) => Ok((JoinedData { tick_id: TickId(t) }, n)),
        }
    }

    fn deserialize(stream: &mut InOctetStream) -> (r: Result<JoinedData, StreamError>) {
        match read_u32_checked(stream) {
            Ok(t) => Ok(JoinedData { tick_id: TickId(t) }),
            Err(e) => Err(e),
        }
    }
}

impl Roundtrip for JoinedData {
    open spec fn encodable(v: JoinedData) -> bool {
        true
    }

    proof fn lemma_roundtrip(v: JoinedData, rest: Seq<u8>) {
        lemma_parse_u32_be(v.tick_id.0, rest);
    }
}

/// What a participant does in one tick: a custom step, or one of the steps that the
/// host inserts itself.
#[derive(Debug, Clone, PartialEq, Eq)]
pub enum Step<T> {
    /// The host had no step from the participant in time.
    Forced,
    WaitingForReconnect,
    Joined(JoinedData),
    Left,
    Custom(T),
}

impl<T: View> View for Step<T> {
    type V = Step<T::V>;

    open spec fn view(&self) -> Step<T::V> {
        match self {
            Step::Forced => Step::Forced,
            Step::WaitingForReconnect => Step::WaitingForReconnect,
            Step::Joined(j) => Step::Joined(*j),
            Step::Left => Step::Left,
            Step::Custom(t) => Step::Custom(t@),
        }
    }
}

/// The kind octet of a step: 0x01 forced, 0x02 waiting for reconnect, 0x03 joined,
/// 0x04 left, 0x05 custom.
pub open spec fn step_octet<T>(step: Step<T>) -> u8 {
    match step {
        Step::Forced => 0x01,
        Step::WaitingForReconnect => 0x02,
        Step::Joined(_) => 0x03,
        Step::Left => 0x04,
        Step::Custom(_) => 0x05,
    }
}

impl<T> Step<T> {
    /// The kind octet of the step.
    pub fn to_octet(&self) -> (o: u8)
        ensures
            o == step_octet(*self),
    {
        match self {
            Step::Forced => 0x01,
            Step::WaitingForReconnect => 0x02,
            Step::Joined(_) => 0x03,
            Step::Left => 0x04,
            Step::Custom(_) => 0x05,
        }
    }
}

impl<T: Serialize> Serialize for Step<T> {
    /// The kind octet, then the joined tick or the custom step.
    open spec fn octets_of(v: Step<T::V>) -> Seq<u8> {
        seq![step_octet(v)] + match v {
            Step::Joined(j) => JoinedData::octets_of(j),
            Step::Custom(c) => T::octets_of(c),
            _ => Seq::<u8>::empty(),
        }
    }

    fn serialize(&self, stream: &mut OutOctetStream) {
        write_u8(stream, self.to_octet());
        match self {
            Step::Joined(join) => join.serialize(stream),
            Step::Custom(custom) => custom.serialize(stream),
            _ => {},
        }
        assert(out_octets(*stream) =~= out_octets(*old(stream)) + Self::octets_of(self@));
    }
}

impl<T: Deserialize> Deserialize for Step<T> {
    /// A kind octet, then the joined tick or the custom step; an unknown kind octet is
    /// refused.
    open spec fn parse(data: Seq<u8>) -> Result<(Step<T::V>, nat), StreamError> {
        match parse_u8(data) {
            Err(e) => Err(e),
            Ok((kind, n)) => {
                let rest = data.skip(n as int);
                if kind == 0x01 {
                    Ok((Step::Forced, n))
                } else if kind == 0x02 {
                    Ok((Step::WaitingForReconnect, n))
                } else if kind == 0x03 {
                    match JoinedData::parse(rest) {
                        Err(e) => Err(e),
                        Ok((j, m)) => Ok((Step::Joined(j), n + m)),
                    }
                } else if kind == 0x04 {
                    Ok((Step::Left, n))
                } else if kind == 0x05 {
                    match T::parse(rest) {
                        Err(e) => Err(e),
                        Ok((c, m)) => Ok((Step::Custom(c), n + m)),
                    }
                } else {
                    Err(StreamError::UnknownValue(kind))
                }
            },
        }
    }

    fn deserialize(stream: &mut InOctetStream) -> (r: Result<Step<T>, StreamError>) {
        let ghost start = in_remaining(*stream);
        let kind = match read_u8_checked(stream) {
            Ok(k) => k,
            Err(e) => return Err(e),
        };
        if kind == 0x01 {
            Ok(Step::Forced)
        } else if kind == 0x02 {
            Ok(Step::WaitingForReconnect)
        } else if kind == 0x03 {
            match JoinedData::deserialize(stream) {
                Ok(j) => {
                    proof {
                        lemma_skip_skip(start, 1, 4);
                    }
                    Ok(Step::Joined(j))
                },
                Err(e) => Err(e),
            }
        } else if kind == 0x04 {
            Ok(Step::Left)
        } else if kind == 0x05 {
            let ghost here = in_remaining(*stream);
            match T::deserialize(stream) {
                Ok(c) => {
                    proof {
                        lemma_skip_skip(start, 1, T::parse(here)->Ok_0.1 as int);
                    }
                    Ok(Step::Custom(c))
                },
                Err(e) => Err(e),
            }
        } else {
            Err(StreamError::UnknownValue(kind))
        }
    }
}

impl<T: Roundtrip> Roundtrip for Step<T> {
    open spec fn encodable(v: Step<T::V>) -> bool {
        match v {
            Step::Custom(c) => T::encodable(c),
            _ => true,
        }
    }

    proof fn lemma_roundtrip(v: Step<T::V>, rest: Seq<u8>) {
        let body = match v {
            Step::Joined(j) => JoinedData::octets_of(j),
            Step::Custom(c) => T::octets_of(c),
            _ => Seq::<u8>::empty(),
        };
        let d = Self::octets_of(v) + rest;
        assert(d =~= seq![step_octet(v)] + (body + rest));
        lemma_skip_prefix(seq![step_octet(v)], body + rest);
        match v {
            Step::Joined(j) => JoinedData::lemma_roundtrip(j, rest),
            Step::Custom(c) => T::lemma_roundtrip(c, rest),
            _ => {
                assert(body + rest =~= rest);
            },
        }
    }
}

/// A step and the tick it belongs to.
#[derive(Debug, PartialEq)]
pub struct StepInfo<T> {
    pub step: T,
    pub tick_id: TickId,
}

impl<T: Clone> Clone for StepInfo<T> {
    /// A copy with the same tick id and a clone of the step.
    fn clone(&self) -> (r: Self)
        ensures
            r.tick_id == self.tick_id,
            cloned(self.step, r.step),
    {
        StepInfo { step: self.step.clone(), tick_id: self.tick_id }
    }
}

/// The largest tick id.
pub const TICK_ID_MAX: u32 = u32::MAX;

/// A queue of steps for consecutive ticks: each pushed step gets the next write tick
/// id; steps leave from the front.
#[derive(Debug)]
pub struct Steps<T> {
    steps: VecDeque<StepInfo<T>>,
    expected_read_id: TickId,
    expected_write_id: TickId,
}

impl<T> Steps<T> {
    /// The queued steps, front first.
    pub closed spec fn infos(&self) -> Seq<StepInfo<T>> {
        self.steps@
    }

    /// The tick id that the next popped step must have.
    pub closed spec fn read_id(&self) -> u32 {
        self.expected_read_id.0
    }

    /// The tick id that the next pushed step gets.
    pub closed spec fn write_id(&self) -> u32 {
        self.expected_write_id.0
    }

    /// The queued steps have consecutive tick ids ending just before the write id.
    pub open spec fn wf(&self) -> bool {
        forall|i: int|
            0 <= i < self.infos().len() ==> #[trigger] self.infos()[i].tick_id.0 + self.infos().len()
                == self.write_id() + i
    }

    /// An empty queue that starts at tick 0.
    pub fn new() -> (s: Self)
        ensures
            s.infos() == Seq::<StepInfo<T>>::empty(),
            s.read_id() == 0,
            s.write_id() == 0,
            s.wf(),
    {
        Steps { steps: VecDeque::new(), expected_read_id: TickId(0), expected_write_id: TickId(0) }
    }

    /// Empties the queue and starts again at tick 0.
    pub fn clear(&mut self)
        ensures
            final(self).infos() == Seq::<StepInfo<T>>::empty(),
            final(self).read_id() == 0,
            final(self).write_id() == 0,
            final(self).wf(),
    {
        self.steps.clear();
        self.expected_read_id = TickId(0);
        self.expected_write_id = TickId(0);
    }

    /// An empty queue that starts at `initial_tick_id`.
    pub fn new_with_initial_tick(initial_tick_id: TickId) -> (s: Self)
        ensures
            s.infos() == Seq::<StepInfo<T>>::empty(),
            s.read_id() == initial_tick_id.0,
            s.write_id() == initial_tick_id.0,
            s.wf(),
    {
        Steps {
            steps: VecDeque::new(),
            expected_read_id: initial_tick_id,
            expected_write_id: initial_tick_id,
        }
    }

    /// Queues `step` for the write tick and moves the write tick on (the tick id
    /// arithmetic panics at the largest tick id).
    pub fn push(&mut self, step: T)
        requires
            old(self).write_id() < u32::MAX,
        ensures
            final(self).infos() == old(self).infos().push(
                StepInfo { step, tick_id: TickId(old(self).write_id()) },
            ),
            final(self).write_id() == old(self).write_id() + 1,
            final(self).read_id() == old(self).read_id(),
            old(self).wf() ==> final(self).wf(),
    {
        let info = StepInfo { step, tick_id: self.expected_write_id };
        self.steps.push_back(info);
        self.expected_write_id = TickId(self.expected_write_id.0 + 1);
        proof {
            if old(self).wf() {
                assert forall|i: int| 0 <= i < self.infos().len() implies #[trigger] self.infos()[i].tick_id.0
                    + self.infos().len() == self.write_id() + i by {
                    if i < old(self).infos().len() {
                        assert(self.infos()[i] == old(self).infos()[i]);
                    }
                }
            }
        }
    }

    /// The step at `index` from the front, if there is one.
    pub fn debug_get(&self, index: usize) -> (r: Option<&StepInfo<T>>)
        ensures
            index < self.infos().len() ==> r == Some(&self.infos()[index as int]),
            index >= self.infos().len() ==> r is None,
    {
        if index < self.steps.len() {
            Some(&self.steps[index])
        } else {
            None
        }
    }

    /// Takes the front step, which must be for the read tick, and moves the read tick
    /// on.
    pub fn pop(&mut self) -> (r: Option<StepInfo<T>>)
        requires
            old(self).wf(),
            old(self).infos().len() > 0 ==> old(self).infos()[0].tick_id.0 == old(self).read_id(),
        ensures
            old(self).infos().len() == 0 ==> r is None && final(self).infos() == old(self).infos()
                && final(self).read_id() == old(self).read_id() && final(self).write_id()
                == old(self).write_id(),
            old(self).infos().len() > 0 ==> r == Some(old(self).infos()[0]) && final(self).infos()
                == old(self).infos().skip(1) && final(self).read_id() == old(self).read_id() + 1
                && final(self).write_id() == old(self).write_id(),
            final(self).wf(),
    {
        let info = self.steps.pop_front();
        if let Some(ref step_info) = info {
            proof {
                assert(self.infos() =~= old(self).infos().skip(1));
                assert(old(self).infos()[0].tick_id.0 + old(self).infos().len() == self.write_id());
            }
            self.expected_read_id = TickId(self.expected_read_id.0 + 1);
            proof {
                assert forall|i: int| 0 <= i < self.infos().len() implies #[trigger] self.infos()[i].tick_id.0
                    + self.infos().len() == self.write_id() + i by {
                    assert(self.infos()[i] == old(self).infos()[i + 1]);
                }
            }
        }
        info
    }

    /// Drops the front steps whose tick is before `tick_id` (the read tick stays).
    pub fn pop_up_to(&mut self, tick_id: TickId)
        ensures
            exists|k: int|
                0 <= k <= old(self).infos().len() && final(self).infos() == old(self).infos().skip(k)
                    && (forall|j: int| 0 <= j < k ==> (#[trigger] old(self).infos()[j]).tick_id.0 < tick_id.0)
                    && (k < old(self).infos().len() ==> old(self).infos()[k].tick_id.0 >= tick_id.0),
            final(self).read_id() == old(self).read_id(),
            final(self).write_id() == old(self).write_id(),
            old(self).wf() ==> final(self).wf(),
    {
        let ghost mut k: int = 0;
        while self.steps.len() > 0
            invariant
                0 <= k <= old(self).infos().len(),
                self.infos() == old(self).infos().skip(k),
                forall|j: int| 0 <= j < k ==> (#[trigger] old(self).infos()[j]).tick_id.0 < tick_id.0,
                self.read_id() == old(self).read_id(),
                self.write_id() == old(self).write_id(),
            ensures
                0 <= k <= old(self).infos().len(),
                self.infos() == old(self).infos().skip(k),
                forall|j: int| 0 <= j < k ==> (#[trigger] old(self).infos()[j]).tick_id.0 < tick_id.0,
                k < old(self).infos().len() ==> old(self).infos()[k].tick_id.0 >= tick_id.0,
                self.read_id() == old(self).read_id(),
                self.write_id() == old(self).write_id(),
            decreases self.infos().len(),
        {
            if self.steps[0].tick_id.0 >= tick_id.0 {
                break;
            }
            self.steps.pop_front();
            proof {
                assert(old(self).infos()[k].tick_id.0 < tick_id.0);
                k = k + 1;
                assert(self.infos() =~= old(self).infos().skip(k));
            }
        }
        proof {
            if old(self).wf() {
                assert forall|i: int| 0 <= i < self.infos().len() implies #[trigger] self.infos()[i].tick_id.0
                    + self.infos().len() == self.write_id() + i by {
                    assert(self.infos()[i] == old(self).infos()[i + k]);
                }
            }
        }
    }

    /// Drops the first `count` steps, or all of them (the tick ids stay).
    pub fn pop_count(&mut self, count: usize)
        ensures
            count >= old(self).infos().len() ==> final(self).infos() == Seq::<StepInfo<T>>::empty(),
            count < old(self).infos().len() ==> final(self).infos() == old(self).infos().skip(
                count as int,
            ),
            final(self).read_id() == old(self).read_id(),
            final(self).write_id() == old(self).write_id(),
            old(self).wf() ==> final(self).wf(),
    {
        if count >= self.steps.len() {
            self.steps.clear();
        } else {
            let mut i: usize = 0;
            while i < count
                invariant
                    i <= count,
                    count < old(self).infos().len(),
                    self.infos() == old(self).infos().skip(i as int),
                    self.read_id() == old(self).read_id(),
                    self.write_id() == old(self).write_id(),
                decreases count - i,
            {
                self.steps.pop_front();
                i = i + 1;
                assert(self.infos() =~= old(self).infos().skip(i as int));
            }
            proof {
                if old(self).wf() {
                    assert forall|j: int| 0 <= j < self.infos().len() implies #[trigger] self.infos()[j].tick_id.0
                        + self.infos().len() == self.write_id() + j by {
                        assert(self.infos()[j] == old(self).infos()[j + count]);
                    }
                }
            }
        }
    }

    /// The tick id of the front step.
    pub fn front_tick_id(&self) -> (r: Option<TickId>)
        ensures
            self.infos().len() > 0 ==> r == Some(self.infos()[0].tick_id),
            self.infos().len() == 0 ==> r is None,
    {
        if self.steps.len() > 0 {
            Some(self.steps[0].tick_id)
        } else {
            None
        }
    }

    /// The tick id of the back step.
    pub fn back_tick_id(&self) -> (r: Option<TickId>)
        ensures
            self.infos().len() > 0 ==> r == Some(self.infos().last().tick_id),
            self.infos().len() == 0 ==> r is None,
    {
        let len = self.steps.len();
        if len > 0 {
            Some(self.steps[len - 1].tick_id)
        } else {
            None
        }
    }

    /// The number of queued steps.
    pub fn len(&self) -> (n: usize)
        ensures
            n == self.infos().len(),
    {
        self.steps.len()
    }

    /// Whether no step is queued.
    pub fn is_empty(&self) -> (b: bool)
        ensures
            b == (self.infos().len() == 0),
    {
        self.steps.len() == 0
    }

    /// A cursor over the queued steps starting at `start_index`.
    pub fn iter_index(&self, start_index: usize) -> (it: FromIndexIterator<'_, T>)
        ensures
            start_index <= self.infos().len() ==> it.remaining_infos() == self.infos().skip(
                start_index as int,
            ),
            start_index > self.infos().len() ==> it.remaining_infos() == Seq::<StepInfo<T>>::empty(),
    {
        FromIndexIterator::new(&self.steps, start_index)
    }
}

/// A cursor over queued steps that hands out copies.
pub struct FromIndexIterator<'a, T> {
    deque: &'a VecDeque<StepInfo<T>>,
    start_index: usize,
    current_index: usize,
}

impl<'a, T> FromIndexIterator<'a, T> {
    /// The steps not handed out yet.
    pub closed spec fn remaining_infos(&self) -> Seq<StepInfo<T>> {
        if self.current_index <= self.deque@.len() {
            self.deque@.skip(self.current_index as int)
        } else {
            Seq::empty()
        }
    }

    pub fn new(deque: &'a VecDeque<StepInfo<T>>, start_index: usize) -> (it: Self)
        ensures
            start_index <= deque@.len() ==> it.remaining_infos() == deque@.skip(start_index as int),
            start_index > deque@.len() ==> it.remaining_infos() == Seq::<StepInfo<T>>::empty(),
    {
        FromIndexIterator { deque, start_index, current_index: start_index }
    }
}

impl<'a, T: Clone> FromIndexIterator<'a, T> {
    /// A copy of the next step, if any is left.
    pub fn next(&mut self) -> (r: Option<StepInfo<T>>)
        ensures
            old(self).remaining_infos().len() > 0 ==> r is Some && final(self).remaining_infos()
                == old(self).remaining_infos().skip(1) && r->0.tick_id
                == old(self).remaining_infos()[0].tick_id && cloned(
                old(self).remaining_infos()[0].step,
                r->0.step,
            ),
            old(self).remaining_infos().len() == 0 ==> r is None && final(self).remaining_infos()
                == old(self).remaining_infos(),
    {
        if self.current_index < self.deque.len() {
            let item = self.deque[self.current_index].clone();
            self.current_index = self.current_index + 1;
            proof {
                assert(self.remaining_infos() =~= old(self).remaining_infos().skip(1));
            }
            Some(item)
        } else {
            None
        }
    }
}

impl<T> Default for Steps<T> {
    /// An empty queue that starts at tick 0.
    fn default() -> (s: Self)
        ensures
            s.infos() == Seq::<StepInfo<T>>::empty(),
            s.read_id() == 0,
            s.write_id() == 0,
            s.wf(),
    {
        Self::new()
    }
}

} // verus!
