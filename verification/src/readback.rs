//! Reading back what the host writes: a range of authoritative steps reads back tick
//! by tick with the same (participant, step) entries, ranges as they are sent read back
//! as themselves, and so does each host command built from such parts.
use vstd::prelude::*;
use crate::stream::{Roundtrip, StreamError, be_u32, lemma_parse_u32_be, lemma_skip_prefix};
use crate::blob_commands::{SenderToReceiverFrontCommands, SenderCommandView, parse_sender_command, sender_command_octets};
use crate::codec::{items_octets, lemma_items_roundtrip};
use crate::client_to_host::{
    all_participants_octets, participant_vectors_octets, participant_vector_octets,
    parse_participant_vectors, parse_participant_vector, put_entries, put_entry, keys_distinct,
};
use crate::grouping::{
    flat_keys, first_keys, positions_of, all_rows_are, lemma_uniform_rows, lemma_first_keys_distinct, rows_nested,
    lemma_nested_positions, lemma_first_keys_contains, lemma_flat_keys_valid, entry_of,
};
use crate::host_to_client::{
    step_keys, converted_range, converted_ranges, range_floor, range_delta, serialized_ranges_octets,
    authoritative_ranges_octets, parse_ranges_message, parse_serialized_ranges, parse_serialized_range,
    expanded_ranges, expanded_range, ticks_through, column, max_steps, HostCommandView, host_command_octets,
    lemma_max_steps,
    parse_host_command, parse_game_step, GameStepResponseHeader, JoinGameParticipant, JoinGameAccepted,
    JoinGameParticipants, join_participants_octets, parse_join_participants, DownloadGameStateResponse,
    PartyAndSessionSecret,
};
use crate::protocol::ClientRequestId;

verus! {

/// Every tick of the steps holds the participants `keys`, each once, in that order.
pub open spec fn uniform_ticks<V>(steps: Seq<Seq<(u8, V)>>, keys: Seq<u8>) -> bool {
    &&& keys.no_duplicates()
    &&& forall|i: int| 0 <= i < steps.len() ==> (#[trigger] steps[i]).map_values(|e: (u8, V)| e.0) == keys
}

/// The steps of uniform ticks gathered per participant: each participant from the
/// first tick on, with its steps in tick order.
pub open spec fn uniform_vectors<V>(steps: Seq<Seq<(u8, V)>>, keys: Seq<u8>) -> Seq<(u8, u8, Seq<V>)> {
    Seq::new(keys.len(), |j: int| (keys[j], 0u8, Seq::new(steps.len(), |i: int| steps[i][j].1)))
}

proof fn lemma_uniform_entry<V>(steps: Seq<Seq<(u8, V)>>, keys: Seq<u8>, i: int, j: int)
    requires
        uniform_ticks(steps, keys),
        0 <= i < steps.len(),
        0 <= j < keys.len(),
    ensures
        steps[i].len() == keys.len(),
        steps[i][j].0 == keys[j],
{
    let m = steps[i].map_values(|e: (u8, V)| e.0);
    assert(m == keys);
    assert(m.len() == steps[i].len());
    assert(m[j] == steps[i][j].0);
}

/// Gathering uniform ticks per participant gives each participant's steps from the
/// first tick on.
proof fn lemma_converted_uniform<V>(steps: Seq<Seq<(u8, V)>>, keys: Seq<u8>)
    requires
        uniform_ticks(steps, keys),
        steps.len() > 0,
        keys.len() > 0,
    ensures
        converted_range(steps) == uniform_vectors(steps, keys),
{
    let rows = step_keys(steps);
    assert forall|i: int| 0 <= i < rows.len() implies #[trigger] rows[i] == keys by {
        assert(rows[i] == steps[i].map_values(|e: (u8, V)| e.0));
    }
    assert(all_rows_are(rows, keys));
    let f = flat_keys(rows);
    lemma_uniform_rows(rows, keys, 0);
    let conv = converted_range(steps);
    let target = uniform_vectors(steps, keys);
    assert(conv.len() == target.len());
    assert forall|j: int| 0 <= j < keys.len() implies conv[j] == target[j] by {
        lemma_uniform_rows(rows, keys, j);
        let p = positions_of(f, keys[j]);
        assert(p == Seq::new(steps.len(), |i: int| (i, j)));
        assert(p[0].0 == 0);
        assert(p.map_values(|q: (int, int)| steps[q.0][q.1].1) =~= Seq::new(steps.len(), |i: int| steps[i][j].1));
    }
    assert(conv =~= target);
}

/// Participants' vectors whose counts fit an octet and whose steps serialize
/// faithfully read back as themselves, whatever follows them.
proof fn lemma_vectors_roundtrip<T: Roundtrip>(entries: Seq<(u8, u8, Seq<T::V>)>, rest: Seq<u8>)
    requires
        forall|e: int| 0 <= e < entries.len() ==> (#[trigger] entries[e]).2.len() <= 255,
        forall|e: int, i: int| 0 <= e < entries.len() && 0 <= i < entries[e].2.len() ==> T::encodable(#[trigger] entries[e].2[i]),
    ensures
        parse_participant_vectors::<T>(participant_vectors_octets::<T>(entries) + rest, entries.len())
            == Ok::<(Seq<(u8, u8, Seq<T::V>)>, nat), StreamError>(
            (entries, participant_vectors_octets::<T>(entries).len()),
        ),
    decreases entries.len(),
{
    if entries.len() == 0 {
        assert(entries =~= Seq::<(u8, u8, Seq<T::V>)>::empty());
    } else {
        let front = entries.drop_last();
        let last = entries.last();
        let a = participant_vectors_octets::<T>(front);
        let b = participant_vector_octets::<T>(last);
        assert(participant_vectors_octets::<T>(entries) + rest =~= a + (b + rest));
        assert forall|e: int| 0 <= e < front.len() implies (#[trigger] front[e]).2.len() <= 255 by {
            assert(front[e] == entries[e]);
        }
        assert forall|e: int, i: int| 0 <= e < front.len() && 0 <= i < front[e].2.len() implies T::encodable(
            #[trigger] front[e].2[i],
        ) by {
            assert(front[e] == entries[e]);
        }
        lemma_vectors_roundtrip::<T>(front, b + rest);
        let all = participant_vectors_octets::<T>(entries) + rest;
        assert(all == a + (b + rest));
        assert(parse_participant_vectors::<T>(all, front.len()) == Ok::<(Seq<(u8, u8, Seq<T::V>)>, nat), StreamError>(
            (front, a.len()),
        ));
        assert(all.skip(a.len() as int) =~= b + rest);
        let data = b + rest;
        assert(last == entries[entries.len() - 1]);
        assert forall|i: int| 0 <= i < last.2.len() implies T::encodable(#[trigger] last.2[i]) by {
            assert(T::encodable(entries[entries.len() - 1].2[i]));
        }
        lemma_items_roundtrip::<T>(last.2, rest);
        assert(data[0] == last.0 && data[1] == last.1 && data[2] == last.2.len() as u8);
        assert(data[2] as nat == last.2.len());
        assert(data.skip(3) =~= items_octets::<T>(last.2) + rest);
        assert(parse_participant_vector::<T>(data) == Ok::<((u8, u8, Seq<T::V>), nat), StreamError>(
            ((last.0, last.1, last.2), b.len()),
        ));
        assert(front.push(last) =~= entries);
        assert((entries.len() - 1) as nat == front.len());
        assert(participant_vectors_octets::<T>(entries).len() == a.len() + b.len());
        assert(parse_participant_vector::<T>(all.skip(a.len() as int)) == Ok::<((u8, u8, Seq<T::V>), nat), StreamError>(
            (last, b.len()),
        ));
        assert(parse_participant_vectors::<T>(all, entries.len()) == Ok::<(Seq<(u8, u8, Seq<T::V>)>, nat), StreamError>(
            (front.push(last), a.len() + b.len()),
        ));
    }
}

/// Putting in keyed entries whose keys are distinct, as into a map, keeps them as
/// they are.
proof fn lemma_put_entries_distinct<A, B>(entries: Seq<(u8, A, B)>)
    requires
        keys_distinct(entries),
    ensures
        put_entries(entries) == entries,
    decreases entries.len(),
{
    if entries.len() > 0 {
        let front = entries.drop_last();
        assert forall|i: int, j: int| 0 <= i < j < front.len() implies (#[trigger] front[i]).0 != (#[trigger] front[j]).0 by {
            assert(front[i] == entries[i] && front[j] == entries[j]);
        }
        lemma_put_entries_distinct(front);
        let last = entries.last();
        assert(!exists|i: int| 0 <= i < front.len() && front[i].0 == last.0) by {
            if exists|i: int| 0 <= i < front.len() && front[i].0 == last.0 {
                let i = choose|i: int| 0 <= i < front.len() && front[i].0 == last.0;
                assert(entries[i].0 != entries[entries.len() - 1].0);
            }
        }
        assert(put_entry(front, last) == front.push(last));
        assert(front.push(last) =~= entries);
    }
}

/// The largest step count of vectors that all hold `n` steps is `n`.
proof fn lemma_max_steps_uniform<V>(entries: Seq<(u8, u8, Seq<V>)>, n: nat)
    requires
        entries.len() > 0,
        forall|e: int| 0 <= e < entries.len() ==> (#[trigger] entries[e]).2.len() == n,
    ensures
        max_steps(entries) == n,
    decreases entries.len(),
{
    let front = entries.drop_last();
    assert(entries[entries.len() - 1].2.len() == n);
    if front.len() > 0 {
        assert forall|e: int| 0 <= e < front.len() implies (#[trigger] front[e]).2.len() == n by {
            assert(front[e] == entries[e]);
        }
        lemma_max_steps_uniform(front, n);
    }
}

/// Where every vector holds a step at index `i`, that index's column is each
/// participant with its step there.
proof fn lemma_column_full<V>(entries: Seq<(u8, u8, Seq<V>)>, i: int)
    requires
        0 <= i,
        forall|e: int| 0 <= e < entries.len() ==> i < (#[trigger] entries[e]).2.len(),
    ensures
        column(entries, i) == entries.map_values(|e: (u8, u8, Seq<V>)| (e.0, e.2[i])),
    decreases entries.len(),
{
    if entries.len() > 0 {
        let front = entries.drop_last();
        assert forall|e: int| 0 <= e < front.len() implies i < (#[trigger] front[e]).2.len() by {
            assert(front[e] == entries[e]);
        }
        lemma_column_full(front, i);
        assert(i < entries[entries.len() - 1].2.len());
        assert(front.map_values(|e: (u8, u8, Seq<V>)| (e.0, e.2[i])).push((entries.last().0, entries.last().2[i]))
            =~= entries.map_values(|e: (u8, u8, Seq<V>)| (e.0, e.2[i])));
    }
}

/// Laying out the vectors of uniform ticks by index gives the ticks back.
proof fn lemma_expand_uniform<V>(steps: Seq<Seq<(u8, V)>>, keys: Seq<u8>)
    requires
        uniform_ticks(steps, keys),
        keys.len() > 0,
    ensures
        expanded_range(uniform_vectors(steps, keys)) == steps,
{
    let c = uniform_vectors(steps, keys);
    assert forall|e: int| 0 <= e < c.len() implies (#[trigger] c[e]).2.len() == steps.len() by {}
    lemma_max_steps_uniform(c, steps.len());
    let x = expanded_range(c);
    assert forall|i: int| 0 <= i < steps.len() implies x[i] == steps[i] by {
        assert forall|e: int| 0 <= e < c.len() implies i < (#[trigger] c[e]).2.len() by {}
        lemma_column_full(c, i);
        let col = c.map_values(|e: (u8, u8, Seq<V>)| (e.0, e.2[i]));
        assert(x[i] == col);
        lemma_uniform_entry(steps, keys, i, 0);
        assert forall|j: int| 0 <= j < keys.len() implies col[j] == steps[i][j] by {
            lemma_uniform_entry(steps, keys, i, j);
        }
        assert(col =~= steps[i]);
    }
    assert(x =~= steps);
}

/// What the steps of a range are sent as (each participant's steps, gathered) fits
/// the message: at most 255 participants, at most 255 steps each, and each step
/// serializes faithfully; and laying the gathered steps out by index again gives the
/// steps back (each participant's steps start at the range's first tick, with no gap,
/// and each tick lists its participants in the order they first appear).
pub open spec fn range_sendable<T: Roundtrip>(steps: Seq<Seq<(u8, T::V)>>) -> bool {
    let conv = converted_range(steps);
    &&& conv.len() <= 255
    &&& forall|e: int| 0 <= e < conv.len() ==> (#[trigger] conv[e]).2.len() <= 255
    &&& forall|e: int, i: int| 0 <= e < conv.len() && 0 <= i < conv[e].2.len() ==> T::encodable(#[trigger] conv[e].2[i])
    &&& expanded_range(conv) == steps
}

/// The steps of a range gathered per participant fit the message: at most 255
/// participants, at most 255 steps each, and each step serializes faithfully.
pub open spec fn gathered_fits<T: Roundtrip>(steps: Seq<Seq<(u8, T::V)>>) -> bool {
    let conv = converted_range(steps);
    &&& conv.len() <= 255
    &&& forall|e: int| 0 <= e < conv.len() ==> (#[trigger] conv[e]).2.len() <= 255
    &&& forall|e: int, i: int| 0 <= e < conv.len() && 0 <= i < conv[e].2.len() ==> T::encodable(#[trigger] conv[e].2[i])
}

/// A range whose gathered steps fit the message reads back, whatever follows its
/// octets, as the range's first tick with the gathered steps laid out by index.
proof fn lemma_range_reads_as_layout<T: Roundtrip>(tick: u32, steps: Seq<Seq<(u8, T::V)>>, rest: Seq<u8>)
    requires
        gathered_fits::<T>(steps),
    ensures
        ({
            let octets = authoritative_ranges_octets::<T>(seq![(tick, steps)]);
            parse_ranges_message::<T>(octets + rest) matches Ok(((root, rs), n)) && n == octets.len()
                && expanded_ranges(root, rs) == seq![(tick, expanded_range(converted_range(steps)))]
        }),
{
    let ranges = seq![(tick, steps)];
    let conv = converted_range(steps);
    assert(range_floor(ranges, 0) == tick);
    assert(range_delta(ranges, 0) == 0);
    let sent = converted_ranges(ranges);
    assert(sent =~= seq![(0u8, conv)]);
    assert(sent.drop_last() =~= Seq::<(u8, Seq<(u8, u8, Seq<T::V>)>)>::empty());
    let body = all_participants_octets::<T>(conv);
    assert(serialized_ranges_octets::<T>(sent.drop_last()) == Seq::<u8>::empty());
    assert(sent.last() == (0u8, conv));
    assert(serialized_ranges_octets::<T>(sent) =~= seq![0u8] + body);
    let octets = authoritative_ranges_octets::<T>(ranges);
    assert(octets =~= be_u32(tick) + seq![1u8] + seq![0u8] + body);
    let data = octets + rest;
    assert(data =~= be_u32(tick) + (seq![1u8, 0u8] + body + rest));
    lemma_parse_u32_be(tick, seq![1u8, 0u8] + body + rest);
    assert(data.skip(4) =~= seq![1u8, 0u8] + body + rest);
    assert(data.skip(5) =~= seq![0u8] + body + rest);
    // The single range as it is read: its delta, its participant count, its vectors.
    let vdata = participant_vectors_octets::<T>(conv);
    assert(body =~= seq![conv.len() as u8] + vdata);
    let r0 = data.skip(5);
    assert(r0.skip(2) =~= vdata + rest);
    assert(r0[1] == conv.len() as u8);
    lemma_vectors_roundtrip::<T>(conv, rest);
    assert(r0[1] as nat == conv.len());
    let f = flat_keys(step_keys(steps));
    lemma_first_keys_distinct(f);
    assert forall|i: int, j: int| 0 <= i < j < conv.len() implies (#[trigger] conv[i]).0 != (#[trigger] conv[j]).0 by {
        assert(conv[i].0 == first_keys(f)[i] && conv[j].0 == first_keys(f)[j]);
    }
    lemma_put_entries_distinct(conv);
    assert(parse_serialized_range::<T>(r0) == Ok::<((u8, Seq<(u8, u8, Seq<T::V>)>), nat), StreamError>(
        ((0u8, conv), 2 + vdata.len()),
    ));
    assert(parse_serialized_ranges::<T>(r0, 0) == Ok::<(Seq<(u8, Seq<(u8, u8, Seq<T::V>)>)>, nat), StreamError>(
        (Seq::empty(), 0),
    ));
    assert(r0.skip(0) =~= r0);
    assert(Seq::<(u8, Seq<(u8, u8, Seq<T::V>)>)>::empty().push((0u8, conv)) =~= seq![(0u8, conv)]);
    assert(parse_serialized_ranges::<T>(r0, 1) == Ok::<(Seq<(u8, Seq<(u8, u8, Seq<T::V>)>)>, nat), StreamError>(
        (seq![(0u8, conv)], 2 + vdata.len()),
    ));
    let rs = seq![(0u8, conv)];
    assert(ticks_through(tick as int, rs, 0) == tick as int);
    assert(rs[0].0 == 0u8);
    assert(ticks_through(tick as int, rs, 1) == tick);
    assert(expanded_ranges(tick, rs) =~= seq![(tick, expanded_range(conv))]);
}

/// One range of authoritative steps reads back as itself, whatever follows its
/// octets, exactly when its gathered steps fit the message and lay out again as the
/// steps (see `range_sendable`): the message read from what
/// `AuthoritativeStepRanges::serialize` writes gives, through
/// `AuthoritativeStepRanges::deserialize`, the range's first tick and each tick's
/// (participant, step) entries in the same order.
pub proof fn lemma_range_roundtrip<T: Roundtrip>(tick: u32, steps: Seq<Seq<(u8, T::V)>>, rest: Seq<u8>)
    requires
        range_sendable::<T>(steps),
    ensures
        ({
            let octets = authoritative_ranges_octets::<T>(seq![(tick, steps)]);
            parse_ranges_message::<T>(octets + rest) matches Ok(((root, rs), n)) && n == octets.len()
                && expanded_ranges(root, rs) == seq![(tick, steps)]
        }),
{
    lemma_range_reads_as_layout::<T>(tick, steps, rest);
}

/// A range in which every tick holds the same participants in the same order (at
/// most 255 of them, over at most 255 ticks, each step serializing faithfully) reads
/// back as itself, whatever follows its octets.
pub proof fn lemma_uniform_range_roundtrip<T: Roundtrip>(
    tick: u32,
    steps: Seq<Seq<(u8, T::V)>>,
    keys: Seq<u8>,
    rest: Seq<u8>,
)
    requires
        uniform_ticks(steps, keys),
        0 < keys.len() <= 255,
        steps.len() <= 255,
        forall|i: int, j: int| 0 <= i < steps.len() && 0 <= j < steps[i].len() ==> T::encodable(#[trigger] steps[i][j].1),
    ensures
        ({
            let octets = authoritative_ranges_octets::<T>(seq![(tick, steps)]);
            parse_ranges_message::<T>(octets + rest) matches Ok(((root, rs), n)) && n == octets.len()
                && expanded_ranges(root, rs) == seq![(tick, steps)]
        }),
{
    let conv = converted_range(steps);
    if steps.len() > 0 {
        lemma_converted_uniform(steps, keys);
        assert(conv.len() == keys.len());
        assert forall|e: int| 0 <= e < conv.len() implies (#[trigger] conv[e]).2.len() <= 255 by {}
        assert forall|e: int, i: int| 0 <= e < conv.len() && 0 <= i < conv[e].2.len() implies T::encodable(
            #[trigger] conv[e].2[i],
        ) by {
            lemma_uniform_entry(steps, keys, i, e);
        }
        lemma_expand_uniform(steps, keys);
    } else {
        assert(step_keys(steps) =~= Seq::<Seq<u8>>::empty());
        assert(flat_keys(step_keys(steps)) == Seq::<(int, int, u8)>::empty());
        assert(conv =~= Seq::<(u8, u8, Seq<T::V>)>::empty());
        assert(max_steps(conv) == 0);
        assert(expanded_range(conv) =~= steps);
    }
    lemma_range_roundtrip::<T>(tick, steps, rest);
}

/// A key with a position occurs among the entries.
proof fn lemma_positions_occur(f: Seq<(int, int, u8)>, k: u8)
    requires
        positions_of(f, k).len() > 0,
    ensures
        exists|e: int| 0 <= e < f.len() && (#[trigger] f[e]).2 == k,
    decreases f.len(),
{
    let g = f.drop_last();
    if f.last().2 == k {
        assert(f[f.len() - 1].2 == k);
    } else {
        lemma_positions_occur(g, k);
        let e = choose|e: int| 0 <= e < g.len() && (#[trigger] g[e]).2 == k;
        assert(f[e] == g[e]);
    }
}

/// When no gathered participant has more than `b` steps, neither has the largest.
proof fn lemma_max_steps_at_most<V>(entries: Seq<(u8, u8, Seq<V>)>, b: nat)
    requires
        forall|e: int| 0 <= e < entries.len() ==> (#[trigger] entries[e]).2.len() <= b,
    ensures
        max_steps(entries) <= b,
    decreases entries.len(),
{
    if entries.len() > 0 {
        let front = entries.drop_last();
        assert forall|e: int| 0 <= e < front.len() implies (#[trigger] front[e]).2.len() <= b by {
            assert(front[e] == entries[e]);
        }
        lemma_max_steps_at_most(front, b);
        assert(entries[entries.len() - 1].2.len() <= b);
    }
}

/// A tick laid out from gathered steps holds `(k, v)` exactly when some participant
/// `k` has a step at that index, and it is `v`.
proof fn lemma_column_contains<V>(entries: Seq<(u8, u8, Seq<V>)>, i: int, x: (u8, V))
    requires
        0 <= i,
    ensures
        column(entries, i).contains(x) <==> exists|g: int|
            0 <= g < entries.len() && (#[trigger] entries[g]).0 == x.0 && i < entries[g].2.len() && entries[g].2[i]
                == x.1,
    decreases entries.len(),
{
    if entries.len() > 0 {
        let front = entries.drop_last();
        let last = entries.last();
        lemma_column_contains(front, i, x);
        let c = column(front, i);
        if exists|g: int|
            0 <= g < front.len() && (#[trigger] front[g]).0 == x.0 && i < front[g].2.len() && front[g].2[i] == x.1 {
            let g = choose|g: int|
                0 <= g < front.len() && (#[trigger] front[g]).0 == x.0 && i < front[g].2.len() && front[g].2[i] == x.1;
            assert(entries[g] == front[g]);
        }
        if exists|g: int|
            0 <= g < entries.len() && (#[trigger] entries[g]).0 == x.0 && i < entries[g].2.len() && entries[g].2[i]
                == x.1 {
            let g = choose|g: int|
                0 <= g < entries.len() && (#[trigger] entries[g]).0 == x.0 && i < entries[g].2.len() && entries[g].2[i]
                    == x.1;
            if g < front.len() {
                assert(front[g] == entries[g]);
            }
        }
        if i < last.2.len() {
            let pushed = (last.0, last.2[i]);
            assert(column(entries, i) == c.push(pushed));
            if c.push(pushed).contains(x) {
                let h = choose|h: int| 0 <= h < c.len() + 1 && c.push(pushed)[h] == x;
                if h < c.len() {
                    assert(c[h] == x);
                }
            }
            if c.contains(x) {
                let h = choose|h: int| 0 <= h < c.len() && c[h] == x;
                assert(c.push(pushed)[h] == x);
            }
            if pushed == x {
                assert(c.push(pushed)[c.len() as int] == x);
            }
            assert(entries[entries.len() - 1] == last);
        } else {
            assert(entries[entries.len() - 1] == last);
        }
    }
}

/// The participants of a tick.
pub open spec fn tick_keys<V>(tick: Seq<(u8, V)>) -> Seq<u8> {
    tick.map_values(|e: (u8, V)| e.0)
}

/// A range that the message carries: at most 255 ticks; each tick lists each
/// participant once (as a map does), at most 255 of them, and every participant of a
/// tick is in every earlier tick, so that each participant's steps run from the
/// range's first tick with no gap; the last tick has a step; each step serializes
/// faithfully.
pub open spec fn range_carried<T: Roundtrip>(steps: Seq<Seq<(u8, T::V)>>) -> bool {
    &&& steps.len() <= 255
    &&& rows_nested(step_keys(steps))
    &&& steps.len() > 0 ==> steps[0].len() <= 255 && steps.last().len() > 0
    &&& forall|i: int, j: int| 0 <= i < steps.len() && 0 <= j < steps[i].len() ==> T::encodable(#[trigger] steps[i][j].1)
}

/// The gathered steps of a carried range: participant `keys[g]` has, for each tick it
/// is in, its step there.
proof fn lemma_carried_gathered<T: Roundtrip>(steps: Seq<Seq<(u8, T::V)>>, g: int)
    requires
        range_carried::<T>(steps),
        0 <= g < converted_range(steps).len(),
    ensures
        ({
            let rows = step_keys(steps);
            let conv = converted_range(steps);
            let k = conv[g].0;
            &&& conv[g].2.len() <= steps.len()
            &&& forall|i: int| 0 <= i < steps.len() ==> (tick_keys(#[trigger] steps[i]).contains(k) <==> i < conv[g].2.len())
            &&& forall|i: int|
                0 <= i < conv[g].2.len() ==> steps[i].contains((k, #[trigger] conv[g].2[i])) && T::encodable(conv[g].2[i])
        }),
{
    let rows = step_keys(steps);
    let f = flat_keys(rows);
    let conv = converted_range(steps);
    let k = first_keys(f)[g];
    assert(conv[g].0 == k);
    lemma_nested_positions(rows, k);
    let p = positions_of(f, k);
    assert(conv[g].2 == p.map_values(|q: (int, int)| steps[q.0][q.1].1));
    assert forall|i: int| 0 <= i < steps.len() implies (tick_keys(#[trigger] steps[i]).contains(k) <==> i < conv[g].2.len()) by {
        assert(rows[i] == tick_keys(steps[i]));
    }
    assert forall|i: int| 0 <= i < conv[g].2.len() implies steps[i].contains((k, #[trigger] conv[g].2[i])) && T::encodable(
        conv[g].2[i],
    ) by {
        let j = p[i].1;
        assert(p[i].0 == i);
        assert(rows[i] == tick_keys(steps[i]));
        assert(rows[i][j] == steps[i][j].0);
        assert(conv[g].2[i] == steps[i][j].1);
        assert(steps[i][j] == (k, conv[g].2[i]));
    }
}

/// Each tick of a carried range, laid out again from its gathered steps, holds the
/// same (participant, step) entries.
proof fn lemma_carried_tick<T: Roundtrip>(steps: Seq<Seq<(u8, T::V)>>, i: int)
    requires
        range_carried::<T>(steps),
        0 <= i < steps.len(),
    ensures
        column(converted_range(steps), i).to_set() == steps[i].to_set(),
{
    let rows = step_keys(steps);
    let f = flat_keys(rows);
    let conv = converted_range(steps);
    let keys = first_keys(f);
    lemma_flat_keys_valid(rows);
    assert forall|x: (u8, T::V)| column(conv, i).contains(x) <==> steps[i].contains(x) by {
        lemma_column_contains(conv, i, x);
        if column(conv, i).contains(x) {
            let g = choose|g: int|
                0 <= g < conv.len() && (#[trigger] conv[g]).0 == x.0 && i < conv[g].2.len() && conv[g].2[i] == x.1;
            lemma_carried_gathered::<T>(steps, g);
        }
        if steps[i].contains(x) {
            let j = choose|j: int| 0 <= j < steps[i].len() && steps[i][j] == x;
            let k = x.0;
            assert(rows[i] == tick_keys(steps[i]));
            assert(rows[i][j] == k);
            assert(rows[i].contains(k));
            lemma_nested_positions(rows, k);
            lemma_positions_occur(f, k);
            lemma_first_keys_contains(f, k);
            let g = choose|g: int| 0 <= g < keys.len() && keys[g] == k;
            assert(conv[g].0 == k);
            lemma_carried_gathered::<T>(steps, g);
            assert(tick_keys(steps[i]).contains(k));
            let v = conv[g].2[i];
            assert(steps[i].contains((k, v)));
            let j2 = choose|j2: int| 0 <= j2 < steps[i].len() && steps[i][j2] == (k, v);
            assert(rows[i][j2] == k);
            if j != j2 {
                assert(rows[i].no_duplicates());
                assert(rows[i][j] != rows[i][j2]);
            }
            assert(x == (k, v));
        }
    }
    assert(column(conv, i).to_set() =~= steps[i].to_set());
}

/// A carried range has at most as many participants as its first tick, so at most
/// 255.
proof fn lemma_carried_participants<T: Roundtrip>(steps: Seq<Seq<(u8, T::V)>>)
    requires
        range_carried::<T>(steps),
    ensures
        converted_range(steps).len() <= 255,
{
    let rows = step_keys(steps);
    let f = flat_keys(rows);
    let keys = first_keys(f);
    if steps.len() == 0 {
        assert(rows.len() == 0);
        assert(f == Seq::<(int, int, u8)>::empty());
        assert(keys == Seq::<u8>::empty());
    } else {
        lemma_flat_keys_valid(rows);
        lemma_first_keys_distinct(f);
        assert forall|k: u8| keys.to_set().contains(k) implies rows[0].to_set().contains(k) by {
            lemma_first_keys_contains(f, k);
            let e = choose|e: int| 0 <= e < f.len() && (#[trigger] f[e]).2 == k;
            assert(entry_of(rows, f[e]));
            let i = f[e].0;
            assert(rows[i][f[e].1] == k);
            assert(rows[i].contains(k));
            if i > 0 {
                assert(rows[0].contains(k));
            }
        }
        assert(rows[0] == tick_keys(steps[0]));
        keys.unique_seq_to_set();
        rows[0].lemma_cardinality_of_set();
        vstd::set_lib::lemma_len_subset(keys.to_set(), rows[0].to_set());
    }
}

/// Every range that the message carries (see `range_carried`) reads back, whatever
/// follows its octets, as one range with the same first tick and as many ticks, each
/// holding the same (participant, step) entries as before, in whatever order each tick
/// listed them: what `AuthoritativeStepRanges::serialize` writes,
/// `AuthoritativeStepRanges::deserialize` reads back, tick by tick as maps.
pub proof fn lemma_range_entries_roundtrip<T: Roundtrip>(tick: u32, steps: Seq<Seq<(u8, T::V)>>, rest: Seq<u8>)
    requires
        range_carried::<T>(steps),
    ensures
        ({
            let octets = authoritative_ranges_octets::<T>(seq![(tick, steps)]);
            parse_ranges_message::<T>(octets + rest) matches Ok(((root, rs), n)) && n == octets.len() && {
                let back = expanded_ranges(root, rs);
                &&& back.len() == 1
                &&& back[0].0 == tick
                &&& back[0].1.len() == steps.len()
                &&& forall|i: int| 0 <= i < steps.len() ==> (#[trigger] back[0].1[i]).to_set() == steps[i].to_set()
            }
        }),
{
    let conv = converted_range(steps);
    lemma_carried_participants::<T>(steps);
    assert forall|e: int| 0 <= e < conv.len() implies (#[trigger] conv[e]).2.len() <= 255 by {
        lemma_carried_gathered::<T>(steps, e);
    }
    assert forall|e: int, i: int| 0 <= e < conv.len() && 0 <= i < conv[e].2.len() implies T::encodable(
        #[trigger] conv[e].2[i],
    ) by {
        lemma_carried_gathered::<T>(steps, e);
    }
    lemma_range_reads_as_layout::<T>(tick, steps, rest);
    let layout = expanded_range(conv);
    assert forall|e: int| 0 <= e < conv.len() implies (#[trigger] conv[e]).2.len() <= steps.len() by {
        lemma_carried_gathered::<T>(steps, e);
    }
    lemma_max_steps_at_most(conv, steps.len());
    if steps.len() > 0 {
        let rows = step_keys(steps);
        let f = flat_keys(rows);
        let n = steps.len() as int;
        let last = steps[n - 1];
        assert(last.len() > 0);
        let k = last[0].0;
        assert(rows[n - 1] == tick_keys(last));
        assert(rows[n - 1][0] == k);
        assert(rows[n - 1].contains(k));
        lemma_nested_positions(rows, k);
        lemma_positions_occur(f, k);
        lemma_first_keys_contains(f, k);
        let g = choose|g: int| 0 <= g < first_keys(f).len() && first_keys(f)[g] == k;
        assert(conv[g].0 == k);
        lemma_carried_gathered::<T>(steps, g);
        assert(tick_keys(steps[n - 1]).contains(k));
        lemma_max_steps(conv);
        assert(conv[g].2.len() <= max_steps(conv));
    } else {
        lemma_max_steps_at_most(conv, 0);
    }
    assert(layout.len() == steps.len());
    assert forall|i: int| 0 <= i < steps.len() implies (#[trigger] layout[i]).to_set() == steps[i].to_set() by {
        lemma_carried_tick::<T>(steps, i);
    }
}

/// A range as it is sent fits the message: at most 255 participants, each once, with
/// at most 255 steps each, each step serializing faithfully.
pub open spec fn sent_range_fits<T: Roundtrip>(range: (u8, Seq<(u8, u8, Seq<T::V>)>)) -> bool {
    let entries = range.1;
    &&& entries.len() <= 255
    &&& keys_distinct(entries)
    &&& forall|e: int| 0 <= e < entries.len() ==> (#[trigger] entries[e]).2.len() <= 255
    &&& forall|e: int, i: int| 0 <= e < entries.len() && 0 <= i < entries[e].2.len() ==> T::encodable(#[trigger] entries[e].2[i])
}

/// A range as it is sent reads back as itself, whatever follows its octets.
proof fn lemma_sent_range_roundtrip<T: Roundtrip>(range: (u8, Seq<(u8, u8, Seq<T::V>)>), rest: Seq<u8>)
    requires
        sent_range_fits::<T>(range),
    ensures
        parse_serialized_range::<T>(seq![range.0] + all_participants_octets::<T>(range.1) + rest) == Ok::<
            ((u8, Seq<(u8, u8, Seq<T::V>)>), nat),
            StreamError,
        >((range, 1 + all_participants_octets::<T>(range.1).len())),
{
    let entries = range.1;
    let vdata = participant_vectors_octets::<T>(entries);
    let data = seq![range.0] + all_participants_octets::<T>(range.1) + rest;
    assert(data =~= seq![range.0, entries.len() as u8] + (vdata + rest));
    assert(data.skip(1) =~= seq![entries.len() as u8] + (vdata + rest));
    assert(data.skip(2) =~= vdata + rest);
    lemma_vectors_roundtrip::<T>(entries, rest);
    assert((entries.len() as u8) as nat == entries.len());
    lemma_put_entries_distinct(entries);
}

/// Ranges as they are sent read back as themselves, whatever follows their octets.
proof fn lemma_sent_ranges_parse<T: Roundtrip>(ranges: Seq<(u8, Seq<(u8, u8, Seq<T::V>)>)>, rest: Seq<u8>)
    requires
        forall|r: int| 0 <= r < ranges.len() ==> sent_range_fits::<T>(#[trigger] ranges[r]),
    ensures
        parse_serialized_ranges::<T>(serialized_ranges_octets::<T>(ranges) + rest, ranges.len()) == Ok::<
            (Seq<(u8, Seq<(u8, u8, Seq<T::V>)>)>, nat),
            StreamError,
        >((ranges, serialized_ranges_octets::<T>(ranges).len())),
    decreases ranges.len(),
{
    if ranges.len() == 0 {
        assert(ranges =~= Seq::<(u8, Seq<(u8, u8, Seq<T::V>)>)>::empty());
    } else {
        let front = ranges.drop_last();
        let last = ranges.last();
        let a = serialized_ranges_octets::<T>(front);
        let b = seq![last.0] + all_participants_octets::<T>(last.1);
        let all = serialized_ranges_octets::<T>(ranges) + rest;
        assert(all =~= a + (b + rest));
        assert forall|r: int| 0 <= r < front.len() implies sent_range_fits::<T>(#[trigger] front[r]) by {
            assert(front[r] == ranges[r]);
        }
        lemma_sent_ranges_parse::<T>(front, b + rest);
        assert(all.skip(a.len() as int) =~= b + rest);
        assert(sent_range_fits::<T>(ranges[ranges.len() - 1]));
        lemma_sent_range_roundtrip::<T>(last, rest);
        assert(b + rest =~= seq![last.0] + all_participants_octets::<T>(last.1) + rest);
        assert(front.push(last) =~= ranges);
        assert((ranges.len() - 1) as nat == front.len());
    }
}

/// Ranges as they are sent (at most 255, each fitting the message: see
/// `sent_range_fits`) read back as themselves, whatever follows their octets: what
/// `SerializeAuthoritativeStepRanges::to_stream` writes,
/// `SerializeAuthoritativeStepRanges::from_stream` reads back with the same root tick
/// and the same ranges, spanning exactly those octets.
pub proof fn lemma_sent_ranges_roundtrip<T: Roundtrip>(
    root: u32,
    ranges: Seq<(u8, Seq<(u8, u8, Seq<T::V>)>)>,
    rest: Seq<u8>,
)
    requires
        ranges.len() <= 255,
        forall|r: int| 0 <= r < ranges.len() ==> sent_range_fits::<T>(#[trigger] ranges[r]),
    ensures
        ({
            let octets = be_u32(root) + seq![ranges.len() as u8] + serialized_ranges_octets::<T>(ranges);
            parse_ranges_message::<T>(octets + rest) == Ok::<
                ((u32, Seq<(u8, Seq<(u8, u8, Seq<T::V>)>)>), nat),
                StreamError,
            >(((root, ranges), octets.len()))
        }),
{
    let body = serialized_ranges_octets::<T>(ranges);
    let data = be_u32(root) + seq![ranges.len() as u8] + body + rest;
    assert(data =~= be_u32(root) + (seq![ranges.len() as u8] + body + rest));
    lemma_parse_u32_be(root, seq![ranges.len() as u8] + body + rest);
    assert(data.skip(4) =~= seq![ranges.len() as u8] + body + rest);
    assert(data.skip(5) =~= body + rest);
    lemma_sent_ranges_parse::<T>(ranges, rest);
    assert((ranges.len() as u8) as nat == ranges.len());
}

/// A host command that reads back as itself: a join answer with at most 255
/// participants, a game step answer of one range that reads back (see
/// `range_sendable`), any download answer, a blob stream command whose chunk fits its
/// length field.
pub open spec fn host_command_readable<T: Roundtrip>(c: HostCommandView<T::V>) -> bool {
    match c {
        HostCommandView::JoinGame(_, _, parts) => parts.len() <= 255,
        HostCommandView::GameStep(_, ranges) => ranges.len() == 1 && range_sendable::<T>(ranges[0].1),
        HostCommandView::DownloadGameState(_) => true,
        HostCommandView::BlobStreamChannel(b) => <SenderToReceiverFrontCommands as Roundtrip>::encodable(b),
    }
}

proof fn lemma_header_roundtrip(h: GameStepResponseHeader, rest: Seq<u8>)
    ensures
        GameStepResponseHeader::parse(h.octets() + rest) == Ok::<(GameStepResponseHeader, nat), StreamError>((h, 6)),
{
    let d = h.octets() + rest;
    let delta = h.delta_buffer;
    assert((delta as u8) as i8 == delta) by (bit_vector);
    assert(d.skip(2) =~= be_u32(h.last_step_received_from_client) + rest);
    lemma_parse_u32_be(h.last_step_received_from_client, rest);
}

proof fn lemma_join_participants_roundtrip(parts: Seq<JoinGameParticipant>, rest: Seq<u8>)
    ensures
        parse_join_participants(join_participants_octets(parts) + rest, parts.len()) == Ok::<
            (Seq<JoinGameParticipant>, nat),
            StreamError,
        >((parts, join_participants_octets(parts).len())),
    decreases parts.len(),
{
    if parts.len() == 0 {
        assert(parts =~= Seq::<JoinGameParticipant>::empty());
    } else {
        let front = parts.drop_last();
        let last = parts.last();
        let a = join_participants_octets(front);
        let all = join_participants_octets(parts) + rest;
        assert(all =~= a + (last.octets() + rest));
        lemma_join_participants_roundtrip(front, last.octets() + rest);
        assert(all.skip(a.len() as int) =~= last.octets() + rest);
        assert(JoinGameParticipant::parse(last.octets() + rest) == Ok::<(JoinGameParticipant, nat), StreamError>((last, 2)));
        assert(front.push(last) =~= parts);
        assert((parts.len() - 1) as nat == front.len());
    }
}

proof fn lemma_join_command_roundtrip<T: Roundtrip>(
    id: ClientRequestId,
    ps: PartyAndSessionSecret,
    parts: Seq<JoinGameParticipant>,
    rest: Seq<u8>,
)
    requires
        parts.len() <= 255,
    ensures
        ({
            let c = HostCommandView::<T::V>::JoinGame(id, ps, parts);
            parse_host_command::<T>(host_command_octets::<T>(c) + rest) == Ok::<(HostCommandView<T::V>, nat), StreamError>(
                (c, host_command_octets::<T>(c).len()),
            )
        }),
{
    let c = HostCommandView::<T::V>::JoinGame(id, ps, parts);
    let d = host_command_octets::<T>(c) + rest;
    let body = join_participants_octets(parts);
    let tail = seq![parts.len() as u8] + body + rest;
    assert(d =~= seq![0x09u8] + (seq![id.0] + (ps.octets() + tail)));
    let a = d.skip(1);
    assert(a =~= seq![id.0] + (ps.octets() + tail));
    assert(a.skip(1) =~= ps.octets() + tail);
    ps.lemma_roundtrip(tail);
    assert(a.skip(10) =~= tail);
    assert(tail.skip(1) =~= body + rest);
    lemma_join_participants_roundtrip(parts, rest);
    assert((parts.len() as u8) as nat == parts.len());
    assert(JoinGameParticipants::parse(tail) == Ok::<(Seq<JoinGameParticipant>, nat), StreamError>(
        (parts, 1 + body.len()),
    ));
    assert(JoinGameAccepted::parse(a) == Ok::<((ClientRequestId, PartyAndSessionSecret, Seq<JoinGameParticipant>), nat), StreamError>(
        ((id, ps, parts), 10 + 1 + body.len()),
    ));
}

proof fn lemma_game_step_command_roundtrip<T: Roundtrip>(
    header: GameStepResponseHeader,
    ranges: Seq<(u32, Seq<Seq<(u8, T::V)>>)>,
    rest: Seq<u8>,
)
    requires
        ranges.len() == 1,
        range_sendable::<T>(ranges[0].1),
    ensures
        ({
            let c = HostCommandView::<T::V>::GameStep(header, ranges);
            parse_host_command::<T>(host_command_octets::<T>(c) + rest) == Ok::<(HostCommandView<T::V>, nat), StreamError>(
                (c, host_command_octets::<T>(c).len()),
            )
        }),
{
    let c = HostCommandView::<T::V>::GameStep(header, ranges);
    let d = host_command_octets::<T>(c) + rest;
    let steps = ranges[0].1;
    assert(ranges =~= seq![(ranges[0].0, steps)]);
    let body = authoritative_ranges_octets::<T>(ranges);
    assert(d =~= seq![0x08u8] + (header.octets() + (body + rest)));
    let a = d.skip(1);
    assert(a =~= header.octets() + (body + rest));
    lemma_header_roundtrip(header, body + rest);
    assert(a.skip(6) =~= body + rest);
    lemma_range_roundtrip::<T>(ranges[0].0, steps, rest);
}

/// Every host command that is readable (see `host_command_readable`) reads back as
/// itself, whatever follows its octets: what `HostToClientCommands::to_stream` writes,
/// `HostToClientCommands::from_stream` reads back.
pub proof fn lemma_host_command_roundtrip<T: Roundtrip>(c: HostCommandView<T::V>, rest: Seq<u8>)
    requires
        host_command_readable::<T>(c),
    ensures
        parse_host_command::<T>(host_command_octets::<T>(c) + rest) == Ok::<(HostCommandView<T::V>, nat), StreamError>(
            (c, host_command_octets::<T>(c).len()),
        ),
{
    match c {
        HostCommandView::JoinGame(id, ps, parts) => {
            lemma_join_command_roundtrip::<T>(id, ps, parts, rest);
        },
        HostCommandView::GameStep(header, ranges) => {
            lemma_game_step_command_roundtrip::<T>(header, ranges, rest);
        },
        HostCommandView::DownloadGameState(r) => {
            let d = host_command_octets::<T>(c) + rest;
            assert(d.skip(1) =~= r.octets() + rest);
            r.lemma_roundtrip(rest);
        },
        HostCommandView::BlobStreamChannel(b) => {
            let d = host_command_octets::<T>(c) + rest;
            assert(d.skip(1) =~= sender_command_octets(b) + rest);
            <SenderToReceiverFrontCommands as Roundtrip>::lemma_roundtrip(b, rest);
        },
    }
}

} // verus!
