//! Sequences of serialized values: items written one after another, and read back
//! one after another for a known count.
use vstd::prelude::*;
use flood_rs::in_stream::InOctetStream;
use flood_rs::out_stream::OutOctetStream;
use crate::stream::{
    Serialize, Deserialize, Roundtrip, StreamError, out_octets, in_remaining, lemma_skip_skip,
    lemma_skip_prefix, in_within,
};

verus! {

/// The views of a vector's items.
pub open spec fn views<T: View>(items: Seq<T>) -> Seq<T::V> {
    items.map_values(|x: T| x@)
}

/// The octets of items with the views `items`, one after another.
pub open spec fn items_octets<T: Serialize>(items: Seq<T::V>) -> Seq<u8>
    decreases items.len(),
{
    if items.len() == 0 {
        Seq::<u8>::empty()
    } else {
        items_octets::<T>(items.drop_last()) + T::octets_of(items.last())
    }
}

/// Reading `count` values one after another from the front of `data`.
pub open spec fn parse_items<T: Deserialize>(data: Seq<u8>, count: nat) -> Result<
    (Seq<T::V>, nat),
    StreamError,
>
    decreases count,
{
    if count == 0 {
        Ok((Seq::<T::V>::empty(), 0))
    } else {
        match parse_items::<T>(data, (count - 1) as nat) {
            Err(e) => Err(e),
            Ok((items, n)) => match T::parse(data.skip(n as int)) {
                Err(e) => Err(e),
                Ok((v, m)) => Ok((items.push(v), n + m)),
            },
        }
    }
}

/// Every item whose octets are written one after another reads back in order,
/// whatever follows them.
pub proof fn lemma_items_roundtrip<T: Roundtrip>(items: Seq<T::V>, rest: Seq<u8>)
    requires
        forall|i: int| 0 <= i < items.len() ==> T::encodable(#[trigger] items[i]),
    ensures
        parse_items::<T>(items_octets::<T>(items) + rest, items.len()) == Ok::<
            (Seq<T::V>, nat),
            StreamError,
        >((items, items_octets::<T>(items).len())),
    decreases items.len(),
{
    if items.len() == 0 {
        assert(items =~= Seq::<T::V>::empty());
        assert(items_octets::<T>(items) + rest =~= rest);
    } else {
        let front = items.drop_last();
        let last = items.last();
        let tail = T::octets_of(last) + rest;
        assert(items_octets::<T>(items) + rest =~= items_octets::<T>(front) + tail);
        assert forall|i: int| 0 <= i < front.len() implies T::encodable(#[trigger] front[i]) by {
            assert(front[i] == items[i]);
        }
        lemma_items_roundtrip::<T>(front, tail);
        lemma_skip_prefix(items_octets::<T>(front), tail);
        assert(items[items.len() - 1] == last);
        T::lemma_roundtrip(last, rest);
        assert(front.push(last) =~= items);
        let d = items_octets::<T>(items) + rest;
        assert(front.len() == (items.len() - 1) as nat);
        assert(parse_items::<T>(d, front.len()) == Ok::<(Seq<T::V>, nat), StreamError>(
            (front, items_octets::<T>(front).len()),
        ));
        assert(d.skip(items_octets::<T>(front).len() as int) == tail);
    }
}

/// Taking the first item off leaves the views of the rest.
pub proof fn lemma_views_remove_first<T: View>(s: Seq<T>)
    requires
        s.len() > 0,
    ensures
        views(s.remove(0)) == views(s).skip(1),
{
    assert forall|i: int| 0 <= i < s.len() - 1 implies views(s.remove(0))[i] == views(s).skip(1)[i] by {
        assert(s.remove(0)[i] == s[i + 1]);
    }
    assert(views(s.remove(0)) =~= views(s).skip(1));
}

/// Writes each item in order.
pub fn write_items<T: Serialize>(items: &Vec<T>, stream: &mut OutOctetStream)
    ensures
        out_octets(*final(stream)) == out_octets(*old(stream)) + items_octets::<T>(views(items@)),
{
    let ghost start = out_octets(*stream);
    let mut i: usize = 0;
    while i < items.len()
        invariant
            i <= items@.len(),
            out_octets(*stream) == start + items_octets::<T>(views(items@.take(i as int))),
        decreases items@.len() - i,
    {
        items[i].serialize(stream);
        assert(views(items@.take(i + 1)).drop_last() =~= views(items@.take(i as int)));
        assert(out_octets(*stream) =~= start + items_octets::<T>(views(items@.take(i + 1))));
        i = i + 1;
    }
    assert(items@.take(items@.len() as int) =~= items@);
}

/// Reads `count` items in order.
pub fn read_items<T: Deserialize>(count: usize, stream: &mut InOctetStream) -> (r: Result<
    Vec<T>,
    StreamError,
>)
    ensures
        in_within(*old(stream)) ==> in_within(*final(stream)),
        match parse_items::<T>(in_remaining(*old(stream)), count as nat) {
            Ok((items, n)) => {
                &&& r matches Ok(v) && views(v@) == items
                &&& n <= in_remaining(*old(stream)).len()
                &&& in_remaining(*final(stream)) == in_remaining(*old(stream)).skip(n as int)
            },
            Err(e) => r == Err::<Vec<T>, StreamError>(e),
        },
{
    let ghost start = in_remaining(*stream);
    let mut items: Vec<T> = Vec::new();
    let ghost mut consumed: nat = 0;
    let mut i: usize = 0;
    assert(views(items@) =~= Seq::<T::V>::empty());
    while i < count
        invariant
            i <= count,
            parse_items::<T>(start, i as nat) == Ok::<(Seq<T::V>, nat), StreamError>(
                (views(items@), consumed),
            ),
            consumed <= start.len(),
            in_remaining(*stream) == start.skip(consumed as int),
            start == in_remaining(*old(stream)),
            in_within(*old(stream)) ==> in_within(*stream),
        decreases count - i,
    {
        let ghost here = in_remaining(*stream);
        let item = match T::deserialize(stream) {
            Ok(v) => v,
            Err(e) => {
                proof {
                    lemma_parse_items_prefix_error::<T>(start, i as nat, count as nat, consumed);
                }
                return Err(e);
            },
        };
        proof {
            let m = T::parse(start.skip(consumed as int))->Ok_0.1;
            lemma_skip_skip(start, consumed as int, m as int);
            consumed = consumed + m;
        }
        let ghost before_items = items@;
        items.push(item);
        assert(views(items@) =~= views(before_items).push(item@));
        i = i + 1;
    }
    Ok(items)
}

/// Once a read of `i` values fails, a read of more values fails with the same error.
proof fn lemma_parse_items_prefix_error<T: Deserialize>(data: Seq<u8>, i: nat, count: nat, n: nat)
    requires
        i < count,
        parse_items::<T>(data, i) matches Ok((_, k)) && k == n,
        T::parse(data.skip(n as int)) is Err,
    ensures
        parse_items::<T>(data, count) == Err::<(Seq<T::V>, nat), StreamError>(
            T::parse(data.skip(n as int))->Err_0,
        ),
    decreases count - i,
{
    if count > i + 1 {
        lemma_parse_items_prefix_error::<T>(data, i, (count - 1) as nat, n);
    }
}

} // verus!
