//! A free list of octet-sized identifiers: ids are handed out lowest first, and a
//! freed id is handed out again only after every id that was free before it.
use vstd::prelude::*;
use vstd::string::*;
use crate::decimal::{decimal, push_decimal, string_of};

verus! {

/// The free identifiers; the next one handed out is the last.
pub struct FreeList {
    free_numbers: Vec<u8>,
}

/// The message of a double free of `id`: `ID {id} is already freed`.
pub open spec fn already_freed_message(id: u8) -> Seq<char> {
    seq!['I', 'D', ' '] + decimal(id as nat) + seq![
        ' ',
        'i',
        's',
        ' ',
        'a',
        'l',
        'r',
        'e',
        'a',
        'd',
        'y',
        ' ',
        'f',
        'r',
        'e',
        'e',
        'd',
    ]
}

/// The ids `count - 1` down to `0`.
pub open spec fn initial_free(count: nat) -> Seq<u8> {
    Seq::new(count, |i: int| (count - 1 - i) as u8)
}

impl View for FreeList {
    type V = Seq<u8>;

    closed spec fn view(&self) -> Seq<u8> {
        self.free_numbers@
    }
}

impl FreeList {
    /// No id is free twice: this holds of every free list.
    #[verifier::type_invariant]
    pub open spec fn wf(&self) -> bool {
        self@.no_duplicates()
    }

    /// A free list of the ids `0..count`, handing out `0` first.
    pub fn new(count: u8) -> (list: Self)
        ensures
            list@ == initial_free(count as nat),
            list.wf(),
    {
        let mut free_numbers: Vec<u8> = Vec::with_capacity(count as usize);
        let mut i: u8 = count;
        while i > 0
            invariant
                i <= count,
                free_numbers@ == initial_free(count as nat).take((count - i) as int),
            decreases i,
        {
            i = i - 1;
            free_numbers.push(i);
            assert(free_numbers@ =~= initial_free(count as nat).take((count - i) as int));
        }
        assert(free_numbers@ =~= initial_free(count as nat));
        let list = Self { free_numbers };
        assert forall|a: int, b: int| 0 <= a < b < list@.len() implies list@[a] != list@[b] by {}
        list
    }

    /// Hands out the next free id, or `None` when every id is in use.
    pub fn allocate(&mut self) -> (id: Option<u8>)
        ensures
            old(self)@.len() == 0 ==> id is None && final(self)@ == old(self)@,
            old(self)@.len() > 0 ==> id == Some(old(self)@.last()) && final(self)@
                == old(self)@.drop_last(),
            final(self).wf(),
    {
        proof {
            use_type_invariant(&*self);
        }
        let mut numbers: Vec<u8> = Vec::new();
        std::mem::swap(&mut numbers, &mut self.free_numbers);
        let id = numbers.pop();
        proof {
            if old(self)@.len() > 0 {
                assert(numbers@ =~= old(self)@.drop_last());
                assert forall|a: int, b: int| 0 <= a < b < numbers@.len() implies numbers@[a]
                    != numbers@[b] by {
                    assert(numbers@[a] == old(self)@[a] && numbers@[b] == old(self)@[b]);
                }
            }
        }
        self.free_numbers = numbers;
        id
    }

    /// Returns `id` to the list, to be handed out after every id already free; fails,
    /// changing nothing, when `id` is already free.
    pub fn free(&mut self, id: u8) -> (r: Result<(), String>)
        ensures
            old(self)@.contains(id) ==> (r matches Err(message) && message@
                == already_freed_message(id) && final(self)@ == old(self)@),
            !old(self)@.contains(id) ==> r is Ok && final(self)@ == seq![id] + old(self)@,
            final(self).wf(),
    {
        proof {
            use_type_invariant(&*self);
        }
        let mut k: usize = 0;
        while k < self.free_numbers.len()
            invariant
                k <= self.free_numbers@.len(),
                self.wf(),
                forall|j: int| 0 <= j < k ==> self.free_numbers@[j] != id,
            decreases self.free_numbers@.len() - k,
        {
            if self.free_numbers[k] == id {
                let mut message = string_of("ID ");
                push_decimal(&mut message, id as u64);
                let rest = string_of(" is already freed");
                message.append(rest.as_str());
                proof {
                    reveal_strlit("ID ");
                    reveal_strlit(" is already freed");
                    assert(message@ =~= already_freed_message(id));
                    assert(self@[k as int] == id);
                }
                return Err(message);
            }
            k = k + 1;
        }
        let mut numbers: Vec<u8> = Vec::new();
        std::mem::swap(&mut numbers, &mut self.free_numbers);
        numbers.insert(0, id);
        proof {
            assert(numbers@ =~= seq![id] + old(self)@);
            assert(!old(self)@.contains(id));
            assert forall|a: int, b: int| 0 <= a < b < numbers@.len() implies numbers@[a] != numbers@[b] by {
                if a == 0 {
                    assert(old(self)@[b - 1] == numbers@[b]);
                } else {
                    assert(old(self)@[a - 1] == numbers@[a]);
                    assert(old(self)@[b - 1] == numbers@[b]);
                }
            }
        }
        self.free_numbers = numbers;
        Ok(())
    }
}

/// In a list where no id is free twice, the id that `allocate` hands out is no longer
/// free afterwards, so freeing it again succeeds.
pub proof fn lemma_allocated_id_can_be_freed(before: Seq<u8>)
    requires
        before.no_duplicates(),
        before.len() > 0,
    ensures
        !before.drop_last().contains(before.last()),
{
    if before.drop_last().contains(before.last()) {
        let j = choose|j: int| 0 <= j < before.drop_last().len() && before.drop_last()[j] == before.last();
        assert(before[j] == before[before.len() - 1]);
    }
}

} // verus!
