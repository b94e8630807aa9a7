//! The ring buffer itself: `N` slots addressed by two ever-increasing cursors,
//! each projected into the slots modulo `N`.
use vstd::prelude::*;
use vstd::std_specs::cmp::PartialEqSpec;
use crate::queue_model::{push_evicting, take_front};

verus! {

/// The value a written slot holds.
spec fn slot_value<T>(o: Option<T>) -> T
    recommends
        o is Some,
{
    o->Some_0
}

/// Two logical positions less than `n` apart fall into different slots.
proof fn lemma_distinct_slots(a: int, b: int, n: int)
    requires
        n > 0,
        0 <= a < b < a + n,
    ensures
        a % n != b % n,
{
    vstd::arithmetic::div_mod::lemma_fundamental_div_mod(a, n);
    vstd::arithmetic::div_mod::lemma_fundamental_div_mod(b, n);
    let qa = a / n;
    let qb = b / n;
    if a % n == b % n {
        assert(false) by (nonlinear_arith)
            requires
                a == n * qa + a % n,
                b == n * qb + b % n,
                a % n == b % n,
                0 < b - a < n,
                n > 0,
        ;
    }
}

/// A ring buffer of capacity `N`. When it is full, a write discards the oldest
/// unread value to make room; a read of an empty buffer returns `None`.
pub struct Rasengan<T, const N: usize> {
    buf: [Option<T>; N],
    read_ptr: usize,
    write_ptr: usize,
    history: Ghost<Seq<T>>,
}

impl<T, const N: usize> View for Rasengan<T, N> {
    /// The unread values, oldest first.
    type V = Seq<T>;

    closed spec fn view(&self) -> Seq<T> {
        Seq::new(
            (self.write_ptr + 1 - self.read_ptr) as nat,
            |i: int| slot_value(self.buf@[(self.read_ptr + i) % (N as int)]),
        )
    }
}

impl<T, const N: usize> Rasengan<T, N> {
    /// The cursors stay in order, the unread values fit in the slots, each of
    /// the last `N` positions written holds a value, and the history records
    /// every write, the unconsumed part of it matching the slots.
    pub closed spec fn well_formed(&self) -> bool {
        &&& N > 0
        &&& self.write_ptr < usize::MAX
        &&& 1 <= self.read_ptr <= self.write_ptr + 1
        &&& self.write_ptr + 1 - self.read_ptr <= N
        &&& forall|p: int|
            #![trigger self.buf@[p % (N as int)]]
            1 <= p <= self.write_ptr && self.write_ptr - N < p ==> self.buf@[p % (N as int)] is Some
        &&& self.history@.len() == self.write_ptr
        &&& forall|i: int|
            #![trigger self.history@[i]]
            self.read_ptr - 1 <= i < self.write_ptr ==> self.history@[i] == slot_value(
                self.buf@[(i + 1) % (N as int)],
            )
    }

    /// Every value written over the buffer's life, oldest first, including
    /// those since read or discarded.
    pub closed spec fn history(&self) -> Seq<T> {
        self.history@
    }

    /// How many positions of the history have been passed, by a read or by
    /// being discarded; the unread values follow them.
    pub closed spec fn consumed(&self) -> nat {
        (self.read_ptr - 1) as nat
    }

    /// The logical position of the next value to read; it starts at 1 and
    /// stays one ahead of the last position consumed.
    pub closed spec fn read_cursor(&self) -> nat {
        self.read_ptr as nat
    }

    /// The slots, each empty or holding a value.
    pub closed spec fn slots(&self) -> Seq<Option<T>> {
        self.buf@
    }

    /// The state of a new buffer: nothing written or read, and every one of the
    /// `N` slots empty.
    pub open spec fn is_initial(&self) -> bool {
        &&& self.slots() == Seq::new(N as nat, |i: int| None::<T>)
        &&& self.history() == Seq::<T>::empty()
        &&& self.read_cursor() == 1
        &&& self.total_writes() == 0
    }

    /// There is one initial state: two buffers that are both in it are equal.
    pub proof fn lemma_initial_unique(a: Self, b: Self)
        requires
            a.is_initial(),
            b.is_initial(),
        ensures
            a == b,
    {
        assert(a.buf =~= b.buf) by {
            assert forall|i: int| 0 <= i < N implies a.buf[i] == b.buf[i] by {
                assert(a.slots()[i] == b.slots()[i]);
            }
        }
        assert(a.history@ =~= b.history@);
    }

    /// The unread values are always the part of the history that has not been
    /// consumed: values come out in the order in which they were written, each
    /// at most once, with the discarded ones skipped.
    pub proof fn lemma_unread_is_history_rest(&self)
        requires
            self.well_formed(),
        ensures
            self.consumed() <= self.history().len(),
            self@ == self.history().subrange(self.consumed() as int, self.history().len() as int),
    {
        assert forall|i: int| 0 <= i < self@.len() implies self@[i] == self.history().subrange(
            self.consumed() as int,
            self.history().len() as int,
        )[i] by {
            assert(self.history@[self.read_ptr - 1 + i] == slot_value(
                self.buf@[(self.read_ptr - 1 + i + 1) % (N as int)],
            ));
        }
        assert(self@ =~= self.history().subrange(
            self.consumed() as int,
            self.history().len() as int,
        ));
    }

    /// The value most recently written, if any has been written.
    pub closed spec fn last_written(&self) -> Option<T> {
        if self.write_ptr == 0 {
            None
        } else {
            self.buf@[(self.write_ptr as int) % (N as int)]
        }
    }

    /// How many values have been written over the buffer's life.
    pub closed spec fn total_writes(&self) -> nat {
        self.write_ptr as nat
    }

    /// Whether one more write can be counted.
    pub open spec fn can_write(&self) -> bool {
        self.total_writes() + 1 < usize::MAX
    }
}

impl<T: Copy, const N: usize> Rasengan<T, N> {
    /// An empty buffer of capacity `N`.
    pub fn new() -> (r: Self)
        requires
            N > 0,
        ensures
            r.well_formed(),
            r@ == Seq::<T>::empty(),
            r.last_written() is None,
            r.total_writes() == 0,
            r.is_initial(),
    {
        Rasengan::new_const_default()
    }

    /// An empty buffer of capacity `N`, with every slot unwritten.
    pub fn new_const_default() -> (r: Self)
        requires
            N > 0,
        ensures
            r.well_formed(),
            r@ == Seq::<T>::empty(),
            r.last_written() is None,
            r.total_writes() == 0,
            r.is_initial(),
    {
        let r = Self { buf: [None;N], read_ptr: 1, write_ptr: 0, history: Ghost(Seq::empty()) };
        assert(r@ =~= Seq::<T>::empty());
        assert(r.slots() =~= Seq::new(N as nat, |i: int| None::<T>));
        r
    }

    /// Whether the next write lands on the slot of the oldest unread value.
    fn will_overwrite_unread_data(&self) -> (r: bool)
        requires
            self.well_formed(),
        ensures
            r == (self@.len() == N),
    {
        self.write_ptr + 1 - self.read_ptr == N
    }

    /// Appends `data`; when the buffer is full, the oldest unread value is
    /// discarded first.
    pub fn write(&mut self, data: T)
        requires
            old(self).well_formed(),
            old(self).can_write(),
        ensures
            final(self).well_formed(),
            final(self)@ == push_evicting(old(self)@, N as nat, data),
            final(self).last_written() == Some(data),
            final(self).total_writes() == old(self).total_writes() + 1,
            final(self).history() == old(self).history().push(data),
            final(self).consumed() >= old(self).consumed(),
    {
        let ghost old_view = self@;
        let ghost r0 = self.read_ptr as int;
        let ghost w0 = self.write_ptr as int;
        let ghost n = N as int;
        if self.will_overwrite_unread_data() {
            self.read_ptr = self.read_ptr + 1;
        }
        self.write_ptr = self.write_ptr + 1;
        let idx = self.write_ptr % N;
        self.buf[idx] = Some(data);
        self.history = Ghost(self.history@.push(data));
        proof {
            let w1 = self.write_ptr as int;
            let r1 = self.read_ptr as int;
            assert forall|p: int|
                #![trigger self.buf@[p % n]]
                1 <= p <= w1 && w1 - n < p implies self.buf@[p % n] is Some by {
                if p < w1 {
                    lemma_distinct_slots(p, w1, n);
                    assert(self.buf@[p % n] == old(self).buf@[p % n]);
                }
            }
            let expected = push_evicting(old_view, N as nat, data);
            assert forall|i: int| 0 <= i < self@.len() implies self@[i] == expected[i] by {
                if r1 + i < w1 {
                    lemma_distinct_slots(r1 + i, w1, n);
                    assert(old(self).buf@[(r1 + i) % n] == self.buf@[(r1 + i) % n]);
                    if r1 == r0 + 1 {
                        assert(old_view[i + 1] == slot_value(old(self).buf@[(r0 + (i + 1)) % n]));
                    } else {
                        assert(old_view[i] == slot_value(old(self).buf@[(r0 + i) % n]));
                    }
                }
            }
            assert(self@ =~= expected);
            assert forall|i: int|
                #![trigger self.history@[i]]
                r1 - 1 <= i < w1 implies self.history@[i] == slot_value(
                self.buf@[(i + 1) % n],
            ) by {
                if i + 1 < w1 {
                    lemma_distinct_slots(i + 1, w1, n);
                    assert(self.history@[i] == old(self).history@[i]);
                }
            }
        }
    }

    /// Removes and returns the oldest unread value, or `None` when every value
    /// written has been read or discarded; an empty buffer is left as it is.
    pub fn read(&mut self) -> (r: Option<T>)
        requires
            old(self).well_formed(),
        ensures
            final(self).well_formed(),
            (r, final(self)@) == take_front(old(self)@),
            old(self)@.len() == 0 ==> *final(self) == *old(self),
            final(self).last_written() == old(self).last_written(),
            final(self).total_writes() == old(self).total_writes(),
            final(self).history() == old(self).history(),
            r is Some ==> r == Some(old(self).history()[old(self).consumed() as int])
                && final(self).consumed() == old(self).consumed() + 1,
    {
        if self.write_ptr < self.read_ptr {
            return None;
        }
        let ghost old_view = self@;
        let ghost n = N as int;
        proof {
            let p = self.read_ptr as int;
            assert(self.buf@[p % n] is Some);
            assert(self.history@[p - 1] == slot_value(self.buf@[p % n]));
        }
        let data = self.buf[self.read_ptr % N];
        self.read_ptr = self.read_ptr + 1;
        assert(self@ =~= old_view.drop_first());
        data
    }
}

impl<T: Copy + PartialEq, const N: usize> Rasengan<T, N> {
    /// Whether writing `data` would repeat the value most recently written.
    pub open spec fn repeats_last(&self, data: T) -> bool {
        match self.last_written() {
            Some(last) => data.eq_spec(&last),
            None => false,
        }
    }

    /// Writes `data` as `write` does, unless it equals the value most recently
    /// written, in which case the buffer is left as it is.
    pub fn write_unique(&mut self, data: T)
        requires
            old(self).well_formed(),
            old(self).can_write(),
        ensures
            final(self).well_formed(),
            *final(self) == *old(self) || {
                &&& final(self)@ == push_evicting(old(self)@, N as nat, data)
                &&& final(self).last_written() == Some(data)
                &&& final(self).total_writes() == old(self).total_writes() + 1
            },
            old(self).last_written() is None ==> {
                &&& final(self)@ == push_evicting(old(self)@, N as nat, data)
                &&& final(self).last_written() == Some(data)
                &&& final(self).total_writes() == old(self).total_writes() + 1
            },
            T::obeys_eq_spec() && old(self).repeats_last(data) ==> *final(self) == *old(self),
            T::obeys_eq_spec() && !old(self).repeats_last(data) ==> {
                &&& final(self)@ == push_evicting(old(self)@, N as nat, data)
                &&& final(self).last_written() == Some(data)
                &&& final(self).total_writes() == old(self).total_writes() + 1
            },
    {
        if self.write_ptr == 0 {
            self.write(data);
            return;
        }
        let idx = self.write_ptr % N;
        let last_written = self.buf[idx];
        match last_written {
            Some(last) => {
                if data != last {
                    self.write(data);
                }
            },
            None => {
                self.write(data);
            },
        }
    }
}

} // verus!
