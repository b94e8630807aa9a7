//! The mathematical model of a bounded, overwrite-on-full FIFO queue, and the
//! laws that hold of it.
use vstd::prelude::*;

verus! {

/// The unread values after `v` is written to a queue of capacity `cap`
/// that holds `s`: when the queue is full, its oldest value is dropped first.
pub open spec fn push_evicting<T>(s: Seq<T>, cap: nat, v: T) -> Seq<T> {
    if s.len() >= cap {
        s.drop_first().push(v)
    } else {
        s.push(v)
    }
}

/// The unread values after each value of `vs` is written, in order.
pub open spec fn push_all<T>(s: Seq<T>, cap: nat, vs: Seq<T>) -> Seq<T>
    decreases vs.len(),
{
    if vs.len() == 0 {
        s
    } else {
        push_evicting(push_all(s, cap, vs.drop_last()), cap, vs.last())
    }
}

/// The last `n` values of `s`, or all of them when `s` holds no more than `n`.
pub open spec fn keep_last<T>(s: Seq<T>, n: nat) -> Seq<T> {
    if s.len() <= n {
        s
    } else {
        s.subrange(s.len() - n, s.len() as int)
    }
}

/// What one read returns, and the unread values left after it.
pub open spec fn take_front<T>(s: Seq<T>) -> (Option<T>, Seq<T>) {
    if s.len() == 0 {
        (None, s)
    } else {
        (Some(s[0]), s.drop_first())
    }
}

/// The results of `n` reads in a row.
pub open spec fn read_n<T>(s: Seq<T>, n: nat) -> Seq<Option<T>>
    decreases n,
{
    if n == 0 {
        Seq::empty()
    } else {
        seq![take_front(s).0] + read_n(take_front(s).1, (n - 1) as nat)
    }
}

/// The unread values left after `n` reads in a row.
pub open spec fn after_reads<T>(s: Seq<T>, n: nat) -> Seq<T>
    decreases n,
{
    if n == 0 {
        s
    } else {
        after_reads(take_front(s).1, (n - 1) as nat)
    }
}

/// Each value of `s`, as a present read result.
pub open spec fn as_present<T>(s: Seq<T>) -> Seq<Option<T>> {
    s.map_values(|v: T| Some(v))
}

/// Writing a sequence of values into a queue that is within its capacity keeps
/// exactly the newest `cap` values of everything held and written, oldest first.
pub proof fn lemma_writes_keep_newest<T>(s: Seq<T>, cap: nat, vs: Seq<T>)
    requires
        cap > 0,
        s.len() <= cap,
    ensures
        push_all(s, cap, vs) == keep_last(s + vs, cap),
    decreases vs.len(),
{
    if vs.len() > 0 {
        let prev = vs.drop_last();
        lemma_writes_keep_newest(s, cap, prev);
        assert(s + vs == (s + prev).push(vs.last()));
        let k = keep_last(s + prev, cap);
        let all = s + vs;
        assert(push_evicting(k, cap, vs.last()) =~= keep_last(all, cap));
    }
}

/// Starting from an empty queue, the number of values retained after any
/// sequence of writes is the smaller of the number of writes and the capacity.
pub proof fn lemma_capacity_bound<T>(cap: nat, vs: Seq<T>)
    requires
        cap > 0,
    ensures
        push_all(Seq::<T>::empty(), cap, vs).len() == if vs.len() < cap {
            vs.len()
        } else {
            cap
        },
{
    lemma_writes_keep_newest(Seq::<T>::empty(), cap, vs);
    assert(Seq::<T>::empty() + vs =~= vs);
}

/// Reads return the values held, oldest first, and then nothing.
pub proof fn lemma_reads_in_order<T>(s: Seq<T>, n: nat)
    ensures
        read_n(s, n).len() == n,
        forall|i: int| 0 <= i < n && i < s.len() ==> read_n(s, n)[i] == Some(s[i]),
        forall|i: int| s.len() <= i < n ==> read_n(s, n)[i] is None,
        n <= s.len() ==> after_reads(s, n) == s.subrange(n as int, s.len() as int),
        n >= s.len() ==> after_reads(s, n).len() == 0,
    decreases n,
{
    if n > 0 {
        let rest = take_front(s).1;
        lemma_reads_in_order(rest, (n - 1) as nat);
        if s.len() > 0 {
            assert forall|i: int| 0 <= i < n && i < s.len() implies read_n(s, n)[i] == Some(
                s[i],
            ) by {
                if i > 0 {
                    assert(read_n(s, n)[i] == read_n(rest, (n - 1) as nat)[i - 1]);
                }
            }
            assert forall|i: int| s.len() <= i < n implies read_n(s, n)[i] is None by {
                assert(read_n(s, n)[i] == read_n(rest, (n - 1) as nat)[i - 1]);
            }
            if n <= s.len() {
                assert(after_reads(rest, (n - 1) as nat) =~= s.subrange(n as int, s.len() as int));
            }
        } else {
            assert forall|i: int| s.len() <= i < n implies read_n(s, n)[i] is None by {
                if i > 0 {
                    assert(read_n(s, n)[i] == read_n(rest, (n - 1) as nat)[i - 1]);
                }
            }
        }
    }
}

/// Values are read in the order in which they were written: after any sequence
/// of writes into a queue within its capacity, as many reads as values are held
/// return the newest `cap` values of everything held and written, oldest first,
/// and leave the queue empty.
pub proof fn lemma_fifo<T>(s: Seq<T>, cap: nat, vs: Seq<T>)
    requires
        cap > 0,
        s.len() <= cap,
    ensures
        read_n(push_all(s, cap, vs), push_all(s, cap, vs).len()) == as_present(
            keep_last(s + vs, cap),
        ),
        after_reads(push_all(s, cap, vs), push_all(s, cap, vs).len()).len() == 0,
{
    lemma_writes_keep_newest(s, cap, vs);
    let q = push_all(s, cap, vs);
    lemma_reads_in_order(q, q.len());
    assert(read_n(q, q.len()) =~= as_present(q));
}

/// Writing `cap + 1` values into an empty queue evicts the first: `cap` reads
/// then return the other `cap` values in order.
pub proof fn lemma_eviction<T>(cap: nat, vs: Seq<T>)
    requires
        cap > 0,
        vs.len() == cap + 1,
    ensures
        push_all(Seq::<T>::empty(), cap, vs) == vs.subrange(1, vs.len() as int),
        read_n(push_all(Seq::<T>::empty(), cap, vs), cap) == as_present(
            vs.subrange(1, vs.len() as int),
        ),
{
    lemma_writes_keep_newest(Seq::<T>::empty(), cap, vs);
    assert(Seq::<T>::empty() + vs =~= vs);
    let q = push_all(Seq::<T>::empty(), cap, vs);
    lemma_reads_in_order(q, cap);
    assert(read_n(q, cap) =~= as_present(vs.subrange(1, vs.len() as int)));
}

/// Reading an empty queue returns nothing and leaves it empty, however often
/// it is repeated.
pub proof fn lemma_empty_reads<T>(n: nat)
    ensures
        read_n(Seq::<T>::empty(), n) == Seq::new(n, |i: int| None::<T>),
        after_reads(Seq::<T>::empty(), n) == Seq::<T>::empty(),
{
    lemma_reads_in_order(Seq::<T>::empty(), n);
    assert(read_n(Seq::<T>::empty(), n) =~= Seq::new(n, |i: int| None::<T>));
    assert(after_reads(Seq::<T>::empty(), n) =~= Seq::<T>::empty());
}

/// Writing no more values than the capacity into an empty queue, then reading
/// as many times, returns exactly the values written, in order, and leaves the
/// queue empty.
pub proof fn lemma_round_trip<T>(cap: nat, vs: Seq<T>)
    requires
        cap > 0,
        vs.len() <= cap,
    ensures
        read_n(push_all(Seq::<T>::empty(), cap, vs), vs.len()) == as_present(vs),
        after_reads(push_all(Seq::<T>::empty(), cap, vs), vs.len()).len() == 0,
{
    lemma_writes_keep_newest(Seq::<T>::empty(), cap, vs);
    assert(Seq::<T>::empty() + vs =~= vs);
    lemma_fifo(Seq::<T>::empty(), cap, vs);
}

} // verus!
