//! Laws about sequences of calls on a [`DoublyLinkedList`](crate::dll::DoublyLinkedList).
//!
//! Each method's contract describes its effect on the list's view, a
//! `Seq<T>` read from front to back. The spec functions below chain those
//! effects, and the proof functions state what follows for whole sequences
//! of calls.
use vstd::prelude::*;

verus! {

/// Contents after calling `push_front` with each of `vals` in turn, starting from `s`.
pub open spec fn push_all_front<T>(s: Seq<T>, vals: Seq<T>) -> Seq<T>
    decreases vals.len(),
{
    if vals.len() == 0 {
        s
    } else {
        push_all_front(seq![vals[0]] + s, vals.drop_first())
    }
}

/// Contents after calling `push_back` with each of `vals` in turn, starting from `s`.
pub open spec fn push_all_back<T>(s: Seq<T>, vals: Seq<T>) -> Seq<T>
    decreases vals.len(),
{
    if vals.len() == 0 {
        s
    } else {
        push_all_back(s.push(vals[0]), vals.drop_first())
    }
}

/// The values that `pop_front`, called until it returns `None`, hands out
/// from a list holding `s`.
pub open spec fn drain_front<T>(s: Seq<T>) -> Seq<T>
    decreases s.len(),
{
    if s.len() == 0 {
        Seq::empty()
    } else {
        seq![s[0]] + drain_front(s.drop_first())
    }
}

/// The values that `pop_back`, called until it returns `None`, hands out
/// from a list holding `s`.
pub open spec fn drain_back<T>(s: Seq<T>) -> Seq<T>
    decreases s.len(),
{
    if s.len() == 0 {
        Seq::empty()
    } else {
        seq![s.last()] + drain_back(s.drop_last())
    }
}

/// One call on a list that changes or inspects its contents.
pub enum Op<T> {
    PushFront(T),
    PushBack(T),
    PopFront,
    PopBack,
}

/// Contents after `op` on a list holding `s`.
pub open spec fn step<T>(s: Seq<T>, op: Op<T>) -> Seq<T> {
    match op {
        Op::PushFront(v) => seq![v] + s,
        Op::PushBack(v) => s.push(v),
        Op::PopFront => if s.len() > 0 {
            s.drop_first()
        } else {
            s
        },
        Op::PopBack => if s.len() > 0 {
            s.drop_last()
        } else {
            s
        },
    }
}

/// Contents after the calls `ops`, in order, on a list holding `s`.
pub open spec fn run<T>(s: Seq<T>, ops: Seq<Op<T>>) -> Seq<T>
    decreases ops.len(),
{
    if ops.len() == 0 {
        s
    } else {
        run(step(s, ops[0]), ops.drop_first())
    }
}

/// The number of pushes among `ops`.
pub open spec fn pushes<T>(ops: Seq<Op<T>>) -> nat
    decreases ops.len(),
{
    if ops.len() == 0 {
        0
    } else {
        (if ops[0] is PushFront || ops[0] is PushBack {
            1nat
        } else {
            0nat
        }) + pushes(ops.drop_first())
    }
}

/// The number of pops among `ops` that return a value, when run on a list holding `s`.
pub open spec fn successful_pops<T>(s: Seq<T>, ops: Seq<Op<T>>) -> nat
    decreases ops.len(),
{
    if ops.len() == 0 {
        0
    } else {
        (if (ops[0] is PopFront || ops[0] is PopBack) && s.len() > 0 {
            1nat
        } else {
            0nat
        }) + successful_pops(step(s, ops[0]), ops.drop_first())
    }
}

proof fn lemma_push_all_front<T>(s: Seq<T>, vals: Seq<T>)
    ensures
        push_all_front(s, vals) == vals.reverse() + s,
    decreases vals.len(),
{
    if vals.len() > 0 {
        lemma_push_all_front(seq![vals[0]] + s, vals.drop_first());
        assert(vals.reverse() =~= vals.drop_first().reverse() + seq![vals[0]]);
        assert(vals.drop_first().reverse() + (seq![vals[0]] + s) =~= vals.reverse() + s);
    } else {
        assert(vals.reverse() + s =~= s);
    }
}

proof fn lemma_push_all_back<T>(s: Seq<T>, vals: Seq<T>)
    ensures
        push_all_back(s, vals) == s + vals,
    decreases vals.len(),
{
    if vals.len() > 0 {
        lemma_push_all_back(s.push(vals[0]), vals.drop_first());
        assert(s.push(vals[0]) + vals.drop_first() =~= s + vals);
    } else {
        assert(s + vals =~= s);
    }
}

proof fn lemma_drain_front<T>(s: Seq<T>)
    ensures
        drain_front(s) == s,
    decreases s.len(),
{
    if s.len() > 0 {
        lemma_drain_front(s.drop_first());
        assert(seq![s[0]] + s.drop_first() =~= s);
    } else {
        assert(s =~= Seq::<T>::empty());
    }
}

proof fn lemma_drain_back<T>(s: Seq<T>)
    ensures
        drain_back(s) == s.reverse(),
    decreases s.len(),
{
    if s.len() > 0 {
        lemma_drain_back(s.drop_last());
        assert(seq![s.last()] + s.drop_last().reverse() =~= s.reverse());
    } else {
        assert(s.reverse() =~= Seq::<T>::empty());
    }
}

/// Pushing values at the front and then popping from the front hands them
/// out in reverse order, after which the list is empty.
pub proof fn lemma_front_is_a_stack<T>(vals: Seq<T>)
    ensures
        drain_front(push_all_front(Seq::empty(), vals)) == vals.reverse(),
        push_all_front(Seq::empty(), vals).len() == vals.len(),
{
    lemma_push_all_front(Seq::empty(), vals);
    assert(vals.reverse() + Seq::empty() =~= vals.reverse());
    lemma_drain_front(vals.reverse());
}

/// Pushing values at the back and then popping from the back hands them out
/// in reverse order, after which the list is empty.
pub proof fn lemma_back_is_a_stack<T>(vals: Seq<T>)
    ensures
        drain_back(push_all_back(Seq::empty(), vals)) == vals.reverse(),
        push_all_back(Seq::empty(), vals).len() == vals.len(),
{
    lemma_push_all_back(Seq::empty(), vals);
    assert(Seq::empty() + vals =~= vals);
    lemma_drain_back(vals);
}

/// Pushing values at one end and popping them from the other hands them out
/// in the order in which they were pushed.
pub proof fn lemma_opposite_ends_keep_order<T>(vals: Seq<T>)
    ensures
        drain_back(push_all_front(Seq::empty(), vals)) == vals,
        drain_front(push_all_back(Seq::empty(), vals)) == vals,
{
    lemma_push_all_front(Seq::empty(), vals);
    assert(vals.reverse() + Seq::empty() =~= vals.reverse());
    lemma_drain_back(vals.reverse());
    assert(vals.reverse().reverse() =~= vals);
    lemma_push_all_back(Seq::empty(), vals);
    assert(Seq::empty() + vals =~= vals);
    lemma_drain_front(vals);
}

/// After any sequence of calls, the length is the starting length plus the
/// number of pushes minus the number of pops that returned a value; a pop on
/// an empty list leaves it empty.
pub proof fn lemma_length_counts_calls<T>(s: Seq<T>, ops: Seq<Op<T>>)
    ensures
        run(s, ops).len() + successful_pops(s, ops) == s.len() + pushes(ops),
        step(Seq::<T>::empty(), Op::PopFront) == Seq::<T>::empty(),
        step(Seq::<T>::empty(), Op::PopBack) == Seq::<T>::empty(),
    decreases ops.len(),
{
    if ops.len() > 0 {
        lemma_length_counts_calls(step(s, ops[0]), ops.drop_first());
    }
}

/// A value pushed on an empty list at either end is the value that a pop at
/// either end returns, and the list is empty again afterwards.
pub proof fn lemma_single_round_trip<T>(v: T)
    ensures
        (seq![v] + Seq::<T>::empty())[0] == v,
        (seq![v] + Seq::<T>::empty()).drop_first() == Seq::<T>::empty(),
        (seq![v] + Seq::<T>::empty()).last() == v,
        (seq![v] + Seq::<T>::empty()).drop_last() == Seq::<T>::empty(),
        Seq::<T>::empty().push(v)[0] == v,
        Seq::<T>::empty().push(v).drop_first() == Seq::<T>::empty(),
        Seq::<T>::empty().push(v).last() == v,
        Seq::<T>::empty().push(v).drop_last() == Seq::<T>::empty(),
{
    assert((seq![v] + Seq::<T>::empty()).drop_first() =~= Seq::<T>::empty());
    assert((seq![v] + Seq::<T>::empty()).drop_last() =~= Seq::<T>::empty());
    assert(Seq::<T>::empty().push(v).drop_first() =~= Seq::<T>::empty());
    assert(Seq::<T>::empty().push(v).drop_last() =~= Seq::<T>::empty());
}

} // verus!
