//! The mathematical model of a ring buffer: the sequence of live elements,
//! oldest first, and how each operation changes it.
use vstd::prelude::*;

verus! {

/// The last `c` elements of `s` (all of `s` when it has at most `c`).
pub open spec fn last_n<T>(s: Seq<T>, c: nat) -> Seq<T> {
    if s.len() <= c {
        s
    } else {
        s.subrange(s.len() - c, s.len() as int)
    }
}

/// The contents after pushing `e` onto contents `v` in a buffer of capacity `c`:
/// `e` is appended, and the oldest element is dropped when `v` was full.
pub open spec fn after_push<T>(v: Seq<T>, e: T, c: nat) -> Seq<T> {
    last_n(v.push(e), c)
}

/// The contents after pushing the elements of `s`, in order, onto contents
/// `v` in a buffer of capacity `c`.
pub open spec fn after_pushes<T>(v: Seq<T>, s: Seq<T>, c: nat) -> Seq<T>
    decreases s.len(),
{
    if s.len() == 0 {
        v
    } else {
        after_push(after_pushes(v, s.drop_last(), c), s.last(), c)
    }
}

/// What `k` successive pops on contents `v` return, in order: the oldest
/// element each time, or `None` once the contents are empty.
pub open spec fn pops<T>(v: Seq<T>, k: nat) -> Seq<Option<T>>
    decreases k,
{
    if k == 0 {
        Seq::empty()
    } else if v.len() == 0 {
        seq![None].add(pops(v, (k - 1) as nat))
    } else {
        seq![Some(v[0])].add(pops(v.drop_first(), (k - 1) as nat))
    }
}

/// Keeping the last `c` elements before a push changes nothing about the
/// last `c` elements after it.
proof fn lemma_last_n_push<T>(w: Seq<T>, x: T, c: nat)
    requires
        c > 0,
    ensures
        last_n(last_n(w, c).push(x), c) == last_n(w.push(x), c),
{
    assert(last_n(last_n(w, c).push(x), c) =~= last_n(w.push(x), c));
}

/// Pushing `s` onto contents `v` that fit leaves the last `c` elements of
/// `v + s`.
proof fn lemma_after_pushes_window<T>(v: Seq<T>, s: Seq<T>, c: nat)
    requires
        c > 0,
        v.len() <= c,
    ensures
        after_pushes(v, s, c) == last_n(v + s, c),
    decreases s.len(),
{
    if s.len() == 0 {
        assert(v + s =~= v);
    } else {
        lemma_after_pushes_window(v, s.drop_last(), c);
        lemma_last_n_push(v + s.drop_last(), s.last(), c);
        assert((v + s.drop_last()).push(s.last()) =~= v + s);
    }
}

/// Pushing the elements of `s` into an empty buffer of capacity `c` leaves
/// exactly the last `c` of them, oldest first: all of `s`, in push order,
/// when it has at most `c` elements.
pub proof fn lemma_pushes_keep_newest<T>(s: Seq<T>, c: nat)
    requires
        c > 0,
    ensures
        s.len() <= c ==> after_pushes(Seq::empty(), s, c) == s,
        s.len() > c ==> after_pushes(Seq::empty(), s, c) == s.subrange(
            s.len() - c,
            s.len() as int,
        ),
{
    lemma_after_pushes_window(Seq::empty(), s, c);
    assert(Seq::<T>::empty() + s =~= s);
}

/// Popping one more time than there are elements yields every element,
/// oldest first, and then `None`.
proof fn lemma_pops_drain<T>(v: Seq<T>)
    ensures
        pops(v, v.len() + 1) == v.map_values(|x: T| Some(x)).push(None),
    decreases v.len(),
{
    if v.len() == 0 {
        assert(pops(v, 0) =~= Seq::<Option<T>>::empty());
        assert(pops(v, 1) =~= v.map_values(|x: T| Some(x)).push(None));
    } else {
        lemma_pops_drain(v.drop_first());
        assert(pops(v, v.len() + 1) =~= v.map_values(|x: T| Some(x)).push(None));
    }
}

/// Round trip: after pushing at most `c` elements into an empty buffer of
/// capacity `c`, popping returns them all in push order, with nothing lost,
/// and the next pop returns `None`.
pub proof fn lemma_fifo_round_trip<T>(s: Seq<T>, c: nat)
    requires
        c > 0,
        s.len() <= c,
    ensures
        pops(after_pushes(Seq::empty(), s, c), s.len() + 1) == s.map_values(|x: T| Some(x)).push(
            None,
        ),
{
    lemma_pushes_keep_newest(s, c);
    lemma_pops_drain(s);
}

} // verus!
