//! Sums of a natural-number measure over a sequence, and how they move when
//! the sequence is edited.

use vstd::prelude::*;

verus! {

/// The sum of `f` over the elements of `s`.
pub open spec fn sum_of<T>(s: Seq<T>, f: spec_fn(T) -> nat) -> nat
    decreases s.len(),
{
    if s.len() == 0 {
        0
    } else {
        sum_of(s.drop_last(), f) + f(s.last())
    }
}

/// The empty sum is zero.
pub proof fn lemma_sum_empty<T>(f: spec_fn(T) -> nat)
    ensures
        sum_of(Seq::<T>::empty(), f) == 0,
{
}

/// Appending an element adds its term.
pub proof fn lemma_sum_push<T>(s: Seq<T>, x: T, f: spec_fn(T) -> nat)
    ensures
        sum_of(s.push(x), f) == sum_of(s, f) + f(x),
{
    assert(s.push(x).drop_last() =~= s);
}

/// The sum over a concatenation is the sum of the sums.
pub proof fn lemma_sum_concat<T>(a: Seq<T>, b: Seq<T>, f: spec_fn(T) -> nat)
    ensures
        sum_of(a + b, f) == sum_of(a, f) + sum_of(b, f),
    decreases b.len(),
{
    if b.len() == 0 {
        assert(a + b =~= a);
    } else {
        lemma_sum_concat(a, b.drop_last(), f);
        assert((a + b).drop_last() =~= a + b.drop_last());
    }
}

/// The sum over one element is its term.
pub proof fn lemma_sum_one<T>(x: T, f: spec_fn(T) -> nat)
    ensures
        sum_of(seq![x], f) == f(x),
{
    assert(seq![x] =~= Seq::<T>::empty().push(x));
    lemma_sum_push(Seq::<T>::empty(), x, f);
}

/// Removing an element takes its term away.
pub proof fn lemma_sum_remove<T>(s: Seq<T>, i: int, f: spec_fn(T) -> nat)
    requires
        0 <= i < s.len(),
    ensures
        sum_of(s.remove(i), f) + f(s[i]) == sum_of(s, f),
{
    let head = s.take(i);
    let tail = s.skip(i + 1);
    assert(s.remove(i) =~= head + tail);
    assert(s =~= head.push(s[i]) + tail);
    lemma_sum_concat(head, tail, f);
    lemma_sum_concat(head.push(s[i]), tail, f);
    lemma_sum_push(head, s[i], f);
}

/// Inserting an element adds its term.
pub proof fn lemma_sum_insert<T>(s: Seq<T>, i: int, x: T, f: spec_fn(T) -> nat)
    requires
        0 <= i <= s.len(),
    ensures
        sum_of(s.insert(i, x), f) == sum_of(s, f) + f(x),
{
    let t = s.insert(i, x);
    assert(t.remove(i) =~= s);
    lemma_sum_remove(t, i, f);
}

/// Replacing an element swaps its term for the new one.
pub proof fn lemma_sum_update<T>(s: Seq<T>, i: int, x: T, f: spec_fn(T) -> nat)
    requires
        0 <= i < s.len(),
    ensures
        sum_of(s.update(i, x), f) + f(s[i]) == sum_of(s, f) + f(x),
{
    let t = s.update(i, x);
    assert(t.remove(i) =~= s.remove(i));
    lemma_sum_remove(t, i, f);
    lemma_sum_remove(s, i, f);
}

/// A sum is at most the length times a bound on every term.
pub proof fn lemma_sum_bound<T>(s: Seq<T>, f: spec_fn(T) -> nat, bound: nat)
    requires
        forall|i: int| 0 <= i < s.len() ==> f(#[trigger] s[i]) <= bound,
    ensures
        sum_of(s, f) <= s.len() * bound,
    decreases s.len(),
{
    if s.len() > 0 {
        let rest = s.drop_last();
        assert forall|i: int| 0 <= i < rest.len() implies f(#[trigger] rest[i]) <= bound by {
            assert(rest[i] == s[i]);
        }
        lemma_sum_bound(rest, f, bound);
        assert(rest.len() * bound + bound == s.len() * bound) by (nonlinear_arith)
            requires
                rest.len() + 1 == s.len(),
        ;
    }
}

} // verus!
