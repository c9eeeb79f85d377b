use vstd::prelude::*;

verus! {

/// How many times `x` occurs in `s`.
pub open spec fn count_of<T>(s: Seq<T>, x: T) -> nat
    decreases s.len(),
{
    if s.len() == 0 {
        0
    } else {
        count_of(s.drop_last(), x) + if s.last() == x { 1nat } else { 0nat }
    }
}

pub proof fn lemma_count_of_push<T>(s: Seq<T>, v: T, x: T)
    ensures
        count_of(s.push(v), x) == count_of(s, x) + if v == x { 1nat } else { 0nat },
{
    assert(s.push(v).drop_last() =~= s);
}

pub proof fn lemma_count_of_concat<T>(s: Seq<T>, t: Seq<T>, x: T)
    ensures
        count_of(s + t, x) == count_of(s, x) + count_of(t, x),
    decreases t.len(),
{
    if t.len() == 0 {
        assert(s + t =~= s);
    } else {
        assert((s + t).drop_last() =~= s + t.drop_last());
        lemma_count_of_concat(s, t.drop_last(), x);
    }
}

pub proof fn lemma_count_of_positive<T>(s: Seq<T>, x: T)
    ensures
        count_of(s, x) > 0 <==> s.contains(x),
    decreases s.len(),
{
    if s.len() > 0 {
        lemma_count_of_positive(s.drop_last(), x);
        if s.drop_last().contains(x) {
            let i = choose|i: int| 0 <= i < s.drop_last().len() && s.drop_last()[i] == x;
            assert(s[i] == x);
        }
        if s.contains(x) && s.last() != x {
            let i = choose|i: int| 0 <= i < s.len() && s[i] == x;
            assert(s.drop_last()[i] == x);
        }
    }
}

pub proof fn lemma_count_of_update<T>(s: Seq<T>, i: int, v: T, x: T)
    requires
        0 <= i < s.len(),
    ensures
        count_of(s.update(i, v), x) + (if s[i] == x { 1nat } else { 0nat }) == count_of(s, x) + (
        if v == x { 1nat } else { 0nat }),
    decreases s.len(),
{
    if i == s.len() - 1 {
        assert(s.update(i, v).drop_last() =~= s.drop_last());
    } else {
        assert(s.update(i, v).drop_last() =~= s.drop_last().update(i, v));
        lemma_count_of_update(s.drop_last(), i, v, x);
    }
}

/// Removing position `i` by moving the last element into it (what
/// `Vec::swap_remove` does) removes one occurrence of `s[i]` and no other.
pub proof fn lemma_count_of_swap_remove<T>(s: Seq<T>, i: int, x: T)
    requires
        0 <= i < s.len(),
    ensures
        count_of(s.update(i, s.last()).drop_last(), x) + (if s[i] == x { 1nat } else { 0nat })
            == count_of(s, x),
{
    let u = s.update(i, s.last());
    lemma_count_of_update(s, i, s.last(), x);
    assert(u.last() == s.last());
}

} // verus!
