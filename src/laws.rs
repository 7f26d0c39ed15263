use vstd::prelude::*;

use crate::codec::{accepts, accepts_all, after_push_all, CAPACITY};
use crate::digit::all_digits;

verus! {

/// An empty block asked to take a digit sequence that fits in it takes it
/// whole and then holds exactly that sequence, so draining or reading it
/// back gives the sequence in its order.
pub proof fn lemma_block_round_trip(s: Seq<int>)
    requires
        all_digits(s),
        s.len() <= CAPACITY,
    ensures
        accepts_all(Seq::empty(), s),
        after_push_all(Seq::empty(), s) == s,
        forall|i: int| 0 <= i < s.len() ==> #[trigger] after_push_all(Seq::empty(), s)[i] == s[i],
{
    assert(Seq::<int>::empty() + s =~= s);
}

/// A container starts empty and appends what it is given, so filling an
/// empty one with a digit sequence and then draining or reading it gives the
/// sequence back in its order.
pub proof fn lemma_chain_round_trip(s: Seq<int>)
    requires
        all_digits(s),
    ensures
        Seq::<int>::empty() + s == s,
{
    assert(Seq::<int>::empty() + s =~= s);
}

/// An empty block takes exactly `CAPACITY` digits, and once it holds that
/// many it takes no further value.
pub proof fn lemma_block_capacity(s: Seq<int>, v: int)
    requires
        all_digits(s),
        s.len() == CAPACITY,
    ensures
        accepts_all(Seq::empty(), s),
        after_push_all(Seq::empty(), s) == s,
        !accepts(s, v),
{
    assert(Seq::<int>::empty() + s =~= s);
}

/// A value that is not a digit is refused by every block.
pub proof fn lemma_block_refuses_non_digit(pre: Seq<int>, v: int)
    requires
        v >= 4,
    ensures
        !accepts(pre, v),
{
}

/// A block refuses an input longer than `CAPACITY` without changing, and an
/// empty block asked to take an input with a value that is not a digit stays
/// empty.
pub proof fn lemma_block_rollback(pre: Seq<int>, s: Seq<int>)
    ensures
        s.len() > CAPACITY ==> !accepts_all(pre, s) && after_push_all(pre, s) == pre,
        pre.len() == 0 && !all_digits(s) ==> !accepts_all(pre, s) && after_push_all(pre, s)
            == pre,
{
    if pre.len() == 0 && !all_digits(s) && s.len() <= CAPACITY {
        assert(pre =~= Seq::<int>::empty());
    }
}

} // verus!
