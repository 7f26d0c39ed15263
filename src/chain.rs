use vstd::arithmetic::div_mod::lemma_fundamental_div_mod_converse;
use vstd::prelude::*;

use crate::codec::{Base4, CAPACITY};
use crate::digit::{all_digits, values, Digit};

verus! {

/// The digits of a run of blocks, front block first.
pub open spec fn concat_blocks(bs: Seq<Base4>) -> Seq<int>
    decreases bs.len(),
{
    if bs.len() == 0 {
        Seq::empty()
    } else {
        concat_blocks(bs.drop_last()) + bs.last()@
    }
}

/// The number of blocks that `len` digits occupy when every block but the
/// last is full.
pub open spec fn blocks_for(len: nat) -> nat {
    ((len + CAPACITY - 1) / (CAPACITY as int)) as nat
}

/// Every block of `bs` holds exactly `CAPACITY` digits.
pub open spec fn all_full(bs: Seq<Base4>) -> bool {
    forall|j: int| 0 <= j < bs.len() ==> (#[trigger] bs[j])@.len() == CAPACITY
}

proof fn lemma_concat_full_len(bs: Seq<Base4>)
    requires
        all_full(bs),
    ensures
        concat_blocks(bs).len() == CAPACITY * bs.len(),
    decreases bs.len(),
{
    if bs.len() > 0 {
        lemma_concat_full_len(bs.drop_last());
        assert(bs.last()@.len() == CAPACITY);
    }
}

proof fn lemma_concat_full_index(bs: Seq<Base4>, k: int)
    requires
        all_full(bs),
        0 <= k < CAPACITY * bs.len(),
    ensures
        concat_blocks(bs).len() == CAPACITY * bs.len(),
        concat_blocks(bs)[k] == bs[k / CAPACITY as int]@[k % CAPACITY as int],
    decreases bs.len(),
{
    lemma_concat_full_len(bs);
    let m = bs.len() - 1;
    lemma_concat_full_len(bs.drop_last());
    assert(bs.last()@.len() == CAPACITY);
    if k < CAPACITY * m {
        lemma_concat_full_index(bs.drop_last(), k);
    } else {
        lemma_fundamental_div_mod_converse(k, CAPACITY as int, m, k - CAPACITY * m);
    }
}

proof fn lemma_concat_prefix_len(bs: Seq<Base4>, i: int)
    requires
        0 <= i <= bs.len(),
    ensures
        concat_blocks(bs.take(i)).len() <= concat_blocks(bs).len(),
    decreases bs.len(),
{
    if i == bs.len() {
        assert(bs.take(i) =~= bs);
    } else {
        assert(bs.take(i) =~= bs.drop_last().take(i));
        lemma_concat_prefix_len(bs.drop_last(), i);
    }
}

/// An unbounded sequence of base-4 digits, stored as a run of `Base4`
/// blocks in which every block but the last is full and none is empty.
#[derive(Debug)]
pub struct Base4Int(Vec<Base4>);

impl View for Base4Int {
    type V = Seq<int>;

    closed spec fn view(&self) -> Seq<int> {
        concat_blocks(self.0@)
    }
}

impl Default for Base4Int {
    fn default() -> (r: Self)
        ensures
            r.wf(),
            r@ == Seq::<int>::empty(),
            r.blocks().len() == 0,
    {
        Self::new()
    }
}

impl Base4Int {
    /// The blocks, front first.
    pub closed spec fn blocks(&self) -> Seq<Base4> {
        self.0@
    }

    /// Every block is well formed and non-empty, every block but the last is
    /// full, and the total length fits in a `usize`.
    pub closed spec fn wf(&self) -> bool {
        &&& forall|j: int| 0 <= j < self.0@.len() ==> (#[trigger] self.0@[j]).wf()
        &&& forall|j: int| 0 <= j < self.0@.len() ==> (#[trigger] self.0@[j])@.len() > 0
        &&& self.0@.len() > 0 ==> all_full(self.0@.drop_last())
        &&& concat_blocks(self.0@).len() <= usize::MAX
    }

    /// A well-formed container holds only digits, in as few blocks as its
    /// length allows.
    pub proof fn lemma_wf_view(&self)
        requires
            self.wf(),
        ensures
            all_digits(self@),
            self.blocks().len() == blocks_for(self@.len()),
            self@.len() <= usize::MAX,
    {
        let bs = self.0@;
        if bs.len() > 0 {
            let m = bs.len() - 1;
            lemma_concat_full_len(bs.drop_last());
            bs.last().lemma_wf_view();
            let l = bs.last()@.len();
            assert(0 < l <= CAPACITY);
            assert(self@.len() == CAPACITY * m + l);
            lemma_fundamental_div_mod_converse(
                self@.len() + CAPACITY - 1,
                CAPACITY as int,
                m + 1,
                l - 1,
            );
            assert forall|k: int| 0 <= k < self@.len() implies 0 <= #[trigger] self@[k] < 4 by {
                if k < CAPACITY * m {
                    lemma_concat_full_index(bs.drop_last(), k);
                    let j = k / CAPACITY as int;
                    assert(0 <= j < m) by (nonlinear_arith)
                        requires
                            0 <= k < CAPACITY * m,
                            j == k / CAPACITY as int,
                    ;
                    assert(bs.drop_last()[j] == bs[j]);
                    bs[j].lemma_wf_view();
                    assert(0 <= k % (CAPACITY as int) < CAPACITY);
                } else {
                    assert(self@[k] == bs.last()@[k - CAPACITY * m]);
                }
            }
        }
    }

    /// Creates an empty container with no blocks.
    pub fn new() -> (r: Self)
        ensures
            r.wf(),
            r@ == Seq::<int>::empty(),
            r.blocks().len() == 0,
    {
        Base4Int(Vec::new())
    }

    /// The number of blocks in use.
    pub fn total_blocks(&self) -> (r: usize)
        requires
            self.wf(),
        ensures
            r == self.blocks().len(),
            r == blocks_for(self@.len()),
    {
        proof {
            self.lemma_wf_view();
        }
        self.0.len()
    }

    /// The number of digits held, summed over the blocks.
    pub fn total_len(&self) -> (r: usize)
        requires
            self.wf(),
        ensures
            r == self@.len(),
    {
        let mut sum: usize = 0;
        let mut i: usize = 0;
        while i < self.0.len()
            invariant
                self.wf(),
                i <= self.0@.len(),
                sum == concat_blocks(self.0@.take(i as int)).len(),
            decreases self.0@.len() - i,
        {
            proof {
                lemma_concat_prefix_len(self.0@, i + 1);
                assert(self.0@.take(i + 1).drop_last() =~= self.0@.take(i as int));
            }
            sum += self.0[i].size();
            i += 1;
        }
        proof {
            assert(self.0@.take(i as int) =~= self.0@);
        }
        sum
    }

    /// Whether the last block has room for one more digit.
    pub open spec fn tail_has_room(&self) -> bool {
        self.blocks().len() > 0 && self.blocks().last()@.len() < CAPACITY
    }

    /// The last block if it has room, else a new empty block appended for
    /// the purpose.
    pub fn get_codec(&mut self) -> (r: &mut Base4)
        requires
            old(self).wf(),
        ensures
            r.wf(),
            r@.len() < CAPACITY,
            old(self).tail_has_room() ==> *r == old(self).blocks().last() && final(self).blocks()
                == old(self).blocks().update(old(self).blocks().len() - 1, *final(r)),
            !old(self).tail_has_room() ==> r@ == Seq::<int>::empty() && final(self).blocks()
                == old(self).blocks().push(*final(r)),
    {
        let n = self.0.len();
        if n > 0 && self.0[n - 1].size() < CAPACITY {
            return &mut self.0[n - 1];
        }
        self.0.push(Base4::new());
        let n = self.0.len();
        &mut self.0[n - 1]
    }

    /// Appends one digit, opening a new block when the last one is full.
    pub fn push<T: Digit>(&mut self, integer: T)
        requires
            old(self).wf(),
            0 <= integer.as_int() < 4,
            old(self)@.len() < usize::MAX,
        ensures
            final(self).wf(),
            final(self)@ == old(self)@.push(integer.as_int()),
    {
        let ghost bs = self.0@;
        let codec = self.get_codec();
        let pushed = codec.push(integer);
        proof {
            let nbs = self.0@;
            if bs.len() > 0 && bs.last()@.len() < CAPACITY {
                assert(nbs.drop_last() =~= bs.drop_last());
                assert(nbs.last() == nbs[bs.len() - 1]);
            } else {
                assert(nbs.drop_last() =~= bs);
                assert(all_full(bs)) by {
                    if bs.len() > 0 {
                        assert forall|j: int| 0 <= j < bs.len() implies (#[trigger] bs[j])@.len()
                            == CAPACITY by {
                            if j < bs.len() - 1 {
                                assert(bs.drop_last()[j] == bs[j]);
                            } else {
                                bs[j].lemma_wf_view();
                            }
                        }
                    }
                }
            }
            assert(self@ =~= old(self)@.push(integer.as_int()));
            assert forall|j: int| 0 <= j < nbs.len() implies (#[trigger] nbs[j]).wf() && nbs[j]@.len()
                > 0 by {
                if j < nbs.len() - 1 {
                    assert(nbs[j] == bs[j]);
                }
            }
        }
    }

    /// Appends every value of `ints` in order, one digit at a time. Unlike
    /// `Base4::push_all` this is not all or nothing: every value must be a
    /// digit, and the digits go into as many blocks as they need.
    pub fn push_all<T: Digit>(&mut self, ints: &[T])
        requires
            old(self).wf(),
            all_digits(values(ints@)),
            old(self)@.len() + ints@.len() <= usize::MAX,
        ensures
            final(self).wf(),
            final(self)@ == old(self)@ + values(ints@),
    {
        let mut i: usize = 0;
        while i < ints.len()
            invariant
                i <= ints@.len(),
                self.wf(),
                all_digits(values(ints@)),
                old(self)@.len() + ints@.len() <= usize::MAX,
                self@ == old(self)@ + values(ints@.take(i as int)),
            decreases ints@.len() - i,
        {
            let integer = ints[i];
            proof {
                assert(values(ints@)[i as int] == integer.as_int());
            }
            self.push(integer);
            proof {
                assert(values(ints@.take(i + 1)) =~= values(ints@.take(i as int)).push(
                    integer.as_int(),
                ));
            }
            i += 1;
        }
        proof {
            assert(ints@.take(i as int) =~= ints@);
        }
    }

    /// Removes and returns the newest digit; a block left empty is dropped.
    pub fn pop(&mut self) -> (r: u8)
        requires
            old(self).wf(),
            old(self)@.len() > 0,
        ensures
            final(self).wf(),
            r as int == old(self)@.last(),
            final(self)@ == old(self)@.drop_last(),
    {
        let ghost bs = self.0@;
        let n = self.0.len();
        proof {
            if n == 0 {
                assert(concat_blocks(bs) == Seq::<int>::empty());
            }
            bs.last().lemma_wf_view();
        }
        let codec = &mut self.0[n - 1];
        let out = codec.pop();
        let empty = codec.size() == 0;
        let ghost tail = *codec;
        if empty {
            let _dropped = self.0.pop();
        }
        proof {
            let nbs = self.0@;
            let dl = bs.drop_last();
            assert(old(self)@ == concat_blocks(dl) + bs.last()@);
            if empty {
                assert(nbs =~= dl);
                assert(bs.last()@.len() == 1);
                assert(self@ =~= old(self)@.drop_last());
                if nbs.len() > 0 {
                    assert(all_full(nbs.drop_last())) by {
                        assert forall|j: int| 0 <= j < nbs.drop_last().len() implies (#[trigger] nbs.drop_last()[j])@.len()
                            == CAPACITY by {
                            assert(nbs.drop_last()[j] == dl[j]);
                        }
                    }
                }
            } else {
                assert(nbs =~= bs.update(n - 1, tail));
                assert(nbs.drop_last() =~= dl);
                assert(self@ =~= old(self)@.drop_last());
                assert forall|j: int| 0 <= j < nbs.len() implies (#[trigger] nbs[j]).wf() && nbs[j]@.len()
                    > 0 by {
                    if j < nbs.len() - 1 {
                        assert(nbs[j] == bs[j]);
                    }
                }
            }
        }
        out.unwrap()
    }

    /// Removes every digit and returns them oldest first, front block to
    /// last; the container is left with no blocks.
    pub fn pop_all<T: Digit>(&mut self) -> (r: Vec<T>)
        requires
            old(self).wf(),
        ensures
            final(self).wf(),
            final(self)@ == Seq::<int>::empty(),
            final(self).blocks().len() == 0,
            values(r@) == old(self)@,
    {
        proof {
            self.lemma_wf_view();
        }
        if self.total_len() == 0 {
            proof {
                assert(values(Seq::<T>::empty()) =~= old(self)@);
            }
            return vec![];
        }
        let optimal_cap = self.total_len();
        let mut ints: Vec<T> = Vec::with_capacity(optimal_cap);
        let ghost bs = self.0@;
        let mut i: usize = 0;
        while i < self.0.len()
            invariant
                bs == old(self).0@,
                i <= bs.len(),
                self.0@.len() == bs.len(),
                forall|j: int| i <= j < bs.len() ==> #[trigger] self.0@[j] == bs[j],
                forall|j: int| 0 <= j < bs.len() ==> (#[trigger] bs[j]).wf(),
                values(ints@) == concat_blocks(bs.take(i as int)),
            decreases bs.len() - i,
        {
            let mut part: Vec<T> = self.0[i].pop_all();
            let ghost prev = ints@;
            ints.append(&mut part);
            proof {
                assert(bs.take(i + 1).drop_last() =~= bs.take(i as int));
                assert(values(ints@) =~= values(prev) + bs[i as int]@);
                assert forall|j: int| i + 1 <= j < bs.len() implies #[trigger] self.0@[j] == bs[j] by {
                }
            }
            i += 1;
        }
        self.0.clear();
        proof {
            assert(bs.take(i as int) =~= bs);
            assert(self@ =~= Seq::<int>::empty());
        }
        ints
    }

    /// Reads the digit at `index`, counting from the oldest at 0, from the
    /// block that holds it.
    pub fn peek_at<T: Digit>(&self, index: usize) -> (r: T)
        requires
            self.wf(),
            index < self@.len(),
        ensures
            r.as_int() == self@[index as int],
    {
        let codec_index = index / CAPACITY;
        let peek_index = index % CAPACITY;
        proof {
            let bs = self.0@;
            if bs.len() == 0 {
                assert(concat_blocks(bs) == Seq::<int>::empty());
            }
            let m = bs.len() - 1;
            let dl = bs.drop_last();
            lemma_concat_full_len(dl);
            assert(self@ == concat_blocks(dl) + bs.last()@);
            if index < CAPACITY * m {
                lemma_concat_full_index(dl, index as int);
                assert(codec_index < m) by (nonlinear_arith)
                    requires
                        index < CAPACITY * m,
                        codec_index == index / CAPACITY,
                ;
                assert(dl[codec_index as int] == bs[codec_index as int]);
            } else {
                bs.last().lemma_wf_view();
                lemma_fundamental_div_mod_converse(
                    index as int,
                    CAPACITY as int,
                    m,
                    index - CAPACITY * m,
                );
            }
        }
        self.0[codec_index].peek_at(peek_index)
    }

    /// All digits, oldest first, without changing the container.
    pub fn peek_all<T: Digit>(&self) -> (r: Vec<T>)
        requires
            self.wf(),
        ensures
            values(r@) == self@,
    {
        let mut ints: Vec<T> = Vec::with_capacity(self.total_len());
        let ghost bs = self.0@;
        let mut codec_idx: usize = 0;
        while codec_idx < self.total_blocks()
            invariant
                self.wf(),
                bs == self.0@,
                codec_idx <= bs.len(),
                values(ints@) == concat_blocks(bs.take(codec_idx as int)),
            decreases bs.len() - codec_idx,
        {
            let mut part: Vec<T> = self.0[codec_idx].peek_all();
            let ghost prev = ints@;
            ints.append(&mut part);
            proof {
                assert(bs.take(codec_idx + 1).drop_last() =~= bs.take(codec_idx as int));
                assert(values(ints@) =~= values(prev) + bs[codec_idx as int]@);
            }
            codec_idx += 1;
        }
        proof {
            assert(bs.take(codec_idx as int) =~= bs);
        }
        ints
    }
}

} // verus!
