use vstd::prelude::*;

use crate::digit::{all_digits, values, Digit};

verus! {

/// The number of 2-bit digits that fit in one 128-bit register.
pub const CAPACITY: usize = 64;

/// The digits held in the low `count` lanes of a register, oldest first:
/// the lowest lane holds the newest digit.
pub open spec fn lanes(packed: u128, count: nat) -> Seq<int>
    decreases count,
{
    if count == 0 {
        Seq::empty()
    } else {
        lanes(packed >> 2, (count - 1) as nat).push((packed & 3) as int)
    }
}

/// A block of at most `CAPACITY` base-4 digits packed two bits apiece into
/// one 128-bit register, the oldest digit in the highest occupied lane.
#[derive(Debug)]
pub struct Base4 {
    size: usize,
    packed: u128,
}

impl View for Base4 {
    type V = Seq<int>;

    closed spec fn view(&self) -> Seq<int> {
        lanes(self.packed, self.size as nat)
    }
}

proof fn lemma_push_lane(packed: u128, v: u128)
    requires
        packed >> 126 == 0,
        v < 4,
    ensures
        ((packed << 2) | v) >> 2 == packed,
        ((packed << 2) | v) & 3 == v,
{
    assert(((packed << 2) | v) >> 2 == packed) by (bit_vector)
        requires
            packed >> 126 == 0,
            v < 4,
    ;
    assert(((packed << 2) | v) & 3 == v) by (bit_vector)
        requires
            v < 4,
    ;
}

proof fn lemma_lanes_len(packed: u128, count: nat)
    ensures
        lanes(packed, count).len() == count,
    decreases count,
{
    if count > 0 {
        lemma_lanes_len(packed >> 2, (count - 1) as nat);
    }
}

proof fn lemma_lanes_digits(packed: u128, count: nat)
    ensures
        all_digits(lanes(packed, count)),
    decreases count,
{
    if count > 0 {
        lemma_lanes_digits(packed >> 2, (count - 1) as nat);
        lemma_lanes_len(packed >> 2, (count - 1) as nat);
        assert(packed & 3 < 4) by (bit_vector);
        let l = lanes(packed, count);
        assert forall|i: int| 0 <= i < l.len() implies 0 <= #[trigger] l[i] < 4 by {
            if i < count - 1 {
                assert(l[i] == lanes(packed >> 2, (count - 1) as nat)[i]);
            }
        }
    }
}

proof fn lemma_lane_at(packed: u128, count: nat, i: int)
    requires
        count <= CAPACITY,
        0 <= i < count,
    ensures
        lanes(packed, count)[i] == ((packed >> (2 * (count - 1 - i)) as u128) & 3) as int,
    decreases count,
{
    lemma_lanes_len(packed >> 2, (count - 1) as nat);
    if i < count - 1 {
        let k = (2 * (count - 2 - i)) as u128;
        lemma_lane_at(packed >> 2, (count - 1) as nat, i);
        assert((2 * (count - 1 - i)) as u128 == (k + 2) as u128);
        assert((packed >> 2) >> k == packed >> ((k + 2) as u128)) by (bit_vector)
            requires
                k <= 124,
        ;
    } else {
        assert(packed >> 0u128 == packed) by (bit_vector);
    }
}

/// Whether a block holding `pre` takes the value `v`: it does when `v` is a
/// digit and the block is not full.
pub open spec fn accepts(pre: Seq<int>, v: int) -> bool {
    0 <= v < 4 && pre.len() < CAPACITY
}

/// Whether a block holding `pre` takes every value of `s`: it does when
/// each is a digit and the two together fit in one block.
pub open spec fn accepts_all(pre: Seq<int>, s: Seq<int>) -> bool {
    pre.len() + s.len() <= CAPACITY && all_digits(s)
}

/// What a block holding `pre` holds after it is asked to take all of `s`:
/// `pre` followed by `s` if it takes them; `pre` if `s` is longer than a
/// block; otherwise nothing.
pub open spec fn after_push_all(pre: Seq<int>, s: Seq<int>) -> Seq<int> {
    if accepts_all(pre, s) {
        pre + s
    } else if s.len() > CAPACITY {
        pre
    } else {
        Seq::empty()
    }
}

impl Default for Base4 {
    fn default() -> (r: Self)
        ensures
            r.wf(),
            r@ == Seq::<int>::empty(),
    {
        Self::new()
    }
}

impl Base4 {
    /// The register holds nothing above its `size` occupied lanes.
    pub closed spec fn wf(&self) -> bool {
        &&& self.size <= CAPACITY
        &&& self.size < CAPACITY ==> self.packed >> (2 * self.size) as u128 == 0
    }

    /// A well-formed block holds at most `CAPACITY` values, each a digit.
    pub proof fn lemma_wf_view(&self)
        requires
            self.wf(),
        ensures
            self@.len() <= CAPACITY,
            all_digits(self@),
    {
        lemma_lanes_len(self.packed, self.size as nat);
        lemma_lanes_digits(self.packed, self.size as nat);
    }

    /// The number of digits held.
    pub(crate) fn size(&self) -> (r: usize)
        requires
            self.wf(),
        ensures
            r == self@.len(),
    {
        proof {
            lemma_lanes_len(self.packed, self.size as nat);
        }
        self.size
    }

    /// Creates an empty block.
    pub fn new() -> (r: Self)
        ensures
            r.wf(),
            r@ == Seq::<int>::empty(),
    {
        proof {
            assert(0u128 >> 0u128 == 0) by (bit_vector);
        }
        Base4 { size: 0, packed: 0 }
    }

    /// Appends one digit at the back. Returns `false`, leaving the block as
    /// it was, if the value is not a base-4 digit or the block is full.
    pub fn push<T: Digit>(&mut self, integer: T) -> (r: bool)
        requires
            old(self).wf(),
        ensures
            final(self).wf(),
            r == accepts(old(self)@, integer.as_int()),
            r ==> final(self)@ == old(self)@.push(integer.as_int()),
            !r ==> *final(self) == *old(self),
    {
        proof {
            lemma_lanes_len(self.packed, self.size as nat);
        }
        let v = integer.widen();
        if v >= 4 || self.size == CAPACITY {
            return false;
        }
        proof {
            let p = self.packed;
            let s = self.size as u128;
            assert(p >> (2 * s) == 0 && s < 64 ==> p >> 126 == 0) by (bit_vector);
            assert(p >> (2 * s) == 0 && s < 64 && v < 4 ==> ((p << 2) | v) >> (2 * s + 2) == 0)
                by (bit_vector);
            lemma_push_lane(p, v);
        }
        self.size += 1;
        self.packed = (self.packed << 2) | v;
        proof {
            assert(self@ =~= old(self)@.push(integer.as_int()));
        }
        true
    }

    /// Appends every value of `ints` in order, all or nothing. An input
    /// longer than `CAPACITY` is refused up front and leaves the block as it
    /// was; an input that runs into a value that is not a digit, or into a
    /// full block, empties the block.
    pub fn push_all<T: Digit>(&mut self, ints: &[T]) -> (r: bool)
        requires
            old(self).wf(),
        ensures
            final(self).wf(),
            r == accepts_all(old(self)@, values(ints@)),
            final(self)@ == after_push_all(old(self)@, values(ints@)),
            ints@.len() > CAPACITY ==> *final(self) == *old(self),
    {
        proof {
            lemma_lanes_len(self.packed, self.size as nat);
        }
        if ints.len() > CAPACITY {
            return false;
        }
        let mut i: usize = 0;
        while i < ints.len()
            invariant
                i <= ints@.len(),
                ints@.len() <= CAPACITY,
                self.wf(),
                old(self)@.len() + i <= CAPACITY,
                self@ == old(self)@ + values(ints@.take(i as int)),
                all_digits(values(ints@.take(i as int))),
            decreases ints@.len() - i,
        {
            let integer = ints[i];
            if !self.push(integer) {
                self.size = 0;
                self.packed = 0;
                proof {
                    assert(0u128 >> 0u128 == 0) by (bit_vector);
                    lemma_lanes_len(old(self).packed, old(self).size as nat);
                    if 0 <= integer.as_int() < 4 {
                        assert(old(self)@.len() + ints@.len() > CAPACITY);
                    } else {
                        assert(values(ints@)[i as int] == integer.as_int());
                    }
                }
                return false;
            }
            proof {
                assert(ints@.take(i + 1) == ints@.take(i as int).push(integer));
                assert(values(ints@.take(i + 1)) =~= values(ints@.take(i as int)).push(
                    integer.as_int(),
                ));
            }
            i += 1;
        }
        proof {
            assert(ints@.take(i as int) =~= ints@);
        }
        true
    }

    /// Removes and returns the newest digit, or `None` if the block is empty.
    pub fn pop(&mut self) -> (r: Option<u8>)
        requires
            old(self).wf(),
        ensures
            final(self).wf(),
            old(self)@.len() == 0 ==> r == None::<u8> && *final(self) == *old(self),
            old(self)@.len() > 0 ==> r == Some(old(self)@.last() as u8) && final(self)@
                == old(self)@.drop_last(),
    {
        proof {
            lemma_lanes_len(self.packed, self.size as nat);
        }
        if self.size == 0 {
            return None;
        }
        let low: u128 = self.packed & 3;
        proof {
            let p = self.packed;
            let s = self.size as u128;
            assert(p & 3 < 4) by (bit_vector);
            assert(1 <= s < 64 && p >> (2 * s) == 0 ==> (p >> 2) >> ((2 * s - 2) as u128) == 0)
                by (bit_vector);
            assert((p >> 2) >> 126u128 == 0) by (bit_vector);
        }
        self.packed >>= 2;
        self.size -= 1;
        Some(low as u8)
    }

    /// Reads the digit at `index`, counting from the oldest at 0, without
    /// changing the block.
    pub fn peek_at<T: Digit>(&self, index: usize) -> (r: T)
        requires
            self.wf(),
            index < self@.len(),
        ensures
            r.as_int() == self@[index as int],
    {
        proof {
            lemma_lanes_len(self.packed, self.size as nat);
            lemma_lane_at(self.packed, self.size as nat, index as int);
        }
        let shift = (2 * (self.size - index - 1)) as u128;
        let packed = self.packed;
        let lane = (packed >> shift) & 3;
        proof {
            assert((packed >> shift) & 3 < 4) by (bit_vector);
        }
        T::from_digit(lane as u8)
    }

    /// All digits, oldest first, without changing the block.
    pub fn peek_all<T: Digit>(&self) -> (r: Vec<T>)
        requires
            self.wf(),
        ensures
            values(r@) == self@,
    {
        proof {
            lemma_lanes_len(self.packed, self.size as nat);
        }
        let mut ints: Vec<T> = Vec::with_capacity(self.size);
        let mut index: usize = 0;
        while index < self.size
            invariant
                self.wf(),
                index <= self.size,
                self@.len() == self.size,
                values(ints@) == self@.take(index as int),
            decreases self.size - index,
        {
            let ghost prev = ints@;
            let d: T = self.peek_at(index);
            ints.push(d);
            proof {
                assert(values(prev) == self@.take(index as int));
                assert(values(ints@) =~= values(prev).push(d.as_int()));
                assert(values(ints@) =~= self@.take(index + 1));
            }
            index += 1;
        }
        proof {
            assert(self@.take(index as int) =~= self@);
        }
        ints
    }

    /// Removes every digit and returns them oldest first; the block is left
    /// empty.
    pub fn pop_all<T: Digit>(&mut self) -> (r: Vec<T>)
        requires
            old(self).wf(),
        ensures
            final(self).wf(),
            final(self)@ == Seq::<int>::empty(),
            values(r@) == old(self)@,
    {
        proof {
            lemma_lanes_len(self.packed, self.size as nat);
        }
        if self.size == 0 {
            proof {
                assert(values(Seq::<T>::empty()) =~= old(self)@);
            }
            return vec![];
        }
        let n = self.size;
        proof {
            self.lemma_wf_view();
        }
        let mut popped: Vec<T> = Vec::with_capacity(n);
        loop
            invariant
                self.wf(),
                n == old(self)@.len(),
                self@ == old(self)@.take(self@.len() as int),
                all_digits(old(self)@),
                popped@.len() == n - self@.len(),
                forall|k: int|
                    0 <= k < popped@.len() ==> #[trigger] popped@[k].as_int() == old(self)@[n
                        - 1 - k],
            ensures
                self.wf(),
                self@ == Seq::<int>::empty(),
                popped@.len() == n,
                forall|k: int|
                    0 <= k < n ==> #[trigger] popped@[k].as_int() == old(self)@[n - 1 - k],
            decreases self@.len(),
        {
            let ghost before = self@;
            match self.pop() {
                Some(value) => {
                    assert(before.last() == old(self)@[before.len() - 1]);
                    popped.push(T::from_digit(value));
                    proof {
                        assert(self@ =~= old(self)@.take(self@.len() as int));
                        assert(popped@[popped@.len() - 1].as_int() == old(self)@[n - 1 - (
                        popped@.len() - 1)]);
                    }
                },
                None => {
                    break;
                },
            }
        }
        let mut ints: Vec<T> = Vec::with_capacity(n);
        let mut j: usize = n;
        while j > 0
            invariant
                j <= n,
                popped@.len() == n,
                ints@.len() == n - j,
                forall|k: int|
                    0 <= k < n ==> #[trigger] popped@[k].as_int() == old(self)@[n - 1 - k],
                forall|k: int| 0 <= k < ints@.len() ==> #[trigger] ints@[k].as_int() == old(self)@[k],
            decreases j,
        {
            j -= 1;
            ints.push(popped[j]);
        }
        proof {
            assert(values(ints@) =~= old(self)@);
        }
        ints
    }
}

} // verus!
