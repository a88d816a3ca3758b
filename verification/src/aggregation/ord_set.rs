//! Sets of term ordinals that switch between a sorted list and a bitmap.

use vstd::prelude::*;

use crate::sorting::sorted_distinct;

verus! {

/// A set is kept as a bitmap once it holds more than one in `FRUIT_PROMOTION_RATIO` ordinals.
pub const FRUIT_PROMOTION_RATIO: u64 = 32;

/// How an [`AdaptiveOrdSet`] holds its ordinals.
#[derive(Clone, Debug, PartialEq)]
pub enum OrdSetRepr {
    /// Sorted, duplicate-free ordinals; the length is the count.
    Sparse(Vec<u64>),
    /// Bitmap words; the number of set bits is the count.
    Dense(Vec<u64>),
}

/// The parts of an [`AdaptiveOrdSet`], as they travel between processes.
#[derive(Clone, Debug, PartialEq)]
pub struct AdaptiveOrdSetSerde {
    pub capacity: u64,
    pub repr: OrdSetRepr,
}

/// Why parts do not form an [`AdaptiveOrdSet`].
#[derive(Clone, Copy, Debug, PartialEq, Eq, Structural)]
pub enum OrdSetPartsError {
    /// The sparse form must be sorted and duplicate-free.
    NotSorted,
    /// A sparse ordinal is not below the capacity.
    SparseOrdExceedsCapacity,
    /// The number of dense words does not match the capacity.
    DenseLengthMismatch,
    /// A bit at or above the capacity is set in the last dense word.
    DenseOrdExceedsCapacity,
}

/// Two sets that describe ordinal spaces of different size cannot be merged.
#[derive(Clone, Copy, Debug, PartialEq, Eq, Structural)]
pub struct CapacityMismatch {
    pub left: u64,
    pub right: u64,
}

/// Number of 64-bit words that hold one bit for each ordinal below `capacity`.
pub open spec fn words_needed(capacity: u64) -> int {
    (capacity + 63) / 64
}

/// Bit number `bit` of `word`.
pub open spec fn word_bit(word: u64, bit: u64) -> bool {
    (word >> bit) & 1 == 1
}

/// The bit of ordinal `ord` in a bitmap.
pub open spec fn has_bit(words: Seq<u64>, ord: u64) -> bool {
    ord / 64 < words.len() && word_bit(words[(ord / 64) as int], ord % 64)
}

/// The number of set bits of `word` below bit `end`.
pub open spec fn ones_below(word: u64, end: nat) -> nat
    decreases end,
{
    if end == 0 {
        0
    } else {
        ones_below(word, (end - 1) as nat) + if word_bit(word, (end - 1) as u64) {
            1nat
        } else {
            0
        }
    }
}

/// The number of ordinals below `end` whose bit is set.
pub open spec fn bits_below(words: Seq<u64>, end: nat) -> nat
    decreases end,
{
    if end == 0 {
        0
    } else {
        bits_below(words, (end - 1) as nat) + if has_bit(words, (end - 1) as u64) {
            1nat
        } else {
            0
        }
    }
}

/// The standard library's `u64::count_ones`: the number of ones in the binary representation.
pub assume_specification[ u64::count_ones ](word: u64) -> (count: u32)
    ensures
        count == ones_below(word, 64),
;

/// The ordinals whose bit is set.
pub open spec fn dense_ords(words: Seq<u64>) -> Set<u64> {
    Set::new(|ord: u64| has_bit(words, ord))
}

impl OrdSetRepr {
    /// The ordinals that this representation holds.
    pub open spec fn ords(self) -> Set<u64> {
        match self {
            OrdSetRepr::Sparse(ords) => ords@.to_set(),
            OrdSetRepr::Dense(words) => dense_ords(words@),
        }
    }

    /// The first reason, if any, why this cannot represent a set of ordinals below `capacity`.
    pub open spec fn flaw(self, capacity: u64) -> Option<OrdSetPartsError> {
        match self {
            OrdSetRepr::Sparse(ords) => if !crate::sorting::strictly_increasing(ords@) {
                Some(OrdSetPartsError::NotSorted)
            } else if exists|i: int| 0 <= i < ords@.len() && ords@[i] >= capacity {
                Some(OrdSetPartsError::SparseOrdExceedsCapacity)
            } else {
                None
            },
            OrdSetRepr::Dense(words) => if words@.len() != words_needed(capacity) {
                Some(OrdSetPartsError::DenseLengthMismatch)
            } else if exists|ord: u64| ord >= capacity && has_bit(words@, ord) {
                Some(OrdSetPartsError::DenseOrdExceedsCapacity)
            } else {
                None
            },
        }
    }
}

/// A set of term ordinals below `capacity`: a sorted list while small, a bitmap over
/// `[0, capacity)` once it holds more than `capacity / 32` ordinals.
#[derive(Clone, Debug, PartialEq)]
pub struct AdaptiveOrdSet {
    capacity: u64,
    repr: OrdSetRepr,
}

impl View for AdaptiveOrdSet {
    type V = Set<u64>;

    closed spec fn view(&self) -> Set<u64> {
        self.repr.ords()
    }
}

/// Sets the bit of `ord`.
fn set_bit(words: &mut Vec<u64>, ord: u64)
    requires
        ord / 64 < old(words)@.len(),
    ensures
        final(words)@.len() == old(words)@.len(),
        dense_ords(final(words)@) == dense_ords(old(words)@).insert(ord),
{
    assert(old(words)@.len() == old(words).len());
    let index: usize = (ord / 64) as usize;
    let bit: u64 = ord % 64;
    let word: u64 = words[index];
    words[index] = word | (1u64 << bit);
    proof {
        assert forall|other: u64| has_bit(words@, other) <==> (has_bit(old(words)@, other) || other
            == ord) by {
            let other_bit = other % 64;
            assert(((word | (1u64 << bit)) >> other_bit) & 1 == 1 <==> ((word >> other_bit) & 1 == 1
                || other_bit == bit)) by (bit_vector)
                requires
                    bit < 64,
                    other_bit < 64,
            ;
        }
        assert(dense_ords(words@) =~= dense_ords(old(words)@).insert(ord));
    }
}

/// A bitmap for ordinals below `capacity` with no bit set.
fn dense_words(capacity: u64) -> (words: Vec<u64>)
    requires
        words_needed(capacity) <= usize::MAX,
    ensures
        words@.len() == words_needed(capacity),
        dense_ords(words@) == Set::<u64>::empty(),
{
    let rounded_up: u64 = if capacity % 64 == 0 {
        capacity / 64
    } else {
        capacity / 64 + 1
    };
    let words: Vec<u64> = vec![0u64; rounded_up as usize];
    proof {
        assert forall|ord: u64| !has_bit(words@, ord) by {
            if ord / 64 < words@.len() {
                let bit = ord % 64;
                assert((0u64 >> bit) & 1 == 0) by (bit_vector);
            }
        }
        assert(dense_ords(words@) =~= Set::<u64>::empty());
    }
    words
}

/// Sets the bit of each of `ords`.
fn set_bits(words: &mut Vec<u64>, ords: &Vec<u64>)
    requires
        forall|i: int| 0 <= i < ords@.len() ==> #[trigger] ords@[i] / 64 < old(words)@.len(),
    ensures
        final(words)@.len() == old(words)@.len(),
        dense_ords(final(words)@) == dense_ords(old(words)@).union(ords@.to_set()),
{
    let mut next: usize = 0;
    assert(dense_ords(words@) =~= dense_ords(old(words)@).union(ords@.take(0).to_set()));
    while next < ords.len()
        invariant
            next <= ords@.len(),
            words@.len() == old(words)@.len(),
            forall|i: int| 0 <= i < ords@.len() ==> #[trigger] ords@[i] / 64 < old(words)@.len(),
            dense_ords(words@) == dense_ords(old(words)@).union(ords@.take(next as int).to_set()),
        decreases ords@.len() - next,
    {
        set_bit(words, ords[next]);
        proof {
            assert(ords@.take(next + 1) =~= ords@.take(next as int).push(ords@[next as int]));
            crate::sorting::lemma_push_to_set(ords@.take(next as int), ords@[next as int]);
            assert(dense_ords(words@) =~= dense_ords(old(words)@).union(
                ords@.take(next + 1).to_set(),
            ));
        }
        next = next + 1;
    }
    assert(ords@.take(ords@.len() as int) =~= ords@);
}

/// The union of two sorted, duplicate-free lists, sorted and duplicate-free again.
fn merge_sorted(left: &Vec<u64>, right: &Vec<u64>) -> (merged: Vec<u64>)
    requires
        crate::sorting::strictly_increasing(left@),
        crate::sorting::strictly_increasing(right@),
    ensures
        crate::sorting::strictly_increasing(merged@),
        merged@.to_set() == left@.to_set().union(right@.to_set()),
{
    let mut merged: Vec<u64> = Vec::new();
    let mut i: usize = 0;
    let mut j: usize = 0;
    assert(merged@.to_set() =~= left@.take(0).to_set().union(right@.take(0).to_set()));
    while i < left.len() || j < right.len()
        invariant
            i <= left@.len(),
            j <= right@.len(),
            crate::sorting::strictly_increasing(left@),
            crate::sorting::strictly_increasing(right@),
            crate::sorting::strictly_increasing(merged@),
            merged@.to_set() == left@.take(i as int).to_set().union(
                right@.take(j as int).to_set(),
            ),
            merged@.len() > 0 && i < left@.len() ==> merged@.last() < left@[i as int],
            merged@.len() > 0 && j < right@.len() ==> merged@.last() < right@[j as int],
        decreases left@.len() - i + right@.len() - j,
    {
        let take_left: bool = j == right.len() || (i < left.len() && left[i] <= right[j]);
        let take_right: bool = i == left.len() || (j < right.len() && right[j] <= left[i]);
        let value: u64 = if take_left {
            left[i]
        } else {
            right[j]
        };
        let ghost before = merged@;
        merged.push(value);
        proof {
            assert forall|k: int| 0 <= k < before.len() implies before[k] < value by {
                assert(before[k] <= before.last());
            }
            crate::sorting::lemma_push_to_set(before, value);
            if take_left {
                assert(left@.take(i + 1) =~= left@.take(i as int).push(value));
                crate::sorting::lemma_push_to_set(left@.take(i as int), value);
            }
            if take_right {
                assert(right@.take(j + 1) =~= right@.take(j as int).push(value));
                crate::sorting::lemma_push_to_set(right@.take(j as int), value);
            }
        }
        if take_left {
            i = i + 1;
        }
        if take_right {
            j = j + 1;
        }
        assert(merged@.to_set() =~= left@.take(i as int).to_set().union(
            right@.take(j as int).to_set(),
        ));
    }
    assert(left@.take(left@.len() as int) =~= left@);
    assert(right@.take(right@.len() as int) =~= right@);
    merged
}

/// Sets in `words` every bit that is set in `others`.
fn or_words(words: &mut Vec<u64>, others: &Vec<u64>)
    requires
        old(words)@.len() == others@.len(),
    ensures
        final(words)@.len() == old(words)@.len(),
        dense_ords(final(words)@) == dense_ords(old(words)@).union(dense_ords(others@)),
{
    let mut next: usize = 0;
    while next < words.len()
        invariant
            next <= words@.len(),
            words@.len() == old(words)@.len(),
            words@.len() == others@.len(),
            forall|i: int| 0 <= i < next ==> words@[i] == old(words)@[i] | others@[i],
            forall|i: int| next <= i < words@.len() ==> words@[i] == old(words)@[i],
        decreases words@.len() - next,
    {
        words[next] = words[next] | others[next];
        next = next + 1;
    }
    proof {
        let union = dense_ords(old(words)@).union(dense_ords(others@));
        assert forall|ord: u64| dense_ords(words@).contains(ord) <==> union.contains(ord) by {
            if ord / 64 < words@.len() {
                let left = old(words)@[(ord / 64) as int];
                let right = others@[(ord / 64) as int];
                let bit = ord % 64;
                assert(((left | right) >> bit) & 1 == 1 <==> ((left >> bit) & 1 == 1 || (right
                    >> bit) & 1 == 1)) by (bit_vector);
            }
        }
        assert(dense_ords(words@) =~= union);
    }
}

/// A strictly increasing list holds as many elements as it is long.
proof fn lemma_increasing_len(ords: Seq<u64>, capacity: u64)
    requires
        crate::sorting::strictly_increasing(ords),
        forall|i: int| 0 <= i < ords.len() ==> ords[i] < capacity,
    ensures
        ords.to_set().finite(),
        ords.to_set().len() == ords.len(),
        ords.len() <= capacity,
{
    assert(ords.no_duplicates());
    ords.unique_seq_to_set();
    lemma_increasing_bound(ords, ords.len() as int);
    if ords.len() > 0 {
        assert(ords[ords.len() - 1] < capacity);
    }
}

/// The element at position `i` of a strictly increasing list is at least `i`.
proof fn lemma_increasing_bound(ords: Seq<u64>, len: int)
    requires
        crate::sorting::strictly_increasing(ords),
        0 <= len <= ords.len(),
    ensures
        forall|i: int| 0 <= i < len ==> #[trigger] ords[i] >= i,
    decreases len,
{
    if len > 0 {
        lemma_increasing_bound(ords, len - 1);
        if len > 1 {
            assert(ords[len - 2] < ords[len - 1]);
        }
    }
}

/// The set bits below `end` are as many as [`bits_below`] counts.
proof fn lemma_bits_below_is_len(words: Seq<u64>, end: nat)
    requires
        end <= 0x1_0000_0000_0000_0000,
    ensures
        Set::new(|ord: u64| ord < end && has_bit(words, ord)).finite(),
        Set::new(|ord: u64| ord < end && has_bit(words, ord)).len() == bits_below(words, end),
    decreases end,
{
    let all = Set::new(|ord: u64| ord < end && has_bit(words, ord));
    if end == 0 {
        assert(all =~= Set::empty());
    } else {
        let smaller_end = (end - 1) as nat;
        let smaller = Set::new(|ord: u64| ord < smaller_end && has_bit(words, ord));
        lemma_bits_below_is_len(words, smaller_end);
        let last = smaller_end as u64;
        if has_bit(words, last) {
            assert(all =~= smaller.insert(last));
        } else {
            assert(all =~= smaller);
        }
    }
}

/// Counting bit by bit and counting inside one word agree.
proof fn lemma_bits_below_in_word(words: Seq<u64>, index: int, end: nat)
    requires
        0 <= index < words.len(),
        words.len() <= 0x400_0000_0000_0000,
        end <= 64,
    ensures
        bits_below(words, (64 * index + end) as nat) == bits_below(words, (64 * index) as nat)
            + ones_below(words[index], end),
    decreases end,
{
    if end > 0 {
        let smaller = (end - 1) as nat;
        lemma_bits_below_in_word(words, index, smaller);
        let ord = (64 * index + smaller) as u64;
        assert(ord / 64 == index && ord % 64 == smaller);
    }
}

/// No more bits are set below `end` than below `limit`, when none is set from `limit` on.
proof fn lemma_bits_below_bounded(words: Seq<u64>, end: nat, limit: u64)
    requires
        end <= 0x1_0000_0000_0000_0000,
        forall|ord: u64| has_bit(words, ord) ==> ord < limit,
    ensures
        bits_below(words, end) <= end,
        bits_below(words, end) <= limit,
    decreases end,
{
    if end > 0 {
        lemma_bits_below_bounded(words, (end - 1) as nat, limit);
        if end - 1 >= limit {
            assert(!has_bit(words, (end - 1) as u64));
        }
    }
}

/// The number of set bits.
fn count_bits(words: &Vec<u64>, Ghost(capacity): Ghost<u64>) -> (count: u64)
    requires
        words@.len() == words_needed(capacity),
        forall|ord: u64| has_bit(words@, ord) ==> ord < capacity,
    ensures
        dense_ords(words@).finite(),
        count == dense_ords(words@).len(),
{
    let mut total: u64 = 0;
    let mut next: usize = 0;
    while next < words.len()
        invariant
            next <= words@.len(),
            words@.len() == words_needed(capacity),
            forall|ord: u64| has_bit(words@, ord) ==> ord < capacity,
            total == bits_below(words@, (64 * next) as nat),
        decreases words@.len() - next,
    {
        proof {
            lemma_bits_below_in_word(words@, next as int, 64);
            lemma_bits_below_bounded(words@, (64 * next + 64) as nat, capacity);
        }
        total = total + words[next].count_ones() as u64;
        next = next + 1;
    }
    proof {
        let end = (64 * words@.len()) as nat;
        lemma_bits_below_is_len(words@, end);
        assert(dense_ords(words@) =~= Set::new(|ord: u64| ord < end && has_bit(words@, ord)));
    }
    total
}

impl AdaptiveOrdSet {
    /// The exclusive upper bound of the ordinals.
    pub closed spec fn spec_capacity(self) -> u64 {
        self.capacity
    }

    /// The representation in use.
    pub closed spec fn spec_repr(self) -> OrdSetRepr {
        self.repr
    }

    /// The representation fits the capacity, and a bitmap for it is addressable.
    pub open spec fn wf(self) -> bool {
        &&& words_needed(self.spec_capacity()) <= usize::MAX
        &&& self.spec_repr().flaw(self.spec_capacity()) is None
    }

    /// The set is kept as a bitmap.
    pub open spec fn is_dense(self) -> bool {
        self.spec_repr() is Dense
    }

    /// The elements are those that the representation holds.
    pub proof fn lemma_view(self)
        ensures
            self@ == self.spec_repr().ords(),
    {
    }

    /// A well-formed set holds finitely many ordinals, all below its capacity.
    pub proof fn lemma_wf_bounds(self)
        requires
            self.wf(),
        ensures
            forall|ord: u64| #[trigger] self@.contains(ord) ==> ord < self.spec_capacity(),
            self@.finite(),
            self@.len() <= self.spec_capacity(),
    {
        match self.repr {
            OrdSetRepr::Sparse(ords) => {
                assert forall|ord: u64| #[trigger] self@.contains(ord) implies ord
                    < self.capacity by {
                    let k = choose|k: int| 0 <= k < ords@.len() && ords@[k] == ord;
                    assert(ords@[k] < self.capacity);
                }
                lemma_increasing_len(ords@, self.capacity);
            },
            OrdSetRepr::Dense(words) => {
                assert forall|ord: u64| #[trigger] self@.contains(ord) implies ord
                    < self.capacity by {
                    assert(has_bit(words@, ord));
                }
                let end = (64 * words@.len()) as nat;
                lemma_bits_below_is_len(words@, end);
                assert(dense_ords(words@) =~= Set::new(
                    |ord: u64| ord < end && has_bit(words@, ord),
                ));
                lemma_bits_below_bounded(words@, end, self.capacity);
            },
        }
    }

    /// The exclusive upper bound of the ordinals.
    pub fn capacity(&self) -> (capacity: u64)
        ensures
            capacity == self.spec_capacity(),
    {
        self.capacity
    }

    /// The representation in use.
    pub fn repr(&self) -> (repr: &OrdSetRepr)
        ensures
            *repr == self.spec_repr(),
    {
        &self.repr
    }

    /// Takes the set apart.
    pub fn into_parts(self) -> (parts: AdaptiveOrdSetSerde)
        ensures
            parts.capacity == self.spec_capacity(),
            parts.repr == self.spec_repr(),
    {
        AdaptiveOrdSetSerde { capacity: self.capacity, repr: self.repr }
    }

    /// Puts a set together, unless the parts are inconsistent.
    pub fn try_from(value: AdaptiveOrdSetSerde) -> (result: Result<Self, OrdSetPartsError>)
        requires
            words_needed(value.capacity) <= usize::MAX,
        ensures
            match value.repr.flaw(value.capacity) {
                Some(flaw) => result == Err::<Self, OrdSetPartsError>(flaw),
                None => result matches Ok(set) && set.wf() && set.spec_capacity() == value.capacity
                    && set.spec_repr() == value.repr && set@ == value.repr.ords(),
            },
    {
        match &value.repr {
            OrdSetRepr::Sparse(ords) => {
                let mut next: usize = 1;
                while next < ords.len()
                    invariant
                        ords@.len() > 0 ==> 1 <= next <= ords@.len(),
                        ords@.len() == 0 ==> next == 1,
                        forall|i: int, j: int|
                            0 <= i < j < next && j < ords@.len() ==> ords@[i] < ords@[j],
                        value.repr == OrdSetRepr::Sparse(*ords),
                    decreases ords@.len() - next,
                {
                    if ords[next - 1] >= ords[next] {
                        assert(!crate::sorting::strictly_increasing(ords@));
                        return Err(OrdSetPartsError::NotSorted);
                    }
                    assert forall|i: int| 0 <= i < next implies ords@[i] < ords@[next as int] by {
                        assert(ords@[i] <= ords@[next - 1]);
                    }
                    next = next + 1;
                }
                assert(crate::sorting::strictly_increasing(ords@));
                if ords.len() > 0 && ords[ords.len() - 1] >= value.capacity {
                    assert(ords@[ords@.len() - 1] >= value.capacity);
                    return Err(OrdSetPartsError::SparseOrdExceedsCapacity);
                }
                assert forall|i: int| 0 <= i < ords@.len() implies ords@[i] < value.capacity by {
                    assert(ords@[i] <= ords@[ords@.len() - 1]);
                }
            },
            OrdSetRepr::Dense(words) => {
                let capacity: u64 = value.capacity;
                let used: u64 = capacity % 64;
                let needed: u64 = if used == 0 {
                    capacity / 64
                } else {
                    capacity / 64 + 1
                };
                if words.len() as u64 != needed {
                    return Err(OrdSetPartsError::DenseLengthMismatch);
                }
                if used != 0 {
                    let last: usize = words.len() - 1;
                    let word: u64 = words[last];
                    let mut bit: u64 = used;
                    while bit < 64
                        invariant
                            used <= bit <= 64,
                            used == capacity % 64,
                            capacity == value.capacity,
                            used > 0,
                            words@.len() == words_needed(capacity),
                            last == words@.len() - 1,
                            last == capacity / 64,
                            word == words@[last as int],
                            forall|b: u64| used <= b < bit ==> !#[trigger] word_bit(word, b),
                            value.repr == OrdSetRepr::Dense(*words),
                        decreases 64 - bit,
                    {
                        if (word >> bit) & 1 == 1 {
                            proof {
                                let ord = (64 * last + bit) as u64;
                                assert(ord / 64 == last && ord % 64 == bit);
                                assert(ord >= capacity && has_bit(words@, ord));
                            }
                            return Err(OrdSetPartsError::DenseOrdExceedsCapacity);
                        }
                        bit = bit + 1;
                    }
                    assert forall|ord: u64| has_bit(words@, ord) implies ord < capacity by {
                        if ord >= capacity {
                            assert(ord / 64 == last);
                            assert(!word_bit(word, ord % 64));
                        }
                    }
                } else {
                    assert forall|ord: u64| has_bit(words@, ord) implies ord < capacity by {
                    }
                }
            },
        }
        Ok(AdaptiveOrdSet { capacity: value.capacity, repr: value.repr })
    }

    /// Builds the set of `ords`, all below `capacity`. `distinct_len` is how many distinct ones
    /// there are, and decides between the two representations.
    pub fn from_unique_ords(ords: Vec<u64>, distinct_len: u64, capacity: u64) -> (set: Self)
        requires
            words_needed(capacity) <= usize::MAX,
            forall|i: int| 0 <= i < ords@.len() ==> ords@[i] < capacity,
        ensures
            set.wf(),
            set.spec_capacity() == capacity,
            set@ == ords@.to_set(),
            set.is_dense() <==> distinct_len * FRUIT_PROMOTION_RATIO > capacity,
    {
        if distinct_len <= capacity / FRUIT_PROMOTION_RATIO {
            let sorted: Vec<u64> = sorted_distinct(ords);
            proof {
                assert forall|i: int| 0 <= i < sorted@.len() implies sorted@[i] < capacity by {
                    assert(sorted@.to_set().contains(sorted@[i]));
                    let k = choose|k: int| 0 <= k < ords@.len() && ords@[k] == sorted@[i];
                    assert(ords@[k] < capacity);
                }
            }
            AdaptiveOrdSet { capacity, repr: OrdSetRepr::Sparse(sorted) }
        } else {
            let mut words: Vec<u64> = dense_words(capacity);
            set_bits(&mut words, &ords);
            proof {
                assert(dense_ords(words@) =~= ords@.to_set());
                assert forall|ord: u64| has_bit(words@, ord) implies ord < capacity by {
                    assert(dense_ords(words@).contains(ord));
                    let k = choose|k: int| 0 <= k < ords@.len() && ords@[k] == ord;
                    assert(ords@[k] < capacity);
                }
            }
            AdaptiveOrdSet { capacity, repr: OrdSetRepr::Dense(words) }
        }
    }

    /// The number of distinct ordinals.
    pub fn count(&self) -> (count: u64)
        requires
            self.wf(),
        ensures
            self@.finite(),
            count == self@.len(),
    {
        match &self.repr {
            OrdSetRepr::Sparse(ords) => {
                proof {
                    lemma_increasing_len(ords@, self.capacity);
                }
                ords.len() as u64
            },
            OrdSetRepr::Dense(words) => count_bits(words, Ghost(self.capacity)),
        }
    }

    /// Adds the ordinals of `other`, which must have the same capacity.
    pub fn merge(&mut self, other: AdaptiveOrdSet) -> (result: Result<(), CapacityMismatch>)
        requires
            old(self).wf(),
            other.wf(),
        ensures
            final(self).wf(),
            final(self).spec_capacity() == old(self).spec_capacity(),
            old(self).spec_capacity() != other.spec_capacity() ==> {
                &&& result == Err::<(), CapacityMismatch>(
                    CapacityMismatch {
                        left: old(self).spec_capacity(),
                        right: other.spec_capacity(),
                    },
                )
                &&& *final(self) == *old(self)
            },
            old(self).spec_capacity() == other.spec_capacity() ==> {
                &&& result is Ok
                &&& final(self)@ == old(self)@.union(other@)
                &&& final(self).is_dense() <==> (old(self).is_dense() || other.is_dense()
                    || final(self)@.len() * FRUIT_PROMOTION_RATIO > old(self).spec_capacity())
            },
    {
        if self.capacity != other.capacity {
            return Err(CapacityMismatch { left: self.capacity, right: other.capacity });
        }
        let capacity: u64 = self.capacity;
        let mut current: OrdSetRepr = OrdSetRepr::Dense(Vec::new());
        std::mem::swap(&mut current, &mut self.repr);
        proof {
            old(self).lemma_wf_bounds();
            other.lemma_wf_bounds();
        }
        let merged: OrdSetRepr = match (current, other.repr) {
            (OrdSetRepr::Dense(left), OrdSetRepr::Dense(right)) => {
                let mut words: Vec<u64> = left;
                or_words(&mut words, &right);
                OrdSetRepr::Dense(words)
            },
            (OrdSetRepr::Dense(left), OrdSetRepr::Sparse(right)) => {
                let mut words: Vec<u64> = left;
                set_bits(&mut words, &right);
                OrdSetRepr::Dense(words)
            },
            (OrdSetRepr::Sparse(left), OrdSetRepr::Dense(right)) => {
                let mut words: Vec<u64> = right;
                set_bits(&mut words, &left);
                OrdSetRepr::Dense(words)
            },
            (OrdSetRepr::Sparse(left), OrdSetRepr::Sparse(right)) => {
                let list: Vec<u64> = merge_sorted(&left, &right);
                proof {
                    assert forall|i: int| 0 <= i < list@.len() implies list@[i] < capacity by {
                        assert(list@.to_set().contains(list@[i]));
                        assert(old(self)@.contains(list@[i]) || other@.contains(list@[i]));
                    }
                    lemma_increasing_len(list@, capacity);
                }
                if list.len() as u64 > capacity / FRUIT_PROMOTION_RATIO {
                    let mut words: Vec<u64> = dense_words(capacity);
                    set_bits(&mut words, &list);
                    OrdSetRepr::Dense(words)
                } else {
                    OrdSetRepr::Sparse(list)
                }
            },
        };
        let ghost merged_repr = merged;
        self.repr = merged;
        proof {
            assert(merged_repr.ords() =~= old(self)@.union(other@));
            if let OrdSetRepr::Dense(words) = merged_repr {
                assert forall|ord: u64| has_bit(words@, ord) implies ord < capacity by {
                    assert(dense_ords(words@).contains(ord));
                    assert(old(self)@.contains(ord) || other@.contains(ord));
                }
            }
        }
        Ok(())
    }
}

} // verus!
