//! A succinct indexable bit dictionary: access, rank and select over an
//! immutable sequence of bits, backed by two levels of prefix counts.
use vstd::prelude::*;

verus! {

/// Number of bits covered by one large block.
pub const LEVEL_LARGE: usize = 1024;

/// Number of bits covered by one small block.
pub const LEVEL_SMALL: usize = 16;

/// Number of small blocks in one large block.
pub const SMALL_PER_LARGE: usize = LEVEL_LARGE / LEVEL_SMALL;

/// Number of entries equal to `b` among the first `i` entries of `s`.
pub open spec fn occurrences(s: Seq<bool>, b: bool, i: int) -> nat
    decreases i,
{
    if i <= 0 {
        0
    } else {
        occurrences(s, b, i - 1) + if s[i - 1] == b {
            1nat
        } else {
            0nat
        }
    }
}

/// `p` is the position of the `k`-th (0-indexed) entry of `s` equal to `b`.
pub open spec fn is_selected(s: Seq<bool>, b: bool, k: int, p: int) -> bool {
    &&& 0 <= p < s.len()
    &&& s[p] == b
    &&& occurrences(s, b, p) == k
}

/// The count of `b` in a prefix never exceeds the prefix length, and grows by
/// at most the number of positions added.
pub proof fn lemma_occurrences_bounded(s: Seq<bool>, b: bool, i: int, j: int)
    requires
        0 <= i <= j,
    ensures
        occurrences(s, b, i) <= occurrences(s, b, j),
        occurrences(s, b, j) - occurrences(s, b, i) <= j - i,
        occurrences(s, b, i) <= i,
    decreases j,
{
    if j > i {
        lemma_occurrences_bounded(s, b, i, j - 1);
    } else {
        lemma_occurrences_at_most_length(s, b, i);
    }
}

/// The count of `b` in a prefix never exceeds the prefix length.
pub proof fn lemma_occurrences_at_most_length(s: Seq<bool>, b: bool, i: int)
    requires
        0 <= i,
    ensures
        occurrences(s, b, i) <= i,
    decreases i,
{
    if i > 0 {
        lemma_occurrences_at_most_length(s, b, i - 1);
    }
}

/// Every position of a prefix holds either `true` or `false`: the two counts
/// of a prefix add up to its length.
pub proof fn lemma_rank_complement(s: Seq<bool>, i: int)
    requires
        0 <= i,
    ensures
        occurrences(s, true, i) + occurrences(s, false, i) == i,
    decreases i,
{
    if i > 0 {
        lemma_rank_complement(s, i - 1);
    }
}

/// Rank is monotone in its position: a longer prefix holds at least as many
/// occurrences of `b` as a shorter one.
pub proof fn lemma_rank_monotone(s: Seq<bool>, b: bool, i: int, j: int)
    requires
        0 <= i <= j,
    ensures
        occurrences(s, b, i) <= occurrences(s, b, j),
{
    lemma_occurrences_bounded(s, b, i, j);
}

/// At most one position is the `k`-th occurrence of `b`.
pub proof fn lemma_selected_unique(s: Seq<bool>, b: bool, k: int, p: int, q: int)
    requires
        is_selected(s, b, k, p),
        is_selected(s, b, k, q),
    ensures
        p == q,
{
    if p < q {
        lemma_occurrences_bounded(s, b, p + 1, q);
    } else if q < p {
        lemma_occurrences_bounded(s, b, q + 1, p);
    }
}

/// Select inverts rank: for every position `i` that holds `b`, the position
/// of occurrence number `rank(b, i)` of `b` is `i`, and no other position.
pub proof fn lemma_select_rank_inverse(s: Seq<bool>, b: bool, i: int, p: int)
    requires
        0 <= i < s.len(),
        s[i] == b,
    ensures
        is_selected(s, b, occurrences(s, b, i) as int, i),
        is_selected(s, b, occurrences(s, b, i) as int, p) <==> p == i,
{
    if is_selected(s, b, occurrences(s, b, i) as int, p) {
        lemma_selected_unique(s, b, occurrences(s, b, i) as int, p, i);
    }
}

/// The totals of the two bit values add up to the length of the sequence.
pub proof fn lemma_rank_totals(s: Seq<bool>)
    ensures
        occurrences(s, true, s.len() as int) + occurrences(s, false, s.len() as int) == s.len(),
{
    lemma_rank_complement(s, s.len() as int);
}

/// Immutable bit sequence with two levels of precomputed counts of `true`.
pub struct SuccintBitVector {
    original_vec: Vec<bool>,
    large_vec: Vec<usize>,
    small_vec: Vec<u16>,
    count_false: usize,
    count_true: usize,
}

impl View for SuccintBitVector {
    type V = Seq<bool>;

    closed spec fn view(&self) -> Seq<bool> {
        self.original_vec@
    }
}

impl SuccintBitVector {
    /// Number of large-block entries: one for each multiple of the large
    /// block size up to and including the length.
    pub open spec fn large_len(&self) -> int {
        self@.len() as int / LEVEL_LARGE as int + 1
    }

    /// Number of small-block entries: one for each multiple of the small
    /// block size up to and including the length.
    pub open spec fn small_len(&self) -> int {
        self@.len() as int / LEVEL_SMALL as int + 1
    }

    /// Occurrences of `b` before the start of large block `k`.
    pub open spec fn large_count(&self, b: bool, k: int) -> int {
        occurrences(self@, b, k * LEVEL_LARGE as int) as int
    }

    /// Occurrences of `b` before the start of small block `k`, counted from
    /// the start of the large block that encloses it.
    pub open spec fn small_count(&self, b: bool, k: int) -> int {
        occurrences(self@, b, k * LEVEL_SMALL as int) - occurrences(
            self@,
            b,
            (k / SMALL_PER_LARGE as int) * LEVEL_LARGE as int,
        )
    }

    /// The two index layers and the totals agree with the bit sequence.
    pub closed spec fn wf(&self) -> bool {
        &&& self@.len() <= usize::MAX
        &&& self.large_vec@.len() == self.large_len()
        &&& self.small_vec@.len() == self.small_len()
        &&& forall|k: int|
            0 <= k < self.large_len() ==> #[trigger] self.large_vec@[k] == occurrences(
                self@,
                true,
                k * LEVEL_LARGE as int,
            )
        &&& forall|k: int|
            0 <= k < self.small_len() ==> #[trigger] self.small_vec@[k] == self.small_count(
                true,
                k,
            )
        &&& self.count_true == occurrences(self@, true, self@.len() as int)
        &&& self.count_false == occurrences(self@, false, self@.len() as int)
    }
    /// Builds the dictionary in one pass over `v`.
    pub fn new_from(v: Vec<bool>) -> (r: Self)
        ensures
            r.wf(),
            r@ == v@,
    {
        let size = v.len();
        let mut cur_large: usize = 0;
        let mut block_base: usize = 0;
        let mut count_false: usize = 0;
        let mut large_vec: Vec<usize> = Vec::new();
        let mut small_vec: Vec<u16> = Vec::new();
        let mut i: usize = 0;
        loop
            invariant_except_break
                large_vec@.len() == (i + 1023) / 1024,
                small_vec@.len() == (i + 15) / 16,
                i > 0 ==> block_base == occurrences(v@, true, ((i - 1) / 1024) * 1024),
            invariant
                size == v@.len(),
                i <= size,
                forall|k: int|
                    0 <= k < large_vec@.len() ==> #[trigger] large_vec@[k] == occurrences(
                        v@,
                        true,
                        k * 1024,
                    ),
                forall|k: int|
                    0 <= k < small_vec@.len() ==> #[trigger] small_vec@[k] == occurrences(
                        v@,
                        true,
                        k * 16,
                    ) - occurrences(v@, true, (k / 64) * 1024),
                cur_large == occurrences(v@, true, i as int),
                count_false == occurrences(v@, false, i as int),
            ensures
                i == size,
                large_vec@.len() == size / 1024 + 1,
                small_vec@.len() == size / 16 + 1,
            decreases size - i,
        {
            if i % LEVEL_LARGE == 0 {
                large_vec.push(cur_large);
                block_base = cur_large;
            }
            assert(block_base == occurrences(v@, true, (i / 1024) * 1024));
            proof {
                lemma_occurrences_bounded(v@, true, (i / 1024) * 1024, i as int);
            }
            if i % LEVEL_SMALL == 0 {
                assert((i / 16) / 64 == i / 1024);
                assert((i / 16) * 16 == i);
                small_vec.push((cur_large - block_base) as u16);
            }
            if i == size {
                break;
            }
            proof {
                lemma_occurrences_at_most_length(v@, true, i as int);
                lemma_occurrences_at_most_length(v@, false, i as int);
            }
            if v[i] {
                cur_large += 1;
            } else {
                count_false += 1;
            }
            i += 1;
        }
        SuccintBitVector {
            original_vec: v,
            large_vec,
            small_vec,
            count_false,
            count_true: cur_large,
        }
    }
    /// Occurrences of `b` before the start of large block `large_index`.
    pub fn get_large(&self, b: bool, large_index: usize) -> (r: usize)
        requires
            self.wf(),
            large_index < self.large_len(),
        ensures
            r == occurrences(self@, b, large_index * LEVEL_LARGE as int),
    {
        proof {
            let n = self@.len() as int;
            assert(large_index * 1024 <= n) by (nonlinear_arith)
                requires
                    large_index < n / 1024 + 1,
                    n >= 0,
            ;
            lemma_rank_complement(self@, large_index * 1024);
        }
        if b {
            self.large_vec[large_index]
        } else {
            large_index * LEVEL_LARGE - self.large_vec[large_index]
        }
    }

    /// Occurrences of `b` before the start of small block `small_index`,
    /// counted from the start of its enclosing large block.
    pub fn get_small(&self, b: bool, small_index: usize) -> (r: u16)
        requires
            self.wf(),
            small_index < self.small_len(),
        ensures
            r == self.small_count(b, small_index as int),
    {
        let ghost s = self@;
        let ghost start = (small_index / 64) * 1024;
        let ghost end = small_index * 16;
        proof {
            assert(start <= end);
            assert(end - start == (small_index % 64) * 16);
            lemma_occurrences_bounded(s, true, start as int, end as int);
            lemma_occurrences_bounded(s, false, start as int, end as int);
            lemma_rank_complement(s, start as int);
            lemma_rank_complement(s, end as int);
        }
        if b {
            self.small_vec[small_index]
        } else {
            (small_index % SMALL_PER_LARGE) as u16 * LEVEL_SMALL as u16 - self.small_vec[small_index]
        }
    }

    /// The `i`-th bit.
    pub fn access(&self, i: usize) -> (r: bool)
        requires
            i < self@.len(),
        ensures
            r == self@[i as int],
    {
        self.original_vec[i]
    }

    /// Number of entries equal to `b` in the whole sequence.
    pub fn rank_all(&self, b: bool) -> (r: usize)
        requires
            self.wf(),
        ensures
            r == occurrences(self@, b, self@.len() as int),
    {
        if b {
            self.count_true
        } else {
            self.count_false
        }
    }

    /// Number of entries equal to `b` among the first `i`.
    pub fn rank(&self, b: bool, i: usize) -> (r: usize)
        requires
            self.wf(),
            i <= self@.len(),
        ensures
            r == occurrences(self@, b, i as int),
    {
        let ghost s = self@;
        let small_index = i / LEVEL_SMALL;
        assert(small_index / 64 == i / 1024);
        let mut index: usize = small_index * LEVEL_SMALL;
        proof {
            lemma_occurrences_bounded(s, true, index as int, i as int);
            lemma_occurrences_bounded(s, true, (i / 1024) * 1024, index as int);
            lemma_occurrences_at_most_length(s, true, i as int);
        }
        let mut rank1: usize = self.large_vec[i / LEVEL_LARGE] + self.small_vec[small_index] as usize;
        while index < i
            invariant
                self.wf(),
                s == self@,
                i <= s.len(),
                index <= i,
                rank1 == occurrences(s, true, index as int),
            decreases i - index,
        {
            proof {
                lemma_occurrences_bounded(s, true, index + 1, i as int);
            }
            if self.original_vec[index] {
                rank1 += 1;
            }
            index += 1;
        }
        proof {
            lemma_rank_complement(s, i as int);
        }
        if b {
            rank1
        } else {
            i - rank1
        }
    }
    /// Position of the `i`-th (0-indexed) entry equal to `b`, or `None` when
    /// the sequence holds no more than `i` such entries.
    pub fn select(&self, b: bool, i: usize) -> (r: Option<usize>)
        requires
            self.wf(),
        ensures
            r is Some <==> i < occurrences(self@, b, self@.len() as int),
            r matches Some(p) ==> is_selected(self@, b, i as int, p as int),
    {
        let ghost s = self@;
        let ghost n = s.len() as int;
        if i >= self.rank_all(b) {
            return None;
        }
        let rank = i + 1;
        // greatest large block whose start precedes `rank` occurrences
        let mut large_left: usize = 0;
        let mut large_right: usize = self.large_vec.len();
        while large_left < large_right
            invariant
                self.wf(),
                s == self@,
                large_left <= large_right <= self.large_len(),
                forall|k: int| 0 <= k < large_left ==> #[trigger] self.large_count(b, k) < rank,
                forall|k: int|
                    large_right <= k < self.large_len() ==> #[trigger] self.large_count(b, k)
                        >= rank,
            decreases large_right - large_left,
        {
            let mid = large_left + (large_right - large_left) / 2;
            let rank_large_mid = self.get_large(b, mid);
            if rank_large_mid < rank {
                assert forall|k: int| 0 <= k <= mid implies #[trigger] self.large_count(b, k)
                    < rank by {
                    assert(k * 1024 <= mid * 1024);
                    lemma_rank_monotone(s, b, k * 1024, mid * 1024);
                }
                large_left = mid + 1;
            } else {
                assert forall|k: int|
                    mid <= k < self.large_len() implies #[trigger] self.large_count(b, k)
                    >= rank by {
                    assert(k * 1024 >= mid * 1024);
                    lemma_rank_monotone(s, b, mid * 1024, k * 1024);
                }
                large_right = mid;
            }
        }
        assert(self.large_count(b, 0) == 0);
        let large_index = large_right - 1;
        assert(self.large_count(b, large_index as int) < rank);
        let ghost large_end = if large_right < self.large_len() {
            large_right * 1024
        } else {
            n
        };
        proof {
            if large_right < self.large_len() {
                assert(self.large_count(b, large_right as int) >= rank);
            }
            assert(occurrences(s, b, large_end) >= rank);
            assert(large_index * 1024 <= n);
            assert(large_end <= n);
            assert(large_end <= large_index * 1024 + 1024);
            assert(large_index * 1024 <= large_end);
            lemma_occurrences_bounded(s, b, large_index * 1024, large_end);
        }
        let rank_subtract = self.get_large(b, large_index);
        let rank_remain = rank - rank_subtract;
        // greatest small block of that large block whose start precedes `rank`
        let window_start = large_index * SMALL_PER_LARGE;
        let ghost window_end = if window_start + 64 < self.small_len() {
            window_start + 64
        } else {
            self.small_len()
        };
        let mut small_left = window_start;
        let mut small_right = if window_start + SMALL_PER_LARGE < self.small_vec.len() {
            window_start + SMALL_PER_LARGE
        } else {
            self.small_vec.len()
        };
        while small_left < small_right
            invariant
                self.wf(),
                s == self@,
                window_start <= small_left <= small_right <= window_end,
                window_end <= self.small_len(),
                window_start == large_index * 64,
                window_end <= window_start + 64,
                rank_remain == rank - self.large_count(b, large_index as int),
                forall|k: int|
                    window_start <= k < small_left ==> #[trigger] self.small_count(b, k)
                        < rank_remain,
                forall|k: int|
                    small_right <= k < window_end ==> #[trigger] self.small_count(b, k)
                        >= rank_remain,
            decreases small_right - small_left,
        {
            let mid = small_left + (small_right - small_left) / 2;
            let rank_small_mid = self.get_small(b, mid);
            if (rank_small_mid as usize) < rank_remain {
                assert forall|k: int| window_start <= k <= mid implies #[trigger] self.small_count(
                    b,
                    k,
                ) < rank_remain by {
                    assert(k / 64 == large_index);
                    assert(mid / 64 == large_index);
                    lemma_rank_monotone(s, b, k * 16, mid * 16);
                }
                small_left = mid + 1;
            } else {
                assert forall|k: int| mid <= k < window_end implies #[trigger] self.small_count(
                    b,
                    k,
                ) >= rank_remain by {
                    assert(k / 64 == large_index);
                    assert(mid / 64 == large_index);
                    lemma_rank_monotone(s, b, mid * 16, k * 16);
                }
                small_right = mid;
            }
        }
        assert(self.small_count(b, window_start as int) == 0);
        let small_index = small_right - 1;
        let ghost block_end = if small_right < window_end {
            small_right * 16
        } else {
            large_end
        };
        proof {
            if small_right < window_end {
                assert(small_right / 64 == large_index);
                assert(self.small_count(b, small_right as int) >= rank_remain);
            }
            assert(small_index * 16 <= block_end <= n);
            assert(occurrences(s, b, block_end) >= rank);
        }
        let rank_subtract = self.get_small(b, small_index);
        let mut rank_remain = rank_remain - rank_subtract as usize;
        // scan the final small block for the remaining occurrences
        let mut index = small_index * LEVEL_SMALL;
        while rank_remain > 0
            invariant
                self.wf(),
                s == self@,
                n == s.len(),
                index <= block_end <= n,
                occurrences(s, b, block_end) >= rank,
                occurrences(s, b, index as int) + rank_remain == rank,
                rank_remain == 0 ==> index > 0 && s[index - 1] == b,
            decreases block_end - index,
        {
            assert(index < block_end);
            if self.original_vec[index] == b {
                rank_remain -= 1;
            }
            index += 1;
        }
        Some(index - 1)
    }
}

} // verus!
