//! A Fenwick tree over `[0, max_num)`: a multiset of small integers with
//! logarithmic `add`, `remove_all` and `rank` (the number of stored values
//! strictly below an index). The crossing counter sweeps edge endpoints
//! through it and asks, for each endpoint, how many placed ones lie above.

use vstd::prelude::*;

verus! {

/// Lowest set bit of `i` (0 for 0).
pub open spec fn lowbit(i: usize) -> usize {
    i & !((i - 1) as usize)
}

proof fn lemma_lowbit_range(i: usize)
    requires
        i > 0,
    ensures
        1 <= lowbit(i) <= i,
{
    assert(i > 0 ==> 1 <= i & !((i - 1) as usize) && i & !((i - 1) as usize) <= i) by (bit_vector);
}

proof fn lemma_lowbit_inside(i: usize, j: usize)
    requires
        i > 0,
        i < j,
        j < i + lowbit(i),
    ensures
        j - lowbit(j) >= i,
{
    assert(i > 0 && i < j && j < i + (i & !((i - 1) as usize)) ==> j - (j & !((j - 1) as usize)) >= i) by (bit_vector);
}

proof fn lemma_lowbit_next(i: usize)
    requires
        i > 0,
        i + lowbit(i) <= usize::MAX,
    ensures
        (i + lowbit(i)) as usize - lowbit((i + lowbit(i)) as usize) <= i - lowbit(i),
{
    let k = (i + lowbit(i)) as usize;
    assert(i > 0 && k == i + (i & !((i - 1) as usize))
        ==> k - (k & !((k - 1) as usize)) <= i - (i & !((i - 1) as usize))) by (bit_vector);
}


/// Sum of the first `i` entries of `s`.
pub open spec fn prefix(s: Seq<int>, i: int) -> int
    decreases i,
{
    if i <= 0 {
        0
    } else {
        prefix(s, i - 1) + s[i - 1]
    }
}

/// Every count is nonnegative.
pub open spec fn nonneg(s: Seq<int>) -> bool {
    forall|k: int| 0 <= k < s.len() ==> s[k] >= 0
}

/// The cell `j` of a Fenwick tree sums the half-open range
/// `[j - lowbit(j), j)`; `covers(j, k)` says that `k` lies in it.
pub open spec fn covers(j: usize, k: int) -> bool {
    j - lowbit(j) <= k < j
}

proof fn lemma_prefix_update(s: Seq<int>, k: int, v: int, i: int)
    requires
        0 <= k < s.len(),
        0 <= i <= s.len(),
    ensures
        prefix(s.update(k, v), i) == prefix(s, i) + (if i > k { v - s[k] } else { 0 }),
    decreases i,
{
    if i > 0 {
        lemma_prefix_update(s, k, v, i - 1);
    }
}

proof fn lemma_prefix_mono(s: Seq<int>, a: int, b: int)
    requires
        nonneg(s),
        0 <= a <= b <= s.len(),
    ensures
        prefix(s, a) <= prefix(s, b),
        forall|k: int| a <= k < b ==> prefix(s, b) - prefix(s, a) >= s[k],
    decreases b,
{
    if a < b {
        lemma_prefix_mono(s, a, b - 1);
    }
}

proof fn lemma_prefix_bounds(s: Seq<int>, a: int, b: int)
    requires
        nonneg(s),
        0 <= a <= b <= s.len(),
    ensures
        0 <= prefix(s, b) - prefix(s, a) <= prefix(s, s.len() as int),
{
    lemma_prefix_mono(s, 0, a);
    lemma_prefix_mono(s, a, b);
    lemma_prefix_mono(s, b, s.len() as int);
}

proof fn lemma_prefix_zeros(n: int, i: int)
    requires
        0 <= i <= n,
    ensures
        prefix(Seq::new(n as nat, |_k: int| 0int), i) == 0,
    decreases i,
{
    if i > 0 {
        lemma_prefix_zeros(n, i - 1);
    }
}

/// Storing one more `index` raises the rank of every index above it by
/// one and leaves the ranks at or below it unchanged.
pub proof fn lemma_rank_after_add(s: Seq<int>, index: int, j: int)
    requires
        0 <= index < s.len(),
        0 <= j <= s.len(),
    ensures
        prefix(s.update(index, s[index] + 1), j) == prefix(s, j) + (if j > index { 1int } else { 0 }),
{
    lemma_prefix_update(s, index, s[index] + 1, j);
}

/// Removing every stored `index` lowers the rank of every index above it
/// by the count that was stored there.
pub proof fn lemma_rank_after_remove_all(s: Seq<int>, index: int, j: int)
    requires
        0 <= index < s.len(),
        0 <= j <= s.len(),
    ensures
        prefix(s.update(index, 0), j) == prefix(s, j) - (if j > index { s[index] } else { 0 }),
{
    lemma_prefix_update(s, index, 0, j);
}

/// Ranks grow with the index, from 0 up to the number of stored values.
pub proof fn lemma_rank_monotone(s: Seq<int>, a: int, b: int)
    requires
        nonneg(s),
        0 <= a <= b <= s.len(),
    ensures
        0 <= prefix(s, a) <= prefix(s, b) <= prefix(s, s.len() as int),
{
    lemma_prefix_mono(s, 0, a);
    lemma_prefix_mono(s, a, b);
    lemma_prefix_mono(s, b, s.len() as int);
}

/// Counts of small integers in `[0, max_num)`, kept as a Fenwick tree.
pub struct BinaryIndexedTree {
    binary_sums: Vec<i32>,
    nums_per_index: Vec<i32>,
    size: i32,
    max_num: usize,
}

impl View for BinaryIndexedTree {
    /// How many times each value in `[0, max_num)` is stored.
    type V = Seq<int>;

    closed spec fn view(&self) -> Seq<int> {
        self.nums_per_index@.map_values(|v: i32| v as int)
    }
}

impl BinaryIndexedTree {
    /// Number of values stored, with repetition.
    pub open spec fn total(&self) -> int {
        prefix(self@, self@.len() as int)
    }

    /// The tree is consistent with its counts: every cell holds the sum of
    /// its range, the size is the total, and no count is negative.
    pub closed spec fn wf(&self) -> bool {
        &&& self.nums_per_index.len() == self.max_num
        &&& self.binary_sums.len() == self.max_num + 1
        &&& self.max_num < usize::MAX / 8
        &&& nonneg(self@)
        &&& self.size == self.total()
        &&& forall|j: usize|
            1 <= j <= self.max_num ==> #[trigger] self.binary_sums@[j as int] == prefix(self@, j as int)
                - prefix(self@, j - lowbit(j))
    }

    /// A well-formed tree holds no negative count, and its counts sum to
    /// at most `i32::MAX`.
    pub proof fn lemma_wf_counts(&self)
        requires
            self.wf(),
        ensures
            nonneg(self@),
            self@.len() < usize::MAX / 8,
            0 <= self.total() <= i32::MAX,
    {
        lemma_prefix_bounds(self@, 0, self@.len() as int);
    }

    /// An empty tree for values in `[0, max_num)`. A tree of `usize::MAX / 8`
    /// or more cells cannot be allocated.
    pub fn new(max_num: usize) -> (t: Self)
        requires
            max_num < usize::MAX / 8,
        ensures
            t.wf(),
            t@ == Seq::new(max_num as nat, |_k: int| 0int),
            t.total() == 0,
    {
        let t = BinaryIndexedTree {
            binary_sums: vec![0; max_num + 1],
            nums_per_index: vec![0; max_num],
            size: 0,
            max_num,
        };
        proof {
            let z = Seq::new(max_num as nat, |_k: int| 0int);
            assert(t@ =~= z);
            lemma_prefix_zeros(max_num as int, max_num as int);
            assert forall|j: usize| 1 <= j <= max_num implies #[trigger] t.binary_sums@[j as int] == prefix(t@, j as int)
                - prefix(t@, j - lowbit(j)) by {
                lemma_lowbit_range(j);
                lemma_prefix_zeros(max_num as int, j as int);
                lemma_prefix_zeros(max_num as int, j - lowbit(j));
            }
        }
        t
    }

    /// Adds `delta` to every cell whose range holds `index`.
    fn shift_cells(&mut self, index: usize, delta: i32)
        requires
            old(self).binary_sums.len() == old(self).max_num + 1,
            old(self).max_num < usize::MAX / 8,
            index < old(self).max_num,
            forall|j: usize|
                1 <= j <= old(self).max_num && covers(j, index as int) ==> i32::MIN
                    <= #[trigger] old(self).binary_sums@[j as int] + delta <= i32::MAX,
        ensures
            final(self).nums_per_index == old(self).nums_per_index,
            final(self).size == old(self).size,
            final(self).max_num == old(self).max_num,
            final(self).binary_sums.len() == old(self).binary_sums.len(),
            forall|j: usize|
                1 <= j <= old(self).max_num ==> #[trigger] final(self).binary_sums@[j as int]
                    == old(self).binary_sums@[j as int] + (if covers(j, index as int) {
                    delta as int
                } else {
                    0
                }),
    {
        let ghost old_sums = self.binary_sums@;
        let ghost max_num = self.max_num;
        let mut i = index + 1;
        proof {
            lemma_lowbit_range(i);
        }
        while i < self.binary_sums.len()
            invariant
                self.nums_per_index == old(self).nums_per_index,
                self.size == old(self).size,
                self.max_num == max_num,
                old(self).max_num == max_num,
                old_sums == old(self).binary_sums@,
                self.binary_sums.len() == max_num + 1,
                max_num < usize::MAX / 8,
                index < max_num,
                index < i <= 2 * max_num + 1,
                covers(i, index as int),
                forall|j: usize|
                    1 <= j <= max_num && covers(j, index as int) ==> i32::MIN <= #[trigger] old_sums[j as int]
                        + delta <= i32::MAX,
                forall|j: usize|
                    1 <= j <= max_num ==> #[trigger] self.binary_sums@[j as int] == old_sums[j as int] + (
                    if j < i && covers(j, index as int) {
                        delta as int
                    } else {
                        0
                    }),
            decreases 2 * max_num + 2 - i,
        {
            assert(self.binary_sums@[i as int] == old_sums[i as int]);
            let cell = self.binary_sums[i] + delta;
            self.binary_sums.set(i, cell);
            proof {
                lemma_lowbit_range(i);
                lemma_lowbit_next(i);
                assert forall|j: usize| i < j < i + lowbit(i) implies !covers(j, index as int) by {
                    lemma_lowbit_inside(i, j);
                }
            }
            let step = i & !(i - 1);
            i = i + step;
        }
    }

    /// Stores one more `index`.
    pub fn add(&mut self, index: usize)
        requires
            old(self).wf(),
            index < old(self)@.len(),
            old(self).total() < i32::MAX,
        ensures
            final(self).wf(),
            final(self)@ == old(self)@.update(index as int, old(self)@[index as int] + 1),
    {
        let ghost s = self@;
        let ghost s2 = s.update(index as int, s[index as int] + 1);
        proof {
            self.lemma_wf_counts();
            lemma_prefix_mono(s, 0, s.len() as int);
            assert forall|j: usize| 1 <= j <= self.max_num && covers(j, index as int) implies i32::MIN
                <= #[trigger] self.binary_sums@[j as int] + 1 <= i32::MAX by {
                lemma_lowbit_range(j);
                lemma_prefix_bounds(s, j - lowbit(j), j as int);
            }
        }
        self.size = self.size + 1;
        let cur = self.nums_per_index[index];
        self.nums_per_index.set(index, cur + 1);
        self.shift_cells(index, 1);
        proof {
            assert(self@ =~= s2);
            lemma_prefix_update(s, index as int, s[index as int] + 1, s.len() as int);
            assert forall|j: usize| 1 <= j <= self.max_num implies #[trigger] self.binary_sums@[j as int]
                == prefix(self@, j as int) - prefix(self@, j - lowbit(j)) by {
                lemma_lowbit_range(j);
                lemma_prefix_update(s, index as int, s[index as int] + 1, j as int);
                lemma_prefix_update(s, index as int, s[index as int] + 1, j - lowbit(j));
            }
        }
    }

    /// How many stored values are strictly below `index`.
    pub fn rank(&self, index: usize) -> (r: i32)
        requires
            self.wf(),
            index <= self@.len(),
        ensures
            r == prefix(self@, index as int),
    {
        proof {
            self.lemma_wf_counts();
        }
        let mut i = index;
        let mut sum: i32 = 0;
        while i > 0
            invariant
                self.wf(),
                i <= index <= self@.len(),
                sum == prefix(self@, index as int) - prefix(self@, i as int),
            decreases i,
        {
            proof {
                self.lemma_wf_counts();
                lemma_lowbit_range(i);
                lemma_prefix_bounds(self@, i - lowbit(i), index as int);
            }
            sum = sum + self.binary_sums[i];
            let step = i & !(i - 1);
            i = i - step;
        }
        sum
    }

    /// Number of values stored, with repetition.
    pub fn size(&self) -> (r: i32)
        requires
            self.wf(),
        ensures
            r == self.total(),
    {
        self.size
    }

    /// Removes every stored `index`.
    pub fn remove_all(&mut self, index: usize)
        requires
            old(self).wf(),
            index < old(self)@.len(),
        ensures
            final(self).wf(),
            final(self)@ == old(self)@.update(index as int, 0),
    {
        let ghost s = self@;
        let ghost s2 = s.update(index as int, 0);
        let num_entries = self.nums_per_index[index];
        if num_entries == 0 {
            proof {
                assert(s2 =~= s);
            }
            return;
        }
        proof {
            self.lemma_wf_counts();
            assert(s[index as int] == num_entries as int);
            assert forall|j: usize| 1 <= j <= self.max_num && covers(j, index as int) implies i32::MIN
                <= #[trigger] self.binary_sums@[j as int] - num_entries <= i32::MAX by {
                lemma_lowbit_range(j);
                lemma_prefix_bounds(s, j - lowbit(j), j as int);
                lemma_prefix_mono(s, j - lowbit(j), j as int);
            }
            lemma_prefix_mono(s, 0, s.len() as int);
        }
        self.nums_per_index.set(index, 0);
        self.size = self.size - num_entries;
        self.shift_cells(index, -num_entries);
        proof {
            assert(self@ =~= s2);
            lemma_prefix_update(s, index as int, 0, s.len() as int);
            assert(nonneg(s2));
            assert forall|j: usize| 1 <= j <= self.max_num implies #[trigger] self.binary_sums@[j as int]
                == prefix(self@, j as int) - prefix(self@, j - lowbit(j)) by {
                lemma_lowbit_range(j);
                lemma_prefix_update(s, index as int, 0, j as int);
                lemma_prefix_update(s, index as int, 0, j - lowbit(j));
            }
        }
    }

    /// Removes every stored value.
    pub fn clear(&mut self)
        requires
            old(self).wf(),
        ensures
            final(self).wf(),
            final(self)@ == Seq::new(old(self)@.len(), |_k: int| 0int),
    {
        let fresh = BinaryIndexedTree::new(self.max_num);
        *self = fresh;
    }

    /// Whether nothing is stored.
    pub fn is_empty(&self) -> (r: bool)
        requires
            self.wf(),
        ensures
            r == (self.total() == 0),
    {
        self.size == 0
    }
}

} // verus!
