//! Fenwick Tree.

use vstd::prelude::*;

verus! {

/// The sum of the elements of `s` at the positions from `lo` up to, but not
/// including, `hi`.
pub open spec fn range_sum(s: Seq<int>, lo: int, hi: int) -> int
    decreases hi - lo,
{
    if lo >= hi {
        0
    } else {
        range_sum(s, lo, hi - 1) + s[hi - 1]
    }
}

/// Every sum of neighbouring elements of `s` fits in an `i64`.
pub open spec fn representable(s: Seq<int>) -> bool {
    forall|lo: int, hi: int|
        0 <= lo <= hi <= s.len() ==> i64::MIN <= #[trigger] range_sum(s, lo, hi) <= i64::MAX
}

/// The elements of a slice as integers.
pub open spec fn as_ints(s: Seq<i64>) -> Seq<int> {
    Seq::new(s.len(), |k: int| s[k] as int)
}

/// The sequence `s` with `x` added onto its `i`-th element, counted from 1;
/// `s` itself where it has no such element.
pub open spec fn added(s: Seq<int>, i: int, x: int) -> Seq<int> {
    if 1 <= i <= s.len() {
        s.update(i - 1, s[i - 1] + x)
    } else {
        s
    }
}

/// The lowest bit that is set in `i`, as a number; 0 for 0.
pub open spec fn lowest_bit(i: usize) -> usize {
    if i == 0 {
        0
    } else {
        i & !((i - 1) as usize)
    }
}

/// `i` is a power of two.
pub open spec fn power_of_two(i: usize) -> bool {
    i > 0 && i & ((i - 1) as usize) == 0
}

/// The lowest bit of a positive number is a power of two, and no more than
/// the number.
proof fn lemma_lowest_bit_bounds(i: usize)
    by (bit_vector)
    requires
        i > 0,
    ensures
        1 <= lowest_bit(i) <= i,
        power_of_two(lowest_bit(i)),
{
}

/// An entry `j` that lies less than the lowest bit of `c` above `c` sums
/// up elements behind the `c`-th only.
proof fn lemma_lowest_bit_between(c: usize, j: usize)
    by (bit_vector)
    requires
        0 < c < j,
        j - c < lowest_bit(c),
    ensures
        j - lowest_bit(j) >= c,
{
}

/// The entry that lies the lowest bit of `c` above `c` sums up what entry
/// `c` does, and more.
proof fn lemma_lowest_bit_next(c: usize, next: usize)
    by (bit_vector)
    requires
        c > 0,
        next == c + lowest_bit(c),
    ensures
        next - lowest_bit(next) <= c - lowest_bit(c),
{
}

/// The entry that lies a power of two `i`, less than the lowest bit of
/// `n`, below `n` sums up `i` elements; and twice `i` is again a power of
/// two, no more than that lowest bit.
proof fn lemma_lowest_bit_below(n: usize, i: usize)
    by (bit_vector)
    requires
        n > 0,
        power_of_two(i),
        i < lowest_bit(n),
    ensures
        lowest_bit((n - i) as usize) == i,
        2 * i <= lowest_bit(n),
        power_of_two((2 * i) as usize),
{
}

/// A range falls into two at any point inside it.
pub proof fn lemma_range_sum_split(s: Seq<int>, lo: int, mid: int, hi: int)
    requires
        lo <= mid <= hi,
    ensures
        range_sum(s, lo, hi) == range_sum(s, lo, mid) + range_sum(s, mid, hi),
    decreases hi - mid,
{
    if mid < hi {
        lemma_range_sum_split(s, lo, mid, hi - 1);
    }
}

/// Sequences that agree on a range have the same sum there.
pub proof fn lemma_range_sum_agree(s: Seq<int>, t: Seq<int>, lo: int, hi: int)
    requires
        forall|k: int| lo <= k < hi ==> s[k] == t[k],
    ensures
        range_sum(s, lo, hi) == range_sum(t, lo, hi),
    decreases hi - lo,
{
    if lo < hi {
        lemma_range_sum_agree(s, t, lo, hi - 1);
    }
}

/// Changing one element changes the sums of the ranges that hold it by the
/// difference, and no others.
pub proof fn lemma_range_sum_update(s: Seq<int>, at: int, v: int, lo: int, hi: int)
    requires
        0 <= at < s.len(),
        0 <= lo <= hi <= s.len(),
    ensures
        range_sum(s.update(at, v), lo, hi) == range_sum(s, lo, hi) + if lo <= at < hi {
            v - s[at]
        } else {
            0
        },
{
    let t = s.update(at, v);
    if lo <= at < hi {
        lemma_range_sum_split(s, lo, at, hi);
        lemma_range_sum_split(t, lo, at, hi);
        lemma_range_sum_split(s, at, at + 1, hi);
        lemma_range_sum_split(t, at, at + 1, hi);
        lemma_range_sum_agree(s, t, lo, at);
        lemma_range_sum_agree(s, t, at + 1, hi);
        assert(range_sum(s, at, at + 1) == range_sum(s, at, at) + s[at]);
        assert(range_sum(t, at, at + 1) == range_sum(t, at, at) + t[at]);
    } else {
        lemma_range_sum_agree(s, t, lo, hi);
    }
}

/// Where the sums of a sequence fit, so do those of each of its beginnings.
pub proof fn lemma_representable_take(s: Seq<int>, n: int)
    requires
        representable(s),
        0 <= n <= s.len(),
    ensures
        representable(s.take(n)),
{
    assert forall|lo: int, hi: int| 0 <= lo <= hi <= n implies i64::MIN <= #[trigger] range_sum(
        s.take(n),
        lo,
        hi,
    ) <= i64::MAX by {
        lemma_range_sum_agree(s.take(n), s, lo, hi);
    }
}

/// Fenwick Tree. 1-indexed.
///
/// Its view is the sequence of its elements; the element that the tree
/// counts as the `i`-th stands at position `i - 1` of the view.
pub struct Fenwick {
    table: Vec<i64>,
    elems: Ghost<Seq<int>>,
}

impl View for Fenwick {
    type V = Seq<int>;

    closed spec fn view(&self) -> Seq<int> {
        self.elems@
    }
}

/// The lowest bit that is set in `i`.
fn lsb(i: usize) -> (r: usize)
    ensures
        r == lowest_bit(i),
{
    if i == 0 {
        0
    } else {
        i & !(i - 1)
    }
}

impl Fenwick {
    /// The table has one entry more than there are elements, and its entry
    /// `j`, from 1 on, holds the sum of the `lowest_bit(j)` elements up to
    /// the `j`-th.
    pub closed spec fn consistent(&self) -> bool {
        &&& self.table.len() == self.elems@.len() + 1
        &&& forall|j: int|
            1 <= j < self.table.len() ==> #[trigger] self.table[j] as int == range_sum(
                self.elems@,
                j - lowest_bit(j as usize),
                j,
            )
    }

    /// The tree is in order, and every sum that it can be asked for fits in
    /// an `i64`.
    pub open spec fn well_formed(&self) -> bool {
        self.consistent() && representable(self@)
    }

    /// Constructs a new Fenwick Tree.
    #[allow(clippy::new_without_default)]
    pub fn new() -> (r: Self)
        ensures
            r.well_formed(),
            r@ == Seq::<int>::empty(),
    {
        let mut table: Vec<i64> = Vec::new();
        table.push(0);
        Self { table, elems: Ghost(Seq::empty()) }
    }

    /// Constructs a new Fenwick Tree from a slice.
    pub fn from_slice(src: &[i64]) -> (r: Self)
        requires
            representable(as_ints(src@)),
        ensures
            r.well_formed(),
            r@ == as_ints(src@),
    {
        let mut tree = Self::new();
        let mut done: usize = 0;
        while done < src.len()
            invariant
                done <= src.len(),
                representable(as_ints(src@)),
                tree.well_formed(),
                tree@ == as_ints(src@).take(done as int),
            decreases src.len() - done,
        {
            proof {
                lemma_representable_take(as_ints(src@), done + 1);
                assert(as_ints(src@).take(done + 1) == as_ints(src@).take(done as int).push(
                    src[done as int] as int,
                ));
            }
            tree.push(src[done]);
            done += 1;
        }
        proof {
            assert(as_ints(src@).take(src.len() as int) == as_ints(src@));
        }
        tree
    }

    /// Pushes a new element x.
    pub fn push(&mut self, x: i64)
        requires
            old(self).well_formed(),
            representable(old(self)@.push(x as int)),
        ensures
            final(self).well_formed(),
            final(self)@ == old(self)@.push(x as int),
    {
        let n: usize = self.table.len();
        let k: usize = lsb(n);
        let ghost before = self.elems@;
        let ghost after = before.push(x as int);
        proof {
            lemma_lowest_bit_bounds(n);
            assert(power_of_two(1)) by (bit_vector);
            assert(range_sum(after, n - 1, n as int) == range_sum(after, n - 1, n - 1) + after[n
                - 1]);
        }

        let mut acc: i64 = x;
        let mut i: usize = 1;
        while i != k
            invariant
                self.well_formed(),
                self.elems@ == before,
                after == before.push(x as int),
                representable(after),
                n == self.table.len(),
                k == lowest_bit(n),
                power_of_two(i),
                i <= k <= n,
                acc == range_sum(after, n - i, n as int),
            decreases k - i,
        {
            proof {
                lemma_lowest_bit_below(n, i);
                lemma_range_sum_agree(after, before, n - 2 * i, n - i);
                lemma_range_sum_split(after, n - 2 * i, n - i, n as int);
            }
            acc = acc + self.table[n - i];
            i = i * 2;
        }

        self.table.push(acc);
        self.elems = Ghost(after);
        proof {
            assert forall|j: int| 1 <= j < self.table.len() implies #[trigger] self.table[j] as int
                == range_sum(after, j - lowest_bit(j as usize), j) by {
                if j < n {
                    lemma_lowest_bit_bounds(j as usize);
                    lemma_range_sum_agree(after, before, j - lowest_bit(j as usize), j);
                }
            }
        }
    }

    /// Sums up the elements in [1, i].
    pub fn sum(&self, i: usize) -> (r: i64)
        requires
            self.well_formed(),
            i <= self@.len(),
        ensures
            r == range_sum(self@, 0, i as int),
    {
        let mut acc: i64 = 0;
        let mut cur: usize = i;
        while cur != 0
            invariant
                self.well_formed(),
                cur <= i <= self@.len(),
                acc == range_sum(self@, cur as int, i as int),
            decreases cur,
        {
            let step: usize = lsb(cur);
            proof {
                lemma_lowest_bit_bounds(cur);
                lemma_range_sum_split(self@, cur - step, cur as int, i as int);
            }
            acc = acc + self.table[cur];
            cur = cur - step;
        }
        acc
    }

    /// Adds x onto the i-th element. Where there is no i-th element, nothing
    /// changes.
    pub fn add(&mut self, i: usize, x: i64)
        requires
            old(self).well_formed(),
            i >= 1,
            representable(added(old(self)@, i as int, x as int)),
        ensures
            final(self).well_formed(),
            final(self)@ == added(old(self)@, i as int, x as int),
    {
        let n: usize = self.table.len();
        let ghost before = self.elems@;
        let ghost after = added(before, i as int, x as int);
        let ghost table0 = self.table@;
        proof {
            lemma_lowest_bit_bounds(i);
        }

        let mut cur: usize = i;
        while cur < n
            invariant
                n == self.table.len() == before.len() + 1,
                table0.len() == n,
                after == added(before, i as int, x as int),
                representable(after),
                forall|j: int|
                    1 <= j < n ==> #[trigger] table0[j] as int == range_sum(
                        before,
                        j - lowest_bit(j as usize),
                        j,
                    ),
                1 <= i <= cur,
                cur < n ==> cur - lowest_bit(cur) < i,
                forall|j: int|
                    0 <= j < n ==> #[trigger] self.table[j] as int == table0[j] + if j < cur && j
                        - lowest_bit(j as usize) < i <= j {
                        x as int
                    } else {
                        0
                    },
            decreases n - cur,
        {
            let step: usize = lsb(cur);
            proof {
                lemma_lowest_bit_bounds(cur);
                lemma_range_sum_update(
                    before,
                    i - 1,
                    before[i - 1] + x,
                    cur - step,
                    cur as int,
                );
            }
            let raised: i64 = self.table[cur] + x;
            self.table[cur] = raised;
            let ghost here = cur;
            if n - cur <= step {
                cur = n;
            } else {
                cur = cur + step;
                proof {
                    lemma_lowest_bit_next(here, cur);
                }
            }
            proof {
                assert forall|j: int| 0 <= j < n implies #[trigger] self.table[j] as int
                    == table0[j] + if j < cur && j - lowest_bit(j as usize) < i <= j {
                    x as int
                } else {
                    0
                } by {
                    if here < j < cur {
                        lemma_lowest_bit_between(here, j as usize);
                    }
                }
            }
        }

        self.elems = Ghost(after);
        proof {
            assert forall|j: int| 1 <= j < n implies #[trigger] self.table[j] as int == range_sum(
                after,
                j - lowest_bit(j as usize),
                j,
            ) by {
                lemma_lowest_bit_bounds(j as usize);
                if i < n {
                    lemma_range_sum_update(
                        before,
                        i - 1,
                        before[i - 1] + x,
                        j - lowest_bit(j as usize),
                        j,
                    );
                }
            }
        }
    }
}

} // verus!
