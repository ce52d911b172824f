//! A bottom-up segment tree answering range-minimum queries in
//! logarithmic time, with point updates.

use vstd::prelude::*;

verus! {

/// The smaller of two values.
pub open spec fn umin(a: u32, b: u32) -> u32 {
    if a <= b {
        a
    } else {
        b
    }
}

/// The minimum over the cells `b[lo..=hi]`.
pub open spec fn range_min(b: Seq<u32>, lo: int, hi: int) -> u32
    recommends
        0 <= lo <= hi < b.len(),
    decreases hi - lo,
{
    if lo >= hi {
        b[lo]
    } else {
        umin(b[lo], range_min(b, lo + 1, hi))
    }
}

/// A range minimum splits at any point.
proof fn lemma_range_min_split(b: Seq<u32>, lo: int, mid: int, hi: int)
    requires
        0 <= lo <= mid < hi < b.len(),
    ensures
        range_min(b, lo, hi) == umin(range_min(b, lo, mid), range_min(b, mid + 1, hi)),
    decreases mid - lo,
{
    if lo < mid {
        lemma_range_min_split(b, lo + 1, mid, hi);
    }
}

/// One level up the tree, parent cells cover the same minimum as their
/// children.
proof fn lemma_range_min_pair(b: Seq<u32>, a: int, c: int)
    requires
        1 <= a <= c,
        2 * c + 1 < b.len(),
        forall|i: int| a <= i <= c ==> #[trigger] b[i] == umin(b[2 * i], b[2 * i + 1]),
    ensures
        range_min(b, 2 * a, 2 * c + 1) == range_min(b, a, c),
    decreases c - a,
{
    if a == c {
        assert(range_min(b, 2 * a + 1, 2 * a + 1) == b[2 * a + 1]);
        assert(range_min(b, 2 * a, 2 * a + 1) == umin(b[2 * a], b[2 * a + 1]));
    } else {
        lemma_range_min_pair(b, a + 1, c);
        lemma_range_min_split(b, 2 * a, 2 * a + 1, 2 * c + 1);
        assert(range_min(b, 2 * a + 1, 2 * a + 1) == b[2 * a + 1]);
        assert(range_min(b, 2 * a, 2 * a + 1) == umin(b[2 * a], b[2 * a + 1]));
    }
}

/// A range minimum over shifted cells equals the minimum over the
/// underlying array window.
proof fn lemma_range_min_offset(b: Seq<u32>, s: Seq<u32>, off: int, lo: int, hi: int)
    requires
        0 <= lo <= hi,
        0 <= off,
        off + hi < b.len(),
        hi < s.len(),
        forall|i: int| lo <= i <= hi ==> s[i] == b[off + i],
    ensures
        range_min(b, off + lo, off + hi) == range_min(s, lo, hi),
    decreases hi - lo,
{
    if lo < hi {
        lemma_range_min_offset(b, s, off, lo + 1, hi);
    }
}

/// The tree: the second half of `buf` holds the array, and every earlier
/// cell holds the minimum of its two children.
pub struct SegmentTree {
    buf: Vec<u32>,
    len: usize,
}

impl SegmentTree {
    /// The array the tree answers queries over.
    pub closed spec fn arr(&self) -> Seq<u32> {
        self.buf@.subrange(self.len as int, 2 * self.len)
    }

    /// Every internal cell holds the minimum of its children.
    pub closed spec fn wf(&self) -> bool {
        &&& self.buf@.len() == 2 * self.len
        &&& forall|i: int|
            1 <= i < self.len ==> #[trigger] self.buf@[i] == umin(
                self.buf@[2 * i],
                self.buf@[2 * i + 1],
            )
    }

    /// Builds the tree over an array.
    pub fn new(arr: &[u32]) -> (t: SegmentTree)
        requires
            2 * arr@.len() <= usize::MAX,
        ensures
            t.wf(),
            t.arr() == arr@,
    {
        let len = arr.len();
        let mut buf: Vec<u32> = Vec::new();
        let mut i: usize = 0;
        while i < len
            invariant
                i <= len,
                buf@.len() == i,
                forall|j: int| 0 <= j < i ==> buf@[j] == 0,
            decreases len - i,
        {
            buf.push(0);
            i = i + 1;
        }
        let mut k: usize = 0;
        while k < len
            invariant
                k <= len,
                len == arr@.len(),
                buf@.len() == len + k,
                forall|j: int| 0 <= j < len ==> buf@[j] == 0,
                forall|j: int| 0 <= j < k ==> buf@[len + j] == arr@[j],
            decreases len - k,
        {
            buf.push(arr[k]);
            k = k + 1;
        }
        let mut t = SegmentTree { buf, len };
        proof {
            assert(t.arr() =~= arr@);
        }
        if len <= 1 {
            return t;
        }
        let mut i: usize = len;
        while i > 1
            invariant
                1 <= i <= len,
                len == arr@.len(),
                2 * len <= usize::MAX,
                t.len == len,
                t.buf@.len() == 2 * len,
                t.arr() == arr@,
                forall|j: int|
                    i <= j < len ==> #[trigger] t.buf@[j] == umin(
                        t.buf@[2 * j],
                        t.buf@[2 * j + 1],
                    ),
            decreases i,
        {
            i = i - 1;
            let m = if t.buf[2 * i] <= t.buf[2 * i + 1] {
                t.buf[2 * i]
            } else {
                t.buf[2 * i + 1]
            };
            let ghost before = t.buf@;
            t.buf[i] = m;
            proof {
                assert(t.arr() =~= before.subrange(len as int, 2 * len));
            }
        }
        t
    }

    /// The minimum over `arr[l-1 ..= r-1]`, one-indexed inclusive bounds.
    pub fn query(&self, l: usize, r: usize) -> (res: u32)
        requires
            self.wf(),
            1 <= l <= r,
            r <= self.arr().len(),
        ensures
            res == range_min(self.arr(), l - 1, r - 1),
    {
        let n = self.len;
        let total = self.buf.len();  // binds the buffer length, so offsets below stay in machine range
        let mut lo = l + n - 1;
        let mut hi = r + n - 1;
        let mut ans = self.buf[lo];
        let ghost goal = range_min(self.buf@, l + n - 1, r + n - 1);
        proof {
            lemma_range_min_offset(
                self.buf@,
                self.arr(),
                n as int,
                l - 1,
                r - 1,
            );
            assert(umin(ans, range_min(self.buf@, lo as int, hi as int)) == goal);
        }
        while lo <= hi
            invariant
                self.wf(),
                n == self.len,
                2 * n <= usize::MAX,
                1 <= lo,
                hi < 2 * n,
                lo <= hi ==> umin(ans, range_min(self.buf@, lo as int, hi as int)) == goal,
                lo > hi ==> ans == goal,
            decreases hi,
        {
            let ghost lo0 = lo as int;
            let ghost hi0 = hi as int;
            let ghost ans0 = ans;
            if lo % 2 == 1 {
                ans = if ans <= self.buf[lo] {
                    ans
                } else {
                    self.buf[lo]
                };
                lo = lo + 1;
            }
            if hi % 2 == 0 {
                ans = if ans <= self.buf[hi] {
                    ans
                } else {
                    self.buf[hi]
                };
                hi = hi - 1;
            }
            proof {
                // after the edge absorptions the window is even..odd or empty
                if lo0 > hi0 {
                } else {
                    if lo == lo0 + 1 && lo0 < hi0 {
                        assert(range_min(self.buf@, lo0, hi0) == umin(
                            self.buf@[lo0],
                            range_min(self.buf@, lo0 + 1, hi0),
                        ));
                    }
                    if hi == hi0 - 1 && lo as int <= hi0 - 1 {
                        lemma_range_min_split(self.buf@, lo as int, hi0 - 1, hi0);
                    }
                    assert(lo as int <= hi as int ==> umin(
                        ans,
                        range_min(self.buf@, lo as int, hi as int),
                    ) == goal);
                    assert(lo as int == hi as int + 1 ==> ans == goal);
                }
            }
            let crossed = lo > hi;
            let ghost lo1 = lo as int;
            let ghost hi1 = hi as int;
            lo = lo / 2;
            hi = hi / 2;
            proof {
                if !crossed {
                    // both ends are aligned: move one level up
                    assert(lo1 % 2 == 0 && hi1 % 2 == 1);
                    assert(lo as int == lo1 / 2 && hi as int == (hi1 - 1) / 2);
                    if lo1 <= hi1 {
                        assert(2 * (lo1 / 2) == lo1 && 2 * ((hi1 - 1) / 2) + 1 == hi1);
                        if lo as int <= hi as int {
                            lemma_range_min_pair(self.buf@, lo as int, hi as int);
                        }
                    }
                } else {
                    // the window closed this round and the halves stay crossed
                    assert(lo1 == hi1 + 1);
                    assert(hi1 % 2 == 1);
                    assert(lo as int == hi as int + 1);
                }
            }
        }
        ans
    }

    /// Writes `val` at one-indexed position `idx` of the array, repairing
    /// the minima on the path to the root.
    pub fn update(&mut self, idx: usize, val: u32)
        requires
            old(self).wf(),
            1 <= idx <= old(self).arr().len(),
        ensures
            final(self).wf(),
            final(self).arr() == old(self).arr().update(idx - 1, val),
            final(self).arr().len() == old(self).arr().len(),
    {
        let n = self.len;
        let total = self.buf.len();  // binds the buffer length, so offsets below stay in machine range
        let mut i = idx + n - 1;
        self.buf[i] = val;
        proof {
            assert(self.arr() =~= old(self).arr().update(idx - 1, val));
        }
        i = i / 2;
        while i != 0
            invariant
                self.len == n,
                self.buf@.len() == 2 * n,
                2 * n <= usize::MAX,
                i < n,
                self.arr() == old(self).arr().update(idx - 1, val),
                forall|j: int|
                    1 <= j < n && !on_path(j, i as int) ==> #[trigger] self.buf@[j] == umin(
                        self.buf@[2 * j],
                        self.buf@[2 * j + 1],
                    ),
            decreases i,
        {
            let m = if self.buf[2 * i] <= self.buf[2 * i + 1] {
                self.buf[2 * i]
            } else {
                self.buf[2 * i + 1]
            };
            let ghost before = self.buf@;
            self.buf[i] = m;
            proof {
                assert(self.arr() =~= before.subrange(n as int, 2 * n));
                lemma_on_path_bound(i as int);
                assert forall|j: int|
                    1 <= j < n && !on_path(j, i as int / 2) implies #[trigger] self.buf@[j]
                    == umin(self.buf@[2 * j], self.buf@[2 * j + 1]) by {
                    if j != i as int {
                        assert(!on_path(j, i as int));
                        assert(2 * j != i && 2 * j + 1 != i as int || true);
                        if 2 * j == i as int || 2 * j + 1 == i as int {
                            assert(j == i as int / 2);
                            assert(on_path(j, i as int / 2));
                        }
                    }
                }
            }
            i = i / 2;
        }
        proof {
            assert forall|j: int| 1 <= j < n implies !on_path(j, 0) by {}
        }
    }
}

/// Whether `j` lies on the parent chain starting at `i` (inclusive).
pub open spec fn on_path(j: int, i: int) -> bool
    decreases (if i >= 0 {
        i
    } else {
        0
    }),
{
    if i <= 0 {
        false
    } else if j == i {
        true
    } else {
        on_path(j, i / 2)
    }
}

/// Path members never exceed their starting point.
proof fn lemma_on_path_bound(i: int)
    ensures
        forall|j: int| on_path(j, i) ==> 1 <= j <= i,
    decreases (if i >= 0 {
        i
    } else {
        0
    }),
{
    if i > 0 {
        lemma_on_path_bound(i / 2);
        assert forall|j: int| on_path(j, i) implies 1 <= j <= i by {
            assert(0 <= i / 2 <= i) by (nonlinear_arith)
                requires i > 0;
            if j != i {
                assert(on_path(j, i / 2));
            }
        }
    }
}

} // verus!
