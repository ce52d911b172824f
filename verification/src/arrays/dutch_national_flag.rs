//! Partitioning a sequence of three colors into red, then white, then blue.

use vstd::prelude::*;

verus! {

/// The three flag colors, in their sorting order.
#[derive(Debug, Clone, PartialEq, Eq, Structural, PartialOrd, Ord, Copy)]
pub enum Color {
    Red,
    White,
    Blue,
}

/// How many entries of `s` up to `end` hold color `c`.
pub open spec fn count_color(s: Seq<Color>, c: Color, end: int) -> int
    recommends
        0 <= end <= s.len(),
    decreases end,
{
    if end <= 0 {
        0
    } else {
        count_color(s, c, end - 1) + if s[end - 1] == c {
            1int
        } else {
            0int
        }
    }
}

/// The sorted flag: all reds, then all whites, then all blues, with the
/// same count of each color as `s`.
pub open spec fn sorted_flag(s: Seq<Color>) -> Seq<Color> {
    let reds = count_color(s, Color::Red, s.len() as int);
    let whites = count_color(s, Color::White, s.len() as int);
    Seq::new(
        s.len(),
        |i: int|
            if i < reds {
                Color::Red
            } else if i < reds + whites {
                Color::White
            } else {
                Color::Blue
            },
    )
}

/// Counting each color never exceeds the prefix length, and the three
/// counts fill it exactly.
proof fn lemma_counts(s: Seq<Color>, end: int)
    requires
        0 <= end <= s.len(),
    ensures
        0 <= count_color(s, Color::Red, end),
        0 <= count_color(s, Color::White, end),
        0 <= count_color(s, Color::Blue, end),
        count_color(s, Color::Red, end) + count_color(s, Color::White, end) + count_color(
            s,
            Color::Blue,
            end,
        ) == end,
    decreases end,
{
    if end > 0 {
        lemma_counts(s, end - 1);
    }
}

/// Returns a copy of the flag partitioned into red, then white, then blue.
pub fn dutch_flag_partition(flag: &[Color]) -> (sorted: Vec<Color>)
    ensures
        sorted@ == sorted_flag(flag@),
{
    let n = flag.len();
    let mut red_count: usize = 0;
    let mut white_count: usize = 0;
    let mut blue_count: usize = 0;
    let mut i: usize = 0;
    while i < n
        invariant
            i <= n,
            n == flag@.len(),
            red_count == count_color(flag@, Color::Red, i as int),
            white_count == count_color(flag@, Color::White, i as int),
            blue_count == count_color(flag@, Color::Blue, i as int),
            red_count + white_count + blue_count == i,
        decreases n - i,
    {
        match flag[i] {
            Color::Red => red_count = red_count + 1,
            Color::White => white_count = white_count + 1,
            Color::Blue => blue_count = blue_count + 1,
        }
        i = i + 1;
    }
    proof {
        lemma_counts(flag@, n as int);
    }
    let mut sorted: Vec<Color> = Vec::new();
    let mut j: usize = 0;
    while j < n
        invariant
            j <= n,
            n == flag@.len(),
            red_count == count_color(flag@, Color::Red, n as int),
            white_count == count_color(flag@, Color::White, n as int),
            red_count + white_count <= n,
            sorted@.len() == j,
            forall|k: int| 0 <= k < j ==> sorted@[k] == sorted_flag(flag@)[k],
        decreases n - j,
    {
        if j < red_count {
            sorted.push(Color::Red);
        } else if j < red_count + white_count {
            sorted.push(Color::White);
        } else {
            sorted.push(Color::Blue);
        }
        j = j + 1;
    }
    proof {
        assert(sorted@ =~= sorted_flag(flag@));
    }
    sorted
}

/// Partitions the flag in place into red, then white, then blue.
pub fn dutch_flag_partition_inplace(flag: &mut Vec<Color>)
    ensures
        final(flag)@ == sorted_flag(old(flag)@),
{
    let n = flag.len();
    let mut red_count: usize = 0;
    let mut white_count: usize = 0;
    let mut blue_count: usize = 0;
    let mut i: usize = 0;
    while i < n
        invariant
            i <= n,
            n == flag@.len(),
            flag@ == old(flag)@,
            red_count == count_color(flag@, Color::Red, i as int),
            white_count == count_color(flag@, Color::White, i as int),
            blue_count == count_color(flag@, Color::Blue, i as int),
            red_count + white_count + blue_count == i,
        decreases n - i,
    {
        match flag[i] {
            Color::Red => red_count = red_count + 1,
            Color::White => white_count = white_count + 1,
            Color::Blue => blue_count = blue_count + 1,
        }
        i = i + 1;
    }
    proof {
        lemma_counts(flag@, n as int);
    }
    let mut j: usize = 0;
    while j < n
        invariant
            j <= n,
            n == flag@.len(),
            flag@.len() == old(flag)@.len(),
            red_count + white_count <= n,
            red_count == count_color(old(flag)@, Color::Red, n as int),
            white_count == count_color(old(flag)@, Color::White, n as int),
            forall|k: int| 0 <= k < j ==> flag@[k] == sorted_flag(old(flag)@)[k],
        decreases n - j,
    {
        if j < red_count {
            flag[j] = Color::Red;
        } else if j < red_count + white_count {
            flag[j] = Color::White;
        } else {
            flag[j] = Color::Blue;
        }
        j = j + 1;
    }
    proof {
        assert(flag@ =~= sorted_flag(old(flag)@));
    }
}

/// Three-pointer pass over the flag. It checks the high end for red before
/// looking at the middle, so unlike the two partitioning passes above it
/// does not sort every input; it does keep exactly the original colors.
pub fn dutch_flag_sort_inplace(flag: &mut Vec<Color>)
    requires
        old(flag)@.len() > 0,
    ensures
        final(flag)@.len() == old(flag)@.len(),
        final(flag)@.to_multiset() == old(flag)@.to_multiset(),
{
    let n = flag.len();
    let mut low: usize = 0;
    let mut mid: usize = 0;
    let mut high_plus: usize = n;

    while mid < high_plus
        invariant
            flag@.len() == n,
            n == old(flag)@.len(),
            low <= mid <= high_plus <= n,
            flag@.to_multiset() == old(flag)@.to_multiset(),
        decreases high_plus - mid,
    {
        let high = high_plus - 1;
        if flag[high] == Color::Red {
            let ghost before = flag@;
            let a = flag[low];
            let b = flag[mid];
            flag[low] = b;
            flag[mid] = a;
            proof {
                crate::permutation::lemma_swap_multiset(before, low as int, mid as int);
            }
            low = low + 1;
            mid = mid + 1;
        } else if flag[mid] == Color::White {
            mid = mid + 1;
        } else {
            let ghost before = flag@;
            let a = flag[mid];
            let b = flag[high];
            flag[mid] = b;
            flag[high] = a;
            proof {
                crate::permutation::lemma_swap_multiset(before, mid as int, high as int);
            }
            high_plus = high_plus - 1;
        }
    }
}

} // verus!
