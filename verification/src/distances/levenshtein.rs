//! The Levenshtein edit distance, by dynamic programming over prefixes.

use vstd::prelude::*;

verus! {

/// The smaller of two values.
pub open spec fn min2(a: int, b: int) -> int {
    if a <= b {
        a
    } else {
        b
    }
}

/// The edit distance between two character sequences: the least number of
/// single-character insertions, deletions and substitutions turning one
/// into the other.
pub open spec fn lev(a: Seq<char>, b: Seq<char>) -> int
    decreases a.len() + b.len(),
{
    if a.len() == 0 {
        b.len() as int
    } else if b.len() == 0 {
        a.len() as int
    } else {
        let cost: int = if a.last() == b.last() {
            0
        } else {
            1
        };
        min2(
            min2(lev(a.drop_last(), b) + 1, lev(a, b.drop_last()) + 1),
            lev(a.drop_last(), b.drop_last()) + cost,
        )
    }
}

/// The distance never exceeds the longer length.
pub proof fn lemma_lev_bound(a: Seq<char>, b: Seq<char>)
    ensures
        0 <= lev(a, b),
        lev(a, b) <= a.len() + b.len(),
    decreases a.len() + b.len(),
{
    if a.len() > 0 && b.len() > 0 {
        lemma_lev_bound(a.drop_last(), b);
        lemma_lev_bound(a, b.drop_last());
        lemma_lev_bound(a.drop_last(), b.drop_last());
    }
}

/// The edit distance between two strings, over their characters.
pub fn levenshtein_distance(a: &str, b: &str) -> (res: usize)
    requires
        a@.len() + b@.len() < usize::MAX,
    ensures
        res == lev(a@, b@),
{
    let la = a.unicode_len();
    let lb = b.unicode_len();

    // row for the empty prefix of `a`: deleting nothing, inserting j
    let mut prev: Vec<usize> = Vec::new();
    let mut j: usize = 0;
    while j <= lb
        invariant
            j <= lb + 1,
            lb == b@.len(),
            lb < usize::MAX,
            prev@.len() == j,
            forall|t: int| 0 <= t < j ==> prev@[t] == lev(a@.subrange(0, 0), b@.subrange(0, t)),
        decreases lb + 1 - j,
    {
        proof {
            assert(a@.subrange(0, 0) =~= Seq::<char>::empty());
            assert(b@.subrange(0, j as int).len() == j);
        }
        prev.push(j);
        j = j + 1;
    }

    let mut i: usize = 1;
    while i <= la
        invariant
            1 <= i <= la + 1,
            la == a@.len(),
            lb == b@.len(),
            la + lb < usize::MAX,
            prev@.len() == lb + 1,
            forall|t: int|
                0 <= t <= lb ==> prev@[t] == lev(a@.subrange(0, i - 1), b@.subrange(0, t)),
        decreases la + 1 - i,
    {
        let mut cur: Vec<usize> = Vec::new();
        cur.push(i);
        proof {
            assert(b@.subrange(0, 0) =~= Seq::<char>::empty());
            assert(a@.subrange(0, i as int).len() == i);
        }
        let mut jj: usize = 1;
        while jj <= lb
            invariant
                1 <= jj <= lb + 1,
                1 <= i <= la,
                la == a@.len(),
                lb == b@.len(),
                la + lb < usize::MAX,
                prev@.len() == lb + 1,
                forall|t: int|
                    0 <= t <= lb ==> prev@[t] == lev(a@.subrange(0, i - 1), b@.subrange(0, t)),
                cur@.len() == jj,
                forall|t: int|
                    0 <= t < jj ==> cur@[t] == lev(a@.subrange(0, i as int), b@.subrange(0, t)),
            decreases lb + 1 - jj,
        {
            let ghost pa = a@.subrange(0, i as int);
            let ghost pa1 = a@.subrange(0, i - 1);
            let ghost pb = b@.subrange(0, jj as int);
            let ghost pb1 = b@.subrange(0, jj - 1);
            let cost: usize = if a.get_char(i - 1) == b.get_char(jj - 1) {
                0
            } else {
                1
            };
            proof {
                lemma_lev_bound(pa1, pb);
                lemma_lev_bound(pa, pb1);
                lemma_lev_bound(pa1, pb1);
                assert(pa.drop_last() =~= pa1);
                assert(pb.drop_last() =~= pb1);
                assert(pa.last() == a@[i - 1]);
                assert(pb.last() == b@[jj - 1]);
            }
            let del = prev[jj] + 1;
            let ins = cur[jj - 1] + 1;
            let sub = prev[jj - 1] + cost;
            let mut m = if del <= ins {
                del
            } else {
                ins
            };
            if sub < m {
                m = sub;
            }
            cur.push(m);
            jj = jj + 1;
        }
        prev = cur;
        i = i + 1;
    }
    proof {
        assert(a@.subrange(0, la as int) =~= a@);
        assert(b@.subrange(0, lb as int) =~= b@);
    }
    prev[lb]
}

} // verus!
