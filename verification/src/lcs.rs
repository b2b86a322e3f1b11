//! Longest common subsequence of two strings, by dynamic programming over
//! their UTF-8 bytes.

use vstd::prelude::*;
use vstd::utf8::encode_utf8;

verus! {

/// Length of the longest common subsequence of `a` and `b`.
pub open spec fn lcs_len(a: Seq<u8>, b: Seq<u8>) -> int
    decreases a.len() + b.len(),
{
    if a.len() == 0 || b.len() == 0 {
        0
    } else if a.last() == b.last() {
        1 + lcs_len(a.drop_last(), b.drop_last())
    } else {
        let x = lcs_len(a.drop_last(), b);
        let y = lcs_len(a, b.drop_last());
        if x >= y {
            x
        } else {
            y
        }
    }
}

/// A common subsequence is never longer than either string.
proof fn lemma_lcs_len_bounds(a: Seq<u8>, b: Seq<u8>)
    ensures
        0 <= lcs_len(a, b),
        lcs_len(a, b) <= a.len(),
        lcs_len(a, b) <= b.len(),
    decreases a.len() + b.len(),
{
    if a.len() != 0 && b.len() != 0 {
        if a.last() == b.last() {
            lemma_lcs_len_bounds(a.drop_last(), b.drop_last());
        } else {
            lemma_lcs_len_bounds(a.drop_last(), b);
            lemma_lcs_len_bounds(a, b.drop_last());
        }
    }
}

/// The length of the longest common subsequence of the two texts, compared
/// byte by byte, computed bottom-up over a table of prefix answers.
pub fn longest_common_subsequence(text1: String, text2: String) -> (r: i32)
    requires
        encode_utf8(text1@).len() <= i32::MAX as int,
        encode_utf8(text2@).len() <= i32::MAX as int,
    ensures
        r == lcs_len(encode_utf8(text1@), encode_utf8(text2@)),
{
    let s1 = text1.as_str().as_bytes();
    let s2 = text2.as_str().as_bytes();
    let ghost a = s1@;
    let ghost b = s2@;

    let n1 = s1.len();
    let n2 = s2.len();

    let mut dp: Vec<Vec<i32>> = vec![vec![0; n2 + 1]; n1 + 1];

    proof {
        assert forall|jj: int| 0 <= jj <= n2 implies lcs_len(a.take(0), b.take(jj)) == 0 by {
            assert(a.take(0).len() == 0);
        }
    }
    let mut i: usize = 1;
    while i <= n1
        invariant
            a == s1@ && b == s2@,
            n1 == a.len() && n2 == b.len(),
            n1 <= i32::MAX as int && n2 <= i32::MAX as int,
            1 <= i <= n1 + 1,
            dp@.len() == n1 + 1,
            forall|ii: int| 0 <= ii <= n1 ==> (#[trigger] dp@[ii])@.len() == n2 + 1,
            forall|ii: int, jj: int|
                0 <= ii < i && 0 <= jj <= n2 ==> #[trigger] dp@[ii]@[jj] == lcs_len(
                    a.take(ii),
                    b.take(jj),
                ),
            forall|ii: int| 0 <= ii <= n1 ==> #[trigger] dp@[ii]@[0] == 0,
        decreases n1 + 1 - i,
    {
        let mut j: usize = 1;
        while j <= n2
            invariant
                a == s1@ && b == s2@,
                n1 == a.len() && n2 == b.len(),
                n1 <= i32::MAX as int && n2 <= i32::MAX as int,
                1 <= i <= n1,
                1 <= j <= n2 + 1,
                dp@.len() == n1 + 1,
                forall|ii: int| 0 <= ii <= n1 ==> (#[trigger] dp@[ii])@.len() == n2 + 1,
                forall|ii: int, jj: int|
                    0 <= ii < i && 0 <= jj <= n2 ==> #[trigger] dp@[ii]@[jj] == lcs_len(
                        a.take(ii),
                        b.take(jj),
                    ),
                forall|jj: int|
                    0 <= jj < j ==> #[trigger] dp@[i as int]@[jj] == lcs_len(
                        a.take(i as int),
                        b.take(jj),
                    ),
                forall|ii: int| 0 <= ii <= n1 ==> #[trigger] dp@[ii]@[0] == 0,
            decreases n2 + 1 - j,
        {
            proof {
                assert(a.take(i as int).last() == a[i - 1]);
                assert(b.take(j as int).last() == b[j - 1]);
                assert(a.take(i as int).drop_last() =~= a.take(i - 1));
                assert(b.take(j as int).drop_last() =~= b.take(j - 1));
                lemma_lcs_len_bounds(a.take(i - 1), b.take(j - 1));
                lemma_lcs_len_bounds(a.take(i - 1), b.take(j as int));
                lemma_lcs_len_bounds(a.take(i as int), b.take(j - 1));
            }
            let v: i32 = if s1[i - 1] == s2[j - 1] {
                dp[i - 1][j - 1] + 1
            } else {
                let up = dp[i - 1][j];
                let left = dp[i][j - 1];
                if up >= left {
                    up
                } else {
                    left
                }
            };
            let row = &mut dp[i];
            row.set(j, v);
            j = j + 1;
        }
        i = i + 1;
    }
    proof {
        assert(a.take(n1 as int) =~= a);
        assert(b.take(n2 as int) =~= b);
    }
    dp[n1][n2]
}

} // verus!
