//! Phonetic comparison engine: normalized Levenshtein similarity,
//! feature-weighted edit distance, DTW alignment with backtrace, and the
//! longest-common-subsequence ratio, all over grapheme-segmented
//! transcriptions.

use vstd::prelude::*;
use unicode_segmentation::UnicodeSegmentation;
use rayon::iter::IntoParallelRefIterator;
use rayon::iter::ParallelIterator;
use crate::types::{Alignment, EditOp, IPASegment, Ratio, feature_diff_count, lemma_feature_diff_count_le, pair_views, string_views, substitution_pairs};

verus! {

/// The extended grapheme clusters of a string, as sequences of characters.
pub uninterp spec fn graphemes_of(s: Seq<char>) -> Seq<Seq<char>>;

/// Relies on unicode_segmentation's `graphemes(_, true)`: it splits a string
/// into extended grapheme clusters, a function of the characters alone. The
/// clusters partition the string, so a non-empty string has at least one
/// cluster and never more clusters than characters.
#[verifier::external_body]
fn graphemes(s: &str) -> (r: Vec<String>)
    ensures
        string_views(r@) == graphemes_of(s@),
        r@.len() <= s@.len(),
        s@.len() > 0 ==> r@.len() > 0,
{
    UnicodeSegmentation::graphemes(s, true).map(|g| g.to_string()).collect()
}

/// Minimum of three naturals.
pub open spec fn min3(a: nat, b: nat, c: nat) -> nat {
    if a <= b && a <= c {
        a
    } else if b <= c {
        b
    } else {
        c
    }
}

/// Maximum of two naturals.
pub open spec fn max_nat(a: nat, b: nat) -> nat {
    if a >= b {
        a
    } else {
        b
    }
}

/// Levenshtein edit distance between two segment sequences, with unit
/// substitution, insertion and deletion costs.
pub open spec fn lev(a: Seq<Seq<char>>, b: Seq<Seq<char>>) -> nat
    decreases a.len() + b.len(),
{
    if a.len() == 0 {
        b.len()
    } else if b.len() == 0 {
        a.len()
    } else {
        let sub = lev(a.drop_last(), b.drop_last()) + if a.last() == b.last() {
            0nat
        } else {
            1nat
        };
        min3(lev(a.drop_last(), b) + 1, lev(a, b.drop_last()) + 1, sub)
    }
}

/// The edit distance never exceeds the longer length.
pub proof fn lemma_lev_le_max(a: Seq<Seq<char>>, b: Seq<Seq<char>>)
    ensures
        lev(a, b) <= max_nat(a.len(), b.len()),
    decreases a.len() + b.len(),
{
    if a.len() > 0 && b.len() > 0 {
        lemma_lev_le_max(a.drop_last(), b.drop_last());
    }
}

/// A sequence is at distance zero from itself.
pub proof fn lemma_lev_self(a: Seq<Seq<char>>)
    ensures
        lev(a, a) == 0,
    decreases a.len(),
{
    if a.len() > 0 {
        lemma_lev_self(a.drop_last());
    }
}

/// The edit distance is symmetric in its arguments.
pub proof fn lemma_lev_symmetric(a: Seq<Seq<char>>, b: Seq<Seq<char>>)
    ensures
        lev(a, b) == lev(b, a),
    decreases a.len() + b.len(),
{
    if a.len() > 0 && b.len() > 0 {
        lemma_lev_symmetric(a.drop_last(), b);
        lemma_lev_symmetric(a, b.drop_last());
        lemma_lev_symmetric(a.drop_last(), b.drop_last());
    }
}

proof fn lemma_lev_step(a: Seq<Seq<char>>, b: Seq<Seq<char>>, i: int, j: int)
    requires
        1 <= i <= a.len(),
        1 <= j <= b.len(),
    ensures
        lev(a.take(i), b.take(j)) == min3(
            lev(a.take(i - 1), b.take(j)) + 1,
            lev(a.take(i), b.take(j - 1)) + 1,
            lev(a.take(i - 1), b.take(j - 1)) + if a[i - 1] == b[j - 1] {
                0nat
            } else {
                1nat
            },
        ),
{
    let ai = a.take(i);
    let bj = b.take(j);
    assert(ai.drop_last() =~= a.take(i - 1));
    assert(bj.drop_last() =~= b.take(j - 1));
    assert(ai.last() == a[i - 1]);
    assert(bj.last() == b[j - 1]);
}

/// Classical two-row dynamic program for the edit distance.
fn levenshtein(a: &Vec<String>, b: &Vec<String>) -> (d: usize)
    requires
        a@.len() + b@.len() < usize::MAX,
    ensures
        d == lev(string_views(a@), string_views(b@)),
{
    let ghost va = string_views(a@);
    let ghost vb = string_views(b@);
    let len_a = a.len();
    let len_b = b.len();
    proof {
        assert(va.len() == len_a && vb.len() == len_b);
        assert(va.take(len_a as int) =~= va);
        assert(vb.take(len_b as int) =~= vb);
    }
    if len_a == 0 {
        proof {
            assert(va =~= Seq::<Seq<char>>::empty());
        }
        return len_b;
    }
    if len_b == 0 {
        proof {
            assert(vb =~= Seq::<Seq<char>>::empty());
        }
        return len_a;
    }

    let mut prev_row: Vec<usize> = Vec::new();
    let mut j: usize = 0;
    while j <= len_b
        invariant
            j <= len_b + 1,
            len_b == vb.len(),
            len_a + len_b < usize::MAX,
            prev_row@.len() == j,
            forall|k: int| 0 <= k < j ==> prev_row@[k] == k,
        decreases len_b + 1 - j,
    {
        prev_row.push(j);
        j = j + 1;
    }
    let mut curr_row: Vec<usize> = Vec::new();
    let mut j: usize = 0;
    while j <= len_b
        invariant
            j <= len_b + 1,
            len_b < usize::MAX,
            curr_row@.len() == j,
        decreases len_b + 1 - j,
    {
        curr_row.push(0);
        j = j + 1;
    }

    proof {
        assert forall|k: int| 0 <= k <= len_b implies lev(va.take(0), vb.take(k)) == k by {
            assert(va.take(0) =~= Seq::<Seq<char>>::empty());
            assert(vb.take(k).len() == k);
        }
    }

    let mut i: usize = 0;
    while i < len_a
        invariant
            i <= len_a,
            len_a == va.len(),
            len_b == vb.len(),
            len_b >= 1,
            len_a + len_b < usize::MAX,
            va == string_views(a@),
            vb == string_views(b@),
            a@.len() == len_a,
            b@.len() == len_b,
            prev_row@.len() == len_b + 1,
            curr_row@.len() == len_b + 1,
            forall|k: int| 0 <= k <= len_b ==> prev_row@[k] == lev(va.take(i as int), vb.take(k)),
        decreases len_a - i,
    {
        curr_row.set(0, i + 1);
        proof {
            assert(va.take(i + 1).len() == i + 1);
            assert(vb.take(0) =~= Seq::<Seq<char>>::empty());
            assert(lev(va.take(i + 1), vb.take(0)) == i + 1);
        }
        let mut j: usize = 0;
        while j < len_b
            invariant
                j <= len_b,
                i < len_a,
                len_a == va.len(),
                len_b == vb.len(),
                len_a + len_b < usize::MAX,
                va == string_views(a@),
                vb == string_views(b@),
                a@.len() == len_a,
                b@.len() == len_b,
                prev_row@.len() == len_b + 1,
                curr_row@.len() == len_b + 1,
                forall|k: int| 0 <= k <= len_b ==> prev_row@[k] == lev(va.take(i as int), vb.take(k)),
                forall|k: int| 0 <= k <= j ==> curr_row@[k] == lev(va.take(i + 1), vb.take(k)),
            decreases len_b - j,
        {
            proof {
                lemma_lev_le_max(va.take(i + 1), vb.take(j as int));
                lemma_lev_le_max(va.take(i as int), vb.take(j + 1));
                lemma_lev_le_max(va.take(i as int), vb.take(j as int));
                lemma_lev_step(va, vb, i + 1, j + 1);
                assert(va[i as int] == a@[i as int]@);
                assert(vb[j as int] == b@[j as int]@);
            }
            let cost: usize = if a[i] == b[j] {
                0
            } else {
                1
            };
            let c1 = curr_row[j] + 1;
            let c2 = prev_row[j + 1] + 1;
            let c3 = prev_row[j] + cost;
            let m = if c1 <= c2 && c1 <= c3 {
                c1
            } else if c2 <= c3 {
                c2
            } else {
                c3
            };
            curr_row.set(j + 1, m);
            j = j + 1;
        }
        let tmp = prev_row;
        prev_row = curr_row;
        curr_row = tmp;
        i = i + 1;
    }
    prev_row[len_b]
}

/// The normalized Levenshtein similarity of two transcriptions as an exact
/// ratio: `(m - d) / m` where `m` is the larger grapheme count and `d` the
/// edit distance, and one when both are empty.
pub open spec fn sim_ratio(a: Seq<char>, b: Seq<char>) -> Ratio {
    let ga = graphemes_of(a);
    let gb = graphemes_of(b);
    let m = max_nat(ga.len(), gb.len());
    if m == 0 {
        Ratio { num: 1, den: 1 }
    } else {
        Ratio { num: (m - lev(ga, gb)) as u64, den: m as u64 }
    }
}

/// The similarity is symmetric in its two arguments.
pub proof fn lemma_sim_ratio_symmetric(a: Seq<char>, b: Seq<char>)
    ensures
        sim_ratio(a, b) == sim_ratio(b, a),
{
    lemma_lev_symmetric(graphemes_of(a), graphemes_of(b));
}

/// Normalized Levenshtein similarity between two transcriptions, as the
/// exact ratio `(m - d) / m` where `m` is the larger grapheme count and `d`
/// the edit distance; two empty strings are perfectly similar.
pub fn phonetic_distance(ipa_a: &str, ipa_b: &str) -> (sim: Ratio)
    requires
        ipa_a@.len() + ipa_b@.len() < usize::MAX,
    ensures
        sim == sim_ratio(ipa_a@, ipa_b@),
        sim.num <= sim.den,
        sim.den >= 1,
        ipa_a@ == ipa_b@ ==> sim.num == sim.den,
{
    let seg_a = graphemes(ipa_a);
    let seg_b = graphemes(ipa_b);
    let ghost ga = graphemes_of(ipa_a@);
    let ghost gb = graphemes_of(ipa_b@);
    let len_a = seg_a.len();
    let len_b = seg_b.len();
    proof {
        assert(ga.len() == len_a && gb.len() == len_b);
        if ipa_a@ == ipa_b@ {
            lemma_lev_self(ga);
        }
    }
    let max_len = if len_a >= len_b {
        len_a
    } else {
        len_b
    };
    if max_len == 0 {
        Ratio::one()
    } else {
        let distance = levenshtein(&seg_a, &seg_b);
        proof {
            lemma_lev_le_max(ga, gb);
        }
        Ratio::new((max_len - distance) as u64, max_len as u64)
    }
}

/// Relies on rayon's parallel map over a vector and collect into a vector:
/// one result per input pair, in input order, each computed by this crate's
/// `phonetic_distance`.
#[verifier::external_body]
pub fn batch_phonetic_distance(pairs: Vec<(String, String)>) -> (r: Vec<Ratio>)
    requires
        forall|i: int|
            0 <= i < pairs@.len() ==> pairs@[i].0@.len() + pairs@[i].1@.len() < usize::MAX,
    ensures
        r@.len() == pairs@.len(),
        forall|i: int|
            0 <= i < pairs@.len() ==> r@[i] == sim_ratio(pairs@[i].0@, pairs@[i].1@),
{
    pairs.par_iter().map(|p| phonetic_distance(&p.0, &p.1)).collect()
}

/// Longest common subsequence length of two segment sequences.
pub open spec fn lcs(a: Seq<Seq<char>>, b: Seq<Seq<char>>) -> nat
    decreases a.len() + b.len(),
{
    if a.len() == 0 || b.len() == 0 {
        0
    } else if a.last() == b.last() {
        lcs(a.drop_last(), b.drop_last()) + 1
    } else {
        max_nat(lcs(a.drop_last(), b), lcs(a, b.drop_last()))
    }
}

/// The common subsequence is never longer than either sequence.
pub proof fn lemma_lcs_le(a: Seq<Seq<char>>, b: Seq<Seq<char>>)
    ensures
        lcs(a, b) <= a.len(),
        lcs(a, b) <= b.len(),
    decreases a.len() + b.len(),
{
    if a.len() > 0 && b.len() > 0 {
        lemma_lcs_le(a.drop_last(), b.drop_last());
        lemma_lcs_le(a.drop_last(), b);
        lemma_lcs_le(a, b.drop_last());
    }
}

/// The longest common subsequence is symmetric in its arguments.
pub proof fn lemma_lcs_symmetric(a: Seq<Seq<char>>, b: Seq<Seq<char>>)
    ensures
        lcs(a, b) == lcs(b, a),
    decreases a.len() + b.len(),
{
    if a.len() > 0 && b.len() > 0 {
        lemma_lcs_symmetric(a.drop_last(), b);
        lemma_lcs_symmetric(a, b.drop_last());
        lemma_lcs_symmetric(a.drop_last(), b.drop_last());
    }
}

proof fn lemma_lcs_step(a: Seq<Seq<char>>, b: Seq<Seq<char>>, i: int, j: int)
    requires
        1 <= i <= a.len(),
        1 <= j <= b.len(),
    ensures
        lcs(a.take(i), b.take(j)) == if a[i - 1] == b[j - 1] {
            lcs(a.take(i - 1), b.take(j - 1)) + 1
        } else {
            max_nat(lcs(a.take(i - 1), b.take(j)), lcs(a.take(i), b.take(j - 1)))
        },
{
    let ai = a.take(i);
    let bj = b.take(j);
    assert(ai.drop_last() =~= a.take(i - 1));
    assert(bj.drop_last() =~= b.take(j - 1));
    assert(ai.last() == a[i - 1]);
    assert(bj.last() == b[j - 1]);
}

/// Two-row dynamic program for the longest-common-subsequence length.
fn lcs_length(a: &Vec<String>, b: &Vec<String>) -> (l: usize)
    ensures
        l == lcs(string_views(a@), string_views(b@)),
{
    let ghost va = string_views(a@);
    let ghost vb = string_views(b@);
    let len_a = a.len();
    let len_b = b.len();
    proof {
        assert(va.len() == len_a && vb.len() == len_b);
        assert(va.take(len_a as int) =~= va);
        assert(vb.take(len_b as int) =~= vb);
        assert forall|k: int| 0 <= k <= len_b implies lcs(va.take(0), vb.take(k)) == 0 by {
            assert(va.take(0).len() == 0);
        }
    }

    let mut prev_row: Vec<usize> = Vec::new();
    let mut j: usize = 0;
    while j < len_b
        invariant
            j <= len_b,
            prev_row@.len() == j,
            forall|k: int| 0 <= k < j ==> prev_row@[k] == 0,
        decreases len_b - j,
    {
        prev_row.push(0);
        j = j + 1;
    }
    prev_row.push(0);
    let mut curr_row: Vec<usize> = Vec::new();
    let mut j: usize = 0;
    while j < len_b
        invariant
            j <= len_b,
            curr_row@.len() == j,
        decreases len_b - j,
    {
        curr_row.push(0);
        j = j + 1;
    }
    curr_row.push(0);

    let mut i: usize = 0;
    while i < len_a
        invariant
            i <= len_a,
            len_a == va.len(),
            len_b == vb.len(),
            va == string_views(a@),
            vb == string_views(b@),
            a@.len() == len_a,
            b@.len() == len_b,
            prev_row@.len() == len_b + 1,
            curr_row@.len() == len_b + 1,
            forall|k: int| 0 <= k <= len_b ==> prev_row@[k] == lcs(va.take(i as int), vb.take(k)),
        decreases len_a - i,
    {
        curr_row.set(0, 0);
        proof {
            assert(vb.take(0).len() == 0);
        }
        let mut j: usize = 0;
        while j < len_b
            invariant
                j <= len_b,
                i < len_a,
                len_a == va.len(),
                len_b == vb.len(),
                va == string_views(a@),
                vb == string_views(b@),
                a@.len() == len_a,
                b@.len() == len_b,
                prev_row@.len() == len_b + 1,
                curr_row@.len() == len_b + 1,
                forall|k: int| 0 <= k <= len_b ==> prev_row@[k] == lcs(va.take(i as int), vb.take(k)),
                forall|k: int| 0 <= k <= j ==> curr_row@[k] == lcs(va.take(i + 1), vb.take(k)),
            decreases len_b - j,
        {
            proof {
                lemma_lcs_step(va, vb, i + 1, j + 1);
                lemma_lcs_le(va.take(i as int), vb.take(j as int));
                lemma_lcs_le(va.take(i as int), vb.take(j + 1));
                lemma_lcs_le(va.take(i + 1), vb.take(j as int));
                assert(va[i as int] == a@[i as int]@);
                assert(vb[j as int] == b@[j as int]@);
                assert(va.take(i as int).len() == i);
            }
            let v: usize = if a[i] == b[j] {
                prev_row[j] + 1
            } else {
                let up = prev_row[j + 1];
                let left = curr_row[j];
                if up >= left {
                    up
                } else {
                    left
                }
            };
            curr_row.set(j + 1, v);
            j = j + 1;
        }
        let tmp = prev_row;
        prev_row = curr_row;
        curr_row = tmp;
        i = i + 1;
    }
    prev_row[len_b]
}

/// The LCS similarity of two transcriptions as an exact ratio:
/// `lcs / m` where `m` is the larger grapheme count, and one when both are
/// empty.
pub open spec fn lcs_ratio_of(a: Seq<char>, b: Seq<char>) -> Ratio {
    let ga = graphemes_of(a);
    let gb = graphemes_of(b);
    let m = max_nat(ga.len(), gb.len());
    if m == 0 {
        Ratio { num: 1, den: 1 }
    } else {
        Ratio { num: lcs(ga, gb) as u64, den: m as u64 }
    }
}

/// Longest-common-subsequence ratio of two transcriptions.
pub fn lcs_ratio(ipa_a: &str, ipa_b: &str) -> (r: Ratio)
    ensures
        r == lcs_ratio_of(ipa_a@, ipa_b@),
        r.num <= r.den,
        r.den >= 1,
{
    let seg_a = graphemes(ipa_a);
    let seg_b = graphemes(ipa_b);
    let ghost ga = graphemes_of(ipa_a@);
    let ghost gb = graphemes_of(ipa_b@);
    let len_a = seg_a.len();
    let len_b = seg_b.len();
    let max_len = if len_a >= len_b {
        len_a
    } else {
        len_b
    };
    if max_len == 0 {
        Ratio::one()
    } else {
        let l = lcs_length(&seg_a, &seg_b);
        proof {
            lemma_lcs_le(ga, gb);
        }
        Ratio::new(l as u64, max_len as u64)
    }
}

/// Full pairwise similarity matrix: symmetric, with an all-ones diagonal.
pub fn compute_similarity_matrix(ipa_strings: &Vec<String>) -> (m: Vec<Vec<Ratio>>)
    requires
        forall|i: int| 0 <= i < ipa_strings@.len() ==> ipa_strings@[i]@.len() < usize::MAX / 2,
    ensures
        m@.len() == ipa_strings@.len(),
        forall|i: int| 0 <= i < m@.len() ==> #[trigger] m@[i]@.len() == ipa_strings@.len(),
        forall|i: int| 0 <= i < m@.len() ==> #[trigger] m@[i]@[i].is_one(),
        forall|i: int, j: int|
            0 <= i < m@.len() && 0 <= j < m@.len() && i != j ==> #[trigger] m@[i]@[j]
                == sim_ratio(ipa_strings@[i]@, ipa_strings@[j]@),
        forall|i: int, j: int|
            0 <= i < m@.len() && 0 <= j < m@.len() ==> #[trigger] m@[i]@[j] == #[trigger] m@[j]@[i],
{
    let n = ipa_strings.len();
    let mut m: Vec<Vec<Ratio>> = Vec::new();
    let mut i: usize = 0;
    while i < n
        invariant
            i <= n,
            n == ipa_strings@.len(),
            forall|k: int| 0 <= k < n ==> ipa_strings@[k]@.len() < usize::MAX / 2,
            m@.len() == i,
            forall|a: int| 0 <= a < i ==> #[trigger] m@[a]@.len() == n,
            forall|a: int| 0 <= a < i ==> #[trigger] m@[a]@[a].is_one(),
            forall|a: int, b: int|
                0 <= a < i && 0 <= b < n && a != b ==> #[trigger] m@[a]@[b]
                    == sim_ratio(ipa_strings@[a]@, ipa_strings@[b]@),
        decreases n - i,
    {
        let mut row_pairs: Vec<(String, String)> = Vec::new();
        let mut j: usize = 0;
        while j < n
            invariant
                j <= n,
                i < n,
                n == ipa_strings@.len(),
                forall|k: int| 0 <= k < n ==> ipa_strings@[k]@.len() < usize::MAX / 2,
                row_pairs@.len() == j,
                forall|b: int|
                    0 <= b < j ==> #[trigger] row_pairs@[b].0 == ipa_strings@[i as int]
                        && row_pairs@[b].1 == ipa_strings@[b],
            decreases n - j,
        {
            row_pairs.push((ipa_strings[i].clone(), ipa_strings[j].clone()));
            j = j + 1;
        }
        let sims = batch_phonetic_distance(row_pairs);
        let mut row: Vec<Ratio> = Vec::new();
        let mut j: usize = 0;
        while j < n
            invariant
                j <= n,
                i < n,
                n == ipa_strings@.len(),
                sims@.len() == n,
                forall|b: int|
                    0 <= b < n ==> #[trigger] sims@[b]
                        == sim_ratio(ipa_strings@[i as int]@, ipa_strings@[b]@),
                row@.len() == j,
                forall|b: int| 0 <= b < j && b != i ==> #[trigger] row@[b]
                    == sim_ratio(ipa_strings@[i as int]@, ipa_strings@[b]@),
                i < j ==> row@[i as int].is_one(),
            decreases n - j,
        {
            if j == i {
                row.push(Ratio::one());
            } else {
                row.push(sims[j]);
            }
            j = j + 1;
        }
        m.push(row);
        i = i + 1;
    }
    proof {
        assert forall|a: int, b: int|
            0 <= a < m@.len() && 0 <= b < m@.len() implies #[trigger] m@[a]@[b] == m@[b]@[a] by {
            if a != b {
                lemma_sim_ratio_symmetric(ipa_strings@[a]@, ipa_strings@[b]@);
            }
        }
    }
    m
}

/// Dynamic-time-warping cost of two non-empty segment sequences: the local
/// cost is zero for equal segments and one otherwise, and every path enters
/// through the corner, so the first row and column of the table are
/// unreachable.
pub open spec fn dtw(a: Seq<Seq<char>>, b: Seq<Seq<char>>) -> nat
    recommends
        a.len() >= 1,
        b.len() >= 1,
    decreases a.len() + b.len(),
{
    let c: nat = if a.last() == b.last() {
        0
    } else {
        1
    };
    if a.len() <= 1 && b.len() <= 1 {
        c
    } else if b.len() <= 1 {
        c + dtw(a.drop_last(), b)
    } else if a.len() <= 1 {
        c + dtw(a, b.drop_last())
    } else {
        c + min3(dtw(a.drop_last(), b), dtw(a, b.drop_last()), dtw(a.drop_last(), b.drop_last()))
    }
}

/// The warping cost never exceeds the longer length.
pub proof fn lemma_dtw_le_max(a: Seq<Seq<char>>, b: Seq<Seq<char>>)
    requires
        a.len() >= 1,
        b.len() >= 1,
    ensures
        dtw(a, b) <= max_nat(a.len(), b.len()),
    decreases a.len() + b.len(),
{
    if a.len() == 1 && b.len() == 1 {
    } else if b.len() == 1 {
        lemma_dtw_le_max(a.drop_last(), b);
    } else if a.len() == 1 {
        lemma_dtw_le_max(a, b.drop_last());
    } else {
        lemma_dtw_le_max(a.drop_last(), b.drop_last());
    }
}

proof fn lemma_dtw_step(a: Seq<Seq<char>>, b: Seq<Seq<char>>, i: int, j: int)
    requires
        1 <= i <= a.len(),
        1 <= j <= b.len(),
    ensures
        dtw(a.take(i), b.take(j)) == ({
            let c: nat = if a[i - 1] == b[j - 1] {
                0
            } else {
                1
            };
            if i == 1 && j == 1 {
                c
            } else if j == 1 {
                c + dtw(a.take(i - 1), b.take(1))
            } else if i == 1 {
                c + dtw(a.take(1), b.take(j - 1))
            } else {
                c + min3(
                    dtw(a.take(i - 1), b.take(j)),
                    dtw(a.take(i), b.take(j - 1)),
                    dtw(a.take(i - 1), b.take(j - 1)),
                )
            }
        }),
{
    let ai = a.take(i);
    let bj = b.take(j);
    assert(ai.drop_last() =~= a.take(i - 1));
    assert(bj.drop_last() =~= b.take(j - 1));
    assert(ai.last() == a[i - 1]);
    assert(bj.last() == b[j - 1]);
    if j == 1 {
        assert(bj =~= b.take(1));
    }
    if i == 1 {
        assert(ai =~= a.take(1));
    }
}

/// The table entry at `(i, j)`: the warping cost of the two prefixes, with
/// the unreachable first row and column held at the sentinel
/// `a.len() + b.len() + 1`, which exceeds every true cost.
pub open spec fn dtw_cell(a: Seq<Seq<char>>, b: Seq<Seq<char>>, i: int, j: int) -> int {
    if i == 0 && j == 0 {
        0
    } else if i == 0 || j == 0 {
        a.len() + b.len() + 1int
    } else {
        dtw(a.take(i), b.take(j)) as int
    }
}


/// Number of operations before `t` that consume a segment of the first
/// sequence (everything but an insertion).
pub open spec fn a_used(ops: Seq<EditOp>, t: int) -> int
    decreases t,
{
    if t <= 0 {
        0
    } else {
        a_used(ops, t - 1) + if 0 <= t - 1 < ops.len() && ops[t - 1] != EditOp::Insert {
            1int
        } else {
            0int
        }
    }
}

/// Number of operations before `t` that consume a segment of the second
/// sequence (everything but a deletion).
pub open spec fn b_used(ops: Seq<EditOp>, t: int) -> int
    decreases t,
{
    if t <= 0 {
        0
    } else {
        b_used(ops, t - 1) + if 0 <= t - 1 < ops.len() && ops[t - 1] != EditOp::Delete {
            1int
        } else {
            0int
        }
    }
}

proof fn lemma_a_used_rev(b: Seq<EditOp>, f: Seq<EditOp>, t: int)
    requires
        f.len() == b.len(),
        forall|k: int| 0 <= k < f.len() ==> f[k] == b[f.len() - 1 - k],
        0 <= t <= f.len(),
    ensures
        a_used(f, t) == a_used(b, b.len() as int) - a_used(b, b.len() - t),
        b_used(f, t) == b_used(b, b.len() as int) - b_used(b, b.len() - t),
    decreases t,
{
    if t > 0 {
        lemma_a_used_rev(b, f, t - 1);
        lemma_a_used_step(b, b.len() - t);
    }
}

proof fn lemma_a_used_step(ops: Seq<EditOp>, t: int)
    requires
        0 <= t < ops.len(),
    ensures
        a_used(ops, t + 1) == a_used(ops, t) + if ops[t] != EditOp::Insert {
            1int
        } else {
            0int
        },
        b_used(ops, t + 1) == b_used(ops, t) + if ops[t] != EditOp::Delete {
            1int
        } else {
            0int
        },
{
}

proof fn lemma_a_used_push(ops: Seq<EditOp>, e: EditOp, t: int)
    requires
        0 <= t <= ops.len(),
    ensures
        a_used(ops.push(e), t) == a_used(ops, t),
        b_used(ops.push(e), t) == b_used(ops, t),
    decreases t,
{
    if t > 0 {
        lemma_a_used_push(ops, e, t - 1);
        assert(ops.push(e)[t - 1] == ops[t - 1]);
    }
}

proof fn lemma_a_used_bounds(ops: Seq<EditOp>, t: int)
    ensures
        0 <= a_used(ops, t) <= (if t >= 0 { t } else { 0 }),
        0 <= b_used(ops, t) <= (if t >= 0 { t } else { 0 }),
    decreases t,
{
    if t > 0 {
        lemma_a_used_bounds(ops, t - 1);
    }
}

/// The input vector reversed.
fn reversed<T>(v: Vec<T>) -> (r: Vec<T>)
    ensures
        r@.len() == v@.len(),
        forall|k: int| 0 <= k < r@.len() ==> r@[k] == v@[v@.len() - 1 - k],
{
    let ghost v0 = v@;
    let mut rest = v;
    let mut r: Vec<T> = Vec::new();
    while rest.len() > 0
        invariant
            r@.len() + rest@.len() == v0.len(),
            rest@ == v0.take(rest@.len() as int),
            forall|k: int| 0 <= k < r@.len() ==> r@[k] == v0[v0.len() - 1 - k],
        decreases rest.len(),
    {
        proof {
            assert(rest@.last() == v0[rest@.len() - 1]);
            assert(rest@.drop_last() =~= v0.take((rest@.len() - 1) as int));
        }
        let x = rest.pop().unwrap();
        r.push(x);
    }
    r
}

/// Dynamic-time-warping alignment with backtrace.
///
/// The two returned sequences are gap-padded to the same length, with one
/// edit operation per position; the cost is the exact warping cost, at most
/// the larger grapheme count, and zero when either input is empty.
pub fn dtw_align(ipa_a: &str, ipa_b: &str) -> (al: Alignment)
    requires
        ipa_a@.len() + ipa_b@.len() + 1 < usize::MAX,
    ensures
        al.sequence_a@.len() == al.operations@.len(),
        al.sequence_b@.len() == al.operations@.len(),
        ({
            let ga = graphemes_of(ipa_a@);
            let gb = graphemes_of(ipa_b@);
            if ga.len() == 0 || gb.len() == 0 {
                al.cost == 0 && al.operations@.len() == 0
            } else {
                al.cost == dtw(ga, gb)
            }
        }),
        al.cost <= max_nat(graphemes_of(ipa_a@).len(), graphemes_of(ipa_b@).len()),
        graphemes_of(ipa_a@).len() > 0 && graphemes_of(ipa_b@).len() > 0 ==> a_used(
            al.operations@,
            al.operations@.len() as int,
        ) == graphemes_of(ipa_a@).len() && b_used(al.operations@, al.operations@.len() as int)
            == graphemes_of(ipa_b@).len(),
        forall|k: int|
            0 <= k < al.operations@.len() ==> match #[trigger] al.operations@[k] {
                EditOp::Insert => al.sequence_a@[k]@ == "-"@ && al.sequence_b@[k]@ == graphemes_of(
                    ipa_b@,
                )[b_used(al.operations@, k)],
                EditOp::Delete => al.sequence_b@[k]@ == "-"@ && al.sequence_a@[k]@ == graphemes_of(
                    ipa_a@,
                )[a_used(al.operations@, k)],
                EditOp::Match => al.sequence_a@[k]@ == graphemes_of(ipa_a@)[a_used(
                    al.operations@,
                    k,
                )] && al.sequence_b@[k]@ == graphemes_of(ipa_b@)[b_used(al.operations@, k)]
                    && al.sequence_a@[k]@ == al.sequence_b@[k]@,
                EditOp::Substitute => al.sequence_a@[k]@ == graphemes_of(ipa_a@)[a_used(
                    al.operations@,
                    k,
                )] && al.sequence_b@[k]@ == graphemes_of(ipa_b@)[b_used(al.operations@, k)]
                    && al.sequence_a@[k]@ != al.sequence_b@[k]@,
            },
{
    let seg_a = graphemes(ipa_a);
    let seg_b = graphemes(ipa_b);
    let ghost ga = graphemes_of(ipa_a@);
    let ghost gb = graphemes_of(ipa_b@);
    let len_a = seg_a.len();
    let len_b = seg_b.len();
    proof {
        assert(ga.len() == len_a && gb.len() == len_b);
    }
    if len_a == 0 || len_b == 0 {
        return Alignment::new(Vec::new(), Vec::new(), Vec::new(), 0);
    }
    let inf: u64 = len_a as u64 + len_b as u64 + 1;

    let mut table: Vec<Vec<u64>> = Vec::new();
    let mut row0: Vec<u64> = Vec::new();
    row0.push(0);
    let mut j: usize = 1;
    while j <= len_b
        invariant
            1 <= j <= len_b + 1,
            len_b < usize::MAX,
            len_a == ga.len(),
            len_b == gb.len(),
            inf == len_a + len_b + 1,
            row0@.len() == j,
            forall|q: int| 0 <= q < j ==> row0@[q] == dtw_cell(ga, gb, 0, q),
        decreases len_b + 1 - j,
    {
        row0.push(inf);
        j = j + 1;
    }
    table.push(row0);

    let mut i: usize = 1;
    while i <= len_a
        invariant
            1 <= i <= len_a + 1,
            len_a == ga.len(),
            len_b == gb.len(),
            1 <= len_a < usize::MAX,
            1 <= len_b < usize::MAX,
            len_a + len_b + 1 < usize::MAX,
            inf == len_a + len_b + 1,
            ga == graphemes_of(ipa_a@),
            gb == graphemes_of(ipa_b@),
            string_views(seg_a@) == ga,
            string_views(seg_b@) == gb,
            seg_a@.len() == len_a,
            seg_b@.len() == len_b,
            table@.len() == i,
            forall|p: int| 0 <= p < i ==> #[trigger] table@[p]@.len() == len_b + 1,
            forall|p: int, q: int|
                0 <= p < i && 0 <= q <= len_b ==> #[trigger] table@[p]@[q] == dtw_cell(
                    ga,
                    gb,
                    p,
                    q,
                ),
        decreases len_a + 1 - i,
    {
        let mut row: Vec<u64> = Vec::new();
        row.push(inf);
        let mut j: usize = 1;
        while j <= len_b
            invariant
                1 <= j <= len_b + 1,
                1 <= i <= len_a,
                len_a == ga.len(),
                len_b == gb.len(),
                len_a + len_b + 1 < usize::MAX,
                inf == len_a + len_b + 1,
                string_views(seg_a@) == ga,
                string_views(seg_b@) == gb,
                seg_a@.len() == len_a,
                seg_b@.len() == len_b,
                table@.len() == i,
                forall|p: int| 0 <= p < i ==> #[trigger] table@[p]@.len() == len_b + 1,
                forall|p: int, q: int|
                    0 <= p < i && 0 <= q <= len_b ==> #[trigger] table@[p]@[q] == dtw_cell(
                        ga,
                        gb,
                        p,
                        q,
                    ),
                row@.len() == j,
                forall|q: int| 0 <= q < j ==> #[trigger] row@[q] == dtw_cell(ga, gb, i as int, q),
            decreases len_b + 1 - j,
        {
            proof {
                lemma_dtw_step(ga, gb, i as int, j as int);
                if i >= 2 {
                    lemma_dtw_le_max(ga.take(i - 1), gb.take(j as int));
                }
                if j >= 2 {
                    lemma_dtw_le_max(ga.take(i as int), gb.take(j - 1));
                }
                if i >= 2 && j >= 2 {
                    lemma_dtw_le_max(ga.take(i - 1), gb.take(j - 1));
                }
                assert(ga[i - 1] == seg_a@[i - 1]@);
                assert(gb[j - 1] == seg_b@[j - 1]@);
                assert(ga.take(i as int).len() == i);
                assert(gb.take(j as int).len() == j);
            }
            let mc: u64 = if seg_a[i - 1] == seg_b[j - 1] {
                0
            } else {
                1
            };
            let up = table[i - 1][j];
            let left = row[j - 1];
            let diag = table[i - 1][j - 1];
            let m = if diag <= up && diag <= left {
                diag
            } else if up <= left {
                up
            } else {
                left
            };
            row.push(mc + m);
            j = j + 1;
        }
        table.push(row);
        i = i + 1;
    }

    let cost = table[len_a][len_b];
    proof {
        assert(ga.take(len_a as int) =~= ga);
        assert(gb.take(len_b as int) =~= gb);
        lemma_dtw_le_max(ga, gb);
    }

    let mut i = len_a;
    let mut j = len_b;
    let mut operations: Vec<EditOp> = Vec::new();
    let mut aligned_a: Vec<String> = Vec::new();
    let mut aligned_b: Vec<String> = Vec::new();
    while i > 0 || j > 0
        invariant
            i <= len_a,
            j <= len_b,
            seg_a@.len() == len_a,
            seg_b@.len() == len_b,
            string_views(seg_a@) == ga,
            string_views(seg_b@) == gb,
            ga.len() == len_a,
            gb.len() == len_b,
            table@.len() == len_a + 1,
            forall|p: int| 0 <= p <= len_a ==> #[trigger] table@[p]@.len() == len_b + 1,
            operations@.len() == aligned_a@.len(),
            operations@.len() == aligned_b@.len(),
            a_used(operations@, operations@.len() as int) == len_a - i,
            b_used(operations@, operations@.len() as int) == len_b - j,
            forall|k: int|
                0 <= k < operations@.len() ==> match #[trigger] operations@[k] {
                    EditOp::Insert => aligned_a@[k]@ == "-"@ && aligned_b@[k]@ == gb[len_b - b_used(
                        operations@,
                        k + 1,
                    )],
                    EditOp::Delete => aligned_b@[k]@ == "-"@ && aligned_a@[k]@ == ga[len_a - a_used(
                        operations@,
                        k + 1,
                    )],
                    EditOp::Match => aligned_a@[k]@ == ga[len_a - a_used(operations@, k + 1)]
                        && aligned_b@[k]@ == gb[len_b - b_used(operations@, k + 1)]
                        && aligned_a@[k]@ == aligned_b@[k]@,
                    EditOp::Substitute => aligned_a@[k]@ == ga[len_a - a_used(operations@, k + 1)]
                        && aligned_b@[k]@ == gb[len_b - b_used(operations@, k + 1)]
                        && aligned_a@[k]@ != aligned_b@[k]@,
                },
        decreases i + j,
    {
        let ghost old_ops = operations@;
        proof {
            lemma_a_used_bounds(old_ops, old_ops.len() as int);
        }
        if i == 0 {
            operations.push(EditOp::Insert);
            aligned_a.push("-".to_owned());
            aligned_b.push(seg_b[j - 1].clone());
            j = j - 1;
        } else if j == 0 {
            operations.push(EditOp::Delete);
            aligned_a.push(seg_a[i - 1].clone());
            aligned_b.push("-".to_owned());
            i = i - 1;
        } else {
            let diag = table[i - 1][j - 1];
            let up = table[i - 1][j];
            let left = table[i][j - 1];
            if diag <= up && diag <= left {
                if seg_a[i - 1] == seg_b[j - 1] {
                    operations.push(EditOp::Match);
                } else {
                    operations.push(EditOp::Substitute);
                }
                aligned_a.push(seg_a[i - 1].clone());
                aligned_b.push(seg_b[j - 1].clone());
                i = i - 1;
                j = j - 1;
            } else if up < left {
                operations.push(EditOp::Delete);
                aligned_a.push(seg_a[i - 1].clone());
                aligned_b.push("-".to_owned());
                i = i - 1;
            } else {
                operations.push(EditOp::Insert);
                aligned_a.push("-".to_owned());
                aligned_b.push(seg_b[j - 1].clone());
                j = j - 1;
            }
        }
        proof {
            let m = old_ops.len() as int;
            assert(operations@.drop_last() =~= old_ops);
            assert forall|t: int| 0 <= t <= m implies a_used(operations@, t) == a_used(old_ops, t)
                && b_used(operations@, t) == b_used(old_ops, t) by {
                lemma_a_used_push(old_ops, operations@[m], t);
                assert(operations@ =~= old_ops.push(operations@[m]));
            }
            lemma_a_used_step(operations@, m);
        }
    }

    let ghost built_ops = operations@;
    let ghost built_a = aligned_a@;
    let ghost built_b = aligned_b@;
    let operations = reversed(operations);
    let aligned_a = reversed(aligned_a);
    let aligned_b = reversed(aligned_b);
    proof {
        let lc = built_ops.len() as int;
        lemma_a_used_rev(built_ops, operations@, lc);
        assert(a_used(operations@, lc) == len_a && b_used(operations@, lc) == len_b);
        assert forall|k: int| 0 <= k < operations@.len() implies match #[trigger] operations@[k] {
            EditOp::Insert => aligned_a@[k]@ == "-"@ && aligned_b@[k]@ == gb[b_used(
                operations@,
                k,
            )],
            EditOp::Delete => aligned_b@[k]@ == "-"@ && aligned_a@[k]@ == ga[a_used(
                operations@,
                k,
            )],
            EditOp::Match => aligned_a@[k]@ == ga[a_used(operations@, k)] && aligned_b@[k]@
                == gb[b_used(operations@, k)] && aligned_a@[k]@ == aligned_b@[k]@,
            EditOp::Substitute => aligned_a@[k]@ == ga[a_used(operations@, k)] && aligned_b@[k]@
                == gb[b_used(operations@, k)] && aligned_a@[k]@ != aligned_b@[k]@,
        } by {
            let p = lc - 1 - k;
            assert(operations@[k] == built_ops[p]);
            assert(aligned_a@[k] == built_a[p]);
            assert(aligned_b@[k] == built_b[p]);
            lemma_a_used_rev(built_ops, operations@, k);
            assert(a_used(operations@, k) == len_a - a_used(built_ops, p + 1));
            assert(b_used(operations@, k) == len_b - b_used(built_ops, p + 1));
            lemma_a_used_bounds(built_ops, p + 1);
        }
    }
    Alignment::new(aligned_a, aligned_b, operations, cost)
}


/// Substitution cost of two segments, in `1/24` units: zero for equal
/// graphemes, else the feature Hamming count.
pub open spec fn fw_cost(x: IPASegment, y: IPASegment) -> nat {
    if x.grapheme@ == y.grapheme@ {
        0
    } else {
        feature_diff_count(x.features@, y.features@, 24)
    }
}

/// Feature-weighted edit distance between two segment sequences, in `1/24`
/// units: insertion and deletion cost one (24 units), substitution costs
/// the normalized feature distance.
pub open spec fn fw_dist(a: Seq<IPASegment>, b: Seq<IPASegment>) -> nat
    decreases a.len() + b.len(),
{
    if a.len() == 0 {
        b.len() * 24
    } else if b.len() == 0 {
        a.len() * 24
    } else {
        min3(
            fw_dist(a.drop_last(), b) + 24,
            fw_dist(a, b.drop_last()) + 24,
            fw_dist(a.drop_last(), b.drop_last()) + fw_cost(a.last(), b.last()),
        )
    }
}

/// The distance never exceeds the longer length, in `1/24` units.
pub proof fn lemma_fw_le_max(a: Seq<IPASegment>, b: Seq<IPASegment>)
    ensures
        fw_dist(a, b) <= 24 * max_nat(a.len(), b.len()),
    decreases a.len() + b.len(),
{
    if a.len() > 0 && b.len() > 0 {
        lemma_fw_le_max(a.drop_last(), b.drop_last());
        lemma_feature_diff_count_le(a.last().features@, b.last().features@, 24);
    }
}

proof fn lemma_fw_step(a: Seq<IPASegment>, b: Seq<IPASegment>, i: int, j: int)
    requires
        1 <= i <= a.len(),
        1 <= j <= b.len(),
    ensures
        fw_dist(a.take(i), b.take(j)) == min3(
            fw_dist(a.take(i - 1), b.take(j)) + 24,
            fw_dist(a.take(i), b.take(j - 1)) + 24,
            fw_dist(a.take(i - 1), b.take(j - 1)) + fw_cost(a[i - 1], b[j - 1]),
        ),
{
    let ai = a.take(i);
    let bj = b.take(j);
    assert(ai.drop_last() =~= a.take(i - 1));
    assert(bj.drop_last() =~= b.take(j - 1));
    assert(ai.last() == a[i - 1]);
    assert(bj.last() == b[j - 1]);
}

/// Feature-weighted edit distance of two segment sequences, as the exact
/// ratio `fw / (24 m)` with `m` the longer length; zero for two empty
/// sequences and one when exactly one is empty.
pub fn feature_weighted_distance(segments_a: &Vec<IPASegment>, segments_b: &Vec<IPASegment>) -> (d:
    Ratio)
    requires
        segments_a@.len() + segments_b@.len() <= 0x10_0000,
    ensures
        segments_a@.len() == 0 && segments_b@.len() == 0 ==> d.num == 0 && d.den == 1,
        max_nat(segments_a@.len(), segments_b@.len()) > 0 ==> d.num == fw_dist(
            segments_a@,
            segments_b@,
        ) && d.den == 24 * max_nat(segments_a@.len(), segments_b@.len()),
        d.num <= d.den,
        d.den >= 1,
{
    let va = segments_a;
    let vb = segments_b;
    let len_a = va.len();
    let len_b = vb.len();
    if len_a == 0 && len_b == 0 {
        return Ratio::zero();
    }
    proof {
        assert(va@.take(len_a as int) =~= va@);
        assert(vb@.take(len_b as int) =~= vb@);
        lemma_fw_le_max(va@, vb@);
    }

    let mut prev_row: Vec<u64> = Vec::new();
    let mut j: usize = 0;
    while j <= len_b
        invariant
            j <= len_b + 1,
            len_b <= 0x10_0000,
            prev_row@.len() == j,
            forall|k: int| 0 <= k < j ==> (#[trigger] prev_row@[k]) == k * 24,
        decreases len_b + 1 - j,
    {
        prev_row.push((j as u64) * 24);
        j = j + 1;
    }
    let mut curr_row: Vec<u64> = Vec::new();
    let mut j: usize = 0;
    while j <= len_b
        invariant
            j <= len_b + 1,
            len_b <= 0x10_0000,
            curr_row@.len() == j,
        decreases len_b + 1 - j,
    {
        curr_row.push(0);
        j = j + 1;
    }
    proof {
        assert forall|k: int| 0 <= k <= len_b implies fw_dist(va@.take(0), vb@.take(k)) == k
            * 24 by {
            assert(va@.take(0).len() == 0);
            assert(vb@.take(k).len() == k);
        }
    }

    let mut i: usize = 0;
    while i < len_a
        invariant
            i <= len_a,
            len_a == va@.len(),
            len_b == vb@.len(),
            len_a + len_b <= 0x10_0000,
            prev_row@.len() == len_b + 1,
            curr_row@.len() == len_b + 1,
            forall|k: int|
                0 <= k <= len_b ==> (#[trigger] prev_row@[k]) == fw_dist(
                    va@.take(i as int),
                    vb@.take(k),
                ),
        decreases len_a - i,
    {
        curr_row.set(0, ((i + 1) as u64) * 24);
        proof {
            assert(va@.take(i + 1).len() == i + 1);
            assert(vb@.take(0).len() == 0);
        }
        let mut j: usize = 0;
        while j < len_b
            invariant
                j <= len_b,
                i < len_a,
                len_a == va@.len(),
                len_b == vb@.len(),
                len_a + len_b <= 0x10_0000,
                prev_row@.len() == len_b + 1,
                curr_row@.len() == len_b + 1,
                forall|k: int|
                    0 <= k <= len_b ==> (#[trigger] prev_row@[k]) == fw_dist(
                        va@.take(i as int),
                        vb@.take(k),
                    ),
                forall|k: int|
                    0 <= k <= j ==> (#[trigger] curr_row@[k]) == fw_dist(
                        va@.take(i + 1),
                        vb@.take(k),
                    ),
            decreases len_b - j,
        {
            proof {
                lemma_fw_step(va@, vb@, i + 1, j + 1);
                lemma_fw_le_max(va@.take(i + 1), vb@.take(j as int));
                lemma_fw_le_max(va@.take(i as int), vb@.take(j + 1));
                lemma_fw_le_max(va@.take(i as int), vb@.take(j as int));
                lemma_feature_diff_count_le(va@[i as int].features@, vb@[j as int].features@, 24);
            }
            let cost: u64 = if crate::types::str_eq(va[i].grapheme.as_str(), vb[j].grapheme.as_str()) {
                0
            } else {
                va[i].feature_distance(&vb[j]).num
            };
            let c1 = curr_row[j] + 24;
            let c2 = prev_row[j + 1] + 24;
            let c3 = prev_row[j] + cost;
            let m = if c1 <= c2 && c1 <= c3 {
                c1
            } else if c2 <= c3 {
                c2
            } else {
                c3
            };
            curr_row.set(j + 1, m);
            j = j + 1;
        }
        let tmp = prev_row;
        prev_row = curr_row;
        curr_row = tmp;
        i = i + 1;
    }
    let distance = prev_row[len_b];
    let max_len = if len_a >= len_b {
        len_a
    } else {
        len_b
    };
    Ratio::new(distance, 24 * (max_len as u64))
}


/// The substitution pairs of all the alignments, in order.
pub open spec fn all_substitution_pairs(als: Seq<Alignment>) -> Seq<(Seq<char>, Seq<char>)>
    decreases als.len(),
{
    if als.len() == 0 {
        Seq::empty()
    } else {
        all_substitution_pairs(als.drop_last()) + substitution_pairs(
            als.last().operations@,
            string_views(als.last().sequence_a@),
            string_views(als.last().sequence_b@),
        )
    }
}

/// The distinct pairs, in order of first occurrence.
pub open spec fn first_occurrences(pairs: Seq<(Seq<char>, Seq<char>)>) -> Seq<(Seq<char>, Seq<char>)>
    decreases pairs.len(),
{
    if pairs.len() == 0 {
        Seq::empty()
    } else {
        let prefix = first_occurrences(pairs.drop_last());
        if prefix.contains(pairs.last()) {
            prefix
        } else {
            prefix.push(pairs.last())
        }
    }
}

/// The grapheme pair an entry counts.
pub open spec fn key_of(x: (String, String, u64)) -> (Seq<char>, Seq<char>) {
    (x.0@, x.1@)
}

/// How often the pair occurs.
pub open spec fn count_pair(pairs: Seq<(Seq<char>, Seq<char>)>, p: (Seq<char>, Seq<char>)) -> nat
    decreases pairs.len(),
{
    if pairs.len() == 0 {
        0
    } else {
        count_pair(pairs.drop_last(), p) + if pairs.last() == p {
            1nat
        } else {
            0nat
        }
    }
}

proof fn lemma_firsts_distinct(pairs: Seq<(Seq<char>, Seq<char>)>)
    ensures
        forall|t1: int, t2: int|
            0 <= t1 < t2 < first_occurrences(pairs).len() ==> (#[trigger] first_occurrences(pairs)[
            t1]) != (#[trigger] first_occurrences(pairs)[t2]),
    decreases pairs.len(),
{
    if pairs.len() > 0 {
        lemma_firsts_distinct(pairs.drop_last());
        let prefix = first_occurrences(pairs.drop_last());
        let cur = first_occurrences(pairs);
        if !prefix.contains(pairs.last()) {
            assert forall|t1: int, t2: int|
                0 <= t1 < t2 < cur.len() implies (#[trigger] cur[t1]) != (#[trigger] cur[t2]) by {
                if t2 == cur.len() - 1 {
                    assert(cur[t1] == prefix[t1]);
                    assert(!prefix.contains(pairs.last()));
                    assert(prefix[t1] != pairs.last());
                }
            }
        }
    }
}

proof fn lemma_count_le(pairs: Seq<(Seq<char>, Seq<char>)>, p: (Seq<char>, Seq<char>))
    ensures
        count_pair(pairs, p) <= pairs.len(),
    decreases pairs.len(),
{
    if pairs.len() > 0 {
        lemma_count_le(pairs.drop_last(), p);
    }
}

/// Insert an entry into a count-descending list, keeping it sorted; it
/// lands after every entry with the same count.
#[verifier::rlimit(60)]
fn insert_by_count(out: &mut Vec<(String, String, u64)>, e: (String, String, u64))
    requires
        forall|t1: int, t2: int|
            0 <= t1 < t2 < old(out)@.len() ==> (#[trigger] old(out)@[t1]).2 >= (
            #[trigger] old(out)@[t2]).2,
    ensures
        final(out)@.len() == old(out)@.len() + 1,
        forall|t1: int, t2: int|
            0 <= t1 < t2 < final(out)@.len() ==> (#[trigger] final(out)@[t1]).2 >= (
            #[trigger] final(out)@[t2]).2,
        forall|t: int| #![trigger final(out)@[t]]
            0 <= t < final(out)@.len() ==> final(out)@[t] == e || exists|t2: int|
                0 <= t2 < old(out)@.len() && final(out)@[t] == (#[trigger] old(out)@[t2]),
        forall|t2: int| #![trigger old(out)@[t2]]
            0 <= t2 < old(out)@.len() ==> exists|t: int|
                0 <= t < final(out)@.len() && old(out)@[t2] == (#[trigger] final(out)@[t]),
        exists|t: int| 0 <= t < final(out)@.len() && (#[trigger] final(out)@[t]) == e,
{
    let mut pos: usize = 0;
    while pos < out.len()
        invariant
            pos <= out@.len(),
            out@ == old(out)@,
            forall|t: int| 0 <= t < pos ==> (#[trigger] out@[t]).2 >= e.2,
        ensures
            pos <= out@.len(),
            out@ == old(out)@,
            forall|t: int| 0 <= t < pos ==> (#[trigger] out@[t]).2 >= e.2,
            pos < out@.len() ==> out@[pos as int].2 < e.2,
        decreases out@.len() - pos,
    {
        if out[pos].2 < e.2 {
            break;
        }
        pos = pos + 1;
    }
    let ghost before = out@;
    let ghost p = pos as int;
    out.insert(pos, e);
    proof {
        assert(forall|t: int| 0 <= t < p ==> out@[t] == before[t]);
        assert(out@[p] == e);
        assert(forall|t: int| p < t < out@.len() ==> out@[t] == before[t - 1]);
        assert forall|t1: int, t2: int| 0 <= t1 < t2 < out@.len() implies (#[trigger] out@[t1]).2
            >= (#[trigger] out@[t2]).2 by {
            if t1 == p && t2 > p {
                assert(out@[t2] == before[t2 - 1]);
                if t2 - 1 > p {
                    assert(before[p].2 >= before[t2 - 1].2);
                }
            }
        }
        assert forall|t: int| #![trigger out@[t]] 0 <= t < out@.len() implies out@[t] == e
            || exists|t2: int| 0 <= t2 < before.len() && out@[t] == (#[trigger] before[t2]) by {
            if t != p {
                let to: int = if t < p {
                    t
                } else {
                    t - 1
                };
                assert(out@[t] == before[to]);
            }
        }
        assert forall|t2: int| #![trigger before[t2]] 0 <= t2 < before.len() implies exists|t: int|
            0 <= t < out@.len() && before[t2] == (#[trigger] out@[t]) by {
            let t: int = if t2 < p {
                t2
            } else {
                t2 + 1
            };
            assert(before[t2] == out@[t]);
        }
    }
}

/// Count every substitution pair across the alignments and list the pairs
/// by descending count: every listed pair occurs at a substitution, its
/// count is exact, no pair is listed twice, and every distinct pair is
/// listed (the list is as long as the distinct pairs). The implementation
/// keeps first-occurrence order among equal counts.
pub fn extract_sound_correspondences(alignments: &Vec<Alignment>) -> (r: Vec<(String, String, u64)>)
    ensures
        ({
            let pairs = all_substitution_pairs(alignments@);
            let firsts = first_occurrences(pairs);
            &&& r@.len() == firsts.len()
            &&& forall|t: int| #![trigger r@[t]]
                0 <= t < r@.len() ==> firsts.contains(key_of(r@[t])) && r@[t].2 == count_pair(pairs, key_of(r@[t]))
            &&& forall|t1: int, t2: int|
                0 <= t1 < t2 < r@.len() ==> (#[trigger] r@[t1]).2 >= (#[trigger] r@[t2]).2
        }),
{
    let ghost pairs_all = all_substitution_pairs(alignments@);
    let mut occ: Vec<(String, String)> = Vec::new();
    let mut i: usize = 0;
    while i < alignments.len()
        invariant
            i <= alignments@.len(),
            pair_views(occ@) == all_substitution_pairs(alignments@.take(i as int)),
        decreases alignments@.len() - i,
    {
        proof {
            assert(alignments@.take(i + 1).drop_last() =~= alignments@.take(i as int));
            assert(alignments@.take(i + 1).last() == alignments@[i as int]);
        }
        let rules = alignments[i].extract_correspondences();
        let ghost base = pair_views(occ@);
        let ghost rv = pair_views(rules@);
        let mut k: usize = 0;
        while k < rules.len()
            invariant
                k <= rules@.len(),
                rv == pair_views(rules@),
                rv.len() == rules@.len(),
                pair_views(occ@) == base + rv.take(k as int),
            decreases rules@.len() - k,
        {
            let e = (rules[k].0.clone(), rules[k].1.clone());
            let ghost occ0 = occ@;
            occ.push(e);
            proof {
                assert(pair_views(occ@) =~= pair_views(occ0).push((rules@[k as int].0@, rules@[
                k as int].1@)));
                assert(rv.take(k + 1) =~= rv.take(k as int).push(rv[k as int]));
                assert(rv[k as int] == (rules@[k as int].0@, rules@[k as int].1@));
                assert(pair_views(occ@) =~= base + rv.take(k + 1));
            }
            k = k + 1;
        }
        proof {
            assert(rv.take(rv.len() as int) =~= rv);
            assert(base + rv == all_substitution_pairs(alignments@.take(i + 1)));
        }
        i = i + 1;
    }
    proof {
        assert(alignments@.take(alignments@.len() as int) =~= alignments@);
    }

    let mut tal: Vec<(String, String, u64)> = Vec::new();
    let mut j: usize = 0;
    while j < occ.len()
        invariant
            j <= occ@.len(),
            pair_views(occ@) == pairs_all,
            occ@.len() == pairs_all.len(),
            tal@.len() == first_occurrences(pairs_all.take(j as int)).len(),
            forall|t: int| #![trigger tal@[t]]
                0 <= t < tal@.len() ==> key_of(tal@[t]) == first_occurrences(
                    pairs_all.take(j as int),
                )[t],
            forall|t: int| #![trigger tal@[t]]
                0 <= t < tal@.len() ==> tal@[t].2 == count_pair(
                    pairs_all.take(j as int),
                    key_of(tal@[t]),
                ),
        decreases occ@.len() - j,
    {
        proof {
            assert(pairs_all.take(j + 1).drop_last() =~= pairs_all.take(j as int));
            assert(pairs_all.take(j + 1).last() == pairs_all[j as int]);
            assert(pairs_all[j as int] == (occ@[j as int].0@, occ@[j as int].1@));
            lemma_firsts_distinct(pairs_all.take(j as int));
            lemma_count_le(pairs_all.take(j as int), pairs_all[j as int]);
        }
        let ghost firsts_pre = first_occurrences(pairs_all.take(j as int));
        let mut t: usize = 0;
        let mut found = false;
        while t < tal.len()
            invariant_except_break
                !found,
            invariant
                t <= tal@.len(),
                (j as int) < occ@.len(),
                forall|t2: int|
                    0 <= t2 < t ==> key_of(#[trigger] tal@[t2]) != (
                    occ@[j as int].0@,
                    occ@[j as int].1@,
                ),
            ensures
                found ==> t < tal@.len() && key_of(tal@[t as int]) == (
                occ@[j as int].0@,
                occ@[j as int].1@,
                ),
                !found ==> forall|t2: int|
                    0 <= t2 < tal@.len() ==> key_of(#[trigger] tal@[t2]) != (
                    occ@[j as int].0@,
                    occ@[j as int].1@,
                ),
            decreases tal@.len() - t,
        {
            if tal[t].0 == occ[j].0 && tal[t].1 == occ[j].1 {
                found = true;
                break;
            }
            t = t + 1;
        }
        if found {
            proof {
                assert(firsts_pre[t as int] == pairs_all[j as int]);
                assert(firsts_pre.contains(pairs_all[j as int]));
                assert(first_occurrences(pairs_all.take(j + 1)) == firsts_pre);
            }
            let k0 = tal[t].0.clone();
            let k1 = tal[t].1.clone();
            let cnt = tal[t].2;
            let ghost old_tal = tal@;
            tal.set(t, (k0, k1, cnt + 1));
            proof {
                assert forall|t2: int| #![trigger tal@[t2]] 0 <= t2 < tal@.len() implies key_of(tal@[t2]) == first_occurrences(pairs_all.take(j + 1))[t2] && tal@[t2].2 == count_pair(pairs_all.take(j + 1), key_of(tal@[t2])) by {
                    if t2 != t {
                        assert(tal@[t2] == old_tal[t2]);
                        assert(key_of(old_tal[t2]) != pairs_all[j as int]);
                    }
                }
            }
        } else {
            proof {
                assert(!firsts_pre.contains(pairs_all[j as int])) by {
                    if firsts_pre.contains(pairs_all[j as int]) {
                        let w = choose|w: int|
                            0 <= w < firsts_pre.len() && firsts_pre[w] == pairs_all[j as int];
                        assert(key_of(tal@[w]) == pairs_all[j as int]);
                    }
                }
                assert(first_occurrences(pairs_all.take(j + 1)) == firsts_pre.push(
                    pairs_all[j as int],
                ));
            }
            let e = (occ[j].0.clone(), occ[j].1.clone(), 1u64);
            let ghost old_tal = tal@;
            tal.push(e);
            proof {
                assert forall|t2: int| #![trigger tal@[t2]] 0 <= t2 < tal@.len() implies key_of(tal@[t2]) == first_occurrences(pairs_all.take(j + 1))[t2] && tal@[t2].2 == count_pair(pairs_all.take(j + 1), key_of(tal@[t2])) by {
                    if t2 < old_tal.len() {
                        assert(tal@[t2] == old_tal[t2]);
                        assert(key_of(old_tal[t2]) != pairs_all[j as int]) by {
                            assert(firsts_pre[t2] == key_of(old_tal[t2]));
                        }
                        assert(count_pair(pairs_all.take(j as int), key_of(tal@[t2])) == count_pair(pairs_all.take(j + 1), key_of(tal@[t2])));
                    } else {
                        assert(key_of(tal@[t2]) == pairs_all[j as int]);
                        assert(count_pair(pairs_all.take(j as int), pairs_all[j as int]) == 0) by {
                            lemma_absent_count_zero(pairs_all.take(j as int), pairs_all[j as int]);
                        }
                    }
                }
            }
        }
        j = j + 1;
    }
    proof {
        assert(pairs_all.take(pairs_all.len() as int) =~= pairs_all);
        lemma_firsts_distinct(pairs_all);
    }
    let ghost firsts = first_occurrences(pairs_all);

    let mut out: Vec<(String, String, u64)> = Vec::new();
    let mut j: usize = 0;
    while j < tal.len()
        invariant
            j <= tal@.len(),
            tal@.len() == firsts.len(),
            forall|t: int| #![trigger tal@[t]]
                0 <= t < tal@.len() ==> key_of(tal@[t]) == firsts[t] && tal@[t].2 == count_pair(pairs_all, key_of(tal@[t])),
            forall|t1: int, t2: int|
                0 <= t1 < t2 < firsts.len() ==> (#[trigger] firsts[t1]) != (#[trigger] firsts[t2]),
            out@.len() == j,
            forall|t1: int, t2: int|
                0 <= t1 < t2 < out@.len() ==> (#[trigger] out@[t1]).2 >= (#[trigger] out@[t2]).2,
            forall|t: int| #![trigger out@[t]]
                0 <= t < out@.len() ==> exists|t2: int|
                    0 <= t2 < j && out@[t] == (#[trigger] tal@[t2]),
            forall|t2: int| #![trigger tal@[t2]]
                0 <= t2 < j ==> exists|t: int| 0 <= t < out@.len() && tal@[t2] == (#[trigger] out@[t]),
        decreases tal@.len() - j,
    {
        let e = (tal[j].0.clone(), tal[j].1.clone(), tal[j].2);
        let ghost before = out@;
        insert_by_count(&mut out, e);
        proof {
            assert(e == tal@[j as int]);
            assert forall|t: int| #![trigger out@[t]] 0 <= t < out@.len() implies exists|t2: int|
                0 <= t2 < j + 1 && out@[t] == (#[trigger] tal@[t2]) by {
                if out@[t] == e {
                    assert(out@[t] == tal@[j as int]);
                } else {
                    let tb = choose|tb: int| 0 <= tb < before.len() && out@[t] == (#[trigger] before[tb]);
                    let t2 = choose|t2: int| 0 <= t2 < j && before[tb] == (#[trigger] tal@[t2]);
                    assert(out@[t] == tal@[t2]);
                }
            }
            assert forall|t2: int| #![trigger tal@[t2]] 0 <= t2 < j + 1 implies exists|t: int|
                0 <= t < out@.len() && tal@[t2] == (#[trigger] out@[t]) by {
                if t2 == j {
                    let t = choose|t: int| 0 <= t < out@.len() && (#[trigger] out@[t]) == e;
                    assert(tal@[t2] == out@[t]);
                } else {
                    let tb = choose|tb: int|
                        0 <= tb < before.len() && tal@[t2] == (#[trigger] before[tb]);
                    let t = choose|t: int|
                        0 <= t < out@.len() && before[tb] == (#[trigger] out@[t]);
                    assert(tal@[t2] == out@[t]);
                }
            }
        }
        j = j + 1;
    }
    proof {
        assert forall|t: int| #![trigger out@[t]] 0 <= t < out@.len() implies firsts.contains(
            key_of(out@[t]),
        ) && out@[t].2 == count_pair(pairs_all, key_of(out@[t])) by {
            let t2 = choose|t2: int| 0 <= t2 < tal@.len() && out@[t] == (#[trigger] tal@[t2]);
            assert(firsts[t2] == key_of(out@[t]));
        }
    }
    out
}

proof fn lemma_absent_count_zero(pairs: Seq<(Seq<char>, Seq<char>)>, p: (Seq<char>, Seq<char>))
    requires
        !first_occurrences(pairs).contains(p),
    ensures
        count_pair(pairs, p) == 0,
    decreases pairs.len(),
{
    if pairs.len() > 0 {
        let prefix = first_occurrences(pairs.drop_last());
        if prefix.contains(pairs.last()) {
            assert(first_occurrences(pairs) == prefix);
        }
        assert(!prefix.contains(p)) by {
            if prefix.contains(p) {
                let w = choose|w: int| 0 <= w < prefix.len() && prefix[w] == p;
                if !prefix.contains(pairs.last()) {
                    assert(first_occurrences(pairs)[w] == p);
                }
            }
        }
        lemma_absent_count_zero(pairs.drop_last(), p);
        assert(pairs.last() != p) by {
            if pairs.last() == p {
                if prefix.contains(pairs.last()) {
                } else {
                    assert(first_occurrences(pairs)[first_occurrences(pairs).len() - 1] == p);
                }
            }
        }
    }
}



} // verus!
