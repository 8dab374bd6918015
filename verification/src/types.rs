//! Shared data structures of the analysis kernel.

use vstd::prelude::*;

verus! {

/// Fixed-point unit for similarity weights: `1_000_000` stands for `1.0`.
pub const WEIGHT_ONE: u64 = 1_000_000;

/// An exact quotient `num / den`; `den` is never zero.
///
/// Similarities and distances are reported as ratios so that every
/// comparison downstream is exact integer arithmetic.
#[derive(Clone, Copy, Debug, PartialEq, Eq, Structural)]
pub struct Ratio {
    pub num: u64,
    pub den: u64,
}

impl Ratio {
    /// A ratio is well formed when its denominator is positive.
    pub open spec fn wf(self) -> bool {
        self.den >= 1
    }

    /// The ratio stands for exactly one.
    pub open spec fn is_one(self) -> bool {
        self.num == self.den
    }

    pub fn new(num: u64, den: u64) -> (r: Ratio)
        requires
            den >= 1,
        ensures
            r.num == num,
            r.den == den,
    {
        Ratio { num, den }
    }

    /// The ratio one.
    pub fn one() -> (r: Ratio)
        ensures
            r.num == 1,
            r.den == 1,
    {
        Ratio { num: 1, den: 1 }
    }

    /// The ratio zero.
    pub fn zero() -> (r: Ratio)
        ensures
            r.num == 0,
            r.den == 1,
    {
        Ratio { num: 0, den: 1 }
    }

    /// The value in fixed-point weight units, rounded down.
    pub fn to_weight(self) -> (w: u64)
        requires
            self.den >= 1,
            self.num <= self.den,
        ensures
            w == (self.num * WEIGHT_ONE as int) / self.den as int,
    {
        let wide: u128 = (self.num as u128 * WEIGHT_ONE as u128) / (self.den as u128);
        proof {
            assert(self.num as int * WEIGHT_ONE as int <= self.den as int * WEIGHT_ONE as int)
                by (nonlinear_arith)
                requires self.num <= self.den;
            vstd::arithmetic::div_mod::lemma_div_is_ordered(
                self.num as int * WEIGHT_ONE as int,
                self.den as int * WEIGHT_ONE as int,
                self.den as int,
            );
            vstd::arithmetic::div_mod::lemma_div_multiples_vanish(
                WEIGHT_ONE as int,
                self.den as int,
            );
        }
        wide as u64
    }
}

/// Edit operation in a sequence alignment.
#[derive(Debug, Clone, Copy, PartialEq, Eq, Structural)]
pub enum EditOp {
    Match,
    Substitute,
    Insert,
    Delete,
}

/// Edge of the similarity graph; `weight` is in fixed-point weight units.
#[derive(Debug, Clone)]
pub struct SimilarityEdge {
    pub source: String,
    pub target: String,
    pub weight: u64,
}

impl SimilarityEdge {
    pub fn new(source: String, target: String, weight: u64) -> (e: SimilarityEdge)
        ensures
            e.source == source,
            e.target == target,
            e.weight == weight,
    {
        SimilarityEdge { source, target, weight }
    }
}

/// Phonetic segment: one grapheme cluster with its feature vector.
#[derive(Debug, Clone)]
pub struct IPASegment {
    pub grapheme: String,
    pub features: [i8; 24],
}

/// Number of feature positions where the two vectors disagree.
pub open spec fn feature_diff_count(a: Seq<i8>, b: Seq<i8>, upto: int) -> nat
    decreases upto,
{
    if upto <= 0 {
        0
    } else {
        feature_diff_count(a, b, upto - 1) + if a[upto - 1] == b[upto - 1] {
            0nat
        } else {
            1nat
        }
    }
}

impl IPASegment {
    pub fn new(grapheme: String, features: [i8; 24]) -> (s: IPASegment)
        ensures
            s.grapheme == grapheme,
            s.features == features,
    {
        IPASegment { grapheme, features }
    }

    /// Hamming distance of the two feature vectors, normalized to `[0, 1]`
    /// as the exact ratio `diff / 24`.
    pub fn feature_distance(&self, other: &IPASegment) -> (d: Ratio)
        ensures
            d.num == feature_diff_count(self.features@, other.features@, 24),
            d.den == 24,
    {
        let mut diff: u64 = 0;
        let mut i: usize = 0;
        while i < 24
            invariant
                i <= 24,
                diff <= i,
                diff == feature_diff_count(self.features@, other.features@, i as int),
            decreases 24 - i,
        {
            if self.features[i] != other.features[i] {
                diff = diff + 1;
            }
            i = i + 1;
        }
        Ratio { num: diff, den: 24 }
    }
}

pub proof fn lemma_feature_diff_count_le(a: Seq<i8>, b: Seq<i8>, upto: int)
    ensures
        feature_diff_count(a, b, upto) <= if upto >= 0 { upto } else { 0 },
    decreases upto,
{
    if upto > 0 {
        lemma_feature_diff_count_le(a, b, upto - 1);
    }
}

/// The substitution pairs of an alignment: for each position whose
/// operation is `Substitute` (and which both sequences cover), the pair of
/// aligned graphemes, in position order.
pub open spec fn substitution_pairs(
    ops: Seq<EditOp>,
    a: Seq<Seq<char>>,
    b: Seq<Seq<char>>,
) -> Seq<(Seq<char>, Seq<char>)>
    decreases ops.len(),
{
    if ops.len() == 0 {
        Seq::empty()
    } else {
        let prefix = substitution_pairs(ops.drop_last(), a, b);
        let i = ops.len() - 1;
        if ops.last() == EditOp::Substitute && i < a.len() && i < b.len() {
            prefix.push((a[i], b[i]))
        } else {
            prefix
        }
    }
}

/// The views of a sequence of grapheme pairs.
pub open spec fn pair_views(s: Seq<(String, String)>) -> Seq<(Seq<char>, Seq<char>)> {
    s.map_values(|p: (String, String)| (p.0@, p.1@))
}

/// The views of a sequence of grapheme strings.
pub open spec fn string_views(s: Seq<String>) -> Seq<Seq<char>> {
    s.map_values(|x: String| x@)
}

/// Result of a phonetic alignment: two gap-padded sequences of equal
/// length, one edit operation per position, and the total cost.
#[derive(Debug, Clone)]
pub struct Alignment {
    pub sequence_a: Vec<String>,
    pub sequence_b: Vec<String>,
    pub operations: Vec<EditOp>,
    pub cost: u64,
}

impl Alignment {
    pub fn new(sequence_a: Vec<String>, sequence_b: Vec<String>, operations: Vec<EditOp>, cost: u64) -> (al: Alignment)
        ensures
            al.sequence_a == sequence_a,
            al.sequence_b == sequence_b,
            al.operations == operations,
            al.cost == cost,
    {
        Alignment { sequence_a, sequence_b, operations, cost }
    }

    /// Extract the sound-correspondence pairs: the aligned graphemes at
    /// every substitution position.
    pub fn extract_correspondences(&self) -> (rules: Vec<(String, String)>)
        ensures
            pair_views(rules@) == substitution_pairs(
                self.operations@,
                string_views(self.sequence_a@),
                string_views(self.sequence_b@),
            ),
    {
        let ghost ops = self.operations@;
        let ghost va = string_views(self.sequence_a@);
        let ghost vb = string_views(self.sequence_b@);
        let mut rules: Vec<(String, String)> = Vec::new();
        let mut i: usize = 0;
        while i < self.operations.len()
            invariant
                i <= self.operations.len(),
                ops == self.operations@,
                va == string_views(self.sequence_a@),
                vb == string_views(self.sequence_b@),
                pair_views(rules@) == substitution_pairs(ops.take(i as int), va, vb),
            decreases self.operations.len() - i,
        {
            proof {
                assert(ops.take(i + 1).drop_last() =~= ops.take(i as int));
                assert(ops.take(i + 1).last() == ops[i as int]);
            }
            if self.operations[i] == EditOp::Substitute && i < self.sequence_a.len() && i < self.sequence_b.len() {
                let pair = (self.sequence_a[i].clone(), self.sequence_b[i].clone());
                rules.push(pair);
                proof {
                    assert(va[i as int] == self.sequence_a@[i as int]@);
                    assert(vb[i as int] == self.sequence_b@[i as int]@);
                    assert(pair_views(rules@) =~= substitution_pairs(ops.take(i + 1), va, vb));
                }
            } else {
                proof {
                    assert(pair_views(rules@) =~= substitution_pairs(ops.take(i + 1), va, vb));
                }
            }
            i = i + 1;
        }
        proof {
            assert(ops.take(ops.len() as int) =~= ops);
        }
        rules
    }
}

/// Node with its cluster assignment.
#[derive(Debug, Clone)]
pub struct ClusterNode {
    pub id: String,
    pub cluster_id: usize,
}

/// Connected component of the similarity graph (a cognate set).
#[derive(Debug, Clone)]
pub struct CognateSet {
    pub id: usize,
    pub members: Vec<String>,
    pub size: usize,
}

impl CognateSet {
    pub fn new(id: usize, members: Vec<String>) -> (s: CognateSet)
        ensures
            s.id == id,
            s.members == members,
            s.size == members@.len(),
    {
        let size = members.len();
        CognateSet { id, members, size }
    }
}


/// Strict lexicographic order on character sequences, read from position
/// `i` on: the first differing character decides, by code point.
pub open spec fn lex_lt_from(a: Seq<char>, b: Seq<char>, i: int) -> bool
    decreases b.len() - i,
{
    if i < 0 || i >= b.len() {
        false
    } else if i >= a.len() {
        true
    } else if a[i] != b[i] {
        (a[i] as u32) < (b[i] as u32)
    } else {
        lex_lt_from(a, b, i + 1)
    }
}

/// Strict lexicographic order on character sequences.
pub open spec fn lex_lt(a: Seq<char>, b: Seq<char>) -> bool {
    lex_lt_from(a, b, 0)
}

proof fn lemma_lex_from_total(a: Seq<char>, b: Seq<char>, i: int)
    requires
        0 <= i <= a.len(),
        i <= b.len(),
    ensures
        lex_lt_from(a, b, i) || lex_lt_from(b, a, i) || (a.len() == b.len() && forall|k: int|
            i <= k < a.len() ==> a[k] == b[k]),
    decreases b.len() + a.len() - 2 * i,
{
    if i >= b.len() {
        if i < a.len() {
            assert(lex_lt_from(b, a, i));
        } else {
            assert(a.len() == b.len());
        }
    } else if i >= a.len() {
        assert(lex_lt_from(a, b, i));
    } else if a[i] != b[i] {
        char_neq_u32(a[i], b[i]);
        assert(lex_lt_from(a, b, i) || lex_lt_from(b, a, i));
    } else {
        lemma_lex_from_total(a, b, i + 1);
    }
}

proof fn lemma_lex_from_asymmetric(a: Seq<char>, b: Seq<char>, i: int)
    requires
        0 <= i,
    ensures
        !(lex_lt_from(a, b, i) && lex_lt_from(b, a, i)),
    decreases b.len() + a.len() - 2 * i,
{
    if i < a.len() && i < b.len() && a[i] == b[i] {
        lemma_lex_from_asymmetric(a, b, i + 1);
    }
}

proof fn lemma_lex_from_transitive(a: Seq<char>, b: Seq<char>, c: Seq<char>, i: int)
    requires
        0 <= i,
        lex_lt_from(a, b, i),
        lex_lt_from(b, c, i),
    ensures
        lex_lt_from(a, c, i),
    decreases a.len() + b.len() + c.len() - 3 * i,
{
    if i < a.len() && i < b.len() && i < c.len() && a[i] == b[i] && b[i] == c[i] {
        lemma_lex_from_transitive(a, b, c, i + 1);
    }
}

/// Distinct sequences are ordered one way or the other.
pub proof fn lemma_lex_total(a: Seq<char>, b: Seq<char>)
    ensures
        a == b || lex_lt(a, b) || lex_lt(b, a),
{
    lemma_lex_from_total(a, b, 0);
    if !lex_lt(a, b) && !lex_lt(b, a) {
        assert(a =~= b);
    }
}

/// The order is irreflexive and asymmetric.
pub proof fn lemma_lex_asymmetric(a: Seq<char>, b: Seq<char>)
    ensures
        !(lex_lt(a, b) && lex_lt(b, a)),
        !lex_lt(a, a),
{
    lemma_lex_from_asymmetric(a, b, 0);
    lemma_lex_from_asymmetric(a, a, 0);
}

/// The order is transitive.
pub proof fn lemma_lex_transitive(a: Seq<char>, b: Seq<char>, c: Seq<char>)
    requires
        lex_lt(a, b),
        lex_lt(b, c),
    ensures
        lex_lt(a, c),
{
    lemma_lex_from_transitive(a, b, c, 0);
}

/// Lexicographic comparison of two strings, character by character.
pub fn str_lt(a: &str, b: &str) -> (r: bool)
    ensures
        r == lex_lt(a@, b@),
{
    let la = a.unicode_len();
    let lb = b.unicode_len();
    let mut i: usize = 0;
    loop
        invariant
            i <= la,
            i <= lb,
            la == a@.len(),
            lb == b@.len(),
            lex_lt(a@, b@) == lex_lt_from(a@, b@, i as int),
        decreases la - i,
    {
        if i >= lb {
            return false;
        }
        if i >= la {
            return true;
        }
        let ca = a.get_char(i);
        let cb = b.get_char(i);
        if ca != cb {
            return (ca as u32) < (cb as u32);
        }
        i = i + 1;
    }
}

proof fn lemma_insert_keeps_sorted(old_r: Seq<String>, new_r: Seq<String>, x: String, p: int)
    requires
        0 <= p <= old_r.len(),
        new_r == old_r.insert(p, x),
        forall|k1: int, k2: int| 0 <= k1 < k2 < old_r.len() ==> lex_lt(old_r[k1]@, old_r[k2]@),
        forall|k: int| 0 <= k < p ==> lex_lt(#[trigger] (old_r[k]@), x@),
        p < old_r.len() ==> lex_lt(x@, old_r[p]@),
    ensures
        forall|k1: int, k2: int| 0 <= k1 < k2 < new_r.len() ==> lex_lt(new_r[k1]@, new_r[k2]@),
{
    assert forall|k1: int, k2: int| 0 <= k1 < k2 < new_r.len() implies lex_lt(
        new_r[k1]@,
        new_r[k2]@,
    ) by {
        if k2 == p {
            assert(new_r[k1] == old_r[k1]);
        } else if k1 == p {
            assert(new_r[k2] == old_r[k2 - 1]);
            if k2 - 1 > p {
                lemma_lex_transitive(x@, old_r[p]@, old_r[k2 - 1]@);
            }
        } else if k1 < p && k2 > p {
            assert(new_r[k1] == old_r[k1]);
            assert(new_r[k2] == old_r[k2 - 1]);
            if k2 - 1 == k1 {
                lemma_lex_transitive(old_r[k1]@, x@, old_r[p]@);
            }
        } else if k2 < p {
            assert(new_r[k1] == old_r[k1]);
            assert(new_r[k2] == old_r[k2]);
        } else {
            assert(new_r[k1] == old_r[k1 - 1]);
            assert(new_r[k2] == old_r[k2 - 1]);
        }
    }
}

proof fn lemma_insert_keeps_contents(
    old_r: Seq<String>,
    new_r: Seq<String>,
    names: Seq<String>,
    p: int,
    j: int,
)
    requires
        0 <= p <= old_r.len(),
        0 <= j < names.len(),
        new_r == old_r.insert(p, names[j]),
        forall|k: int| #![trigger old_r[k]]
            0 <= k < old_r.len() ==> exists|q: int|
                0 <= q < j && old_r[k]@ == #[trigger] (names[q]@),
        forall|q: int| #![trigger names[q]]
            0 <= q < j ==> exists|k: int| 0 <= k < old_r.len() && names[q]@ == #[trigger] (old_r[k]@),
    ensures
        forall|k: int| #![trigger new_r[k]]
            0 <= k < new_r.len() ==> exists|q: int|
                0 <= q < j + 1 && new_r[k]@ == #[trigger] (names[q]@),
        forall|q: int| #![trigger names[q]]
            0 <= q < j + 1 ==> exists|k: int|
                0 <= k < new_r.len() && names[q]@ == #[trigger] (new_r[k]@),
{
    assert forall|k: int| #![trigger new_r[k]] 0 <= k < new_r.len() implies exists|q: int|
        0 <= q < j + 1 && new_r[k]@ == #[trigger] (names[q]@) by {
        if k == p {
            assert(new_r[k]@ == names[j]@);
        } else {
            let ko: int = if k < p {
                k
            } else {
                k - 1
            };
            assert(new_r[k] == old_r[ko]);
            let q = choose|q: int| 0 <= q < j && old_r[ko]@ == #[trigger] (names[q]@);
            assert(new_r[k]@ == names[q]@);
        }
    }
    assert forall|q: int| #![trigger names[q]] 0 <= q < j + 1 implies exists|k: int|
        0 <= k < new_r.len() && names[q]@ == #[trigger] (new_r[k]@) by {
        if q == j {
            assert(names[q]@ == new_r[p]@);
        } else {
            let ko = choose|ko: int| 0 <= ko < old_r.len() && names[q]@ == #[trigger] (old_r[ko]@);
            let k: int = if ko < p {
                ko
            } else {
                ko + 1
            };
            assert(new_r[k] == old_r[ko]);
            assert(names[q]@ == new_r[k]@);
        }
    }
}

proof fn char_neq_u32(a: char, b: char)
    requires
        a != b,
    ensures
        (a as u32) != (b as u32),
{
}

/// Some entry of `s` before position `n` has view `v`.
pub open spec fn has_view_upto(s: Seq<String>, n: int, v: Seq<char>) -> bool {
    exists|k: int| 0 <= k < n && k < s.len() && s[k]@ == v
}

/// Some entry of `s` has view `v`.
pub open spec fn has_view(s: Seq<String>, v: Seq<char>) -> bool {
    has_view_upto(s, s.len() as int, v)
}

pub proof fn lemma_has_view(s: Seq<String>, k: int)
    requires
        0 <= k < s.len(),
    ensures
        has_view(s, s[k]@),
{
    assert(0 <= k < s.len() && k < s.len() && s[k]@ == s[k]@);
}

proof fn lemma_upto_widen(s: Seq<String>, n: int, m: int, v: Seq<char>)
    requires
        has_view_upto(s, n, v),
        n <= m,
    ensures
        has_view_upto(s, m, v),
{
    let k = choose|k: int| 0 <= k < n && k < s.len() && s[k]@ == v;
    assert(0 <= k < m && k < s.len() && s[k]@ == v);
}

/// Equality of two strings, decided by two lexicographic comparisons.
pub fn str_eq(a: &str, b: &str) -> (r: bool)
    ensures
        r == (a@ == b@),
{
    proof {
        lemma_lex_total(a@, b@);
        lemma_lex_asymmetric(a@, b@);
    }
    if str_lt(a, b) {
        false
    } else if str_lt(b, a) {
        false
    } else {
        true
    }
}

/// Insert a name into a strictly sorted vector, keeping it sorted and
/// without duplicates.
fn insert_unique_sorted(r: &mut Vec<String>, name: &String)
    requires
        forall|k1: int, k2: int| 0 <= k1 < k2 < old(r)@.len() ==> lex_lt(old(r)@[k1]@, old(r)@[k2]@),
    ensures
        forall|k1: int, k2: int| 0 <= k1 < k2 < final(r)@.len() ==> lex_lt(final(r)@[k1]@, final(r)@[k2]@),
        forall|k: int| #![trigger final(r)@[k]]
            0 <= k < final(r)@.len() ==> final(r)@[k]@ == name@ || has_view(old(r)@, final(r)@[k]@),
        forall|q: int| #![trigger old(r)@[q]]
            0 <= q < old(r)@.len() ==> has_view(final(r)@, old(r)@[q]@),
        has_view(final(r)@, name@),
{
    let mut pos: usize = 0;
    while pos < r.len()
        invariant
            pos <= r@.len(),
            r@ == old(r)@,
            forall|k: int| 0 <= k < pos ==> lex_lt(#[trigger] (r@[k]@), name@),
        ensures
            pos <= r@.len(),
            r@ == old(r)@,
            forall|k: int| 0 <= k < pos ==> lex_lt(#[trigger] (r@[k]@), name@),
            pos < r@.len() ==> !lex_lt(r@[pos as int]@, name@),
        decreases r@.len() - pos,
    {
        if !str_lt(r[pos].as_str(), name.as_str()) {
            break;
        }
        pos = pos + 1;
    }
    if pos < r.len() && !str_lt(name.as_str(), r[pos].as_str()) {
        proof {
            lemma_lex_total(name@, r@[pos as int]@);
            assert(name@ == r@[pos as int]@);
            lemma_has_view(r@, pos as int);
            assert forall|k: int| #![trigger r@[k]] 0 <= k < r@.len() implies r@[k]@ == name@
                || has_view(old(r)@, r@[k]@) by {
                lemma_has_view(old(r)@, k);
            }
            assert forall|q: int| #![trigger old(r)@[q]] 0 <= q < old(r)@.len() implies has_view(
                r@,
                old(r)@[q]@,
            ) by {
                lemma_has_view(r@, q);
            }
        }
    } else {
        let ghost old_r = r@;
        r.insert(pos, name.clone());
        proof {
            let p = pos as int;
            lemma_insert_keeps_sorted(old_r, r@, *name, p);
            assert(r@[p]@ == name@);
            lemma_has_view(r@, p);
            assert forall|k: int| #![trigger r@[k]] 0 <= k < r@.len() implies r@[k]@ == name@
                || has_view(old_r, r@[k]@) by {
                if k != p {
                    let ko: int = if k < p {
                        k
                    } else {
                        k - 1
                    };
                    assert(r@[k] == old_r[ko]);
                    lemma_has_view(old_r, ko);
                }
            }
            assert forall|q: int| #![trigger old_r[q]] 0 <= q < old_r.len() implies has_view(
                r@,
                old_r[q]@,
            ) by {
                let k: int = if q < p {
                    q
                } else {
                    q + 1
                };
                assert(old_r[q] == r@[k]);
                lemma_has_view(r@, k);
            }
        }
    }
}

/// The distinct names of the input, in strictly ascending lexicographic
/// order: every input name appears in the result, and nothing else does.
pub fn sorted_unique_ids(names: &Vec<String>) -> (r: Vec<String>)
    ensures
        forall|k1: int, k2: int| 0 <= k1 < k2 < r@.len() ==> lex_lt(r@[k1]@, r@[k2]@),
        forall|k: int| #![trigger r@[k]] 0 <= k < r@.len() ==> has_view(names@, r@[k]@),
        forall|j: int| #![trigger names@[j]] 0 <= j < names@.len() ==> has_view(r@, names@[j]@),
{
    let mut r: Vec<String> = Vec::new();
    let mut j: usize = 0;
    while j < names.len()
        invariant
            j <= names@.len(),
            forall|k1: int, k2: int| 0 <= k1 < k2 < r@.len() ==> lex_lt(r@[k1]@, r@[k2]@),
            forall|k: int| #![trigger r@[k]]
                0 <= k < r@.len() ==> has_view_upto(names@, j as int, r@[k]@),
            forall|jj: int| #![trigger names@[jj]] 0 <= jj < j ==> has_view(r@, names@[jj]@),
        decreases names@.len() - j,
    {
        let ghost before = r@;
        let ghost jn = j as int;
        insert_unique_sorted(&mut r, &names[j]);
        proof {
            assert forall|k: int| #![trigger r@[k]] 0 <= k < r@.len() implies has_view_upto(
                names@,
                jn + 1,
                r@[k]@,
            ) by {
                if r@[k]@ == names@[jn]@ {
                    assert(0 <= jn < jn + 1 && jn < names@.len() && names@[jn]@ == r@[k]@);
                } else {
                    assert(has_view(before, r@[k]@));
                    let q = choose|q: int| 0 <= q < before.len() && before[q]@ == r@[k]@;
                    assert(has_view_upto(names@, jn, before[q]@));
                    lemma_upto_widen(names@, jn, jn + 1, before[q]@);
                }
            }
            assert forall|jj: int| #![trigger names@[jj]] 0 <= jj < jn + 1 implies has_view(
                r@,
                names@[jj]@,
            ) by {
                if jj < jn {
                    assert(has_view(before, names@[jj]@));
                    let q = choose|q: int| 0 <= q < before.len() && before[q]@ == names@[jj]@;
                    assert(has_view(r@, before[q]@));
                }
            }
        }
        j = j + 1;
    }
    r
}

} // verus!
