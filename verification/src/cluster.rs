//! Clustering primitives: a disjoint-set forest, threshold clustering over
//! similarity triples, and the silhouette and within-cluster variance
//! quality measures.

use vstd::prelude::*;
use crate::types::{lex_lt, has_view, sorted_unique_ids};

verus! {

/// Well-formed forest: parents stay in range, and a ghost level strictly
/// decreases from child to parent, which makes every parent chain finite.
pub open spec fn uf_wf(p: Seq<usize>, lv: Seq<nat>) -> bool {
    &&& p.len() == lv.len()
    &&& forall|x: int| 0 <= x < p.len() ==> (#[trigger] p[x]) < p.len()
    &&& forall|x: int| 0 <= x < p.len() && (#[trigger] p[x]) != x ==> lv[p[x] as int] < lv[x]
}

/// The root of the tree that `x` belongs to.
pub open spec fn root_of(p: Seq<usize>, lv: Seq<nat>, x: int) -> int
    decreases (if uf_wf(p, lv) && 0 <= x < p.len() { lv[x] } else { 0nat }),
{
    if uf_wf(p, lv) && 0 <= x < p.len() && p[x] != x {
        root_of(p, lv, p[x] as int)
    } else {
        x
    }
}

proof fn lemma_root_props(p: Seq<usize>, lv: Seq<nat>, x: int)
    requires
        uf_wf(p, lv),
        0 <= x < p.len(),
    ensures
        0 <= root_of(p, lv, x) < p.len(),
        p[root_of(p, lv, x)] == root_of(p, lv, x),
        lv[root_of(p, lv, x)] <= lv[x],
        p[x] != x ==> lv[root_of(p, lv, x)] < lv[x],
    decreases lv[x],
{
    if p[x] != x {
        lemma_root_props(p, lv, p[x] as int);
    }
}

/// Re-pointing a node straight to its root keeps the forest well formed
/// and changes no root.
proof fn lemma_repoint_one(p: Seq<usize>, lv: Seq<nat>, c: int, y: int)
    requires
        uf_wf(p, lv),
        0 <= c < p.len(),
        p[c] != c,
        0 <= y < p.len(),
        uf_wf(p.update(c, root_of(p, lv, c) as usize), lv),
    ensures
        root_of(p.update(c, root_of(p, lv, c) as usize), lv, y) == root_of(p, lv, y),
    decreases lv[y],
{
    let rt = root_of(p, lv, c);
    let p2 = p.update(c, rt as usize);
    lemma_root_props(p, lv, c);
    if y == c {
        if rt != c {
            lemma_root_props(p, lv, rt);
            assert(root_of(p2, lv, y) == root_of(p2, lv, rt));
        }
    } else {
        if p[y] != y {
            lemma_repoint_one(p, lv, c, p[y] as int);
        }
    }
}

proof fn lemma_repoint(p: Seq<usize>, lv: Seq<nat>, c: int)
    requires
        uf_wf(p, lv),
        0 <= c < p.len(),
        p[c] != c,
    ensures
        uf_wf(p.update(c, root_of(p, lv, c) as usize), lv),
        forall|y: int|
            0 <= y < p.len() ==> root_of(p.update(c, root_of(p, lv, c) as usize), lv, y)
                == root_of(p, lv, y),
{
    let rt = root_of(p, lv, c);
    lemma_root_props(p, lv, c);
    let p2 = p.update(c, rt as usize);
    assert(uf_wf(p2, lv));
    assert forall|y: int| 0 <= y < p.len() implies root_of(p2, lv, y) == root_of(p, lv, y) by {
        lemma_repoint_one(p, lv, c, y);
    }
}

/// Linking root `rb` under root `ra`, with the levels of `rb`'s whole tree
/// shifted up, keeps the forest well formed and reroots exactly that tree.
proof fn lemma_link_one(p: Seq<usize>, lv: Seq<nat>, ra: int, rb: int, y: int)
    requires
        uf_wf(p, lv),
        0 <= ra < p.len(),
        0 <= rb < p.len(),
        ra != rb,
        p[ra] == ra,
        p[rb] == rb,
        0 <= y < p.len(),
        uf_wf(
            p.update(rb, ra as usize),
            Seq::new(
                lv.len(),
                |z: int|
                    if root_of(p, lv, z) == rb {
                        (lv[z] + lv[ra] + 1) as nat
                    } else {
                        lv[z]
                    },
            ),
        ),
    ensures
        root_of(
            p.update(rb, ra as usize),
            Seq::new(
                lv.len(),
                |z: int|
                    if root_of(p, lv, z) == rb {
                        (lv[z] + lv[ra] + 1) as nat
                    } else {
                        lv[z]
                    },
            ),
            y,
        ) == (if root_of(p, lv, y) == rb {
            ra
        } else {
            root_of(p, lv, y)
        }),
    decreases lv[y],
{
    let p2 = p.update(rb, ra as usize);
    let lv2 = Seq::new(
        lv.len(),
        |z: int|
            if root_of(p, lv, z) == rb {
                (lv[z] + lv[ra] + 1) as nat
            } else {
                lv[z]
            },
    );
    if y == rb {
        assert(root_of(p, lv, ra) == ra);
        assert(p2[ra] == ra);
        assert(root_of(p2, lv2, ra) == ra);
        assert(root_of(p2, lv2, y) == root_of(p2, lv2, ra));
    } else if p[y] == y {
    } else {
        lemma_link_one(p, lv, ra, rb, p[y] as int);
    }
}

proof fn lemma_link(p: Seq<usize>, lv: Seq<nat>, ra: int, rb: int)
    requires
        uf_wf(p, lv),
        0 <= ra < p.len(),
        0 <= rb < p.len(),
        ra != rb,
        p[ra] == ra,
        p[rb] == rb,
    ensures
        uf_wf(
            p.update(rb, ra as usize),
            Seq::new(
                lv.len(),
                |z: int|
                    if root_of(p, lv, z) == rb {
                        (lv[z] + lv[ra] + 1) as nat
                    } else {
                        lv[z]
                    },
            ),
        ),
        forall|y: int|
            0 <= y < p.len() ==> root_of(
                p.update(rb, ra as usize),
                Seq::new(
                    lv.len(),
                    |z: int|
                        if root_of(p, lv, z) == rb {
                            (lv[z] + lv[ra] + 1) as nat
                        } else {
                            lv[z]
                        },
                ),
                y,
            ) == (if root_of(p, lv, y) == rb {
                ra
            } else {
                root_of(p, lv, y)
            }),
{
    let p2 = p.update(rb, ra as usize);
    let lv2 = Seq::new(
        lv.len(),
        |z: int|
            if root_of(p, lv, z) == rb {
                (lv[z] + lv[ra] + 1) as nat
            } else {
                lv[z]
            },
    );
    assert forall|x: int| 0 <= x < p2.len() && (#[trigger] p2[x]) != x implies lv2[p2[x] as int]
        < lv2[x] by {
        if x == rb {
            assert(root_of(p, lv, ra) == ra);
            assert(root_of(p, lv, rb) == rb);
        } else {
            assert(p2[x] == p[x]);
            assert(root_of(p, lv, x) == root_of(p, lv, p[x] as int));
        }
    }
    assert(uf_wf(p2, lv2));
    assert forall|y: int| 0 <= y < p.len() implies root_of(p2, lv2, y) == (if root_of(p, lv, y)
        == rb {
        ra
    } else {
        root_of(p, lv, y)
    }) by {
        lemma_link_one(p, lv, ra, rb, y);
    }
}

/// Disjoint-set forest with union by rank and path compression.
pub struct UnionFind {
    parent: Vec<usize>,
    rank: Vec<usize>,
    levels: Ghost<Seq<nat>>,
}

impl UnionFind {
    /// The forest invariant.
    pub closed spec fn wf(self) -> bool {
        &&& uf_wf(self.parent@, self.levels@)
        &&& self.rank@.len() == self.parent@.len()
    }

    /// Number of elements.
    pub closed spec fn len(self) -> nat {
        self.parent@.len()
    }

    /// The canonical representative of `x`: two elements are in the same
    /// set exactly when their representatives are equal.
    pub closed spec fn repr(self, x: int) -> int {
        root_of(self.parent@, self.levels@, x)
    }

    /// A fresh forest of `n` singletons.
    pub fn new(n: usize) -> (uf: UnionFind)
        ensures
            uf.wf(),
            uf.len() == n,
            forall|x: int| 0 <= x < n ==> uf.repr(x) == x,
    {
        let mut parent: Vec<usize> = Vec::new();
        let mut rank: Vec<usize> = Vec::new();
        let mut i: usize = 0;
        while i < n
            invariant
                i <= n,
                parent@.len() == i,
                rank@.len() == i,
                forall|x: int| 0 <= x < i ==> parent@[x] == x,
                forall|x: int| 0 <= x < i ==> rank@[x] == 0,
            decreases n - i,
        {
            parent.push(i);
            rank.push(0);
            i = i + 1;
        }
        let uf = UnionFind { parent, rank, levels: Ghost(Seq::new(n as nat, |_x: int| 0nat)) };
        proof {
            assert(uf_wf(uf.parent@, uf.levels@));
        }
        uf
    }

    /// Find the representative of `x`, compressing the path behind it.
    pub fn find(&mut self, x: usize) -> (r: usize)
        requires
            old(self).wf(),
            x < old(self).len(),
        ensures
            final(self).wf(),
            final(self).len() == old(self).len(),
            forall|y: int| 0 <= y < old(self).len() ==> final(self).repr(y) == old(self).repr(y),
            r == old(self).repr(x as int),
            r < final(self).len(),
    {
        let ghost p0 = self.parent@;
        let ghost lv = self.levels@;
        let n = self.parent.len();
        let mut cur = x;
        loop
            invariant
                self.wf(),
                self.parent@ == p0,
                self.levels@ == lv,
                self.rank@.len() == n,
                n == p0.len(),
                cur < n,
                root_of(p0, lv, cur as int) == root_of(p0, lv, x as int),
            ensures
                cur < n,
                self.parent@ == p0,
                self.levels@ == lv,
                p0[cur as int] == cur,
                root_of(p0, lv, cur as int) == root_of(p0, lv, x as int),
            decreases lv[cur as int],
        {
            let pc = self.parent[cur];
            if pc == cur {
                break;
            }
            cur = pc;
        }
        let root = cur;
        proof {
            assert(root_of(p0, lv, root as int) == root);
        }
        let mut c = x;
        loop
            invariant
                self.wf(),
                self.levels@ == lv,
                self.rank@.len() == n,
                self.parent@.len() == n,
                c < n,
                root < n,
                self.parent@[root as int] == root,
                root_of(self.parent@, lv, c as int) == root,
                forall|y: int| 0 <= y < n ==> root_of(self.parent@, lv, y) == root_of(p0, lv, y),
            ensures
                self.wf(),
                self.levels@ == lv,
                self.rank@.len() == n,
                self.parent@.len() == n,
                forall|y: int| 0 <= y < n ==> root_of(self.parent@, lv, y) == root_of(p0, lv, y),
            decreases lv[c as int],
        {
            let next = self.parent[c];
            if next == c {
                break;
            }
            let ghost pc0 = self.parent@;
            proof {
                lemma_root_props(pc0, lv, c as int);
                lemma_repoint(pc0, lv, c as int);
            }
            self.parent.set(c, root);
            proof {
                assert(self.parent@ == pc0.update(c as int, root_of(pc0, lv, c as int) as usize));
                assert(root_of(pc0, lv, next as int) == root_of(pc0, lv, c as int));
            }
            c = next;
        }
        proof {
            assert(root_of(p0, lv, x as int) == root);
        }
        root
    }

    /// Merge the sets of `x` and `y` by rank; afterwards two elements are
    /// equivalent exactly when they already were, or when one was
    /// equivalent to `x` and the other to `y`.
    pub fn union(&mut self, x: usize, y: usize)
        requires
            old(self).wf(),
            x < old(self).len(),
            y < old(self).len(),
        ensures
            final(self).wf(),
            final(self).len() == old(self).len(),
            forall|z1: int, z2: int|
                0 <= z1 < old(self).len() && 0 <= z2 < old(self).len() ==> ((final(self).repr(z1)
                    == final(self).repr(z2)) <==> (old(self).repr(z1) == old(self).repr(z2) || (old(
                    self,
                ).repr(z1) == old(self).repr(x as int) && old(self).repr(z2) == old(self).repr(
                    y as int,
                )) || (old(self).repr(z1) == old(self).repr(y as int) && old(self).repr(z2) == old(
                    self,
                ).repr(x as int)))),
    {
        let ghost reprs0 = Seq::new(old(self).len(), |z: int| old(self).repr(z));
        let root_x = self.find(x);
        let root_y = self.find(y);
        if root_x == root_y {
            return ;
        }
        let n = self.parent.len();
        let ghost p1 = self.parent@;
        let ghost lv1 = self.levels@;
        proof {
            lemma_root_props(p1, lv1, x as int);
            lemma_root_props(p1, lv1, y as int);
            assert(root_of(p1, lv1, root_x as int) == root_x);
            assert(root_of(p1, lv1, root_y as int) == root_y);
        }
        let rank_x = self.rank[root_x];
        let rank_y = self.rank[root_y];
        let (ra, rb) = if rank_x < rank_y {
            (root_y, root_x)
        } else {
            (root_x, root_y)
        };
        proof {
            lemma_link(p1, lv1, ra as int, rb as int);
        }
        self.parent.set(rb, ra);
        self.levels = Ghost(
            Seq::new(
                lv1.len(),
                |z: int|
                    if root_of(p1, lv1, z) == rb {
                        (lv1[z] + lv1[ra as int] + 1) as nat
                    } else {
                        lv1[z]
                    },
            ),
        );
        if rank_x == rank_y {
            let rk = self.rank[root_x];
            if rk < usize::MAX {
                self.rank.set(root_x, rk + 1);
            }
        }
        proof {
            assert(self.parent@ == p1.update(rb as int, ra));
            assert(uf_wf(self.parent@, self.levels@));
        }
    }
}

/// The positions below `upto` whose entry equals `g`, in ascending order.
pub open spec fn indices_with(s: Seq<usize>, g: usize, upto: int) -> Seq<usize>
    decreases upto,
{
    if upto <= 0 {
        Seq::empty()
    } else {
        let prefix = indices_with(s, g, upto - 1);
        if upto - 1 < s.len() && s[upto - 1] == g {
            prefix.push((upto - 1) as usize)
        } else {
            prefix
        }
    }
}

pub proof fn lemma_indices_with_elems(s: Seq<usize>, g: usize, upto: int)
    requires
        upto <= s.len(),
        upto <= usize::MAX,
    ensures
        forall|k: int|
            0 <= k < indices_with(s, g, upto).len() ==> ((#[trigger] indices_with(s, g, upto)[k])
                as int) < upto && s[indices_with(s, g, upto)[k] as int] == g,
    decreases upto,
{
    if upto > 0 {
        lemma_indices_with_elems(s, g, upto - 1);
        let prefix = indices_with(s, g, upto - 1);
        let cur = indices_with(s, g, upto);
        assert forall|k: int| 0 <= k < cur.len() implies ((cur[k]) as int) < upto && s[cur[k] as int]
            == g by {
            if 0 <= upto - 1 < s.len() && s[upto - 1] == g {
                assert(cur == prefix.push((upto - 1) as usize));
                if k < prefix.len() {
                    assert(cur[k] == prefix[k]);
                } else {
                    assert(cur[k] == (upto - 1) as usize);
                }
            } else {
                assert(cur == prefix);
            }
        }
    }
}

pub proof fn lemma_indices_with_contains(s: Seq<usize>, g: usize, upto: int, i: int)
    requires
        0 <= i < upto,
        upto <= s.len(),
        upto <= usize::MAX,
        s[i] == g,
    ensures
        exists|k: int|
            0 <= k < indices_with(s, g, upto).len() && (#[trigger] indices_with(s, g, upto)[k])
                == i,
    decreases upto,
{
    let cur = indices_with(s, g, upto);
    let prefix = indices_with(s, g, upto - 1);
    if i == upto - 1 {
        assert(upto - 1 < s.len() && s[upto - 1] == g);
        assert(cur == prefix.push((upto - 1) as usize));
        assert(cur[cur.len() - 1] == i);
    } else {
        lemma_indices_with_contains(s, g, upto - 1, i);
        let k = choose|k: int| 0 <= k < prefix.len() && (#[trigger] prefix[k]) == i;
        assert(cur[k] == i);
    }
}

pub proof fn lemma_indices_with_len(s: Seq<usize>, g: usize, upto: int)
    requires
        0 <= upto <= s.len(),
        upto <= usize::MAX,
    ensures
        indices_with(s, g, upto).len() == count_eq(s.take(upto), g),
    decreases upto,
{
    if upto > 0 {
        lemma_indices_with_len(s, g, upto - 1);
        assert(s.take(upto).drop_last() =~= s.take(upto - 1));
        assert(s.take(upto).last() == s[upto - 1]);
    }
}

proof fn lemma_indices_ascending_cl(s: Seq<usize>, g: usize, upto: int)
    requires
        upto <= s.len(),
        upto <= usize::MAX,
    ensures
        forall|k1: int, k2: int|
            0 <= k1 < k2 < indices_with(s, g, upto).len() ==> (#[trigger] indices_with(s, g, upto)[
            k1]) < (#[trigger] indices_with(s, g, upto)[k2]),
    decreases upto,
{
    if upto > 0 {
        lemma_indices_ascending_cl(s, g, upto - 1);
        lemma_indices_with_elems(s, g, upto - 1);
        let pre = indices_with(s, g, upto - 1);
        let cur = indices_with(s, g, upto);
        assert forall|k1: int, k2: int|
            0 <= k1 < k2 < cur.len() implies (#[trigger] cur[k1]) < (#[trigger] cur[k2]) by {
            if k2 < pre.len() {
                assert(cur[k1] == pre[k1] && cur[k2] == pre[k2]);
            } else if k2 == pre.len() && cur.len() > pre.len() {
                assert(cur[k1] == pre[k1]);
                assert((pre[k1] as int) < upto - 1);
                assert(cur[k2] == (upto - 1) as usize);
            }
        }
    }
}

/// Some element is assigned the value `g`.
pub open spec fn value_used(assign: Seq<usize>, g: int) -> bool {
    exists|k: int| 0 <= k < assign.len() && ((#[trigger] assign[k]) as int) == g
}

/// Element `i` stands in some group.
pub open spec fn appears_in(groups: Seq<Vec<usize>>, i: usize) -> bool {
    exists|g: int, k: int|
        0 <= g < groups.len() && 0 <= k < groups[g]@.len() && groups[g]@[k] == i
}

/// Count of entries equal to `v`.
pub open spec fn count_eq(s: Seq<usize>, v: usize) -> nat
    decreases s.len(),
{
    if s.len() == 0 {
        0
    } else {
        count_eq(s.drop_last(), v) + if s.last() == v {
            1nat
        } else {
            0nat
        }
    }
}

/// Sum of `count_eq` over all values below `g`.
pub open spec fn sum_counts(s: Seq<usize>, g: int) -> nat
    decreases g,
{
    if g <= 0 {
        0
    } else {
        sum_counts(s, g - 1) + count_eq(s, (g - 1) as usize)
    }
}

proof fn lemma_count_push(s: Seq<usize>, v: usize, w: usize)
    ensures
        count_eq(s.push(v), w) == count_eq(s, w) + if v == w {
            1nat
        } else {
            0nat
        },
{
    assert(s.push(v).drop_last() =~= s);
}

proof fn lemma_sum_counts_push(s: Seq<usize>, v: usize, g: int)
    requires
        (v as int) < g,
        g <= usize::MAX,
    ensures
        sum_counts(s.push(v), g) == sum_counts(s, g) + 1,
    decreases g,
{
    if g > 0 {
        lemma_count_push(s, v, (g - 1) as usize);
        if (v as int) < g - 1 {
            lemma_sum_counts_push(s, v, g - 1);
        } else {
            lemma_sum_counts_same(s, v, g - 1);
        }
    }
}

proof fn lemma_sum_counts_same(s: Seq<usize>, v: usize, g: int)
    requires
        g <= v as int,
    ensures
        sum_counts(s.push(v), g) == sum_counts(s, g),
    decreases g,
{
    if g > 0 {
        lemma_count_push(s, v, (g - 1) as usize);
        lemma_sum_counts_same(s, v, g - 1);
    }
}

/// Every entry below `g` counted once: the counts add up to the length.
pub proof fn lemma_sum_counts_total(s: Seq<usize>, g: int)
    requires
        g <= usize::MAX,
        forall|k: int| 0 <= k < s.len() ==> (#[trigger] s[k]) < g,
    ensures
        sum_counts(s, g) == s.len(),
    decreases s.len(), g,
{
    if s.len() == 0 {
        if g > 0 {
            lemma_sum_counts_total(s, g - 1);
        }
    } else if s.len() > 0 {
        let s0 = s.drop_last();
        assert(s[s.len() - 1] == s.last());
        assert((s.last() as int) < g);
        assert forall|k: int| 0 <= k < s0.len() implies (#[trigger] s0[k]) < g by {
            assert(s0[k] == s[k]);
        }
        lemma_sum_counts_total(s0, g);
        lemma_sum_counts_push(s0, s.last(), g);
        assert(s0.push(s.last()) =~= s);
        assert(sum_counts(s0.push(s.last()), g) == sum_counts(s, g));
    }
}

/// Sum of the group sizes.
pub open spec fn sum_lens(gs: Seq<Vec<usize>>) -> nat
    decreases gs.len(),
{
    if gs.len() == 0 {
        0
    } else {
        sum_lens(gs.drop_last()) + gs.last()@.len()
    }
}


impl UnionFind {
    /// Group all elements by representative: the groups partition `0..n`,
    /// each group lists its members in ascending order, two elements share
    /// a group exactly when they share a representative, and the group
    /// sizes add up to `n`.
    pub fn components(&mut self) -> (groups: Vec<Vec<usize>>)
        requires
            old(self).wf(),
        ensures
            final(self).wf(),
            final(self).len() == old(self).len(),
            forall|y: int| 0 <= y < old(self).len() ==> final(self).repr(y) == old(self).repr(y),
            sum_lens(groups@) == old(self).len(),
            forall|g: int, k: int| #![trigger groups@[g]@[k]]
                0 <= g < groups@.len() && 0 <= k < groups@[g]@.len() ==> (groups@[g]@[k] as int)
                    < old(self).len(),
            forall|g: int, k1: int, k2: int|
                #![trigger groups@[g]@[k1], groups@[g]@[k2]]
                0 <= g < groups@.len() && 0 <= k1 < groups@[g]@.len() && 0 <= k2
                    < groups@[g]@.len() ==> old(self).repr(groups@[g]@[k1] as int) == old(
                    self,
                ).repr(groups@[g]@[k2] as int),
            forall|g1: int, k1: int, g2: int, k2: int|
                #![trigger groups@[g1]@[k1], groups@[g2]@[k2]]
                0 <= g1 < groups@.len() && 0 <= g2 < groups@.len() && g1 != g2 && 0 <= k1
                    < groups@[g1]@.len() && 0 <= k2 < groups@[g2]@.len() ==> old(self).repr(
                    groups@[g1]@[k1] as int,
                ) != old(self).repr(groups@[g2]@[k2] as int),
            forall|i: usize| (i as int) < old(self).len() ==> #[trigger] appears_in(groups@, i),
            forall|g: int| 0 <= g < groups@.len() ==> (#[trigger] groups@[g])@.len() > 0,
            forall|g: int, k1: int, k2: int|
                #![trigger groups@[g]@[k1], groups@[g]@[k2]]
                0 <= g < groups@.len() && 0 <= k1 < k2 < groups@[g]@.len() ==> groups@[g]@[k1]
                    < groups@[g]@[k2],
    {
        let ghost repr0 = Seq::new(old(self).len(), |z: int| old(self).repr(z));
        let n = self.parent.len();
        let mut roots: Vec<usize> = Vec::new();
        let mut i: usize = 0;
        while i < n
            invariant
                i <= n,
                self.wf(),
                self.len() == n,
                repr0.len() == n,
                forall|y: int| 0 <= y < n ==> self.repr(y) == repr0[y],
                roots@.len() == i,
                forall|k: int| 0 <= k < i ==> (#[trigger] roots@[k]) as int == repr0[k],
            decreases n - i,
        {
            let r = self.find(i);
            roots.push(r);
            i = i + 1;
        }

        let mut leaders: Vec<usize> = Vec::new();
        let mut assign: Vec<usize> = Vec::new();
        let mut i: usize = 0;
        while i < n
            invariant
                i <= n,
                roots@.len() == n,
                assign@.len() == i,
                forall|g1: int, g2: int|
                    0 <= g1 < g2 < leaders@.len() ==> leaders@[g1] != leaders@[g2],
                forall|k: int| 0 <= k < i ==> (#[trigger] assign@[k]) < leaders@.len(),
                forall|k: int|
                    0 <= k < i ==> leaders@[(#[trigger] assign@[k]) as int] == roots@[k],
                forall|g2: int| 0 <= g2 < leaders@.len() ==> #[trigger] value_used(assign@, g2),
            decreases n - i,
        {
            let r = roots[i];
            let mut g: usize = 0;
            let mut found = false;
            while g < leaders.len()
                invariant_except_break
                    !found,
                invariant
                    g <= leaders@.len(),
                    forall|g2: int| 0 <= g2 < g ==> leaders@[g2] != r,
                ensures
                    found ==> g < leaders@.len() && leaders@[g as int] == r,
                    !found ==> forall|g2: int| 0 <= g2 < leaders@.len() ==> leaders@[g2] != r,
                decreases leaders@.len() - g,
            {
                if leaders[g] == r {
                    found = true;
                    break;
                }
                g = g + 1;
            }
            let ghost old_assign = assign@;
            let ghost old_leaders = leaders@;
            if found {
                assign.push(g);
            } else {
                assign.push(leaders.len());
                leaders.push(r);
            }
            proof {
                assert forall|g2: int| 0 <= g2 < leaders@.len() implies #[trigger] value_used(
                    assign@,
                    g2,
                ) by {
                    if g2 < old_leaders.len() && value_used(old_assign, g2) {
                        let k = choose|k: int|
                            0 <= k < old_assign.len() && ((#[trigger] old_assign[k]) as int) == g2;
                        assert(assign@[k] == old_assign[k]);
                    } else {
                        assert((assign@[i as int] as int) == g2);
                    }
                }
            }
            i = i + 1;
        }

        let gcount = leaders.len();
        let mut groups: Vec<Vec<usize>> = Vec::new();
        let mut g: usize = 0;
        while g < gcount
            invariant
                g <= gcount,
                gcount == leaders@.len(),
                assign@.len() == n,
                roots@.len() == n,
                forall|k: int| 0 <= k < n ==> (#[trigger] assign@[k]) < gcount,
                forall|k: int|
                    0 <= k < n ==> leaders@[(#[trigger] assign@[k]) as int] == roots@[k],
                forall|g2: int| 0 <= g2 < gcount ==> #[trigger] value_used(assign@, g2),
                groups@.len() == g,
                sum_lens(groups@) == sum_counts(assign@, g as int),
                forall|g2: int|
                    0 <= g2 < g ==> (#[trigger] groups@[g2])@ == indices_with(
                        assign@,
                        g2 as usize,
                        n as int,
                    ),
            decreases gcount - g,
        {
            let mut row: Vec<usize> = Vec::new();
            let mut i: usize = 0;
            while i < n
                invariant
                    i <= n,
                    assign@.len() == n,
                    g < gcount,
                    row@ == indices_with(assign@, g, i as int),
                decreases n - i,
            {
                if assign[i] == g {
                    row.push(i);
                }
                i = i + 1;
            }
            proof {
                lemma_indices_with_len(assign@, g, n as int);
                assert(assign@.take(n as int) =~= assign@);
            }
            let ghost old_groups = groups@;
            groups.push(row);
            proof {
                assert(groups@.drop_last() =~= old_groups);
            }
            g = g + 1;
        }
        proof {
            lemma_sum_counts_total(assign@, gcount as int);
            assert forall|g2: int| 0 <= g2 < groups@.len() implies (#[trigger] groups@[g2])@.len()
                > 0 by {
                assert(value_used(assign@, g2));
                let k = choose|k: int|
                    0 <= k < assign@.len() && ((#[trigger] assign@[k]) as int) == g2;
                lemma_indices_with_contains(assign@, g2 as usize, n as int, k);
            }
            assert forall|g2: int, k1: int, k2: int|
                #![trigger groups@[g2]@[k1], groups@[g2]@[k2]]
                0 <= g2 < groups@.len() && 0 <= k1 < k2 < groups@[g2]@.len() implies groups@[g2]@[k1]
                < groups@[g2]@[k2] by {
                lemma_indices_ascending_cl(assign@, g2 as usize, n as int);
            }
            assert forall|y: int| 0 <= y < old(self).len() implies final(self).repr(y) == old(
                self,
            ).repr(y) by {
                assert(self.repr(y) == repr0[y]);
            }
            assert forall|g2: int, k: int|
                #![trigger groups@[g2]@[k]]
                0 <= g2 < groups@.len() && 0 <= k < groups@[g2]@.len() implies groups@[g2]@[k] < n
                && assign@[groups@[g2]@[k] as int] as int == g2 by {
                lemma_indices_with_elems(assign@, g2 as usize, n as int);
                assert(groups@[g2]@ == indices_with(assign@, g2 as usize, n as int));
            }
            assert forall|i: usize| (i as int) < old(self).len() implies #[trigger] appears_in(
                groups@,
                i,
            ) by {
                let gi = assign@[i as int];
                lemma_indices_with_contains(assign@, gi, n as int, i as int);
                let k = choose|k: int|
                    0 <= k < indices_with(assign@, gi, n as int).len() && (#[trigger] indices_with(
                        assign@,
                        gi,
                        n as int,
                    )[k]) == i as int;
                assert(groups@[gi as int]@ == indices_with(assign@, gi, n as int));
                assert(groups@[gi as int]@[k] == i);
            }
            assert forall|g1: int, k1: int, g2: int, k2: int|
                #![trigger groups@[g1]@[k1], groups@[g2]@[k2]]
                0 <= g1 < groups@.len() && 0 <= g2 < groups@.len() && g1 != g2 && 0 <= k1
                    < groups@[g1]@.len() && 0 <= k2 < groups@[g2]@.len() implies repr0[groups@[g1]@[k1] as int]
                != repr0[groups@[g2]@[k2] as int] by {
                assert(assign@[groups@[g1]@[k1] as int] as int == g1);
                assert(assign@[groups@[g2]@[k2] as int] as int == g2);
                assert(leaders@[g1] == roots@[groups@[g1]@[k1] as int]);
                assert(leaders@[g2] == roots@[groups@[g2]@[k2] as int]);
            }
        }
        groups
    }
}

/// The representatives after merging the classes of `a` and `b`.
pub open spec fn merged_reprs(reprs: Seq<int>, a: int, b: int) -> Seq<int> {
    reprs.map_values(
        |r: int|
            if r == reprs[b] {
                reprs[a]
            } else {
                r
            },
    )
}

/// The class representatives after taking every similarity triple at or
/// above the threshold, in order, as a merge.
pub open spec fn clustered_reprs(sims: Seq<(usize, usize, u64)>, n: nat, threshold: u64) -> Seq<
    int,
>
    decreases sims.len(),
{
    if sims.len() == 0 {
        Seq::new(n, |i: int| i)
    } else {
        let prev = clustered_reprs(sims.drop_last(), n, threshold);
        let t = sims.last();
        if t.2 >= threshold && (t.0 as int) < n && (t.1 as int) < n {
            merged_reprs(prev, t.0 as int, t.1 as int)
        } else {
            prev
        }
    }
}

proof fn lemma_clustered_len(sims: Seq<(usize, usize, u64)>, n: nat, threshold: u64)
    ensures
        clustered_reprs(sims, n, threshold).len() == n,
    decreases sims.len(),
{
    if sims.len() > 0 {
        lemma_clustered_len(sims.drop_last(), n, threshold);
    }
}

proof fn lemma_merged_iff(prev: Seq<int>, a: int, b: int, z1: int, z2: int)
    requires
        0 <= a < prev.len(),
        0 <= b < prev.len(),
        0 <= z1 < prev.len(),
        0 <= z2 < prev.len(),
    ensures
        (merged_reprs(prev, a, b)[z1] == merged_reprs(prev, a, b)[z2]) <==> (prev[z1] == prev[z2]
            || (prev[z1] == prev[a] && prev[z2] == prev[b]) || (prev[z1] == prev[b] && prev[z2]
            == prev[a])),
{
}

/// Cluster `0..n_items` by joining every pair whose similarity reaches the
/// threshold: the groups are exactly the classes of `clustered_reprs`, they
/// partition the items, and their sizes add up to `n_items`.
pub fn threshold_clustering(similarities: Vec<(usize, usize, u64)>, n_items: usize, threshold: u64) -> (clusters: Vec<Vec<usize>>)
    requires
        forall|t: int|
            0 <= t < similarities@.len() ==> (#[trigger] similarities@[t]).0 < n_items
                && similarities@[t].1 < n_items,
    ensures
        sum_lens(clusters@) == n_items,
        forall|g: int, k: int| #![trigger clusters@[g]@[k]]
            0 <= g < clusters@.len() && 0 <= k < clusters@[g]@.len() ==> (clusters@[g]@[k] as int)
                < n_items,
        forall|g: int, k1: int, k2: int|
            #![trigger clusters@[g]@[k1], clusters@[g]@[k2]]
            0 <= g < clusters@.len() && 0 <= k1 < clusters@[g]@.len() && 0 <= k2
                < clusters@[g]@.len() ==> clustered_reprs(
                similarities@,
                n_items as nat,
                threshold,
            )[clusters@[g]@[k1] as int] == clustered_reprs(
                similarities@,
                n_items as nat,
                threshold,
            )[clusters@[g]@[k2] as int],
        forall|g1: int, k1: int, g2: int, k2: int|
            #![trigger clusters@[g1]@[k1], clusters@[g2]@[k2]]
            0 <= g1 < clusters@.len() && 0 <= g2 < clusters@.len() && g1 != g2 && 0 <= k1
                < clusters@[g1]@.len() && 0 <= k2 < clusters@[g2]@.len() ==> clustered_reprs(
                similarities@,
                n_items as nat,
                threshold,
            )[clusters@[g1]@[k1] as int] != clustered_reprs(
                similarities@,
                n_items as nat,
                threshold,
            )[clusters@[g2]@[k2] as int],
        forall|i: usize| i < n_items ==> #[trigger] appears_in(clusters@, i),
        forall|g: int| 0 <= g < clusters@.len() ==> (#[trigger] clusters@[g])@.len() > 0,
        forall|g: int, k1: int, k2: int|
            #![trigger clusters@[g]@[k1], clusters@[g]@[k2]]
            0 <= g < clusters@.len() && 0 <= k1 < k2 < clusters@[g]@.len() ==> clusters@[g]@[k1]
                < clusters@[g]@[k2],
{
    let ghost n = n_items as nat;
    let mut uf = UnionFind::new(n_items);
    let mut t: usize = 0;
    while t < similarities.len()
        invariant
            t <= similarities@.len(),
            uf.wf(),
            uf.len() == n_items,
            forall|tt: int|
                0 <= tt < similarities@.len() ==> (#[trigger] similarities@[tt]).0 < n_items
                    && similarities@[tt].1 < n_items,
            clustered_reprs(similarities@.take(t as int), n, threshold).len() == n_items,
            forall|z1: int, z2: int|
                #![trigger uf.repr(z1), uf.repr(z2)]
                0 <= z1 < n_items && 0 <= z2 < n_items ==> ((uf.repr(z1) == uf.repr(z2))
                    <==> clustered_reprs(similarities@.take(t as int), n, threshold)[z1]
                    == clustered_reprs(similarities@.take(t as int), n, threshold)[z2]),
        decreases similarities@.len() - t,
    {
        let ghost prev = clustered_reprs(similarities@.take(t as int), n, threshold);
        let ghost ufprev = uf;
        proof {
            assert(similarities@.take(t + 1).drop_last() =~= similarities@.take(t as int));
            assert(similarities@.take(t + 1).last() == similarities@[t as int]);
            lemma_clustered_len(similarities@.take(t + 1), n, threshold);
        }
        let (a, b, w) = (similarities[t].0, similarities[t].1, similarities[t].2);
        if w >= threshold {
            uf.union(a, b);
            proof {
                let cur = clustered_reprs(similarities@.take(t + 1), n, threshold);
                assert(cur == merged_reprs(prev, a as int, b as int));
                assert forall|z1: int, z2: int|
                    #![trigger uf.repr(z1), uf.repr(z2)]
                    0 <= z1 < n_items && 0 <= z2 < n_items implies ((uf.repr(z1) == uf.repr(z2))
                    <==> cur[z1] == cur[z2]) by {
                    lemma_merged_iff(prev, a as int, b as int, z1, z2);
                    assert((ufprev.repr(z1) == ufprev.repr(z2)) <==> prev[z1] == prev[z2]);
                    assert((ufprev.repr(z1) == ufprev.repr(a as int)) <==> prev[z1] == prev[a as int]);
                    assert((ufprev.repr(z2) == ufprev.repr(b as int)) <==> prev[z2] == prev[b as int]);
                    assert((ufprev.repr(z1) == ufprev.repr(b as int)) <==> prev[z1] == prev[b as int]);
                    assert((ufprev.repr(z2) == ufprev.repr(a as int)) <==> prev[z2] == prev[a as int]);
                }
            }
        } else {
            proof {
                assert(clustered_reprs(similarities@.take(t + 1), n, threshold) == prev);
            }
        }
        t = t + 1;
    }
    proof {
        assert(similarities@.take(similarities@.len() as int) =~= similarities@);
    }
    let ghost cr = clustered_reprs(similarities@, n, threshold);
    let clusters = uf.components();
    clusters
}


/// The names that the triples mention, in order: source then target.
pub open spec fn edge_names(sims: Seq<(String, String, u64)>) -> Seq<String>
    decreases sims.len(),
{
    if sims.len() == 0 {
        Seq::empty()
    } else {
        edge_names(sims.drop_last()).push(sims.last().0).push(sims.last().1)
    }
}

proof fn lemma_edge_names_index(sims: Seq<(String, String, u64)>, t: int)
    requires
        0 <= t < sims.len(),
    ensures
        edge_names(sims).len() == 2 * sims.len(),
        edge_names(sims)[2 * t] == sims[t].0,
        edge_names(sims)[2 * t + 1] == sims[t].1,
    decreases sims.len(),
{
    lemma_edge_names_len(sims.drop_last());
    if t < sims.len() - 1 {
        lemma_edge_names_index(sims.drop_last(), t);
        assert(sims.drop_last()[t] == sims[t]);
    }
}

proof fn lemma_edge_names_len(sims: Seq<(String, String, u64)>)
    ensures
        edge_names(sims).len() == 2 * sims.len(),
    decreases sims.len(),
{
    if sims.len() > 0 {
        lemma_edge_names_len(sims.drop_last());
    }
}

/// Some cluster member has view `v`.
pub open spec fn name_appears(clusters: Seq<Vec<String>>, v: Seq<char>) -> bool {
    exists|g: int, k: int|
        0 <= g < clusters.len() && 0 <= k < clusters[g]@.len() && clusters[g]@[k]@ == v
}

/// Sum of the cluster sizes, for string clusters.
pub open spec fn sum_lens_str(gs: Seq<Vec<String>>) -> nat
    decreases gs.len(),
{
    if gs.len() == 0 {
        0
    } else {
        sum_lens_str(gs.drop_last()) + gs.last()@.len()
    }
}

/// Position of the first entry of `ids` whose view is `name`'s.
fn find_index(ids: &Vec<String>, name: &String) -> (r: usize)
    requires
        has_view(ids@, name@),
    ensures
        r < ids@.len(),
        ids@[r as int]@ == name@,
{
    let mut i: usize = 0;
    while i < ids.len()
        invariant
            i <= ids@.len(),
            has_view(ids@, name@),
            forall|k: int| 0 <= k < i ==> (#[trigger] ids@[k])@ != name@,
        decreases ids@.len() - i,
    {
        if ids[i] == *name {
            return i;
        }
        i = i + 1;
    }
    proof {
        let k = choose|k: int| 0 <= k < ids@.len() && k < ids@.len() && ids@[k]@ == name@;
        assert(false);
    }
    0
}

/// The triples with their names replaced by their positions in `ids`.
pub open spec fn index_triples(sims: Seq<(String, String, u64)>, ids: Seq<String>) -> Seq<(
    usize,
    usize,
    u64,
)> {
    Seq::new(
        sims.len(),
        |t: int|
            (
                crate::sparse::id_index(ids, sims[t].0@) as usize,
                crate::sparse::id_index(ids, sims[t].1@) as usize,
                sims[t].2,
            ),
    )
}

proof fn lemma_id_index_unique(ids: Seq<String>, r: int, v: Seq<char>)
    requires
        0 <= r < ids.len(),
        ids[r]@ == v,
        forall|k1: int, k2: int| 0 <= k1 < k2 < ids.len() ==> (#[trigger] ids[k1])@ != (#[trigger] ids[k2])@,
    ensures
        crate::sparse::id_index(ids, v) == r,
    decreases ids.len(),
{
    if r == 0 {
    } else {
        assert(ids[0]@ != v);
        let tail = ids.drop_first();
        assert forall|k1: int, k2: int| 0 <= k1 < k2 < tail.len() implies (#[trigger] tail[k1])@
            != (#[trigger] tail[k2])@ by {
            assert(tail[k1] == ids[k1 + 1]);
            assert(tail[k2] == ids[k2 + 1]);
        }
        assert(tail[r - 1] == ids[r]);
        lemma_id_index_unique(tail, r - 1, v);
    }
}

/// Threshold clustering over string-keyed triples: the distinct names are
/// indexed in ascending order, the indexed triples are clustered, and the
/// clusters are mapped back to names. Every member is an input name, every
/// input name appears in a cluster, and the cluster sizes add up to the
/// number of distinct input names.
pub fn threshold_clustering_with_ids(similarities: Vec<(String, String, u64)>, threshold: u64) -> (clusters: Vec<Vec<String>>)
    ensures
        forall|g: int, k: int| #![trigger clusters@[g]@[k]]
            0 <= g < clusters@.len() && 0 <= k < clusters@[g]@.len() ==> has_view(
                edge_names(similarities@),
                clusters@[g]@[k]@,
            ),
        forall|j: int| #![trigger edge_names(similarities@)[j]]
            0 <= j < edge_names(similarities@).len() ==> name_appears(
                clusters@,
                edge_names(similarities@)[j]@,
            ),
        exists|ids: Seq<String>|
            #![trigger clustered_reprs(index_triples(similarities@, ids), ids.len(), threshold)]
            {
                let reprs = clustered_reprs(
                    index_triples(similarities@, ids),
                    ids.len(),
                    threshold,
                );
                &&& forall|k1: int, k2: int| 0 <= k1 < k2 < ids.len() ==> lex_lt(ids[k1]@, ids[k2]@)
                &&& forall|k: int| #![trigger ids[k]]
                    0 <= k < ids.len() ==> has_view(edge_names(similarities@), ids[k]@)
                &&& forall|j: int| #![trigger edge_names(similarities@)[j]]
                    0 <= j < edge_names(similarities@).len() ==> has_view(
                        ids,
                        edge_names(similarities@)[j]@,
                    )
                &&& sum_lens_str(clusters@) == ids.len()
                &&& forall|g: int, k1: int, k2: int|
                    #![trigger clusters@[g]@[k1], clusters@[g]@[k2]]
                    0 <= g < clusters@.len() && 0 <= k1 < clusters@[g]@.len() && 0 <= k2
                        < clusters@[g]@.len() ==> reprs[crate::sparse::id_index(
                        ids,
                        clusters@[g]@[k1]@,
                    )] == reprs[crate::sparse::id_index(ids, clusters@[g]@[k2]@)]
                &&& forall|g1: int, k1: int, g2: int, k2: int|
                    #![trigger clusters@[g1]@[k1], clusters@[g2]@[k2]]
                    0 <= g1 < clusters@.len() && 0 <= g2 < clusters@.len() && g1 != g2 && 0 <= k1
                        < clusters@[g1]@.len() && 0 <= k2 < clusters@[g2]@.len() ==> reprs[crate::sparse::id_index(
                        ids,
                        clusters@[g1]@[k1]@,
                    )] != reprs[crate::sparse::id_index(ids, clusters@[g2]@[k2]@)]
            },
{
    let ghost en = edge_names(similarities@);
    let mut names: Vec<String> = Vec::new();
    let mut t: usize = 0;
    while t < similarities.len()
        invariant
            t <= similarities@.len(),
            names@ == edge_names(similarities@.take(t as int)),
        decreases similarities@.len() - t,
    {
        proof {
            assert(similarities@.take(t + 1).drop_last() =~= similarities@.take(t as int));
            assert(similarities@.take(t + 1).last() == similarities@[t as int]);
        }
        names.push(similarities[t].0.clone());
        names.push(similarities[t].1.clone());
        t = t + 1;
    }
    proof {
        assert(similarities@.take(similarities@.len() as int) =~= similarities@);
        assert(names@ == en);
    }
    let ids = sorted_unique_ids(&names);
    let n = ids.len();

    let mut idx_sims: Vec<(usize, usize, u64)> = Vec::new();
    let mut t: usize = 0;
    while t < similarities.len()
        invariant
            t <= similarities@.len(),
            names@ == en,
            en == edge_names(similarities@),
            n == ids@.len(),
            forall|k1: int, k2: int| 0 <= k1 < k2 < ids@.len() ==> lex_lt(ids@[k1]@, ids@[k2]@),
            forall|k: int| #![trigger ids@[k]] 0 <= k < ids@.len() ==> has_view(names@, ids@[k]@),
            forall|j: int| #![trigger names@[j]]
                0 <= j < names@.len() ==> has_view(ids@, names@[j]@),
            idx_sims@.len() == t,
            forall|tt: int|
                0 <= tt < idx_sims@.len() ==> (#[trigger] idx_sims@[tt]).0 < n
                    && idx_sims@[tt].1 < n,
            forall|tt: int|
                #![trigger idx_sims@[tt]]
                0 <= tt < idx_sims@.len() ==> ids@[idx_sims@[tt].0 as int]@
                    == similarities@[tt].0@ && ids@[idx_sims@[tt].1 as int]@
                    == similarities@[tt].1@ && idx_sims@[tt].2 == similarities@[tt].2,
        decreases similarities@.len() - t,
    {
        proof {
            lemma_edge_names_index(similarities@, t as int);
            assert(names@[2 * (t as int)] == similarities@[t as int].0);
            assert(names@[2 * (t as int) + 1] == similarities@[t as int].1);
        }
        let ia = find_index(&ids, &similarities[t].0);
        let ib = find_index(&ids, &similarities[t].1);
        let w = similarities[t].2;
        idx_sims.push((ia, ib, w));
        t = t + 1;
    }

    let iclusters = threshold_clustering(idx_sims, n, threshold);

    let mut clusters: Vec<Vec<String>> = Vec::new();
    let mut g: usize = 0;
    while g < iclusters.len()
        invariant
            g <= iclusters@.len(),
            n == ids@.len(),
            clusters@.len() == g,
            forall|g2: int, k: int| #![trigger iclusters@[g2]@[k]]
                0 <= g2 < iclusters@.len() && 0 <= k < iclusters@[g2]@.len() ==> (
                iclusters@[g2]@[k] as int) < n,
            sum_lens_str(clusters@) == sum_lens(iclusters@.take(g as int)),
            forall|g2: int| 0 <= g2 < g ==> (#[trigger] clusters@[g2])@.len()
                == iclusters@[g2]@.len(),
            forall|g2: int, k: int| #![trigger clusters@[g2]@[k]]
                0 <= g2 < g && 0 <= k < clusters@[g2]@.len() ==> clusters@[g2]@[k]@
                    == ids@[iclusters@[g2]@[k] as int]@,
        decreases iclusters@.len() - g,
    {
        let irow = &iclusters[g];
        let mut row: Vec<String> = Vec::new();
        let mut k: usize = 0;
        while k < irow.len()
            invariant
                k <= irow@.len(),
                n == ids@.len(),
                irow == iclusters@[g as int],
                g < iclusters@.len(),
                forall|g2: int, kk: int| #![trigger iclusters@[g2]@[kk]]
                    0 <= g2 < iclusters@.len() && 0 <= kk < iclusters@[g2]@.len() ==> (
                    iclusters@[g2]@[kk] as int) < n,
                row@.len() == k,
                forall|kk: int|
                    0 <= kk < k ==> (#[trigger] row@[kk])@ == ids@[irow@[kk] as int]@,
            decreases irow@.len() - k,
        {
            row.push(ids[irow[k]].clone());
            k = k + 1;
        }
        proof {
            assert(iclusters@.take(g + 1).drop_last() =~= iclusters@.take(g as int));
            assert(iclusters@.take(g + 1).last() == iclusters@[g as int]);
        }
        let ghost old_clusters = clusters@;
        let ghost row_snap = row@;
        clusters.push(row);
        proof {
            assert(clusters@.drop_last() =~= old_clusters);
            assert(clusters@.last()@ == row_snap);
            assert(sum_lens_str(clusters@) == sum_lens_str(old_clusters) + row_snap.len());
            assert(row_snap.len() == iclusters@[g as int]@.len());
            assert(sum_lens(iclusters@.take(g + 1)) == sum_lens(iclusters@.take(g as int))
                + iclusters@[g as int]@.len());
        }
        g = g + 1;
    }
    proof {
        assert(iclusters@.take(iclusters@.len() as int) =~= iclusters@);
        assert(sum_lens_str(clusters@) == sum_lens(iclusters@));
        assert forall|g2: int, k: int|
            #![trigger clusters@[g2]@[k]]
            0 <= g2 < clusters@.len() && 0 <= k < clusters@[g2]@.len() implies has_view(
            en,
            clusters@[g2]@[k]@,
        ) by {
            let idx = iclusters@[g2]@[k] as int;
            assert(clusters@[g2]@[k]@ == ids@[idx]@);
            assert(has_view(names@, ids@[idx]@));
        }
        assert forall|j: int| #![trigger en[j]] 0 <= j < en.len() implies name_appears(
            clusters@,
            en[j]@,
        ) by {
            assert(names@[j] == en[j]);
            assert(has_view(ids@, names@[j]@));
            let k = choose|k: int| 0 <= k < ids@.len() && k < ids@.len() && ids@[k]@ == names@[j]@;
            assert(appears_in(iclusters@, k as usize));
            let (g2, kk) = choose|g2: int, kk: int|
                0 <= g2 < iclusters@.len() && 0 <= kk < iclusters@[g2]@.len()
                    && iclusters@[g2]@[kk] == k as usize;
            assert(clusters@[g2]@[kk]@ == ids@[k]@);
        }
        assert(sum_lens_str(clusters@) == ids@.len()) by {
            assert(sum_lens(iclusters@) == n);
        }
        assert forall|k1: int, k2: int| 0 <= k1 < k2 < ids@.len() implies (#[trigger] ids@[k1])@
            != (#[trigger] ids@[k2])@ by {
            crate::types::lemma_lex_asymmetric(ids@[k1]@, ids@[k2]@);
        }
        assert(idx_sims@ =~= index_triples(similarities@, ids@)) by {
            assert forall|tt: int| 0 <= tt < similarities@.len() implies #[trigger] idx_sims@[tt]
                == index_triples(similarities@, ids@)[tt] by {
                lemma_id_index_unique(ids@, idx_sims@[tt].0 as int, similarities@[tt].0@);
                lemma_id_index_unique(ids@, idx_sims@[tt].1 as int, similarities@[tt].1@);
            }
        }
        let reprs = clustered_reprs(index_triples(similarities@, ids@), ids@.len(), threshold);
        assert(reprs == clustered_reprs(idx_sims@, n as nat, threshold));
        assert forall|g: int, k1: int, k2: int|
            #![trigger clusters@[g]@[k1], clusters@[g]@[k2]]
            0 <= g < clusters@.len() && 0 <= k1 < clusters@[g]@.len() && 0 <= k2
                < clusters@[g]@.len() implies reprs[crate::sparse::id_index(
            ids@,
            clusters@[g]@[k1]@,
        )] == reprs[crate::sparse::id_index(ids@, clusters@[g]@[k2]@)] by {
            let i1 = iclusters@[g]@[k1] as int;
            let i2 = iclusters@[g]@[k2] as int;
            assert(clusters@[g]@[k1]@ == ids@[i1]@);
            assert(clusters@[g]@[k2]@ == ids@[i2]@);
            lemma_id_index_unique(ids@, i1, clusters@[g]@[k1]@);
            lemma_id_index_unique(ids@, i2, clusters@[g]@[k2]@);
        }
        assert forall|g1: int, k1: int, g2: int, k2: int|
            #![trigger clusters@[g1]@[k1], clusters@[g2]@[k2]]
            0 <= g1 < clusters@.len() && 0 <= g2 < clusters@.len() && g1 != g2 && 0 <= k1
                < clusters@[g1]@.len() && 0 <= k2 < clusters@[g2]@.len() implies reprs[crate::sparse::id_index(
            ids@,
            clusters@[g1]@[k1]@,
        )] != reprs[crate::sparse::id_index(ids@, clusters@[g2]@[k2]@)] by {
            let i1 = iclusters@[g1]@[k1] as int;
            let i2 = iclusters@[g2]@[k2] as int;
            assert(clusters@[g1]@[k1]@ == ids@[i1]@);
            assert(clusters@[g2]@[k2]@ == ids@[i2]@);
            lemma_id_index_unique(ids@, i1, clusters@[g1]@[k1]@);
            lemma_id_index_unique(ids@, i2, clusters@[g2]@[k2]@);
        }
    }
    clusters
}

/// The stored similarity of the unordered pair `(a, b)`: the last triple
/// whose endpoints match, as in a map built by insertion.
pub open spec fn sim_lookup(sims: Seq<(usize, usize, u64)>, a: usize, b: usize) -> Option<u64>
    decreases sims.len(),
{
    if sims.len() == 0 {
        Option::None
    } else {
        let t = sims.last();
        if (t.0 == a && t.1 == b) || (t.0 == b && t.1 == a) {
            Option::Some(t.2)
        } else {
            sim_lookup(sims.drop_last(), a, b)
        }
    }
}

/// Scan for the stored similarity of a pair, later triples winning.
fn lookup_sim(sims: &Vec<(usize, usize, u64)>, a: usize, b: usize) -> (r: Option<u64>)
    ensures
        r == sim_lookup(sims@, a, b),
{
    let mut i: usize = sims.len();
    proof {
        assert(sims@.take(sims@.len() as int) =~= sims@);
    }
    while i > 0
        invariant
            i <= sims@.len(),
            sim_lookup(sims@, a, b) == sim_lookup(sims@.take(i as int), a, b),
        decreases i,
    {
        proof {
            assert(sims@.take(i as int).drop_last() =~= sims@.take(i - 1));
            assert(sims@.take(i as int).last() == sims@[i - 1]);
        }
        let t = sims[i - 1];
        if (t.0 == a && t.1 == b) || (t.0 == b && t.1 == a) {
            return Some(t.2);
        }
        i = i - 1;
    }
    proof {
        assert(sims@.take(0) =~= Seq::<(usize, usize, u64)>::empty());
    }
    None
}

/// All weights are similarities: at most one in fixed-point units.
pub open spec fn weights_bounded(sims: Seq<(usize, usize, u64)>) -> bool {
    forall|t: int| 0 <= t < sims.len() ==> (#[trigger] sims[t]).2 <= 1_000_000
}

proof fn lemma_sim_lookup_bounded(sims: Seq<(usize, usize, u64)>, a: usize, b: usize)
    requires
        weights_bounded(sims),
    ensures
        sim_lookup(sims, a, b) is Some ==> sim_lookup(sims, a, b)->0 <= 1_000_000,
    decreases sims.len(),
{
    if sims.len() > 0 {
        lemma_sim_lookup_bounded(sims.drop_last(), a, b);
    }
}

/// Sum of stored distances (one minus similarity, in fixed-point units) and
/// their count, from `p` to the members of `cluster` before `upto`,
/// skipping `p` itself.
pub open spec fn intra_stats(
    sims: Seq<(usize, usize, u64)>,
    cluster: Seq<usize>,
    p: usize,
    upto: int,
) -> (int, int)
    decreases upto,
{
    if upto <= 0 || upto > cluster.len() {
        (0, 0)
    } else {
        let prev = intra_stats(sims, cluster, p, upto - 1);
        let q = cluster[upto - 1];
        if q != p {
            match sim_lookup(sims, p, q) {
                Option::Some(w) => (prev.0 + 1_000_000 - w, prev.1 + 1),
                Option::None => prev,
            }
        } else {
            prev
        }
    }
}

/// Like `intra_stats` but counting every member.
pub open spec fn inter_stats(
    sims: Seq<(usize, usize, u64)>,
    cluster: Seq<usize>,
    p: usize,
    upto: int,
) -> (int, int)
    decreases upto,
{
    if upto <= 0 || upto > cluster.len() {
        (0, 0)
    } else {
        let prev = inter_stats(sims, cluster, p, upto - 1);
        let q = cluster[upto - 1];
        match sim_lookup(sims, p, q) {
            Option::Some(w) => (prev.0 + 1_000_000 - w, prev.1 + 1),
            Option::None => prev,
        }
    }
}

/// The least mean inter-cluster distance for `p` over the clusters before
/// `upto` other than `my`, as an exact sum and count; earlier clusters win
/// ties.
pub open spec fn best_inter(
    sims: Seq<(usize, usize, u64)>,
    clusters: Seq<Vec<usize>>,
    p: usize,
    my: int,
    upto: int,
) -> Option<(int, int)>
    decreases upto,
{
    if upto <= 0 || upto > clusters.len() {
        Option::None
    } else {
        let prev = best_inter(sims, clusters, p, my, upto - 1);
        if upto - 1 == my {
            prev
        } else {
            let cand = inter_stats(sims, clusters[upto - 1]@, p, clusters[upto - 1]@.len() as int);
            if cand.1 == 0 {
                prev
            } else {
                match prev {
                    Option::None => Option::Some(cand),
                    Option::Some(best) => if cand.0 * best.1 < best.0 * cand.1 {
                        Option::Some(cand)
                    } else {
                        prev
                    },
                }
            }
        }
    }
}

/// The silhouette coefficient of the point at `clusters[my][ki]`, in
/// fixed-point units, rounded toward zero.
pub open spec fn point_score_ppm(
    sims: Seq<(usize, usize, u64)>,
    clusters: Seq<Vec<usize>>,
    my: int,
    ki: int,
) -> int {
    let p = clusters[my]@[ki];
    let cl = clusters[my]@;
    if cl.len() <= 1 {
        0
    } else {
        let a = intra_stats(sims, cl, p, cl.len() as int);
        let an = a.0;
        let ad = if a.1 == 0 {
            1
        } else {
            a.1
        };
        match best_inter(sims, clusters, p, my, clusters.len() as int) {
            Option::None => 1_000_000,
            Option::Some(b) => {
                let bn = b.0;
                let bd = b.1;
                if an * bd < bn * ad {
                    ((bn * ad - an * bd) * 1_000_000) / (bn * ad)
                } else if an * bd > bn * ad {
                    0 - (((an * bd - bn * ad) * 1_000_000) / (an * bd))
                } else {
                    0
                }
            },
        }
    }
}

/// Sum of the point scores and the number of points, over all positions of
/// all clusters before `(gu, ku)` in iteration order.
pub open spec fn score_sums(
    sims: Seq<(usize, usize, u64)>,
    clusters: Seq<Vec<usize>>,
    gu: int,
    ku: int,
) -> (int, int)
    decreases gu, ku,
{
    if gu < 0 || gu > clusters.len() || ku < 0 {
        (0, 0)
    } else if ku == 0 {
        if gu == 0 {
            (0, 0)
        } else {
            score_sums(sims, clusters, gu - 1, clusters[gu - 1]@.len() as int)
        }
    } else {
        if gu < clusters.len() && ku <= clusters[gu]@.len() {
            let prev = score_sums(sims, clusters, gu, ku - 1);
            (prev.0 + point_score_ppm(sims, clusters, gu, ku - 1), prev.1 + 1)
        } else {
            (0, 0)
        }
    }
}

/// The silhouette score of the clustering, in fixed-point units: the mean
/// of the per-point silhouette coefficients, rounded toward zero, and zero
/// when there are no points.
pub open spec fn silhouette_ppm(sims: Seq<(usize, usize, u64)>, clusters: Seq<Vec<usize>>) -> int {
    let totals = score_sums(sims, clusters, clusters.len() as int, 0);
    if totals.1 == 0 {
        0
    } else if totals.0 >= 0 {
        totals.0 / totals.1
    } else {
        0 - ((0 - totals.0) / totals.1)
    }
}



proof fn lemma_intra_bounds(sims: Seq<(usize, usize, u64)>, cluster: Seq<usize>, p: usize, upto: int)
    requires
        weights_bounded(sims),
    ensures
        0 <= intra_stats(sims, cluster, p, upto).1 <= (if upto >= 0 { upto } else { 0 }),
        0 <= intra_stats(sims, cluster, p, upto).0 <= 1_000_000 * intra_stats(
            sims,
            cluster,
            p,
            upto,
        ).1,
    decreases upto,
{
    if upto > 0 && upto <= cluster.len() {
        lemma_intra_bounds(sims, cluster, p, upto - 1);
        lemma_sim_lookup_bounded(sims, p, cluster[upto - 1]);
    }
}

proof fn lemma_inter_bounds(sims: Seq<(usize, usize, u64)>, cluster: Seq<usize>, p: usize, upto: int)
    requires
        weights_bounded(sims),
    ensures
        0 <= inter_stats(sims, cluster, p, upto).1 <= (if upto >= 0 { upto } else { 0 }),
        0 <= inter_stats(sims, cluster, p, upto).0 <= 1_000_000 * inter_stats(
            sims,
            cluster,
            p,
            upto,
        ).1,
    decreases upto,
{
    if upto > 0 && upto <= cluster.len() {
        lemma_inter_bounds(sims, cluster, p, upto - 1);
        lemma_sim_lookup_bounded(sims, p, cluster[upto - 1]);
    }
}

proof fn lemma_best_inter_bounds(
    sims: Seq<(usize, usize, u64)>,
    clusters: Seq<Vec<usize>>,
    p: usize,
    my: int,
    upto: int,
)
    requires
        weights_bounded(sims),
        forall|g: int| 0 <= g < clusters.len() ==> (#[trigger] clusters[g])@.len() <= 0xffff_ffff,
    ensures
        best_inter(sims, clusters, p, my, upto) is Some ==> {
            let b = best_inter(sims, clusters, p, my, upto)->0;
            &&& 1 <= b.1 <= 0xffff_ffff
            &&& 0 <= b.0 <= 1_000_000 * b.1
        },
    decreases upto,
{
    if upto > 0 && upto <= clusters.len() {
        lemma_best_inter_bounds(sims, clusters, p, my, upto - 1);
        if upto - 1 != my {
            lemma_inter_bounds(sims, clusters[upto - 1]@, p, clusters[upto - 1]@.len() as int);
        }
    }
}

proof fn lemma_mul_bound(a: int, b: int, ca: int, cb: int)
    requires
        0 <= a <= ca,
        0 <= b <= cb,
    ensures
        a * b <= ca * cb,
{
    assert(a * b <= ca * cb) by (nonlinear_arith)
        requires 0 <= a <= ca, 0 <= b <= cb;
}

fn intra_stats_exec(sims: &Vec<(usize, usize, u64)>, cluster: &Vec<usize>, p: usize) -> (r: (
    u128,
    u64,
))
    requires
        weights_bounded(sims@),
        cluster@.len() <= 0xffff_ffff,
    ensures
        r.0 == intra_stats(sims@, cluster@, p, cluster@.len() as int).0,
        r.1 == intra_stats(sims@, cluster@, p, cluster@.len() as int).1,
{
    let mut sum: u128 = 0;
    let mut cnt: u64 = 0;
    let mut k: usize = 0;
    while k < cluster.len()
        invariant
            k <= cluster@.len(),
            cluster@.len() <= 0xffff_ffff,
            weights_bounded(sims@),
            sum == intra_stats(sims@, cluster@, p, k as int).0,
            cnt == intra_stats(sims@, cluster@, p, k as int).1,
        decreases cluster@.len() - k,
    {
        proof {
            lemma_intra_bounds(sims@, cluster@, p, k as int);
            lemma_sim_lookup_bounded(sims@, p, cluster@[k as int]);
        }
        let q = cluster[k];
        if q != p {
            match lookup_sim(sims, p, q) {
                Some(w) => {
                    sum = sum + (1_000_000 - w) as u128;
                    cnt = cnt + 1;
                },
                None => {},
            }
        }
        k = k + 1;
    }
    (sum, cnt)
}

fn inter_stats_exec(sims: &Vec<(usize, usize, u64)>, cluster: &Vec<usize>, p: usize) -> (r: (
    u128,
    u64,
))
    requires
        weights_bounded(sims@),
        cluster@.len() <= 0xffff_ffff,
    ensures
        r.0 == inter_stats(sims@, cluster@, p, cluster@.len() as int).0,
        r.1 == inter_stats(sims@, cluster@, p, cluster@.len() as int).1,
{
    let mut sum: u128 = 0;
    let mut cnt: u64 = 0;
    let mut k: usize = 0;
    while k < cluster.len()
        invariant
            k <= cluster@.len(),
            cluster@.len() <= 0xffff_ffff,
            weights_bounded(sims@),
            sum == inter_stats(sims@, cluster@, p, k as int).0,
            cnt == inter_stats(sims@, cluster@, p, k as int).1,
        decreases cluster@.len() - k,
    {
        proof {
            lemma_inter_bounds(sims@, cluster@, p, k as int);
            lemma_sim_lookup_bounded(sims@, p, cluster@[k as int]);
        }
        let q = cluster[k];
        match lookup_sim(sims, p, q) {
            Some(w) => {
                sum = sum + (1_000_000 - w) as u128;
                cnt = cnt + 1;
            },
            None => {},
        }
        k = k + 1;
    }
    (sum, cnt)
}

fn best_inter_exec(
    sims: &Vec<(usize, usize, u64)>,
    clusters: &Vec<Vec<usize>>,
    p: usize,
    my: usize,
) -> (r: Option<(u128, u64)>)
    requires
        weights_bounded(sims@),
        forall|g: int| 0 <= g < clusters@.len() ==> (#[trigger] clusters@[g])@.len() <= 0xffff_ffff,
    ensures
        ({
            let b = best_inter(sims@, clusters@, p, my as int, clusters@.len() as int);
            match r {
                Option::Some(rv) => b is Some && rv.0 == (b->0).0 && rv.1 == (b->0).1,
                Option::None => b is None,
            }
        }),
{
    let mut best: Option<(u128, u64)> = None;
    let mut g: usize = 0;
    while g < clusters.len()
        invariant
            g <= clusters@.len(),
            weights_bounded(sims@),
            forall|g2: int|
                0 <= g2 < clusters@.len() ==> (#[trigger] clusters@[g2])@.len() <= 0xffff_ffff,
            ({
                let b = best_inter(sims@, clusters@, p, my as int, g as int);
                match best {
                    Option::Some(rv) => b is Some && rv.0 == (b->0).0 && rv.1 == (b->0).1,
                    Option::None => b is None,
                }
            }),
        decreases clusters@.len() - g,
    {
        proof {
            lemma_best_inter_bounds(sims@, clusters@, p, my as int, g as int);
            lemma_inter_bounds(sims@, clusters@[g as int]@, p, clusters@[g as int]@.len() as int);
        }
        if g != my {
            let cand = inter_stats_exec(sims, &clusters[g], p);
            if cand.1 > 0 {
                match best {
                    Some(b) => {
                        proof {
                            lemma_mul_bound(
                                cand.0 as int,
                                b.1 as int,
                                1_000_000int * 0x1_0000_0000,
                                0x1_0000_0000,
                            );
                            lemma_mul_bound(
                                b.0 as int,
                                cand.1 as int,
                                1_000_000int * 0x1_0000_0000,
                                0x1_0000_0000,
                            );
                        }
                        if cand.0 * (b.1 as u128) < b.0 * (cand.1 as u128) {
                            best = Some(cand);
                        }
                    },
                    None => {
                        best = Some(cand);
                    },
                }
            }
        }
        g = g + 1;
    }
    best
}

fn point_score_exec(
    sims: &Vec<(usize, usize, u64)>,
    clusters: &Vec<Vec<usize>>,
    my: usize,
    ki: usize,
) -> (r: i64)
    requires
        weights_bounded(sims@),
        forall|g: int| 0 <= g < clusters@.len() ==> (#[trigger] clusters@[g])@.len() <= 0xffff_ffff,
        (my as int) < clusters@.len(),
        (ki as int) < clusters@[my as int]@.len(),
    ensures
        r == point_score_ppm(sims@, clusters@, my as int, ki as int),
        -1_000_000 <= r <= 1_000_000,
{
    let cl = &clusters[my];
    let p = cl[ki];
    if cl.len() <= 1 {
        return 0;
    }
    let a = intra_stats_exec(sims, cl, p);
    let an: u128 = a.0;
    let ad: u128 = if a.1 == 0 {
        1
    } else {
        a.1 as u128
    };
    proof {
        lemma_intra_bounds(sims@, cl@, p, cl@.len() as int);
    }
    match best_inter_exec(sims, clusters, p, my) {
        None => 1_000_000,
        Some(b) => {
            proof {
                lemma_best_inter_bounds(sims@, clusters@, p, my as int, clusters@.len() as int);
            }
            let bn: u128 = b.0;
            let bd: u128 = b.1 as u128;
            proof {
                lemma_mul_bound(an as int, bd as int, 1_000_000int * 0x1_0000_0000, 0x1_0000_0000);
                lemma_mul_bound(bn as int, ad as int, 1_000_000int * 0x1_0000_0000, 0x1_0000_0000);
            }
            let left = an * bd;
            let right = bn * ad;
            if left < right {
                let q = ((right - left) * 1_000_000) / right;
                proof {
                    assert((right - left) * 1_000_000 <= right * 1_000_000) by (nonlinear_arith)
                        requires right - left <= right, right >= 1;
                    vstd::arithmetic::div_mod::lemma_div_is_ordered(
                        ((right - left) * 1_000_000) as int,
                        (right * 1_000_000) as int,
                        right as int,
                    );
                    vstd::arithmetic::div_mod::lemma_div_multiples_vanish(
                        1_000_000,
                        right as int,
                    );
                }
                q as i64
            } else if left > right {
                let q = ((left - right) * 1_000_000) / left;
                proof {
                    assert((left - right) * 1_000_000 <= left * 1_000_000) by (nonlinear_arith)
                        requires left - right <= left, left >= 1;
                    vstd::arithmetic::div_mod::lemma_div_is_ordered(
                        ((left - right) * 1_000_000) as int,
                        (left * 1_000_000) as int,
                        left as int,
                    );
                    vstd::arithmetic::div_mod::lemma_div_multiples_vanish(1_000_000, left as int);
                }
                0 - (q as i64)
            } else {
                0
            }
        },
    }
}

/// Mean silhouette coefficient of the clustering, in fixed-point units
/// (`1_000_000` is a score of one), rounded toward zero; zero when the
/// clusters are empty.
pub fn silhouette_score(similarities: &Vec<(usize, usize, u64)>, clusters: &Vec<Vec<usize>>) -> (r: i64)
    requires
        weights_bounded(similarities@),
        forall|g: int| 0 <= g < clusters@.len() ==> (#[trigger] clusters@[g])@.len() <= 0xffff_ffff,
    ensures
        r == silhouette_ppm(similarities@, clusters@),
        -1_000_000 <= r <= 1_000_000,
{
    let mut pos: u128 = 0;
    let mut neg: u128 = 0;
    let mut count: u128 = 0;
    let mut g: usize = 0;
    while g < clusters.len()
        invariant
            g <= clusters@.len(),
            weights_bounded(similarities@),
            forall|g2: int|
                0 <= g2 < clusters@.len() ==> (#[trigger] clusters@[g2])@.len() <= 0xffff_ffff,
            count == score_sums(similarities@, clusters@, g as int, 0).1,
            count <= (g as int) * 0x1_0000_0000,
            pos <= 1_000_000 * count,
            neg <= 1_000_000 * count,
            pos - neg == score_sums(similarities@, clusters@, g as int, 0).0,
        decreases clusters@.len() - g,
    {
        let clen = clusters[g].len();
        let mut k: usize = 0;
        while k < clen
            invariant
                k <= clen,
                g < clusters@.len(),
                clen == clusters@[g as int]@.len(),
                weights_bounded(similarities@),
                forall|g2: int|
                    0 <= g2 < clusters@.len() ==> (#[trigger] clusters@[g2])@.len() <= 0xffff_ffff,
                count == score_sums(similarities@, clusters@, g as int, k as int).1,
                count <= (g as int) * 0x1_0000_0000 + k,
                pos <= 1_000_000 * count,
                neg <= 1_000_000 * count,
                pos - neg == score_sums(similarities@, clusters@, g as int, k as int).0,
            decreases clen - k,
        {
            proof {
                lemma_mul_bound(g as int, 0x1_0000_0000int, usize::MAX as int, 0x1_0000_0000int);
            }
            let sc = point_score_exec(similarities, clusters, g, k);
            if sc >= 0 {
                pos = pos + (sc as u128);
            } else {
                neg = neg + ((0 - sc) as u128);
            }
            count = count + 1;
            k = k + 1;
        }
        proof {
            lemma_mul_bound(g as int + 1, 0x1_0000_0000int, usize::MAX as int + 1, 0x1_0000_0000int);
            assert(score_sums(similarities@, clusters@, g + 1, 0) == score_sums(
                similarities@,
                clusters@,
                g as int,
                clusters@[g as int]@.len() as int,
            ));
        }
        g = g + 1;
    }
    proof {
        assert(score_sums(similarities@, clusters@, clusters@.len() as int, 0)
            == score_sums(similarities@, clusters@, clusters@.len() as int, 0));
    }
    if count == 0 {
        0
    } else if pos >= neg {
        let q = (pos - neg) / count;
        proof {
            vstd::arithmetic::div_mod::lemma_div_is_ordered(
                (pos - neg) as int,
                (1_000_000 * count) as int,
                count as int,
            );
            vstd::arithmetic::div_mod::lemma_div_multiples_vanish(1_000_000, count as int);
        }
        q as i64
    } else {
        let q = (neg - pos) / count;
        proof {
            vstd::arithmetic::div_mod::lemma_div_is_ordered(
                (neg - pos) as int,
                (1_000_000 * count) as int,
                count as int,
            );
            vstd::arithmetic::div_mod::lemma_div_multiples_vanish(1_000_000, count as int);
        }
        0 - (q as i64)
    }
}


/// Sum and count of the stored similarities over the pairs of cluster
/// positions `(a, b)`, `a < b`, taken in row order up to row `i`,
/// column `j`.
pub open spec fn pair_sums(sims: Seq<(usize, usize, u64)>, cl: Seq<usize>, i: int, j: int) -> (
    int,
    int,
)
    decreases i, j,
{
    if i < 0 || i >= cl.len() || j < 0 || j > cl.len() {
        (0, 0)
    } else if j <= i + 1 {
        if i == 0 {
            (0, 0)
        } else {
            pair_sums(sims, cl, i - 1, cl.len() as int)
        }
    } else {
        let prev = pair_sums(sims, cl, i, j - 1);
        match sim_lookup(sims, cl[i], cl[j - 1]) {
            Option::Some(w) => (prev.0 + w, prev.1 + 1),
            Option::None => prev,
        }
    }
}

/// Sum of squared deviations `(w * c - s)^2` over the same pairs.
pub open spec fn var_sums(
    sims: Seq<(usize, usize, u64)>,
    cl: Seq<usize>,
    s: int,
    c: int,
    i: int,
    j: int,
) -> int
    decreases i, j,
{
    if i < 0 || i >= cl.len() || j < 0 || j > cl.len() {
        0
    } else if j <= i + 1 {
        if i == 0 {
            0
        } else {
            var_sums(sims, cl, s, c, i - 1, cl.len() as int)
        }
    } else {
        let prev = var_sums(sims, cl, s, c, i, j - 1);
        match sim_lookup(sims, cl[i], cl[j - 1]) {
            Option::Some(w) => prev + (w * c - s) * (w * c - s),
            Option::None => prev,
        }
    }
}

/// The within-cluster variance of the clustering, in fixed-point units:
/// for each cluster of two or more members, the squared deviations of the
/// stored intra-cluster similarities from their mean, aggregated over all
/// clusters and divided by the number of pairs used; each cluster's
/// contribution and the final quotient round down.
pub open spec fn variance_ppm(sims: Seq<(usize, usize, u64)>, clusters: Seq<Vec<usize>>, upto: int) -> (
    int,
    int,
)
    decreases upto,
{
    if upto <= 0 || upto > clusters.len() {
        (0, 0)
    } else {
        let prev = variance_ppm(sims, clusters, upto - 1);
        let cl = clusters[upto - 1]@;
        if cl.len() < 2 {
            prev
        } else {
            let sc = pair_sums(sims, cl, cl.len() - 1, cl.len() as int);
            if sc.1 == 0 {
                prev
            } else {
                let v = var_sums(sims, cl, sc.0, sc.1, cl.len() - 1, cl.len() as int);
                (prev.0 + v / (sc.1 * sc.1), prev.1 + sc.1)
            }
        }
    }
}

/// The final variance value, in fixed-point units.
pub open spec fn variance_result(sims: Seq<(usize, usize, u64)>, clusters: Seq<Vec<usize>>) -> int {
    let t = variance_ppm(sims, clusters, clusters.len() as int);
    if t.1 == 0 {
        0
    } else {
        t.0 / (t.1 * 1_000_000)
    }
}

proof fn lemma_pair_sums_bounds(sims: Seq<(usize, usize, u64)>, cl: Seq<usize>, i: int, j: int)
    requires
        weights_bounded(sims),
        cl.len() <= 4096,
    ensures
        0 <= pair_sums(sims, cl, i, j).1 <= 0x100_0000,
        0 <= pair_sums(sims, cl, i, j).0 <= 1_000_000 * pair_sums(sims, cl, i, j).1,
    decreases i, j,
{
    if !(i < 0 || i >= cl.len() || j < 0 || j > cl.len()) {
        if j <= i + 1 {
            if i != 0 {
                lemma_pair_sums_bounds(sims, cl, i - 1, cl.len() as int);
            }
        } else {
            lemma_pair_sums_bounds(sims, cl, i, j - 1);
            lemma_sim_lookup_bounded(sims, cl[i], cl[j - 1]);
            assert(pair_sums(sims, cl, i, j - 1).1 < 0x100_0000) by {
                lemma_pair_count_lt(sims, cl, i, j - 1);
            }
        }
    }
}

proof fn lemma_pair_count_lt(sims: Seq<(usize, usize, u64)>, cl: Seq<usize>, i: int, j: int)
    requires
        cl.len() <= 4096,
    ensures
        pair_sums(sims, cl, i, j).1 <= (if 0 <= i < cl.len() { i * 4096 + (if j >= 0 { j } else { 0 }) } else { 0 }),
    decreases i, j,
{
    if !(i < 0 || i >= cl.len() || j < 0 || j > cl.len()) {
        if j <= i + 1 {
            if i != 0 {
                lemma_pair_count_lt(sims, cl, i - 1, cl.len() as int);
            }
        } else {
            lemma_pair_count_lt(sims, cl, i, j - 1);
        }
    }
}

proof fn lemma_var_le_pairs(
    sims: Seq<(usize, usize, u64)>,
    cl: Seq<usize>,
    s: int,
    c: int,
    i: int,
    j: int,
)
    requires
        weights_bounded(sims),
        0 <= c,
        0 <= s <= 1_000_000 * c,
    ensures
        0 <= var_sums(sims, cl, s, c, i, j) <= pair_sums(sims, cl, i, j).1 * ((1_000_000 * c) * (
        1_000_000 * c)),
    decreases i, j,
{
    let kk: int = (1_000_000 * c) * (1_000_000 * c);
    assert((1_000_000 * c) * (1_000_000 * c) >= 0) by (nonlinear_arith)
        requires c >= 0;
    if !(i < 0 || i >= cl.len() || j < 0 || j > cl.len()) {
        if j <= i + 1 {
            if i != 0 {
                lemma_var_le_pairs(sims, cl, s, c, i - 1, cl.len() as int);
            }
        } else {
            lemma_var_le_pairs(sims, cl, s, c, i, j - 1);
            lemma_sim_lookup_bounded(sims, cl[i], cl[j - 1]);
            let w = sim_lookup(sims, cl[i], cl[j - 1]);
            let p1 = pair_sums(sims, cl, i, j - 1).1;
            if w is Some {
                let wv = w->0 as int;
                assert(0 <= (wv * c - s) * (wv * c - s) <= kk) by (nonlinear_arith)
                    requires
                        0 <= wv <= 1_000_000,
                        0 <= c,
                        0 <= s <= 1_000_000 * c,
                        kk == (1_000_000 * c) * (1_000_000 * c),
                ;
                assert(p1 * kk + kk == (p1 + 1) * kk) by (nonlinear_arith);
            }
        }
    } else {
        assert(var_sums(sims, cl, s, c, i, j) == 0);
        assert(pair_sums(sims, cl, i, j).1 == 0);
    }
}

fn cluster_pair_sums_exec(sims: &Vec<(usize, usize, u64)>, cl: &Vec<usize>) -> (r: (u128, u64))
    requires
        weights_bounded(sims@),
        2 <= cl@.len() <= 4096,
    ensures
        r.0 == pair_sums(sims@, cl@, cl@.len() - 1, cl@.len() as int).0,
        r.1 == pair_sums(sims@, cl@, cl@.len() - 1, cl@.len() as int).1,
{
    let len = cl.len();
    let mut sum: u128 = 0;
    let mut cnt: u64 = 0;
    let mut i: usize = 0;
    while i + 1 < len
        invariant
            i < len,
            2 <= len <= 4096,
            len == cl@.len(),
            weights_bounded(sims@),
            sum == pair_sums(sims@, cl@, i as int, i + 1).0,
            cnt == pair_sums(sims@, cl@, i as int, i + 1).1,
        decreases len - i,
    {
        let mut j: usize = i + 1;
        while j < len
            invariant
                i + 1 <= j <= len,
                i + 1 < len,
                len <= 4096,
                len == cl@.len(),
                weights_bounded(sims@),
                sum == pair_sums(sims@, cl@, i as int, j as int).0,
                cnt == pair_sums(sims@, cl@, i as int, j as int).1,
            decreases len - j,
        {
            proof {
                lemma_pair_sums_bounds(sims@, cl@, i as int, j as int);
                lemma_pair_count_lt(sims@, cl@, i as int, j as int);
                lemma_sim_lookup_bounded(sims@, cl@[i as int], cl@[j as int]);
            }
            match lookup_sim(sims, cl[i], cl[j]) {
                Some(w) => {
                    sum = sum + (w as u128);
                    cnt = cnt + 1;
                },
                None => {},
            }
            j = j + 1;
        }
        i = i + 1;
    }
    (sum, cnt)
}

fn cluster_var_sums_exec(sims: &Vec<(usize, usize, u64)>, cl: &Vec<usize>, s: u128, c: u64) -> (r:
    u128)
    requires
        weights_bounded(sims@),
        2 <= cl@.len() <= 4096,
        1 <= c <= 0x100_0000,
        s <= 1_000_000 * c,
    ensures
        r == var_sums(sims@, cl@, s as int, c as int, cl@.len() - 1, cl@.len() as int),
{
    let len = cl.len();
    let mut acc: u128 = 0;
    let mut i: usize = 0;
    while i + 1 < len
        invariant
            i < len,
            2 <= len <= 4096,
            len == cl@.len(),
            weights_bounded(sims@),
            1 <= c <= 0x100_0000,
            s <= 1_000_000 * c,
            acc == var_sums(sims@, cl@, s as int, c as int, i as int, i + 1),
        decreases len - i,
    {
        let mut j: usize = i + 1;
        while j < len
            invariant
                i + 1 <= j <= len,
                i + 1 < len,
                len <= 4096,
                len == cl@.len(),
                weights_bounded(sims@),
                1 <= c <= 0x100_0000,
                s <= 1_000_000 * c,
                acc == var_sums(sims@, cl@, s as int, c as int, i as int, j as int),
            decreases len - j,
        {
            proof {
                lemma_var_le_pairs(sims@, cl@, s as int, c as int, i as int, j as int);
                lemma_pair_sums_bounds(sims@, cl@, i as int, j as int);
                lemma_sim_lookup_bounded(sims@, cl@[i as int], cl@[j as int]);
                lemma_mul_bound(
                    pair_sums(sims@, cl@, i as int, j as int).1,
                    (1_000_000int * 0x100_0000) * (1_000_000int * 0x100_0000),
                    0x100_0000,
                    (1_000_000int * 0x100_0000) * (1_000_000int * 0x100_0000),
                );
                assert((1_000_000 * (c as int)) * (1_000_000 * (c as int)) <= (1_000_000int
                    * 0x100_0000) * (1_000_000int * 0x100_0000)) by (nonlinear_arith)
                    requires 1 <= c <= 0x100_0000;
                lemma_mul_bound(
                    pair_sums(sims@, cl@, i as int, j as int).1,
                    (1_000_000 * (c as int)) * (1_000_000 * (c as int)),
                    0x100_0000,
                    (1_000_000int * 0x100_0000) * (1_000_000int * 0x100_0000),
                );
            }
            match lookup_sim(sims, cl[i], cl[j]) {
                Some(w) => {
                    proof {
                        lemma_mul_bound(w as int, c as int, 1_000_000, 0x100_0000);
                    }
                    let wc: u128 = (w as u128) * (c as u128);
                    let dev: u128 = if wc >= s {
                        wc - s
                    } else {
                        s - wc
                    };
                    proof {
                        assert(dev * dev == ((w as int) * (c as int) - (s as int)) * ((w as int) * (
                        c as int) - (s as int))) by (nonlinear_arith)
                            requires
                                dev == (if (w as int) * (c as int) >= s as int { (w as int) * (c as int) - (s as int) } else { (s as int) - (w as int) * (c as int) }),
                        ;
                        assert(dev <= 1_000_000 * (c as int)) by (nonlinear_arith)
                            requires
                                w <= 1_000_000,
                                1 <= c,
                                s <= 1_000_000 * c,
                                dev == (if (w as int) * (c as int) >= s as int { (w as int) * (c as int) - (s as int) } else { (s as int) - (w as int) * (c as int) }),
                        ;
                        assert(dev * dev <= ((1_000_000int * 0x100_0000) * (1_000_000int
                            * 0x100_0000))) by (nonlinear_arith)
                            requires 0 <= dev <= 1_000_000int * 0x100_0000;
                    }
                    acc = acc + dev * dev;
                },
                None => {},
            }
            j = j + 1;
        }
        i = i + 1;
    }
    acc
}

/// Within-cluster variance of the stored similarities, in fixed-point
/// units, rounded down per cluster and at the final mean.
pub fn within_cluster_variance(similarities: &Vec<(usize, usize, u64)>, clusters: &Vec<Vec<usize>>) -> (r: u64)
    requires
        weights_bounded(similarities@),
        forall|g: int| 0 <= g < clusters@.len() ==> (#[trigger] clusters@[g])@.len() <= 4096,
        clusters@.len() <= 0x8000,
    ensures
        r == variance_result(similarities@, clusters@),
        r <= 1_000_000,
{
    let mut total: u128 = 0;
    let mut pairs: u64 = 0;
    let mut g: usize = 0;
    while g < clusters.len()
        invariant
            g <= clusters@.len(),
            clusters@.len() <= 0x8000,
            weights_bounded(similarities@),
            forall|g2: int|
                0 <= g2 < clusters@.len() ==> (#[trigger] clusters@[g2])@.len() <= 4096,
            total == variance_ppm(similarities@, clusters@, g as int).0,
            pairs == variance_ppm(similarities@, clusters@, g as int).1,
            pairs <= (g as int) * 0x100_0000,
            total <= 1_000_000_000_000 * pairs,
        decreases clusters@.len() - g,
    {
        let cl = &clusters[g];
        if cl.len() >= 2 {
            let (s, c) = cluster_pair_sums_exec(similarities, cl);
            proof {
                lemma_pair_sums_bounds(similarities@, cl@, cl@.len() - 1, cl@.len() as int);
            }
            if c > 0 {
                let vnum = cluster_var_sums_exec(similarities, cl, s, c);
                proof {
                    lemma_var_le_pairs(
                        similarities@,
                        cl@,
                        s as int,
                        c as int,
                        cl@.len() - 1,
                        cl@.len() as int,
                    );
                }
                proof {
                    lemma_mul_bound(c as int, c as int, 0x100_0000, 0x100_0000);
                    assert((c as int) * (c as int) >= 1) by (nonlinear_arith)
                        requires c >= 1;
                }
                let cc: u128 = (c as u128) * (c as u128);
                let t = vnum / cc;
                proof {
                    let ci = c as int;
                    assert(vnum <= ci * ((1_000_000 * ci) * (1_000_000 * ci))) by (nonlinear_arith)
                        requires
                            vnum <= (c as int) * ((1_000_000 * (c as int)) * (1_000_000 * (
                            c as int))),
                            ci == c as int,
                    ;
                    assert(ci * ((1_000_000 * ci) * (1_000_000 * ci)) == (1_000_000_000_000 * ci)
                        * (ci * ci)) by (nonlinear_arith);
                    vstd::arithmetic::div_mod::lemma_div_is_ordered(
                        vnum as int,
                        (1_000_000_000_000 * ci) * (ci * ci),
                        ci * ci,
                    );
                    vstd::arithmetic::div_mod::lemma_div_multiples_vanish(
                        1_000_000_000_000 * ci,
                        ci * ci,
                    );
                    assert(ci * ci >= 1) by (nonlinear_arith)
                        requires ci >= 1;
                    lemma_mul_bound(g as int, 0x100_0000, 0x8000, 0x100_0000);
                }
                total = total + t;
                pairs = pairs + c;
                proof {
                    assert(total <= 1_000_000_000_000 * pairs) by (nonlinear_arith)
                        requires
                            total <= 1_000_000_000_000 * (pairs - c) + 1_000_000_000_000 * (
                            c as int),
                            c >= 1,
                    ;
                }
            }
        }
        g = g + 1;
    }
    if pairs == 0 {
        0
    } else {
        let q = total / ((pairs as u128) * 1_000_000);
        proof {
            let pi = pairs as int;
            assert(1_000_000_000_000 * pi == 1_000_000 * (pi * 1_000_000)) by (nonlinear_arith);
            vstd::arithmetic::div_mod::lemma_div_is_ordered(
                total as int,
                1_000_000 * (pi * 1_000_000),
                pi * 1_000_000,
            );
            vstd::arithmetic::div_mod::lemma_div_multiples_vanish(1_000_000, pi * 1_000_000);
            assert(pi * 1_000_000 >= 1) by (nonlinear_arith)
                requires pi >= 1;
        }
        q as u64
    }
}

} // verus!
