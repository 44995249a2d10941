//! Disjoint-set union over document ids, by rank with path compression.
use vstd::prelude::*;
use std::collections::HashMap;
use vstd::std_specs::iter::IteratorSpec;

verus! {

broadcast use vstd::std_specs::hash::group_hash_axioms;

/// The parent of `x`; a node not yet seen is its own parent.
pub open spec fn parent_of(pm: Map<usize, usize>, x: usize) -> usize {
    if pm.contains_key(x) {
        pm[x]
    } else {
        x
    }
}

/// The rank of `x`; a node without a rank entry has rank 0.
pub open spec fn rank_of(rk: Map<usize, usize>, x: usize) -> usize {
    if rk.contains_key(x) {
        rk[x]
    } else {
        0
    }
}

/// The height bound of `x` that makes parent chains finite.
pub open spec fn level_of(lv: Map<usize, nat>, x: usize) -> nat {
    if lv.contains_key(x) {
        lv[x]
    } else {
        0
    }
}

/// The root reached from `x` by following parents, each step to a
/// strictly higher level no higher than `top`.
#[verifier::opaque]
pub open spec fn root_of(pm: Map<usize, usize>, lv: Map<usize, nat>, top: nat, x: usize) -> usize
    decreases top - level_of(lv, x),
{
    let p = parent_of(pm, x);
    if p == x {
        x
    } else if level_of(lv, p) <= level_of(lv, x) || level_of(lv, p) > top {
        x
    } else {
        root_of(pm, lv, top, p)
    }
}

/// `rank(x) < rank(p)`, where a rank of `usize::MAX` may be shared.
pub open spec fn rank_below(rx: usize, rp: usize) -> bool {
    rx < rp || rp == usize::MAX
}

/// Parent chains end in a root, levels rise along every chain, and ranks
/// rise strictly along every parent link.
pub open spec fn forest_wf(
    pm: Map<usize, usize>,
    rk: Map<usize, usize>,
    lv: Map<usize, nat>,
    top: nat,
) -> bool {
    &&& pm.dom().finite()
    &&& forall|x: usize| #[trigger] rk.contains_key(x) ==> pm.contains_key(x)
    &&& forall|x: usize| #[trigger] lv.contains_key(x) ==> pm.contains_key(x)
    &&& forall|x: usize| pm.contains_key(x) ==> pm.contains_key(#[trigger] pm[x])
    &&& forall|x: usize| #[trigger] pm.contains_key(x) ==> level_of(lv, x) <= top
    &&& forall|x: usize|
        pm.contains_key(x) && #[trigger] pm[x] != x ==> level_of(lv, x) < level_of(lv, pm[x])
    &&& forall|x: usize|
        pm.contains_key(x) && #[trigger] pm[x] != x ==> rank_below(rank_of(rk, x), rank_of(rk, pm[x]))
}

proof fn lemma_root(pm: Map<usize, usize>, rk: Map<usize, usize>, lv: Map<usize, nat>, top: nat, x: usize)
    requires
        forest_wf(pm, rk, lv, top),
    ensures
        pm.contains_key(x) ==> pm.contains_key(root_of(pm, lv, top, x)),
        !pm.contains_key(x) ==> root_of(pm, lv, top, x) == x,
        parent_of(pm, root_of(pm, lv, top, x)) == root_of(pm, lv, top, x),
        root_of(pm, lv, top, root_of(pm, lv, top, x)) == root_of(pm, lv, top, x),
        root_of(pm, lv, top, x) != x ==> pm.contains_key(x) && level_of(lv, x) < level_of(
            lv,
            root_of(pm, lv, top, x),
        ) && rank_below(rank_of(rk, x), rank_of(rk, root_of(pm, lv, top, x))),
        pm.contains_key(x) && pm[x] != x ==> root_of(pm, lv, top, x) == root_of(pm, lv, top, pm[x]),
        parent_of(pm, x) == x ==> root_of(pm, lv, top, x) == x,
    decreases top - level_of(lv, x),
{
    reveal(root_of);
    let p = parent_of(pm, x);
    if p != x {
        assert(pm.contains_key(x));
        lemma_root(pm, rk, lv, top, p);
    }
}

/// Whether `z` lies on the walk of parent links from `x` up to its root.
#[verifier::opaque]
pub open spec fn on_path(pm: Map<usize, usize>, lv: Map<usize, nat>, top: nat, x: usize, z: usize) -> bool
    decreases top - level_of(lv, x),
{
    if z == x {
        true
    } else {
        let p = parent_of(pm, x);
        if p == x || level_of(lv, p) <= level_of(lv, x) || level_of(lv, p) > top {
            false
        } else {
            on_path(pm, lv, top, p, z)
        }
    }
}

proof fn lemma_on_path_step(pm: Map<usize, usize>, rk: Map<usize, usize>, lv: Map<usize, nat>, top: nat, x: usize, z: usize)
    requires
        forest_wf(pm, rk, lv, top),
        pm.contains_key(x),
        pm[x] != x,
    ensures
        on_path(pm, lv, top, x, z) == (z == x || on_path(pm, lv, top, pm[x], z)),
{
    reveal(on_path);
}

proof fn lemma_on_path_root(pm: Map<usize, usize>, lv: Map<usize, nat>, top: nat, r: usize, z: usize)
    requires
        parent_of(pm, r) == r,
    ensures
        on_path(pm, lv, top, r, z) == (z == r),
{
    reveal(on_path);
}

proof fn lemma_on_path_level(pm: Map<usize, usize>, rk: Map<usize, usize>, lv: Map<usize, nat>, top: nat, x: usize, z: usize)
    requires
        forest_wf(pm, rk, lv, top),
        on_path(pm, lv, top, x, z),
    ensures
        level_of(lv, z) >= level_of(lv, x),
    decreases top - level_of(lv, x),
{
    reveal(on_path);
    if z != x {
        let p = parent_of(pm, x);
        lemma_on_path_level(pm, rk, lv, top, p, z);
    }
}

proof fn lemma_on_path_trans(pm: Map<usize, usize>, rk: Map<usize, usize>, lv: Map<usize, nat>, top: nat, a: usize, b: usize, c: usize)
    requires
        forest_wf(pm, rk, lv, top),
        on_path(pm, lv, top, a, b),
        on_path(pm, lv, top, b, c),
    ensures
        on_path(pm, lv, top, a, c),
    decreases top - level_of(lv, a),
{
    reveal(on_path);
    if a != b {
        let p = parent_of(pm, a);
        lemma_on_path_trans(pm, rk, lv, top, p, b, c);
    }
}

/// The roots of a parent map: the nodes that are their own parent.
pub open spec fn roots_of(pm: Map<usize, usize>) -> Set<usize> {
    pm.dom().filter(|z: usize| pm[z] == z)
}

/// A node on the walk from `x` that is its own parent is the root of `x`.
proof fn lemma_on_path_root_is_root(pm: Map<usize, usize>, rk: Map<usize, usize>, lv: Map<usize, nat>, top: nat, x: usize, z: usize)
    requires
        forest_wf(pm, rk, lv, top),
        on_path(pm, lv, top, x, z),
        parent_of(pm, z) == z,
    ensures
        z == root_of(pm, lv, top, x),
    decreases top - level_of(lv, x),
{
    reveal(on_path);
    lemma_root(pm, rk, lv, top, x);
    if z != x {
        let p = parent_of(pm, x);
        lemma_on_path_root_is_root(pm, rk, lv, top, p, z);
    }
}

/// A node that was not in the forest joins it as its own root.
proof fn lemma_add_node(pm: Map<usize, usize>, rk: Map<usize, usize>, lv: Map<usize, nat>, top: nat, x: usize, z: usize)
    requires
        forest_wf(pm, rk, lv, top),
        !pm.contains_key(x),
    ensures
        root_of(pm.insert(x, x), lv, top, z) == root_of(pm, lv, top, z),
    decreases top - level_of(lv, z),
{
    reveal(root_of);
    let p = parent_of(pm, z);
    if p != z && level_of(lv, p) > level_of(lv, z) && level_of(lv, p) <= top {
        lemma_add_node(pm, rk, lv, top, x, p);
    }
}

/// Pointing a non-root straight at its root keeps every representative.
proof fn lemma_compress(pm: Map<usize, usize>, rk: Map<usize, usize>, lv: Map<usize, nat>, top: nat, c: usize, z: usize)
    requires
        forest_wf(pm, rk, lv, top),
        pm.contains_key(c),
        pm[c] != c,
    ensures
        root_of(pm.insert(c, root_of(pm, lv, top, c)), lv, top, z) == root_of(pm, lv, top, z),
    decreases top - level_of(lv, z),
{
    reveal(root_of);
    let r = root_of(pm, lv, top, c);
    let pm2 = pm.insert(c, r);
    lemma_root(pm, rk, lv, top, c);
    lemma_root(pm, rk, lv, top, z);
    if z == c {
        lemma_root(pm, rk, lv, top, r);
        assert(parent_of(pm2, r) == r);
        assert(root_of(pm2, lv, top, r) == r);
    } else {
        let p = parent_of(pm, z);
        if p != z {
            lemma_compress(pm, rk, lv, top, c, p);
        }
    }
}

proof fn lemma_compress_wf(pm: Map<usize, usize>, rk: Map<usize, usize>, lv: Map<usize, nat>, top: nat, c: usize)
    requires
        forest_wf(pm, rk, lv, top),
        pm.contains_key(c),
        pm[c] != c,
    ensures
        forest_wf(pm.insert(c, root_of(pm, lv, top, c)), rk, lv, top),
{
    lemma_root(pm, rk, lv, top, c);
    let r = root_of(pm, lv, top, c);
    let pm2 = pm.insert(c, r);
    assert(pm2.dom() =~= pm.dom());
    assert forall|x: usize| pm2.contains_key(x) implies pm2.contains_key(#[trigger] pm2[x]) by {
        if x != c {
            assert(pm.contains_key(pm[x]));
        }
    }
    assert forall|x: usize| pm2.contains_key(x) && #[trigger] pm2[x] != x implies level_of(lv, x)
        < level_of(lv, pm2[x]) && rank_below(rank_of(rk, x), rank_of(rk, pm2[x])) by {
        if x != c {
            assert(pm.contains_key(x) && pm[x] != x);
        }
    }
    assert forall|x: usize| #[trigger] pm2.contains_key(x) implies level_of(lv, x) <= top by {
        assert(pm.contains_key(x));
    }
}

/// The level that a root takes when another root is linked below it.
pub open spec fn linked_level(lv: Map<usize, nat>, winner: usize, loser: usize) -> nat {
    if level_of(lv, winner) > level_of(lv, loser) {
        level_of(lv, winner)
    } else {
        level_of(lv, loser) + 1
    }
}

/// Linking the root `loser` below the root `winner` sends the class of
/// `loser` to `winner` and keeps every other representative.
proof fn lemma_link(pm: Map<usize, usize>, rk: Map<usize, usize>, lv: Map<usize, nat>, top: nat, winner: usize, loser: usize, z: usize)
    requires
        forest_wf(pm, rk, lv, top),
        pm.contains_key(winner),
        pm.contains_key(loser),
        pm[winner] == winner,
        pm[loser] == loser,
        winner != loser,
    ensures
        root_of(
            pm.insert(loser, winner),
            lv.insert(winner, linked_level(lv, winner, loser)),
            top + 1,
            z,
        ) == if root_of(pm, lv, top, z) == loser {
            winner
        } else {
            root_of(pm, lv, top, z)
        },
    decreases top - level_of(lv, z),
{
    reveal(root_of);
    let pm2 = pm.insert(loser, winner);
    let lv2 = lv.insert(winner, linked_level(lv, winner, loser));
    lemma_root(pm, rk, lv, top, z);
    if z == loser {
        assert(parent_of(pm2, winner) == winner);
        assert(root_of(pm2, lv2, top + 1, winner) == winner);
    } else if z == winner {
    } else {
        let p = parent_of(pm, z);
        if p != z {
            assert(pm.contains_key(z));
            assert(level_of(lv2, p) >= level_of(lv, p));
            assert(level_of(lv2, z) == level_of(lv, z));
            lemma_link(pm, rk, lv, top, winner, loser, p);
        }
    }
}

proof fn lemma_link_wf(
    pm: Map<usize, usize>,
    rk: Map<usize, usize>,
    rk2: Map<usize, usize>,
    lv: Map<usize, nat>,
    top: nat,
    winner: usize,
    loser: usize,
)
    requires
        forest_wf(pm, rk, lv, top),
        pm.contains_key(winner),
        pm.contains_key(loser),
        pm[winner] == winner,
        pm[loser] == loser,
        winner != loser,
        forall|z: usize| #[trigger] rk2.contains_key(z) ==> pm.contains_key(z),
        forall|z: usize| z != winner ==> #[trigger] rank_of(rk2, z) == rank_of(rk, z),
        rank_of(rk2, winner) >= rank_of(rk, winner),
        rank_below(rank_of(rk2, loser), rank_of(rk2, winner)),
    ensures
        forest_wf(
            pm.insert(loser, winner),
            rk2,
            lv.insert(winner, linked_level(lv, winner, loser)),
            top + 1,
        ),
{
    let pm2 = pm.insert(loser, winner);
    let lv2 = lv.insert(winner, linked_level(lv, winner, loser));
    assert(pm2.dom() =~= pm.dom());
    assert forall|x: usize| pm2.contains_key(x) implies pm2.contains_key(#[trigger] pm2[x]) by {
        if x != loser {
            assert(pm.contains_key(pm[x]));
        }
    }
    assert forall|x: usize| #[trigger] pm2.contains_key(x) implies level_of(lv2, x) <= top + 1 by {
        assert(pm.contains_key(x));
        assert(level_of(lv, x) <= top);
    }
    assert forall|x: usize| pm2.contains_key(x) && #[trigger] pm2[x] != x implies level_of(lv2, x)
        < level_of(lv2, pm2[x]) && rank_below(rank_of(rk2, x), rank_of(rk2, pm2[x])) by {
        if x != loser {
            assert(pm.contains_key(x) && pm[x] != x);
            assert(x != winner);
            assert(level_of(lv, x) < level_of(lv, pm[x]));
        }
    }
}

/// One more, held at `usize::MAX`.
pub open spec fn capped_step(r: usize) -> usize {
    if r < usize::MAX {
        (r + 1) as usize
    } else {
        r
    }
}

/// The root that stays a root when the roots `px` and `py` are joined: the
/// one of higher rank, `px` on a tie.
pub open spec fn union_winner(rk: Map<usize, usize>, px: usize, py: usize) -> usize {
    if rank_of(rk, px) >= rank_of(rk, py) {
        px
    } else {
        py
    }
}

/// The ranks after joining the roots `px` and `py`: both get an entry, and
/// on a tie the rank of `px` goes up by one.
pub open spec fn ranks_after_union(rk: Map<usize, usize>, px: usize, py: usize) -> Map<usize, usize> {
    let rk1 = rk.insert(px, rank_of(rk, px)).insert(py, rank_of(rk, py));
    if rank_of(rk, px) == rank_of(rk, py) {
        rk1.insert(px, capped_step(rank_of(rk, px)))
    } else {
        rk1
    }
}

/// A partition of node ids into classes. Each class has one root, which
/// `find` returns; `edges` counts the unions that joined two classes.
pub struct UnionFind {
    parent: HashMap<usize, usize>,
    rank: HashMap<usize, usize>,
    edges: usize,
    /// A height for each node that rises along every parent link, so that
    /// every walk to a root ends; ranks alone could tie at `usize::MAX`.
    level: Ghost<Map<usize, nat>>,
    /// A bound on every height.
    top: Ghost<nat>,
}

impl UnionFind {
    /// Parent of each node seen so far.
    pub closed spec fn parent_map(&self) -> Map<usize, usize> {
        self.parent@
    }

    /// Rank of each root that took part in a union.
    pub closed spec fn rank_map(&self) -> Map<usize, usize> {
        self.rank@
    }

    pub closed spec fn edge_count(&self) -> usize {
        self.edges
    }

    pub closed spec fn wf(&self) -> bool {
        forest_wf(self.parent@, self.rank@, self.level@, self.top@)
    }

    /// The representative of the class of `x`: its root. A node not seen
    /// yet is its own representative.
    pub closed spec fn rep(&self, x: usize) -> usize {
        root_of(self.parent@, self.level@, self.top@, x)
    }

    /// The parent map after `find(x)`: `x` added as its own parent when it
    /// is new, then `x` and every node on its walk to the root pointed
    /// straight at the root; every other entry as it was.
    pub closed spec fn parents_after_find(&self, x: usize) -> Map<usize, usize> {
        let pm1 = if self.parent@.contains_key(x) {
            self.parent@
        } else {
            self.parent@.insert(x, x)
        };
        let r = self.rep(x);
        Map::new(
            |z: usize| pm1.contains_key(z),
            |z: usize|
                if on_path(pm1, self.level@, self.top@, x, z) {
                    r
                } else {
                    pm1[z]
                },
        )
    }

    /// The join count and the number of classes add up to the number of
    /// nodes: each join that merged two classes removed one root.
    pub open spec fn counts_agree(&self) -> bool {
        self.edge_count() + roots_of(self.parent_map()).len() == self.parent_map().dom().len()
    }

    /// Whether `x` and `y` are in one class.
    pub open spec fn same_class(&self, x: usize, y: usize) -> bool {
        self.rep(x) == self.rep(y)
    }

    /// Facts on representatives: a representative represents itself, is
    /// its own parent, and a node not seen yet represents itself.
    pub proof fn lemma_rep(&self, x: usize)
        requires
            self.wf(),
        ensures
            self.rep(self.rep(x)) == self.rep(x),
            parent_of(self.parent_map(), self.rep(x)) == self.rep(x),
            !self.parent_map().contains_key(x) ==> self.rep(x) == x,
            self.parent_map().contains_key(x) ==> self.parent_map().contains_key(self.rep(x)),
    {
        lemma_root(self.parent@, self.rank@, self.level@, self.top@, x);
    }

    /// An empty partition.
    pub fn new() -> (uf: Self)
        ensures
            uf.wf(),
            uf.parent_map() == Map::<usize, usize>::empty(),
            uf.rank_map() == Map::<usize, usize>::empty(),
            uf.edge_count() == 0,
            uf.counts_agree(),
            forall|z: usize| #[trigger] uf.rep(z) == z,
    {
        let uf = UnionFind {
            parent: HashMap::new(),
            rank: HashMap::new(),
            edges: 0,
            level: Ghost(Map::empty()),
            top: Ghost(0),
        };
        assert forall|z: usize| #[trigger] uf.rep(z) == z by {
            lemma_root(uf.parent@, uf.rank@, uf.level@, uf.top@, z);
        }
        assert(roots_of(uf.parent@) =~= Set::<usize>::empty());
        uf
    }

    fn parent_get(&self, x: usize) -> (r: usize)
        ensures
            r == parent_of(self.parent@, x),
    {
        match self.parent.get(&x) {
            Some(p) => *p,
            None => x,
        }
    }

    fn rank_get(&self, x: usize) -> (r: usize)
        ensures
            r == rank_of(self.rank@, x),
    {
        match self.rank.get(&x) {
            Some(r) => *r,
            None => 0,
        }
    }

    /// The root of the class of `x`, adding `x` as its own class when it is
    /// new. Every node on the way is then pointed straight at the root.
    pub fn find(&mut self, x: usize) -> (r: usize)
        requires
            old(self).wf(),
        ensures
            final(self).wf(),
            r == old(self).rep(x),
            final(self).rep(r) == r,
            forall|z: usize| #[trigger] final(self).rep(z) == old(self).rep(z),
            final(self).parent_map().dom() == old(self).parent_map().dom().insert(x),
            final(self).parent_map() == old(self).parents_after_find(x),
            final(self).parent_map()[x] == r,
            roots_of(final(self).parent_map()) == if old(self).parent_map().contains_key(x) {
                roots_of(old(self).parent_map())
            } else {
                roots_of(old(self).parent_map()).insert(x)
            },
            old(self).counts_agree() ==> final(self).counts_agree(),
            !old(self).parent_map().contains_key(x) ==> final(self).parent_map() == old(
                self,
            ).parent_map().insert(x, x),
            final(self).rank_map() == old(self).rank_map(),
            final(self).edge_count() == old(self).edge_count(),
    {
        let ghost pm0 = self.parent@;
        let ghost lv = self.level@;
        let ghost top = self.top@;
        let ghost rk = self.rank@;
        if !self.parent.contains_key(&x) {
            self.parent.insert(x, x);
            proof {
                assert forall|z: usize| #[trigger] root_of(self.parent@, lv, top, z) == root_of(pm0, lv, top, z) by {
                    lemma_add_node(pm0, rk, lv, top, x, z);
                }
                assert(self.parent@.dom() =~= pm0.dom().insert(x));
                assert forall|z: usize| self.parent@.contains_key(z) implies self.parent@.contains_key(
                    #[trigger] self.parent@[z],
                ) by {
                    if z != x {
                        assert(pm0.contains_key(pm0[z]));
                    }
                }
                assert forall|z: usize| #[trigger] self.parent@.contains_key(z) implies level_of(lv, z) <= top by {
                    if z == x {
                        assert(!lv.contains_key(x));
                    }
                }
            }
        }
        assert(self.parent@.dom() =~= pm0.dom().insert(x));
        let ghost pm1 = self.parent@;
        let mut root = x;
        let mut p = self.parent_get(root);
        while p != root
            invariant
                forest_wf(self.parent@, rk, lv, top),
                self.parent@ == pm1,
                self.level@ == lv,
                self.top@ == top,
                self.rank@ == rk,
                pm1.contains_key(root),
                p == pm1[root],
                root_of(pm1, lv, top, root) == root_of(pm1, lv, top, x),
            decreases top - level_of(lv, root),
        {
            proof {
                lemma_root(pm1, rk, lv, top, root);
            }
            root = p;
            p = self.parent_get(root);
        }
        proof {
            lemma_root(pm1, rk, lv, top, root);
            lemma_root(pm1, rk, lv, top, x);
            reveal_with_fuel(on_path, 1);
            assert(on_path(pm1, lv, top, x, x));
        }
        let mut cur = x;
        while cur != root
            invariant
                forest_wf(self.parent@, rk, lv, top),
                self.level@ == lv,
                self.top@ == top,
                self.rank@ == rk,
                self.edges == old(self).edges,
                self.parent@.dom() == pm1.dom(),
                forall|z: usize| #[trigger] root_of(self.parent@, lv, top, z) == root_of(pm1, lv, top, z),
                self.parent@.contains_key(cur),
                root_of(self.parent@, lv, top, cur) == root,
                parent_of(self.parent@, root) == root,
                forest_wf(pm1, rk, lv, top),
                root == root_of(pm1, lv, top, x),
                parent_of(pm1, root) == root,
                on_path(pm1, lv, top, x, cur),
                forall|z: usize|
                    #[trigger] self.parent@.contains_key(z) ==> self.parent@[z] == if on_path(pm1, lv, top, x, z)
                        && !on_path(pm1, lv, top, cur, z) {
                        root
                    } else {
                        pm1[z]
                    },
            decreases top - level_of(lv, cur),
        {
            let next = self.parent_get(cur);
            let ghost pm = self.parent@;
            proof {
                reveal_with_fuel(on_path, 1);
                assert(on_path(pm1, lv, top, cur, cur));
                assert(pm[cur] == pm1[cur]);
                lemma_root(pm, rk, lv, top, cur);
                assert(pm1[cur] != cur);
                assert forall|z: usize| #[trigger] on_path(pm1, lv, top, cur, z) == (z == cur || on_path(pm1, lv, top, next, z)) by {
                    lemma_on_path_step(pm1, rk, lv, top, cur, z);
                }
                if on_path(pm1, lv, top, next, cur) {
                    lemma_on_path_level(pm1, rk, lv, top, next, cur);
                }
                lemma_on_path_step(pm1, rk, lv, top, cur, next);
                lemma_on_path_trans(pm1, rk, lv, top, x, cur, next);
            }
            proof {
                lemma_root(pm, rk, lv, top, cur);
                lemma_compress_wf(pm, rk, lv, top, cur);
                assert forall|z: usize| #[trigger] root_of(pm.insert(cur, root), lv, top, z) == root_of(pm, lv, top, z) by {
                    lemma_compress(pm, rk, lv, top, cur, z);
                }
            }
            self.parent.insert(cur, root);
            proof {
                assert(self.parent@.dom() =~= pm.dom());
                assert(level_of(lv, cur) < level_of(lv, next));
            }
            cur = next;
        }
        proof {
            assert forall|z: usize| #[trigger] on_path(pm1, lv, top, root, z) == (z == root) by {
                lemma_on_path_root(pm1, lv, top, root, z);
            }
            assert(self.parent@ =~= old(self).parents_after_find(x));
            reveal_with_fuel(on_path, 1);
            assert(on_path(pm1, lv, top, x, x));
            if !old(self).parent@.contains_key(x) {
                assert forall|z: usize| #[trigger] on_path(pm1, lv, top, x, z) == (z == x) by {
                    lemma_on_path_root(pm1, lv, top, x, z);
                }
                assert(self.parent@ =~= old(self).parent@.insert(x, x));
            }
            assert forall|z: usize| roots_of(self.parent@).contains(z) <==> #[trigger] roots_of(pm1).contains(z) by {
                if pm1.contains_key(z) && on_path(pm1, lv, top, x, z) && pm1[z] == z {
                    lemma_on_path_root_is_root(pm1, rk, lv, top, x, z);
                }
            }
            assert(roots_of(self.parent@) =~= roots_of(pm1));
            if old(self).parent@.contains_key(x) {
                assert(pm1 == pm0);
            } else {
                assert(roots_of(pm1) =~= roots_of(pm0).insert(x));
                assert(!roots_of(pm0).contains(x));
                assert(!pm0.dom().contains(x));
            }
        }
        root
    }

    /// Joins the classes of `x` and `y`. When they differ, the root of
    /// higher rank (that of `x` on a tie, whose rank then goes up by one)
    /// becomes the root of both, and `edges` counts one more join.
    pub fn union(&mut self, x: usize, y: usize)
        requires
            old(self).wf(),
        ensures
            final(self).wf(),
            final(self).parent_map().dom() == old(self).parent_map().dom().insert(x).insert(y),
            old(self).same_class(x, y) ==> {
                &&& forall|z: usize| #[trigger] final(self).rep(z) == old(self).rep(z)
                &&& final(self).rank_map() == old(self).rank_map()
                &&& final(self).edge_count() == old(self).edge_count()
            },
            !old(self).same_class(x, y) ==> {
                let px = old(self).rep(x);
                let py = old(self).rep(y);
                let w = union_winner(old(self).rank_map(), px, py);
                &&& forall|z: usize| #[trigger]
                    final(self).rep(z) == if old(self).rep(z) == px || old(self).rep(z) == py {
                        w
                    } else {
                        old(self).rep(z)
                    }
                &&& final(self).rank_map() == ranks_after_union(old(self).rank_map(), px, py)
                &&& final(self).edge_count() == capped_step(old(self).edge_count())
                &&& final(self).parent_map()[if w == px {
                    py
                } else {
                    px
                }] == w
                &&& final(self).parent_map()[w] == w
            },
            forall|z: usize, w: usize|
                #[trigger] final(self).same_class(z, w) <==> old(self).same_class(z, w) || (old(
                    self,
                ).same_class(z, x) && old(self).same_class(w, y)) || (old(self).same_class(z, y)
                    && old(self).same_class(w, x)),
            old(self).counts_agree() ==> final(self).counts_agree(),
    {
        let px = self.find(x);
        let py = self.find(y);
        proof {
            self.lemma_rep(x);
            self.lemma_rep(y);
            assert(self.parent@.dom() =~= old(self).parent@.dom().insert(x).insert(y));
        }
        if px == py {
            assert forall|z: usize, w: usize| #[trigger] self.same_class(z, w) <==> old(self).same_class(z, w)
                || (old(self).same_class(z, x) && old(self).same_class(w, y)) || (old(self).same_class(z, y)
                && old(self).same_class(w, x)) by {
                assert(self.rep(z) == old(self).rep(z));
                assert(self.rep(w) == old(self).rep(w));
            }
            return;
        }
        let ghost pm = self.parent@;
        let ghost lv = self.level@;
        let ghost top = self.top@;
        let ghost agreed = self.counts_agree();
        let ghost e0 = self.edges;
        let node_count = self.parent.len();
        proof {
            if agreed {
                assert(roots_of(pm).contains(px) && roots_of(pm).contains(py));
                assert(set![px, py].subset_of(roots_of(pm)));
                vstd::set_lib::lemma_len_subset(set![px, py], roots_of(pm));
                assert(set![px, py].len() == 2) by {
                    assert(set![px, py] =~= set![px].insert(py));
                }
                assert(e0 + 2 <= node_count);
            }
        }
        assert forall|z: usize| #[trigger] root_of(pm, lv, top, z) == old(self).rep(z) by {
            assert(self.rep(z) == old(self).rep(z));
        }
        if self.edges < usize::MAX {
            self.edges = self.edges + 1;
        }
        let rank_px = self.rank_get(px);
        let rank_py = self.rank_get(py);
        let ghost rk0 = self.rank@;
        self.rank.insert(px, rank_px);
        self.rank.insert(py, rank_py);
        let (winner, loser) = if rank_px > rank_py {
            (px, py)
        } else if rank_px < rank_py {
            (py, px)
        } else {
            let stepped = if rank_px < usize::MAX {
                rank_px + 1
            } else {
                rank_px
            };
            self.rank.insert(px, stepped);
            (px, py)
        };
        proof {
            assert(rk0 == old(self).rank_map());
            assert(union_winner(rk0, px, py) == winner);
            assert(self.rank@ == ranks_after_union(rk0, px, py));
            lemma_link_wf(pm, rk0, self.rank@, lv, top, winner, loser);
            assert forall|z: usize| #[trigger] root_of(
                pm.insert(loser, winner),
                lv.insert(winner, linked_level(lv, winner, loser)),
                top + 1,
                z,
            ) == if root_of(pm, lv, top, z) == loser {
                winner
            } else {
                root_of(pm, lv, top, z)
            } by {
                lemma_link(pm, rk0, lv, top, winner, loser, z);
            }
        }
        proof {
            assert(pm.contains_key(winner) && pm[winner] == winner);
        }
        self.parent.insert(loser, winner);
        proof {
            assert(roots_of(self.parent@) =~= roots_of(pm).remove(loser));
            assert(self.parent@.dom() =~= pm.dom());
        }
        self.level = Ghost(lv.insert(winner, linked_level(lv, winner, loser)));
        self.top = Ghost(top + 1);
        proof {
            assert(self.parent@.dom() =~= pm.dom());
            assert forall|z: usize| #[trigger] self.rep(z) == if old(self).rep(z) == px || old(self).rep(z) == py {
                union_winner(old(self).rank_map(), px, py)
            } else {
                old(self).rep(z)
            } by {
                assert(root_of(pm, lv, top, z) == old(self).rep(z));
            }
            assert forall|z: usize, w: usize| #[trigger] self.same_class(z, w) <==> old(self).same_class(z, w)
                || (old(self).same_class(z, x) && old(self).same_class(w, y)) || (old(self).same_class(z, y)
                && old(self).same_class(w, x)) by {
                assert(self.rep(z) == if old(self).rep(z) == px || old(self).rep(z) == py {
                    winner
                } else {
                    old(self).rep(z)
                });
                assert(self.rep(w) == if old(self).rep(w) == px || old(self).rep(w) == py {
                    winner
                } else {
                    old(self).rep(w)
                });
                lemma_root(pm, rk0, lv, top, z);
                lemma_root(pm, rk0, lv, top, w);
            }
        }
    }

    /// Forgets every node and every join.
    pub fn reset(&mut self)
        ensures
            final(self).wf(),
            final(self).parent_map() == Map::<usize, usize>::empty(),
            final(self).rank_map() == Map::<usize, usize>::empty(),
            final(self).edge_count() == 0,
            final(self).counts_agree(),
            forall|z: usize| #[trigger] final(self).rep(z) == z,
    {
        *self = UnionFind::new();
    }

    /// The root of each id in turn, as `find` gives it.
    pub fn batch_find(&mut self, ids: &[usize]) -> (r: Vec<usize>)
        requires
            old(self).wf(),
        ensures
            final(self).wf(),
            r@.len() == ids@.len(),
            forall|i: int| 0 <= i < r@.len() ==> r@[i] == old(self).rep(#[trigger] ids@[i]),
            forall|z: usize| #[trigger] final(self).rep(z) == old(self).rep(z),
            final(self).rank_map() == old(self).rank_map(),
            final(self).edge_count() == old(self).edge_count(),
    {
        let mut out: Vec<usize> = Vec::with_capacity(ids.len());
        for i in 0..ids.len()
            invariant
                self.wf(),
                out@.len() == i,
                forall|j: int| 0 <= j < i ==> out@[j] == old(self).rep(#[trigger] ids@[j]),
                forall|z: usize| #[trigger] self.rep(z) == old(self).rep(z),
                self.rank_map() == old(self).rank_map(),
                self.edge_count() == old(self).edge_count(),
        {
            let root = self.find(ids[i]);
            out.push(root);
        }
        out
    }

    /// The number of unions that joined two classes.
    pub fn edges(&self) -> (r: usize)
        ensures
            r == self.edge_count(),
    {
        self.edges
    }

    /// The parent of each node seen so far.
    pub fn parent(&self) -> (r: &HashMap<usize, usize>)
        ensures
            r@ == self.parent_map(),
    {
        &self.parent
    }

    /// The rank of each root that took part in a union.
    pub fn rank(&self) -> (r: &HashMap<usize, usize>)
        ensures
            r@ == self.rank_map(),
    {
        &self.rank
    }

    /// The parent map, rank map and join count, to be stored.
    pub fn into_parts(self) -> (r: (HashMap<usize, usize>, HashMap<usize, usize>, usize))
        ensures
            r.0@ == self.parent_map(),
            r.1@ == self.rank_map(),
            r.2 == self.edge_count(),
    {
        (self.parent, self.rank, self.edges)
    }

    /// A partition rebuilt from stored parts, or `None` when they do not
    /// form one: a parent that is not a node itself, a rank entry for an
    /// unknown node, or a parent link whose rank does not rise.
    pub fn from_parts(parent: HashMap<usize, usize>, rank: HashMap<usize, usize>, edges: usize) -> (r: Option<Self>)
        ensures
            r is Some <==> parts_valid(parent@, rank@),
            r matches Some(uf) ==> {
                &&& uf.wf()
                &&& uf.parent_map() == parent@
                &&& uf.rank_map() == rank@
                &&& uf.edge_count() == edges
            },
    {
        let mut ok = true;
        for kv in it: parent.iter()
            invariant
                it.seq() == vstd::std_specs::hash::spec_hash_map_iter(&parent).remaining(),
                ok <==> forall|i: int| 0 <= i < it.index() ==> link_valid(parent@, rank@, *#[trigger] it.seq()[i].0),
        {
            let (k, v) = kv;
            let rk = match rank.get(k) {
                Some(r) => *r,
                None => 0,
            };
            let rv = match rank.get(v) {
                Some(r) => *r,
                None => 0,
            };
            let step_ok = parent.contains_key(v) && (*k == *v || rk < rv);
            ok = ok && step_ok;
        }
        proof {
            vstd::std_specs::hash::axiom_spec_hash_map_iter(&parent);
            let seq = vstd::std_specs::hash::spec_hash_map_iter(&parent).remaining();
            if ok {
                assert forall|k: usize| #[trigger] parent@.contains_key(k) implies link_valid(parent@, rank@, k) by {
                    assert(seq.contains((&k, &parent@[k])));
                    let i = choose|i: int| 0 <= i < seq.len() && seq[i] == (&k, &parent@[k]);
                    assert(link_valid(parent@, rank@, *seq[i].0));
                }
            } else {
                let i = choose|i: int| 0 <= i < seq.len() && !link_valid(parent@, rank@, *#[trigger] seq[i].0);
                assert(parent@.contains_key(*seq[i].0));
            }
        }
        let mut known = true;
        for kv in it: rank.iter()
            invariant
                it.seq() == vstd::std_specs::hash::spec_hash_map_iter(&rank).remaining(),
                known <==> forall|i: int| 0 <= i < it.index() ==> parent@.contains_key(*#[trigger] it.seq()[i].0),
        {
            let (k, _v) = kv;
            known = known && parent.contains_key(k);
        }
        proof {
            vstd::std_specs::hash::axiom_spec_hash_map_iter(&rank);
            let seq = vstd::std_specs::hash::spec_hash_map_iter(&rank).remaining();
            if known {
                assert forall|k: usize| #[trigger] rank@.contains_key(k) implies parent@.contains_key(k) by {
                    assert(seq.contains((&k, &rank@[k])));
                    let i = choose|i: int| 0 <= i < seq.len() && seq[i] == (&k, &rank@[k]);
                    assert(parent@.contains_key(*seq[i].0));
                }
            } else {
                let i = choose|i: int| 0 <= i < seq.len() && !parent@.contains_key(*#[trigger] seq[i].0);
                assert(rank@.contains_key(*seq[i].0));
            }
        }
        if !(ok && known) {
            return None;
        }
        let ghost lv = Map::new(|k: usize| parent@.contains_key(k), |k: usize| rank_of(rank@, k) as nat);
        let uf = UnionFind { parent, rank, edges, level: Ghost(lv), top: Ghost(usize::MAX as nat) };
        proof {
            assert forall|x: usize| uf.parent@.contains_key(x) && #[trigger] uf.parent@[x] != x implies level_of(lv, x)
                < level_of(lv, uf.parent@[x]) by {
                assert(link_valid(uf.parent@, uf.rank@, x));
            }
        }
        Some(uf)
    }

    /// Every node with a rank entry is a node of the parent map.
    pub proof fn lemma_rank_keys(&self)
        requires
            self.wf(),
        ensures
            forall|k: usize| #[trigger] self.rank_map().contains_key(k) ==> self.parent_map().contains_key(k),
    {
    }

    /// Finding twice gives what finding once gives: a representative is its
    /// own representative, and `find` leaves every representative in place.
    pub proof fn lemma_find_idempotent(&self, x: usize)
        requires
            self.wf(),
        ensures
            self.rep(self.rep(x)) == self.rep(x),
            self.same_class(x, self.rep(x)),
    {
        self.lemma_rep(x);
    }

    /// Storing a partition and rebuilding it from the stored parts gives
    /// the same parent map, rank map and join count, as long as no rank
    /// has reached `usize::MAX`.
    pub proof fn lemma_parts_round_trip(&self)
        requires
            self.wf(),
            forall|k: usize| #[trigger] self.rank_map().contains_key(k) ==> self.rank_map()[k] < usize::MAX,
        ensures
            parts_valid(self.parent_map(), self.rank_map()),
    {
        assert forall|k: usize| #[trigger] self.parent_map().contains_key(k) implies link_valid(
            self.parent_map(),
            self.rank_map(),
            k,
        ) by {
            let pm = self.parent@;
            assert(pm.contains_key(pm[k]));
            if pm[k] != k {
                assert(rank_below(rank_of(self.rank@, k), rank_of(self.rank@, pm[k])));
            }
        }
    }
}

/// Whether `z` and `w` are in one class of the equivalence closure of the
/// pairs: each pair joins the classes of its two ids, in turn.
pub open spec fn joined_by(pairs: Seq<(usize, usize)>, z: usize, w: usize) -> bool
    decreases pairs.len(),
{
    if pairs.len() == 0 {
        z == w
    } else {
        let prev = pairs.drop_last();
        let (x, y) = pairs.last();
        joined_by(prev, z, w) || (joined_by(prev, z, x) && joined_by(prev, w, y)) || (joined_by(
            prev,
            z,
            y,
        ) && joined_by(prev, w, x))
    }
}

/// After unions of the pairs in turn, starting from a partition of single
/// nodes, two nodes are in one class exactly when the pairs join them.
/// `states[i + 1]` is `states[i]` after `union(pairs[i])`, as `union`
/// states it.
pub proof fn lemma_unions_give_closure(states: Seq<UnionFind>, pairs: Seq<(usize, usize)>)
    requires
        states.len() == pairs.len() + 1,
        forall|z: usize| #[trigger] states[0].rep(z) == z,
        forall|i: int, z: usize, w: usize|
            0 <= i < pairs.len() ==> (#[trigger] states[i + 1].same_class(z, w) <==> states[i].same_class(z, w)
                || (states[i].same_class(z, pairs[i].0) && states[i].same_class(w, pairs[i].1)) || (
            states[i].same_class(z, pairs[i].1) && states[i].same_class(w, pairs[i].0))),
    ensures
        forall|z: usize, w: usize| #[trigger] states.last().same_class(z, w) <==> joined_by(pairs, z, w),
    decreases pairs.len(),
{
    if pairs.len() == 0 {
        assert forall|z: usize, w: usize| #[trigger] states.last().same_class(z, w) <==> joined_by(pairs, z, w) by {
            assert(states[0].rep(z) == z && states[0].rep(w) == w);
        }
    } else {
        let n = pairs.len() - 1;
        let s2 = states.drop_last();
        let p2 = pairs.drop_last();
        assert forall|i: int, z: usize, w: usize|
            0 <= i < p2.len() implies (#[trigger] s2[i + 1].same_class(z, w) <==> s2[i].same_class(z, w)
                || (s2[i].same_class(z, p2[i].0) && s2[i].same_class(w, p2[i].1)) || (s2[i].same_class(
                z,
                p2[i].1,
            ) && s2[i].same_class(w, p2[i].0))) by {
            assert(s2[i + 1] == states[i + 1] && s2[i] == states[i] && p2[i] == pairs[i]);
        }
        lemma_unions_give_closure(s2, p2);
        assert forall|z: usize, w: usize| #[trigger] states.last().same_class(z, w) <==> joined_by(pairs, z, w) by {
            assert(states.last() == states[n + 1]);
            assert(s2.last() == states[n]);
            assert(states[n].same_class(z, w) <==> joined_by(p2, z, w));
            assert(states[n].same_class(z, pairs[n].0) <==> joined_by(p2, z, pairs[n].0));
            assert(states[n].same_class(w, pairs[n].1) <==> joined_by(p2, w, pairs[n].1));
            assert(states[n].same_class(z, pairs[n].1) <==> joined_by(p2, z, pairs[n].1));
            assert(states[n].same_class(w, pairs[n].0) <==> joined_by(p2, w, pairs[n].0));
        }
    }
}

/// The link from `k` to its parent is sound: the parent is a node, and
/// unless `k` is a root its rank is higher than that of `k`.
pub open spec fn link_valid(pm: Map<usize, usize>, rk: Map<usize, usize>, k: usize) -> bool {
    pm.contains_key(k) ==> {
        &&& pm.contains_key(pm[k])
        &&& pm[k] != k ==> rank_of(rk, k) < rank_of(rk, pm[k])
    }
}

/// Stored parts that form a partition.
pub open spec fn parts_valid(pm: Map<usize, usize>, rk: Map<usize, usize>) -> bool {
    &&& forall|k: usize| #[trigger] pm.contains_key(k) ==> link_valid(pm, rk, k)
    &&& forall|k: usize| #[trigger] rk.contains_key(k) ==> pm.contains_key(k)
}

} // verus!
