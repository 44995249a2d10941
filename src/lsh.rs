//! The banded LSH index: per band, each band key with the ids that gave it;
//! clustering those ids into a disjoint-set union; keeping one id per class.
use vstd::prelude::*;
use crate::bands::{adjust_b, adjusted_b, generate_hash_rangs, hash_ranges_spec};
use crate::embed::{py_embed_func, text_band_keys};
use crate::minhash::{generate_permutations, permutation_draws, MODULE_PRIME};
use crate::key_index::KeyIndex;
use crate::tokenizer::{byte_strings, copy_bytes};
use crate::union_find::{roots_of, UnionFind};

verus! {

/// The ids stored under `key`, given each distinct key and its id list.
pub open spec fn table_ids(keys: Seq<Seq<u8>>, lists: Seq<Seq<u32>>, key: Seq<u8>) -> Set<u32> {
    Set::new(|u: u32| exists|e: int| 0 <= e < keys.len() && #[trigger] keys[e] == key && lists[e].contains(u))
}

/// One band table: each distinct band key with the ids stored under it.
pub struct BandTable {
    index: KeyIndex,
    ids: Vec<Vec<u32>>,
}

impl BandTable {
    pub closed spec fn keys(&self) -> Seq<Seq<u8>> {
        self.index.view_keys()
    }

    pub closed spec fn lists(&self) -> Seq<Seq<u32>> {
        self.ids@.map_values(|l: Vec<u32>| l@)
    }

    pub closed spec fn wf(&self) -> bool {
        &&& self.index.wf()
        &&& self.ids@.len() == self.index.view_keys().len()
    }

    /// The ids stored under `key`.
    pub open spec fn ids_under(&self, key: Seq<u8>) -> Set<u32> {
        table_ids(self.keys(), self.lists(), key)
    }

    /// Distinct keys: one entry per key.
    pub proof fn lemma_keys_distinct(&self)
        requires
            self.wf(),
        ensures
            self.keys().no_duplicates(),
            self.lists().len() == self.keys().len(),
    {
        self.index.lemma_distinct();
    }

    pub fn new() -> (t: Self)
        ensures
            t.wf(),
            forall|k: Seq<u8>| #[trigger] t.ids_under(k) == Set::<u32>::empty(),
    {
        let t = BandTable { index: KeyIndex::new(), ids: Vec::new() };
        assert forall|k: Seq<u8>| #[trigger] t.ids_under(k) == Set::<u32>::empty() by {
            assert(t.ids_under(k) =~= Set::<u32>::empty());
        }
        t
    }

    pub fn len(&self) -> (r: usize)
        requires
            self.wf(),
        ensures
            r == self.keys().len(),
    {
        self.ids.len()
    }

    /// The ids stored under the `e`-th key.
    pub fn ids_at(&self, e: usize) -> (r: &Vec<u32>)
        requires
            self.wf(),
            e < self.keys().len(),
        ensures
            r@ == self.lists()[e as int],
    {
        &self.ids[e as usize]
    }

    /// Adds `id` under `key`, creating the entry when the key is new.
    pub fn insert(&mut self, key: Vec<u8>, id: u32)
        requires
            old(self).wf(),
        ensures
            final(self).wf(),
            final(self).ids_under(key@) == old(self).ids_under(key@).insert(id),
            forall|k: Seq<u8>| k != key@ ==> #[trigger] final(self).ids_under(k) == old(self).ids_under(k),
    {
        let ghost keys0 = self.keys();
        let ghost lists0 = self.lists();
        proof {
            self.index.lemma_distinct();
        }
        match self.index.position(key.as_slice()) {
            Some(e) => {
                self.ids[e].push(id);
                proof {
                    assert(self.keys() == keys0);
                    assert(self.lists() =~= lists0.update(e as int, lists0[e as int].push(id)));
                    lemma_append_id(keys0, lists0, e as int, id);
                }
            },
            None => {
                let ghost kv = key@;
                self.index.push(key);
                let fresh: Vec<u32> = vec![id];
                assert(fresh@ =~= seq![id]);
                self.ids.push(fresh);
                proof {
                    assert(self.lists() =~= lists0.push(seq![id]));
                    lemma_new_key(keys0, lists0, kv, id);
                }
            },
        }
    }
}

proof fn lemma_append_id(keys: Seq<Seq<u8>>, lists: Seq<Seq<u32>>, e: int, id: u32)
    requires
        keys.no_duplicates(),
        lists.len() == keys.len(),
        0 <= e < keys.len(),
    ensures
        table_ids(keys, lists.update(e, lists[e].push(id)), keys[e]) == table_ids(keys, lists, keys[e]).insert(id),
        forall|k: Seq<u8>| k != keys[e] ==> #[trigger] table_ids(keys, lists.update(e, lists[e].push(id)), k)
            == table_ids(keys, lists, k),
{
    let lists2 = lists.update(e, lists[e].push(id));
    assert forall|k: Seq<u8>| k != keys[e] implies #[trigger] table_ids(keys, lists2, k) == table_ids(keys, lists, k) by {
        assert forall|u: u32| table_ids(keys, lists2, k).contains(u) <==> table_ids(keys, lists, k).contains(u) by {
            if table_ids(keys, lists2, k).contains(u) {
                let f = choose|f: int| 0 <= f < keys.len() && #[trigger] keys[f] == k && lists2[f].contains(u);
                assert(lists[f] == lists2[f]);
            }
            if table_ids(keys, lists, k).contains(u) {
                let f = choose|f: int| 0 <= f < keys.len() && #[trigger] keys[f] == k && lists[f].contains(u);
                assert(lists[f] == lists2[f]);
            }
        }
        assert(table_ids(keys, lists2, k) =~= table_ids(keys, lists, k));
    }
    let key = keys[e];
    assert forall|u: u32| table_ids(keys, lists2, key).contains(u) <==> table_ids(keys, lists, key).insert(id).contains(u) by {
        if table_ids(keys, lists2, key).contains(u) && u != id {
            let f = choose|f: int| 0 <= f < keys.len() && #[trigger] keys[f] == key && lists2[f].contains(u);
            assert(f == e);
            let j = choose|j: int| 0 <= j < lists2[f].len() && lists2[f][j] == u;
            assert(lists[e][j] == u);
        }
        if u == id {
            assert(lists2[e][lists2[e].len() - 1] == id);
        }
        if table_ids(keys, lists, key).contains(u) {
            let f = choose|f: int| 0 <= f < keys.len() && #[trigger] keys[f] == key && lists[f].contains(u);
            assert(f == e);
            let j = choose|j: int| 0 <= j < lists[f].len() && lists[f][j] == u;
            assert(lists2[e][j] == u);
        }
    }
    assert(table_ids(keys, lists2, key) =~= table_ids(keys, lists, key).insert(id));
}

proof fn lemma_new_key(keys: Seq<Seq<u8>>, lists: Seq<Seq<u32>>, key: Seq<u8>, id: u32)
    requires
        !keys.contains(key),
        lists.len() == keys.len(),
    ensures
        table_ids(keys.push(key), lists.push(seq![id]), key) == table_ids(keys, lists, key).insert(id),
        forall|k: Seq<u8>| k != key ==> #[trigger] table_ids(keys.push(key), lists.push(seq![id]), k) == table_ids(
            keys,
            lists,
            k,
        ),
{
    let keys2 = keys.push(key);
    let lists2 = lists.push(seq![id]);
    assert forall|k: Seq<u8>| k != key implies #[trigger] table_ids(keys2, lists2, k) == table_ids(keys, lists, k) by {
        assert forall|u: u32| table_ids(keys2, lists2, k).contains(u) <==> table_ids(keys, lists, k).contains(u) by {
            if table_ids(keys2, lists2, k).contains(u) {
                let f = choose|f: int| 0 <= f < keys2.len() && #[trigger] keys2[f] == k && lists2[f].contains(u);
                assert(keys[f] == keys2[f]);
            }
            if table_ids(keys, lists, k).contains(u) {
                let f = choose|f: int| 0 <= f < keys.len() && #[trigger] keys[f] == k && lists[f].contains(u);
                assert(keys2[f] == keys[f]);
            }
        }
        assert(table_ids(keys2, lists2, k) =~= table_ids(keys, lists, k));
    }
    assert(table_ids(keys, lists, key) =~= Set::<u32>::empty()) by {
        assert forall|u: u32| !table_ids(keys, lists, key).contains(u) by {
            if table_ids(keys, lists, key).contains(u) {
                let f = choose|f: int| 0 <= f < keys.len() && #[trigger] keys[f] == key && lists[f].contains(u);
                assert(keys.contains(key));
            }
        }
    }
    assert forall|u: u32| table_ids(keys2, lists2, key).contains(u) <==> u == id by {
        if u == id {
            assert(keys2[keys.len() as int] == key);
            assert(lists2[keys.len() as int][0] == id);
        }
        if table_ids(keys2, lists2, key).contains(u) {
            let f = choose|f: int| 0 <= f < keys2.len() && #[trigger] keys2[f] == key && lists2[f].contains(u);
            if f < keys.len() {
                assert(keys[f] == key);
                assert(keys.contains(key));
            }
        }
    }
    assert(table_ids(keys2, lists2, key) =~= table_ids(keys, lists, key).insert(id));
}

/// The positions, in order, of the ids among the first `n` that represent
/// their own class.
pub open spec fn survivors_upto(uf: UnionFind, ids: Seq<u32>, n: int) -> Seq<usize>
    decreases n,
{
    if n <= 0 {
        Seq::empty()
    } else {
        let prev = survivors_upto(uf, ids, n - 1);
        if uf.rep(ids[n - 1] as usize) == ids[n - 1] as usize {
            prev.push((n - 1) as usize)
        } else {
            prev
        }
    }
}

/// The MinHash LSH state of a run: band ranges, n-gram parameters,
/// permutations, and one band table per band.
pub struct EmbedFunc {
    hash_values: Vec<(u32, u32)>,
    n_grams: u32,
    min_len: u32,
    permutations: (Vec<u64>, Vec<u64>),
    hash_tables: Vec<BandTable>,
}

impl EmbedFunc {
    pub closed spec fn ranges(&self) -> Seq<(u32, u32)> {
        self.hash_values@
    }

    pub closed spec fn ngram_width(&self) -> u32 {
        self.n_grams
    }

    pub closed spec fn min_length(&self) -> u32 {
        self.min_len
    }

    pub closed spec fn perm_a(&self) -> Seq<u64> {
        self.permutations.0@
    }

    pub closed spec fn perm_b(&self) -> Seq<u64> {
        self.permutations.1@
    }

    /// The ids stored under `key` in band `i`.
    pub closed spec fn band_ids(&self, i: int, key: Seq<u8>) -> Set<u32> {
        self.hash_tables@[i].ids_under(key)
    }

    pub closed spec fn wf(&self) -> bool {
        &&& self.n_grams >= 1
        &&& self.permutations.0@.len() == self.permutations.1@.len()
        &&& self.hash_tables@.len() == self.hash_values@.len()
        &&& forall|i: int| 0 <= i < self.hash_tables@.len() ==> (#[trigger] self.hash_tables@[i]).wf()
    }

    /// Whether `z` is stored under some band key together with another id.
    pub open spec fn shares_key(&self, z: u32) -> bool {
        exists|i: int, k: Seq<u8>, v: u32|
            0 <= i < self.ranges().len() && v != z && #[trigger] self.band_ids(i, k).contains(z)
                && #[trigger] self.band_ids(i, k).contains(v)
    }

    /// `self` holds what `prev` held and, under each band key of each
    /// document that has an id, that id.
    pub open spec fn adds_shard(&self, prev: EmbedFunc, text: Seq<String>, idx: Seq<u32>) -> bool {
        forall|i: int, k: Seq<u8>, u: u32|
            0 <= i < prev.ranges().len() ==> (#[trigger] self.band_ids(i, k).contains(u) <==> (prev.band_ids(
                i,
                k,
            ).contains(u) || exists|d: int|
                0 <= d < text.len() && d < idx.len() && idx[d] == u && #[trigger] prev.keys_of(text[d]@)[i] == k))
    }

    /// The ids stored under some band key together with another id.
    pub open spec fn key_sharing_ids(&self) -> Set<usize> {
        Set::new(|z: usize| z <= u32::MAX && self.shares_key(z as u32))
    }

    /// Whether `u` and `v` are stored under one band key.
    pub open spec fn linked(&self, u: u32, v: u32) -> bool {
        exists|i: int, k: Seq<u8>|
            0 <= i < self.ranges().len() && #[trigger] self.band_ids(i, k).contains(u)
                && #[trigger] self.band_ids(i, k).contains(v)
    }

    /// A non-empty run of ids, each stored under one band key with the next.
    pub open spec fn chain(&self, p: Seq<u32>) -> bool {
        &&& p.len() >= 1
        &&& forall|j: int| 0 <= j < p.len() - 1 ==> self.linked(#[trigger] p[j], p[j + 1])
    }

    /// Whether a chain leads from `u` to `v`.
    pub open spec fn connected(&self, u: u32, v: u32) -> bool {
        exists|p: Seq<u32>| #[trigger] self.chain(p) && p[0] == u && p.last() == v
    }

    /// `uf` joins exactly the ids that chains connect, and nothing else.
    pub open spec fn partition_of_keys(&self, uf: UnionFind) -> bool {
        forall|z: usize, w: usize|
            #[trigger] uf.same_class(z, w) <==> z == w || (z <= u32::MAX && w <= u32::MAX && self.connected(
                z as u32,
                w as u32,
            ))
    }

    pub proof fn lemma_connected_refl(&self, u: u32)
        ensures
            self.connected(u, u),
    {
        let p = seq![u];
        assert(self.chain(p));
    }

    pub proof fn lemma_linked_connected(&self, u: u32, v: u32)
        requires
            self.linked(u, v),
        ensures
            self.connected(u, v),
    {
        let p = seq![u, v];
        assert(self.chain(p));
    }

    pub proof fn lemma_connected_sym(&self, u: u32, v: u32)
        requires
            self.connected(u, v),
        ensures
            self.connected(v, u),
    {
        let p = choose|p: Seq<u32>| #[trigger] self.chain(p) && p[0] == u && p.last() == v;
        let q = p.reverse();
        assert forall|j: int| 0 <= j < q.len() - 1 implies self.linked(#[trigger] q[j], q[j + 1]) by {
            let a = p.len() - 2 - j;
            assert(self.linked(p[a], p[a + 1]));
            assert(q[j] == p[a + 1]);
            assert(q[j + 1] == p[a]);
            let (i, k) = choose|i: int, k: Seq<u8>|
                0 <= i < self.ranges().len() && #[trigger] self.band_ids(i, k).contains(p[a])
                    && #[trigger] self.band_ids(i, k).contains(p[a + 1]);
            assert(self.band_ids(i, k).contains(q[j]) && self.band_ids(i, k).contains(q[j + 1]));
        }
        assert(self.chain(q));
        assert(q[0] == v);
        assert(q.last() == u);
    }

    pub proof fn lemma_connected_trans(&self, u: u32, v: u32, w: u32)
        requires
            self.connected(u, v),
            self.connected(v, w),
        ensures
            self.connected(u, w),
    {
        let p1 = choose|p: Seq<u32>| #[trigger] self.chain(p) && p[0] == u && p.last() == v;
        let p2 = choose|p: Seq<u32>| #[trigger] self.chain(p) && p[0] == v && p.last() == w;
        let q = p1 + p2.drop_first();
        assert forall|j: int| 0 <= j < q.len() - 1 implies self.linked(#[trigger] q[j], q[j + 1]) by {
            if j < p1.len() - 1 {
                assert(q[j] == p1[j] && q[j + 1] == p1[j + 1]);
            } else if j == p1.len() - 1 {
                assert(q[j] == p2[0]);
                assert(q[j + 1] == p2[1]);
                assert(self.linked(p2[0], p2[1]));
            } else {
                let jj = j - p1.len() + 1;
                assert(q[j] == p2[jj]);
                assert(q[j + 1] == p2[jj + 1]);
                assert(self.linked(p2[jj], p2[jj + 1]));
            }
        }
        assert(self.chain(q));
        if p2.len() == 1 {
            assert(q =~= p1);
        } else {
            assert(q.last() == p2.last());
        }
    }

    /// One step of a walk: within a class of `uf`, or along a band key.
    pub open spec fn step(&self, uf: UnionFind, a: usize, b: usize) -> bool {
        uf.same_class(a, b) || (a <= u32::MAX && b <= u32::MAX && self.linked(a as u32, b as u32))
    }

    pub open spec fn walk(&self, uf: UnionFind, p: Seq<usize>) -> bool {
        &&& p.len() >= 1
        &&& forall|j: int| 0 <= j < p.len() - 1 ==> self.step(uf, #[trigger] p[j], p[j + 1])
    }

    /// Whether a walk leads from `z` to `w`.
    pub open spec fn reachable(&self, uf: UnionFind, z: usize, w: usize) -> bool {
        exists|p: Seq<usize>| #[trigger] self.walk(uf, p) && p[0] == z && p.last() == w
    }

    proof fn lemma_step_reachable(&self, uf: UnionFind, a: usize, b: usize)
        requires
            self.step(uf, a, b),
        ensures
            self.reachable(uf, a, b),
    {
        let p = seq![a, b];
        assert(self.walk(uf, p));
    }

    proof fn lemma_reachable_trans(&self, uf: UnionFind, a: usize, b: usize, c: usize)
        requires
            self.reachable(uf, a, b),
            self.reachable(uf, b, c),
        ensures
            self.reachable(uf, a, c),
    {
        let p1 = choose|p: Seq<usize>| #[trigger] self.walk(uf, p) && p[0] == a && p.last() == b;
        let p2 = choose|p: Seq<usize>| #[trigger] self.walk(uf, p) && p[0] == b && p.last() == c;
        let q = p1 + p2.drop_first();
        assert forall|j: int| 0 <= j < q.len() - 1 implies self.step(uf, #[trigger] q[j], q[j + 1]) by {
            if j < p1.len() - 1 {
                assert(q[j] == p1[j] && q[j + 1] == p1[j + 1]);
            } else if j == p1.len() - 1 {
                assert(q[j] == p2[0]);
                assert(q[j + 1] == p2[1]);
            } else {
                let jj = j - p1.len() + 1;
                assert(q[j] == p2[jj]);
                assert(q[j + 1] == p2[jj + 1]);
            }
        }
        assert(self.walk(uf, q));
        if p2.len() == 1 {
            assert(q =~= p1);
        } else {
            assert(q.last() == p2.last());
        }
    }

    /// In a partition of single nodes, a walk between two distinct nodes
    /// is a chain of ids.
    proof fn lemma_walk_fresh(&self, uf: UnionFind, p: Seq<usize>)
        requires
            self.walk(uf, p),
            forall|a: usize, b: usize| #[trigger] uf.same_class(a, b) ==> a == b,
        ensures
            p[0] == p.last() || (p[0] <= u32::MAX && p.last() <= u32::MAX && self.connected(
                p[0] as u32,
                p.last() as u32,
            )),
        decreases p.len(),
    {
        if p.len() > 1 {
            let q = p.drop_last();
            assert(self.walk(uf, q)) by {
                assert forall|j: int| 0 <= j < q.len() - 1 implies self.step(uf, #[trigger] q[j], q[j + 1]) by {
                    assert(q[j] == p[j] && q[j + 1] == p[j + 1]);
                }
            }
            self.lemma_walk_fresh(uf, q);
            let a = p[p.len() - 2];
            let b = p.last();
            assert(self.step(uf, a, b));
            if a != b {
                self.lemma_linked_connected(a as u32, b as u32);
                if p[0] != a {
                    self.lemma_connected_trans(p[0] as u32, a as u32, b as u32);
                }
            }
        }
    }

    /// Ids joined along every band key are joined along every chain.
    proof fn lemma_chain_joined(&self, uf: UnionFind, p: Seq<u32>)
        requires
            self.chain(p),
            forall|u: u32, v: u32| #[trigger] self.linked(u, v) ==> uf.same_class(u as usize, v as usize),
        ensures
            uf.same_class(p[0] as usize, p.last() as usize),
        decreases p.len(),
    {
        if p.len() > 1 {
            let q = p.drop_last();
            assert(self.chain(q)) by {
                assert forall|j: int| 0 <= j < q.len() - 1 implies self.linked(#[trigger] q[j], q[j + 1]) by {
                    assert(q[j] == p[j] && q[j + 1] == p[j + 1]);
                }
            }
            self.lemma_chain_joined(uf, q);
            assert(self.linked(p[p.len() - 2], p.last()));
        }
    }

    /// Whether no id of the class of `z` in `uf` shares a band key with
    /// another id.
    pub open spec fn class_apart(&self, uf: UnionFind, z: u32) -> bool {
        forall|y: u32| #[trigger] uf.same_class(y as usize, z as usize) ==> !self.shares_key(y)
    }

    /// The band keys of a document under this state's parameters.
    pub open spec fn keys_of(&self, text: Seq<char>) -> Seq<Seq<u8>> {
        text_band_keys(
            text,
            self.ngram_width() as nat,
            self.min_length() as nat,
            self.perm_a(),
            self.perm_b(),
            self.ranges(),
        )
    }

    fn empty_tables(b: usize) -> (r: Vec<BandTable>)
        ensures
            r@.len() == b,
            forall|i: int| 0 <= i < b ==> (#[trigger] r@[i]).wf(),
            forall|i: int, k: Seq<u8>| 0 <= i < b ==> #[trigger] r@[i].ids_under(k) == Set::<u32>::empty(),
    {
        let mut tables: Vec<BandTable> = Vec::with_capacity(b);
        for i in 0..b
            invariant
                tables@.len() == i,
                forall|j: int| 0 <= j < i ==> (#[trigger] tables@[j]).wf(),
                forall|j: int, k: Seq<u8>| 0 <= j < i ==> #[trigger] tables@[j].ids_under(k) == Set::<u32>::empty(),
        {
            tables.push(BandTable::new());
        }
        tables
    }

    /// A state with `b` bands of `r` rows, `b` first lowered to
    /// `num_perm / r` when `b * r` exceeds `num_perm`, and `b * r`
    /// permutations (the adjusted band count times `r`) from the fixed seed.
    pub fn from_b_r(b: u32, r: u32, n_grams: u32, num_perm: u32, min_len: u32) -> (e: Self)
        requires
            r > 0,
            n_grams >= 1,
        ensures
            e.wf(),
            e.ranges() == hash_ranges_spec(adjusted_b(b, r, num_perm) as nat, r as nat),
            e.ngram_width() == n_grams,
            e.min_length() == min_len,
            e.perm_a() == permutation_draws(MODULE_PRIME, (adjusted_b(b, r, num_perm) * r) as nat).take(
                adjusted_b(b, r, num_perm) * r,
            ),
            e.perm_b() == permutation_draws(MODULE_PRIME, (adjusted_b(b, r, num_perm) * r) as nat).skip(
                adjusted_b(b, r, num_perm) * r,
            ),
            e.perm_a().len() == adjusted_b(b, r, num_perm) * r,
            forall|i: int, k: Seq<u8>| 0 <= i < e.ranges().len() ==> #[trigger] e.band_ids(i, k) == Set::<u32>::empty(),
    {
        let (b, _lowered) = adjust_b(b, r, num_perm);
        let hash_values = generate_hash_rangs(b, r);
        let permutations = generate_permutations(MODULE_PRIME, b * r);
        let hash_tables = Self::empty_tables(b as usize);
        let e = EmbedFunc { hash_values, n_grams, min_len, permutations, hash_tables };
        assert forall|i: int, k: Seq<u8>| 0 <= i < e.ranges().len() implies #[trigger] e.band_ids(i, k) == Set::<u32>::empty() by {
            assert(e.hash_tables@[i].ids_under(k) == Set::<u32>::empty());
        }
        e
    }

    /// A state with the given band ranges and permutations.
    pub fn from_permutations(
        n_grams: u32,
        min_len: u32,
        hashranges: Vec<(u32, u32)>,
        permutations: (Vec<u64>, Vec<u64>),
    ) -> (e: Self)
        requires
            n_grams >= 1,
            permutations.0@.len() == permutations.1@.len(),
        ensures
            e.wf(),
            e.ranges() == hashranges@,
            e.ngram_width() == n_grams,
            e.min_length() == min_len,
            e.perm_a() == permutations.0@,
            e.perm_b() == permutations.1@,
            forall|i: int, k: Seq<u8>| 0 <= i < e.ranges().len() ==> #[trigger] e.band_ids(i, k) == Set::<u32>::empty(),
    {
        let hash_tables = Self::empty_tables(hashranges.len());
        let e = EmbedFunc { hash_values: hashranges, n_grams, min_len, permutations, hash_tables };
        assert forall|i: int, k: Seq<u8>| 0 <= i < e.ranges().len() implies #[trigger] e.band_ids(i, k) == Set::<u32>::empty() by {
            assert(e.hash_tables@[i].ids_under(k) == Set::<u32>::empty());
        }
        e
    }

    /// The band keys of a document under this state's parameters.
    pub fn embed_func(&self, text: &str) -> (r: Vec<Vec<u8>>)
        requires
            self.wf(),
        ensures
            byte_strings(r@) == self.keys_of(text@),
    {
        py_embed_func(text, &self.n_grams, &self.permutations, self.hash_values.as_slice(), &self.min_len)
    }

    /// Stores `key` under the `i`-th band key of `hashes` in band `i`, for
    /// every band that `hashes` reaches.
    pub fn batch_add(&mut self, hashes: Vec<Vec<u8>>, key: u32)
        requires
            old(self).wf(),
        ensures
            final(self).wf(),
            final(self).ranges() == old(self).ranges(),
            final(self).ngram_width() == old(self).ngram_width(),
            final(self).min_length() == old(self).min_length(),
            final(self).perm_a() == old(self).perm_a(),
            final(self).perm_b() == old(self).perm_b(),
            forall|i: int, k: Seq<u8>|
                0 <= i < old(self).ranges().len() ==> #[trigger] final(self).band_ids(i, k) == if i
                    < hashes@.len() && k == hashes@[i]@ {
                    old(self).band_ids(i, k).insert(key)
                } else {
                    old(self).band_ids(i, k)
                },
    {
        let n = if hashes.len() < self.hash_tables.len() {
            hashes.len()
        } else {
            self.hash_tables.len()
        };
        for index in 0..n
            invariant
                n <= hashes@.len(),
                n <= self.hash_tables@.len(),
                self.wf(),
                self.hash_values == old(self).hash_values,
                self.n_grams == old(self).n_grams,
                self.min_len == old(self).min_len,
                self.permutations == old(self).permutations,
                forall|i: int, k: Seq<u8>|
                    0 <= i < old(self).ranges().len() ==> #[trigger] self.band_ids(i, k) == if i < index && k
                        == hashes@[i]@ {
                        old(self).band_ids(i, k).insert(key)
                    } else {
                        old(self).band_ids(i, k)
                    },
        {
            let h = copy_bytes(&hashes[index]);
            let ghost before = self.hash_tables@;
            let ghost mid = *self;
            self.hash_tables[index].insert(h, key);
            proof {
                assert forall|i: int| 0 <= i < self.hash_tables@.len() implies (#[trigger] self.hash_tables@[i]).wf() by {
                    if i != index {
                        assert(self.hash_tables@[i] == before[i]);
                    }
                }
                assert forall|i: int, k: Seq<u8>| 0 <= i < old(self).ranges().len() implies #[trigger] self.band_ids(i, k)
                    == if i == index && k == hashes@[i]@ {
                        before[i].ids_under(k).insert(key)
                    } else {
                        before[i].ids_under(k)
                    } by {
                    if i != index {
                        assert(self.hash_tables@[i] == before[i]);
                    }
                }
                assert forall|i: int, k: Seq<u8>| 0 <= i < old(self).ranges().len() implies #[trigger] self.band_ids(i, k)
                    == if i < index + 1 && k == hashes@[i]@ {
                        old(self).band_ids(i, k).insert(key)
                    } else {
                        old(self).band_ids(i, k)
                    } by {
                    assert(mid.band_ids(i, k) == before[i].ids_under(k));
                    assert(self.band_ids(i, k) == if i == index && k == hashes@[i]@ {
                        before[i].ids_under(k).insert(key)
                    } else {
                        before[i].ids_under(k)
                    });
                }
            }
        }
    }

    /// Embeds each document and stores its id under its band keys, for
    /// the documents that have an id.
    pub fn batch_embed_shard(&mut self, text: Vec<String>, idx: Vec<u32>)
        requires
            old(self).wf(),
        ensures
            final(self).wf(),
            final(self).ranges() == old(self).ranges(),
            final(self).ngram_width() == old(self).ngram_width(),
            final(self).min_length() == old(self).min_length(),
            final(self).perm_a() == old(self).perm_a(),
            final(self).perm_b() == old(self).perm_b(),
            final(self).adds_shard(*old(self), text@, idx@),
    {
        let n = if text.len() < idx.len() {
            text.len()
        } else {
            idx.len()
        };
        for d in 0..n
            invariant
                n <= text@.len(),
                n <= idx@.len(),
                self.wf(),
                self.ranges() == old(self).ranges(),
                self.ngram_width() == old(self).ngram_width(),
                self.min_length() == old(self).min_length(),
                self.perm_a() == old(self).perm_a(),
                self.perm_b() == old(self).perm_b(),
                forall|i: int, k: Seq<u8>, u: u32|
                    0 <= i < old(self).ranges().len() ==> (#[trigger] self.band_ids(i, k).contains(u) <==> (
                    old(self).band_ids(i, k).contains(u) || exists|dd: int|
                        0 <= dd < d && idx@[dd] == u && #[trigger] old(self).keys_of(text@[dd]@)[i] == k)),
        {
            let keys = self.embed_func(text[d].as_str());
            let ghost mid = *self;
            self.batch_add(keys, idx[d]);
            proof {
                assert forall|i: int, k: Seq<u8>, u: u32|
                    0 <= i < old(self).ranges().len() implies (#[trigger] self.band_ids(i, k).contains(u) <==> (
                    old(self).band_ids(i, k).contains(u) || exists|dd: int|
                        0 <= dd < d + 1 && idx@[dd] == u && #[trigger] old(self).keys_of(text@[dd]@)[i] == k)) by {
                    assert(old(self).keys_of(text@[d as int]@) == mid.keys_of(text@[d as int]@));
                    assert(byte_strings(keys@).len() == keys@.len());
                    assert(byte_strings(keys@)[i] == keys@[i]@);
                    if exists|dd: int| 0 <= dd < d + 1 && idx@[dd] == u && #[trigger] old(self).keys_of(text@[dd]@)[i] == k {
                        let dd = choose|dd: int| 0 <= dd < d + 1 && idx@[dd] == u && #[trigger] old(self).keys_of(text@[dd]@)[i] == k;
                        if dd < d {
                            assert(mid.band_ids(i, k).contains(u));
                        }
                    }
                }
            }
        }
    }

    /// Joins, in `uf`, the ids that share a band key: for every key that
    /// holds two ids or more, each of its ids is joined with the least of
    /// them. Classes of `uf` stay joined, and a class none of whose ids
    /// shares a key with another id is left as it was.
    pub fn cluster_into(&self, uf: &mut UnionFind)
        requires
            self.wf(),
            old(uf).wf(),
        ensures
            final(uf).wf(),
            forall|i: int, k: Seq<u8>, u: u32, v: u32|
                0 <= i < self.ranges().len() && #[trigger] self.band_ids(i, k).contains(u)
                    && #[trigger] self.band_ids(i, k).contains(v) ==> final(uf).same_class(u as usize, v as usize),
            forall|z: usize, w: usize| #[trigger] old(uf).same_class(z, w) ==> final(uf).same_class(z, w),
            forall|z: u32, w: usize|
                self.class_apart(*old(uf), z) ==> (#[trigger] final(uf).same_class(w, z as usize) <==> old(
                    uf,
                ).same_class(w, z as usize)),
            forall|z: usize, w: usize| #[trigger] final(uf).same_class(z, w) ==> self.reachable(*old(uf), z, w),
            final(uf).parent_map().dom() == old(uf).parent_map().dom() + self.key_sharing_ids(),
            old(uf).counts_agree() ==> final(uf).counts_agree(),
    {
        assert forall|z: usize, w: usize| #[trigger] uf.same_class(z, w) implies self.reachable(*old(uf), z, w) by {
            self.lemma_step_reachable(*old(uf), z, w);
        }
        for i in 0..self.hash_tables.len()
            invariant
                self.wf(),
                uf.wf(),
                forall|z: u32, w: usize|
                    self.class_apart(*old(uf), z) ==> (#[trigger] uf.same_class(w, z as usize) <==> old(
                        uf,
                    ).same_class(w, z as usize)),
                forall|z: usize, w: usize| #[trigger] old(uf).same_class(z, w) ==> uf.same_class(z, w),
                forall|z: usize, w: usize| #[trigger] uf.same_class(z, w) ==> self.reachable(*old(uf), z, w),
                forall|z: usize| #[trigger] uf.parent_map().contains_key(z) ==> old(uf).parent_map().contains_key(z)
                    || self.key_sharing_ids().contains(z),
                forall|z: usize| old(uf).parent_map().contains_key(z) ==> #[trigger] uf.parent_map().contains_key(z),
                old(uf).counts_agree() ==> uf.counts_agree(),
                forall|ii: int, k: Seq<u8>, u: u32, v: u32|
                    0 <= ii < i && u != v && #[trigger] self.band_ids(ii, k).contains(u)
                        && #[trigger] self.band_ids(ii, k).contains(v) ==> uf.parent_map().contains_key(u as usize),
                forall|ii: int, k: Seq<u8>, u: u32, v: u32|
                    0 <= ii < i && #[trigger] self.band_ids(ii, k).contains(u)
                        && #[trigger] self.band_ids(ii, k).contains(v) ==> uf.same_class(u as usize, v as usize),
        {
            let table = &self.hash_tables[i];
            let ghost keys = table.keys();
            let ghost lists = table.lists();
            proof {
                table.lemma_keys_distinct();
            }
            let n = table.len();
            for e in 0..n
                invariant
                    n == keys.len(),
                    self.wf(),
                    uf.wf(),
                    0 <= i < self.ranges().len(),
                    forall|z: u32, w: usize|
                        self.class_apart(*old(uf), z) ==> (#[trigger] uf.same_class(w, z as usize) <==> old(
                            uf,
                        ).same_class(w, z as usize)),
                    forall|z: usize, w: usize| #[trigger] old(uf).same_class(z, w) ==> uf.same_class(z, w),
                    forall|z: usize, w: usize| #[trigger] uf.same_class(z, w) ==> self.reachable(*old(uf), z, w),
                    forall|z: usize| #[trigger] uf.parent_map().contains_key(z) ==> old(uf).parent_map().contains_key(z)
                        || self.key_sharing_ids().contains(z),
                    forall|z: usize| old(uf).parent_map().contains_key(z) ==> #[trigger] uf.parent_map().contains_key(z),
                    old(uf).counts_agree() ==> uf.counts_agree(),
                    forall|ii: int, k: Seq<u8>, u: u32, v: u32|
                        0 <= ii < i && u != v && #[trigger] self.band_ids(ii, k).contains(u)
                            && #[trigger] self.band_ids(ii, k).contains(v) ==> uf.parent_map().contains_key(u as usize),
                    forall|f: int, u: u32, v: u32|
                        0 <= f < e && u != v && #[trigger] lists[f].contains(u) && #[trigger] lists[f].contains(v)
                            ==> uf.parent_map().contains_key(u as usize),
                    *table == self.hash_tables@[i as int],
                    table.wf(),
                    keys == table.keys(),
                    lists == table.lists(),
                    keys.no_duplicates(),
                    lists.len() == keys.len(),
                    forall|ii: int, k: Seq<u8>, u: u32, v: u32|
                        0 <= ii < i && #[trigger] self.band_ids(ii, k).contains(u)
                            && #[trigger] self.band_ids(ii, k).contains(v) ==> uf.same_class(u as usize, v as usize),
                    forall|f: int, u: u32, v: u32|
                        0 <= f < e && #[trigger] lists[f].contains(u) && #[trigger] lists[f].contains(v)
                            ==> uf.same_class(u as usize, v as usize),
            {
                let ids = table.ids_at(e);
                if ids.len() > 1 {
                    let mut m: u32 = ids[0];
                    for j in 1..ids.len()
                        invariant
                            ids@.len() > 1,
                            ids@.contains(m),
                    {
                        if ids[j] < m {
                            m = ids[j];
                        }
                    }
                    for j in 0..ids.len()
                        invariant
                            uf.wf(),
                            self.wf(),
                            *table == self.hash_tables@[i as int],
                            keys == table.keys(),
                            lists == table.lists(),
                            0 <= i < self.ranges().len(),
                            e < keys.len(),
                            ids@ == lists[e as int],
                            forall|z: u32, w: usize|
                                    self.class_apart(*old(uf), z) ==> (#[trigger] uf.same_class(w, z as usize) <==> old(
                                        uf,
                                    ).same_class(w, z as usize)),
                                forall|z: usize, w: usize| #[trigger] old(uf).same_class(z, w) ==> uf.same_class(z, w),
                                forall|z: usize, w: usize| #[trigger] uf.same_class(z, w) ==> self.reachable(*old(uf), z, w),
                                forall|z: usize| #[trigger] uf.parent_map().contains_key(z) ==> old(uf).parent_map().contains_key(z)
                                    || self.key_sharing_ids().contains(z),
                                forall|z: usize| old(uf).parent_map().contains_key(z) ==> #[trigger] uf.parent_map().contains_key(z),
                                old(uf).counts_agree() ==> uf.counts_agree(),
                                forall|ii: int, k: Seq<u8>, u: u32, v: u32|
                                    0 <= ii < i && u != v && #[trigger] self.band_ids(ii, k).contains(u)
                                        && #[trigger] self.band_ids(ii, k).contains(v) ==> uf.parent_map().contains_key(u as usize),
                                forall|f: int, u: u32, v: u32|
                                    0 <= f < e && u != v && #[trigger] lists[f].contains(u) && #[trigger] lists[f].contains(v)
                                        ==> uf.parent_map().contains_key(u as usize),
                                forall|jj: int|
                                    0 <= jj < j && #[trigger] ids@[jj] != m ==> uf.parent_map().contains_key(ids@[jj] as usize)
                                        && uf.parent_map().contains_key(m as usize),
                            ids@.contains(m),
                            forall|ii: int, k: Seq<u8>, u: u32, v: u32|
                                0 <= ii < i && #[trigger] self.band_ids(ii, k).contains(u)
                                    && #[trigger] self.band_ids(ii, k).contains(v) ==> uf.same_class(u as usize, v as usize),
                            forall|f: int, u: u32, v: u32|
                                0 <= f < e && #[trigger] lists[f].contains(u) && #[trigger] lists[f].contains(v)
                                    ==> uf.same_class(u as usize, v as usize),
                            forall|jj: int| 0 <= jj < j ==> uf.same_class(#[trigger] ids@[jj] as usize, m as usize),
                    {
                        let x = ids[j];
                        if x != m {
                            let ghost uf0 = *uf;
                            uf.union(x as usize, m as usize);
                            proof {
                                let k = keys[e as int];
                                assert(lists[e as int].contains(x));
                                assert(self.band_ids(i as int, k).contains(x));
                                assert(self.band_ids(i as int, k).contains(m));
                                assert forall|z: u32, w: usize|
                                    self.class_apart(*old(uf), z) implies (#[trigger] uf.same_class(w, z as usize) <==> old(
                                        uf,
                                    ).same_class(w, z as usize)) by {
                                    let zz = z as usize;
                                    assert(uf.same_class(w, zz) <==> uf0.same_class(w, zz) || (uf0.same_class(w, x as usize)
                                        && uf0.same_class(zz, m as usize)) || (uf0.same_class(w, m as usize) && uf0.same_class(
                                        zz,
                                        x as usize,
                                    )));
                                    if x != m {
                                        assert(self.shares_key(x));
                                        assert(self.shares_key(m));
                                        if uf0.same_class(zz, m as usize) {
                                            assert(uf0.same_class(m as usize, zz));
                                            assert(old(uf).same_class(m as usize, zz));
                                        }
                                        if uf0.same_class(zz, x as usize) {
                                            assert(uf0.same_class(x as usize, zz));
                                            assert(old(uf).same_class(x as usize, zz));
                                        }
                                    }
                                    assert(uf.same_class(w, zz) <==> uf0.same_class(w, zz));
                                }
                                assert forall|z: usize, w: usize| #[trigger] old(uf).same_class(z, w) implies uf.same_class(z, w) by {
                                    assert(uf0.same_class(z, w));
                                }
                                assert(self.linked(x, m));
                                assert(self.linked(m, x));
                                assert forall|a: usize, b: usize| #[trigger] uf.same_class(a, b) implies self.reachable(*old(uf), a, b) by {
                                    let u0 = *old(uf);
                                    if !uf0.same_class(a, b) {
                                        if uf0.same_class(a, x as usize) && uf0.same_class(b, m as usize) {
                                            assert(uf0.same_class(m as usize, b));
                                            assert(self.step(u0, x as usize, m as usize));
                                            self.lemma_step_reachable(u0, x as usize, m as usize);
                                            self.lemma_reachable_trans(u0, a, x as usize, m as usize);
                                            self.lemma_reachable_trans(u0, a, m as usize, b);
                                        } else {
                                            assert(uf0.same_class(a, m as usize) && uf0.same_class(b, x as usize));
                                            assert(uf0.same_class(x as usize, b));
                                            assert(self.step(u0, m as usize, x as usize));
                                            self.lemma_step_reachable(u0, m as usize, x as usize);
                                            self.lemma_reachable_trans(u0, a, m as usize, x as usize);
                                            self.lemma_reachable_trans(u0, a, x as usize, b);
                                        }
                                    }
                                }
                            }
                        }
                    }
                }
                proof {
                    assert forall|u: u32, v: u32| #[trigger] lists[e as int].contains(u) && #[trigger] lists[e as int].contains(v)
                        implies uf.same_class(u as usize, v as usize) by {
                        let a = choose|a: int| 0 <= a < lists[e as int].len() && lists[e as int][a] == u;
                        let b = choose|b: int| 0 <= b < lists[e as int].len() && lists[e as int][b] == v;
                        if lists[e as int].len() <= 1 {
                            assert(a == b);
                        }
                    }
                }
            }
            proof {
                assert forall|ii: int, k: Seq<u8>, u: u32, v: u32|
                    0 <= ii < i + 1 && #[trigger] self.band_ids(ii, k).contains(u)
                        && #[trigger] self.band_ids(ii, k).contains(v) implies uf.same_class(u as usize, v as usize) by {
                    if ii == i {
                        let f = choose|f: int| 0 <= f < keys.len() && #[trigger] keys[f] == k && lists[f].contains(u);
                        let g = choose|g: int| 0 <= g < keys.len() && #[trigger] keys[g] == k && lists[g].contains(v);
                        assert(f == g);
                    }
                }
            }
        }
    }

    /// Joins, in a fresh partition, the ids that share a band key: for
    /// every key that holds two ids or more, each of its ids is joined with
    /// the least of them. Two ids end in one class exactly when a chain of
    /// shared keys connects them.
    pub fn cluster(&self) -> (uf: UnionFind)
        requires
            self.wf(),
        ensures
            uf.wf(),
            self.partition_of_keys(uf),
            uf.parent_map().dom() == self.key_sharing_ids(),
            uf.counts_agree(),
            forall|k: usize| #[trigger] uf.rank_map().contains_key(k) ==> uf.parent_map().contains_key(k),
            forall|i: int, k: Seq<u8>, u: u32, v: u32|
                0 <= i < self.ranges().len() && #[trigger] self.band_ids(i, k).contains(u)
                    && #[trigger] self.band_ids(i, k).contains(v) ==> uf.same_class(u as usize, v as usize),
            forall|z: u32, w: usize|
                !self.shares_key(z) && #[trigger] uf.same_class(w, z as usize) ==> w == z as usize,
    {
        let mut uf = UnionFind::new();
        let ghost fresh = uf;
        self.cluster_into(&mut uf);
        assert(uf.parent_map().dom() =~= self.key_sharing_ids());
        proof {
            uf.lemma_rank_keys();
        }
        assert forall|a: usize, b: usize| #[trigger] fresh.same_class(a, b) implies a == b by {
            assert(fresh.rep(a) == a);
            assert(fresh.rep(b) == b);
        }
        assert forall|z: u32, w: usize| !self.shares_key(z) && #[trigger] uf.same_class(w, z as usize) implies w
            == z as usize by {
            assert forall|y: u32| fresh.same_class(y as usize, z as usize) implies !self.shares_key(y) by {
                assert(fresh.rep(y as usize) == y as usize);
                assert(fresh.rep(z as usize) == z as usize);
            }
            assert(self.class_apart(fresh, z));
            assert(fresh.same_class(w, z as usize));
        }
        assert forall|u: u32, v: u32| #[trigger] self.linked(u, v) implies uf.same_class(u as usize, v as usize) by {
            let (i, k) = choose|i: int, k: Seq<u8>|
                0 <= i < self.ranges().len() && #[trigger] self.band_ids(i, k).contains(u)
                    && #[trigger] self.band_ids(i, k).contains(v);
        }
        assert forall|z: usize, w: usize| #[trigger] uf.same_class(z, w) <==> z == w || (z <= u32::MAX && w
            <= u32::MAX && self.connected(z as u32, w as u32)) by {
            if uf.same_class(z, w) {
                assert(self.reachable(fresh, z, w));
                let p = choose|p: Seq<usize>| #[trigger] self.walk(fresh, p) && p[0] == z && p.last() == w;
                self.lemma_walk_fresh(fresh, p);
            }
            if z != w && z <= u32::MAX && w <= u32::MAX && self.connected(z as u32, w as u32) {
                let p = choose|p: Seq<u32>| #[trigger] self.chain(p) && p[0] == z as u32 && p.last() == w as u32;
                self.lemma_chain_joined(uf, p);
            }
        }
        uf
    }

    /// Empties every band table, keeping the band ranges and parameters.
    pub fn clear_bands(&mut self)
        requires
            old(self).wf(),
        ensures
            final(self).wf(),
            final(self).ranges() == old(self).ranges(),
            final(self).ngram_width() == old(self).ngram_width(),
            final(self).min_length() == old(self).min_length(),
            final(self).perm_a() == old(self).perm_a(),
            final(self).perm_b() == old(self).perm_b(),
            forall|i: int, k: Seq<u8>| 0 <= i < final(self).ranges().len() ==> #[trigger] final(self).band_ids(i, k) == Set::<u32>::empty(),
    {
        self.hash_tables = Self::empty_tables(self.hash_values.len());
    }

    /// The classes that chains of shared keys make depend on what the band
    /// tables hold, and on nothing else.
    pub proof fn lemma_partition_from_tables(&self, other: EmbedFunc, uf: UnionFind, uf_other: UnionFind)
        requires
            self.ranges().len() == other.ranges().len(),
            forall|i: int, k: Seq<u8>| 0 <= i < self.ranges().len() ==> #[trigger] self.band_ids(i, k) == other.band_ids(i, k),
            self.partition_of_keys(uf),
            other.partition_of_keys(uf_other),
        ensures
            forall|z: usize, w: usize| #[trigger] uf.same_class(z, w) <==> uf_other.same_class(z, w),
    {
        assert forall|u: u32, v: u32| self.linked(u, v) <==> other.linked(u, v) by {
            if self.linked(u, v) {
                let (i, k) = choose|i: int, k: Seq<u8>|
                    0 <= i < self.ranges().len() && #[trigger] self.band_ids(i, k).contains(u)
                        && #[trigger] self.band_ids(i, k).contains(v);
                assert(other.band_ids(i, k).contains(u) && other.band_ids(i, k).contains(v));
            }
            if other.linked(u, v) {
                let (i, k) = choose|i: int, k: Seq<u8>|
                    0 <= i < other.ranges().len() && #[trigger] other.band_ids(i, k).contains(u)
                        && #[trigger] other.band_ids(i, k).contains(v);
                assert(self.band_ids(i, k) == other.band_ids(i, k));
                assert(self.band_ids(i, k).contains(u) && self.band_ids(i, k).contains(v));
            }
        }
        assert forall|p: Seq<u32>| #[trigger] self.chain(p) <==> other.chain(p) by {
            if self.chain(p) {
                assert forall|j: int| 0 <= j < p.len() - 1 implies other.linked(#[trigger] p[j], p[j + 1]) by {
                    assert(self.linked(p[j], p[j + 1]));
                }
            }
            if other.chain(p) {
                assert forall|j: int| 0 <= j < p.len() - 1 implies self.linked(#[trigger] p[j], p[j + 1]) by {
                    assert(other.linked(p[j], p[j + 1]));
                }
            }
        }
        assert forall|u: u32, v: u32| self.connected(u, v) <==> other.connected(u, v) by {
            if self.connected(u, v) {
                let p = choose|p: Seq<u32>| #[trigger] self.chain(p) && p[0] == u && p.last() == v;
                assert(other.chain(p));
            }
            if other.connected(u, v) {
                let p = choose|p: Seq<u32>| #[trigger] other.chain(p) && p[0] == u && p.last() == v;
                assert(self.chain(p));
            }
        }
    }

    /// Storing the same (document, id) pairs in any order fills the band
    /// tables alike, so clustering them gives the same classes.
    pub proof fn lemma_partition_order_free(
        &self,
        other: EmbedFunc,
        prev: EmbedFunc,
        text: Seq<String>,
        idx: Seq<u32>,
        text_other: Seq<String>,
        idx_other: Seq<u32>,
        uf: UnionFind,
        uf_other: UnionFind,
    )
        requires
            self.ranges() == prev.ranges(),
            other.ranges() == prev.ranges(),
            self.adds_shard(prev, text, idx),
            other.adds_shard(prev, text_other, idx_other),
            forall|d: int|
                0 <= d < text.len() && d < idx.len() ==> exists|e: int|
                    0 <= e < text_other.len() && e < idx_other.len() && #[trigger] text_other[e]@ == (
                    #[trigger] text[d])@ && idx_other[e] == idx[d],
            forall|e: int|
                0 <= e < text_other.len() && e < idx_other.len() ==> exists|d: int|
                    0 <= d < text.len() && d < idx.len() && #[trigger] text[d]@ == (
                    #[trigger] text_other[e])@ && idx[d] == idx_other[e],
            self.partition_of_keys(uf),
            other.partition_of_keys(uf_other),
        ensures
            forall|z: usize, w: usize| #[trigger] uf.same_class(z, w) <==> uf_other.same_class(z, w),
    {
        assert forall|i: int, k: Seq<u8>| 0 <= i < self.ranges().len() implies #[trigger] self.band_ids(i, k)
            == other.band_ids(i, k) by {
            assert forall|u: u32| self.band_ids(i, k).contains(u) <==> other.band_ids(i, k).contains(u) by {
                if self.band_ids(i, k).contains(u) && !prev.band_ids(i, k).contains(u) {
                    let d = choose|d: int|
                        0 <= d < text.len() && d < idx.len() && idx[d] == u && #[trigger] prev.keys_of(text[d]@)[i] == k;
                    let e = choose|e: int|
                        0 <= e < text_other.len() && e < idx_other.len() && #[trigger] text_other[e]@ == (
                        #[trigger] text[d])@ && idx_other[e] == idx[d];
                    assert(prev.keys_of(text_other[e]@)[i] == k);
                }
                if other.band_ids(i, k).contains(u) && !prev.band_ids(i, k).contains(u) {
                    let e = choose|e: int|
                        0 <= e < text_other.len() && e < idx_other.len() && idx_other[e] == u
                            && #[trigger] prev.keys_of(text_other[e]@)[i] == k;
                    let d = choose|d: int|
                        0 <= d < text.len() && d < idx.len() && #[trigger] text[d]@ == (
                        #[trigger] text_other[e])@ && idx[d] == idx_other[e];
                    assert(prev.keys_of(text[d]@)[i] == k);
                }
            }
            assert(self.band_ids(i, k) =~= other.band_ids(i, k));
        }
        self.lemma_partition_from_tables(other, uf, uf_other);
    }

    /// When no band key holds two ids, clustering leaves the partition empty:
    /// no parent entry, no rank entry and no join.
    pub proof fn lemma_nothing_shared_nothing_joined(&self, uf: UnionFind)
        requires
            forall|z: u32| !self.shares_key(z),
            uf.parent_map().dom() == self.key_sharing_ids(),
            uf.counts_agree(),
            forall|k: usize| #[trigger] uf.rank_map().contains_key(k) ==> uf.parent_map().contains_key(k),
        ensures
            uf.parent_map() == Map::<usize, usize>::empty(),
            uf.rank_map() == Map::<usize, usize>::empty(),
            uf.edge_count() == 0,
    {
        assert(uf.parent_map().dom() =~= Set::<usize>::empty());
        assert(uf.parent_map() =~= Map::<usize, usize>::empty());
        assert(roots_of(uf.parent_map()) =~= Set::<usize>::empty());
        assert(uf.rank_map() =~= Map::<usize, usize>::empty());
    }

    /// The positions of the ids that represent their own class, in order;
    /// each id is looked up with `find`.
    pub fn filter_duplicates(&self, uf: &mut UnionFind, indices: &[u32]) -> (r: Vec<usize>)
        requires
            old(uf).wf(),
        ensures
            final(uf).wf(),
            forall|z: usize| #[trigger] final(uf).rep(z) == old(uf).rep(z),
            r@ == survivors_upto(*old(uf), indices@, indices@.len() as int),
    {
        let mut out: Vec<usize> = Vec::new();
        for i in 0..indices.len()
            invariant
                uf.wf(),
                forall|z: usize| #[trigger] uf.rep(z) == old(uf).rep(z),
                out@ == survivors_upto(*old(uf), indices@, i as int),
        {
            let id = indices[i];
            let root = uf.find(id as usize);
            if root == id as usize {
                out.push(i);
            }
        }
        out
    }
}

} // verus!
