//! Merkle tree for whole-index integrity verification.
//!
//! Leaf = SHA-256(block_data). Parent = SHA-256(left || right).
//! A lone node at the end of a level is hashed with itself.
//! Nodes are laid out level by level: leaves first, root last.
use vstd::prelude::*;
use sha2::{Digest, Sha256};
use crate::codec::{
    le_bytes, le_value, lemma_le_bytes_len, lemma_le_value_bound, lemma_le_value_of_bytes,
    lemma_pow256_values, push_le, read_le,
};

verus! {

// ─── SHA-256 ────────────────────────────────────────

/// The SHA-256 digest of a byte string.
pub uninterp spec fn sha256_spec(data: Seq<u8>) -> Seq<u8>;

/// Calls `sha2::Sha256` (`new`, `update`, `finalize`) on `data`; the contract
/// names the digest `sha256_spec(data)` and claims nothing else of it.
#[verifier::external_body]
fn sha256(data: &[u8]) -> (r: [u8; 32])
    ensures
        r@ == sha256_spec(data@),
{
    let mut h = Sha256::new();
    h.update(data);
    h.finalize().into()
}

// ─── Mathematical model ─────────────────────────────

/// Hash of an inner node from its two children.
pub open spec fn hash_pair(left: Seq<u8>, right: Seq<u8>) -> Seq<u8> {
    sha256_spec(left + right)
}

/// The next level up: pairs are hashed together, a lone last node with itself.
pub open spec fn parent_level(level: Seq<Seq<u8>>) -> Seq<Seq<u8>> {
    Seq::new(
        ((level.len() + 1) / 2) as nat,
        |i: int|
            if 2 * i + 1 < level.len() {
                hash_pair(level[2 * i], level[2 * i + 1])
            } else {
                hash_pair(level[2 * i], level[2 * i])
            },
    )
}

/// All nodes from `level` upwards, level by level, ending with the single top node.
pub open spec fn tree_levels(level: Seq<Seq<u8>>) -> Seq<Seq<u8>>
    decreases level.len(),
{
    if level.len() <= 1 {
        level
    } else {
        level + tree_levels(parent_level(level))
    }
}

/// The single node that `level` reduces to.
pub open spec fn top(level: Seq<Seq<u8>>) -> Seq<u8>
    decreases level.len(),
{
    if level.len() <= 1 {
        level[0]
    } else {
        top(parent_level(level))
    }
}

/// Leaf hashes of a sequence of leaf data.
pub open spec fn leaf_hashes(leaves: Seq<Seq<u8>>) -> Seq<Seq<u8>> {
    leaves.map_values(|d: Seq<u8>| sha256_spec(d))
}

/// The node layout of the tree built from `leaves`.
pub open spec fn merkle_nodes(leaves: Seq<Seq<u8>>) -> Seq<Seq<u8>> {
    tree_levels(leaf_hashes(leaves))
}

/// The root of the tree built from `leaves`.
pub open spec fn merkle_root(leaves: Seq<Seq<u8>>) -> Seq<u8> {
    top(leaf_hashes(leaves))
}

/// Number of nodes of a tree with `n` leaves.
pub open spec fn total_nodes(n: nat) -> nat
    decreases n,
{
    if n <= 1 {
        n
    } else {
        n + total_nodes(((n + 1) / 2) as nat)
    }
}

/// Position of the sibling of `pos` in a level of `len` nodes.
pub open spec fn sibling(pos: nat, len: nat) -> nat {
    if pos % 2 == 0 {
        if pos + 1 < len {
            pos + 1
        } else {
            pos
        }
    } else {
        (pos - 1) as nat
    }
}

/// The authentication path read out of a node layout: for the level of `len`
/// nodes starting at `start`, the sibling of `pos` and whether `pos` is a right child.
pub open spec fn nodes_path(nodes: Seq<Seq<u8>>, start: nat, len: nat, pos: nat) -> Seq<(Seq<u8>, bool)>
    decreases len,
{
    if len <= 1 {
        Seq::empty()
    } else {
        seq![(nodes[(start + sibling(pos, len)) as int], pos % 2 == 1)] + nodes_path(
            nodes,
            start + len,
            ((len + 1) / 2) as nat,
            pos / 2,
        )
    }
}

/// The authentication path of position `pos` in the tree over `level`.
pub open spec fn merkle_path(level: Seq<Seq<u8>>, pos: nat) -> Seq<(Seq<u8>, bool)>
    decreases level.len(),
{
    if level.len() <= 1 {
        Seq::empty()
    } else {
        seq![(level[sibling(pos, level.len()) as int], pos % 2 == 1)] + merkle_path(
            parent_level(level),
            pos / 2,
        )
    }
}

/// Folds an authentication path over a starting hash.
pub open spec fn fold_path(current: Seq<u8>, path: Seq<(Seq<u8>, bool)>) -> Seq<u8>
    decreases path.len(),
{
    if path.len() == 0 {
        current
    } else {
        let next = if path[0].1 {
            hash_pair(path[0].0, current)
        } else {
            hash_pair(current, path[0].0)
        };
        fold_path(next, path.drop_first())
    }
}

/// Byte strings of a sequence of hashes.
pub open spec fn hashes(v: Seq<[u8; 32]>) -> Seq<Seq<u8>> {
    v.map_values(|h: [u8; 32]| h@)
}

/// Byte strings of a proof.
pub open spec fn path_view(p: Seq<([u8; 32], bool)>) -> Seq<(Seq<u8>, bool)> {
    p.map_values(|e: ([u8; 32], bool)| (e.0@, e.1))
}

/// Data of a slice of leaf slices.
pub open spec fn leaves_view(leaves: Seq<&[u8]>) -> Seq<Seq<u8>> {
    leaves.map_values(|s: &[u8]| s@)
}

/// Concatenation of byte strings.
pub open spec fn flatten(v: Seq<Seq<u8>>) -> Seq<u8>
    decreases v.len(),
{
    if v.len() == 0 {
        Seq::empty()
    } else {
        v[0] + flatten(v.drop_first())
    }
}

/// Serialized form: `[u32 leaf_count][u32 node_count][nodes: 32 bytes each]`,
/// the counts taken modulo 2^32.
pub open spec fn serialize(leaf_count: nat, nodes: Seq<Seq<u8>>) -> Seq<u8> {
    le_bytes(leaf_count % 0x1_0000_0000, 4) + le_bytes(nodes.len() % 0x1_0000_0000, 4) + flatten(
        nodes,
    )
}

/// What a byte string deserializes to: the leaf count and the nodes, or `None`.
pub open spec fn deserialize(data: Seq<u8>) -> Option<(nat, Seq<Seq<u8>>)> {
    if data.len() < 8 {
        None
    } else {
        let leaf_count = le_value(data.subrange(0, 4));
        let node_count = le_value(data.subrange(4, 8));
        if data.len() < 8 + node_count * 32 || leaf_count == 0 || node_count == 0 {
            None
        } else {
            Some(
                (
                    leaf_count,
                    Seq::new(node_count, |i: int| data.subrange(8 + 32 * i, 8 + 32 * i + 32)),
                ),
            )
        }
    }
}

// ─── The tree ───────────────────────────────────────

pub struct MerkleTree {
    /// All nodes: leaves first, then internal nodes bottom-up. Root is last.
    pub nodes: Vec<[u8; 32]>,
    pub leaf_count: usize,
    pub root: [u8; 32],
}

impl MerkleTree {
    /// The nodes as byte strings.
    pub open spec fn node_view(&self) -> Seq<Seq<u8>> {
        hashes(self.nodes@)
    }

    /// The tree has as many nodes as its leaf count calls for.
    pub open spec fn has_layout(&self) -> bool {
        self.nodes@.len() >= total_nodes(self.leaf_count as nat)
    }

    /// Build a Merkle tree from block data slices.
    pub fn build(leaves: &[&[u8]]) -> (t: Self)
        requires
            leaves@.len() > 0,
        ensures
            t.leaf_count == leaves@.len(),
            t.node_view() == merkle_nodes(leaves_view(leaves@)),
            t.root@ == merkle_root(leaves_view(leaves@)),
    {
        let ghost data = leaves_view(leaves@);
        let ghost l0 = leaf_hashes(data);
        let mut nodes: Vec<[u8; 32]> = Vec::new();
        let n: usize = leaves.len();
        let mut i: usize = 0;
        while i < n
            invariant
                i <= n,
                n == leaves@.len(),
                data == leaves_view(leaves@),
                l0 == leaf_hashes(data),
                hashes(nodes@) =~= l0.take(i as int),
            decreases n - i,
        {
            let h = sha256(leaves[i]);
            assert(l0[i as int] == sha256_spec(leaves@[i as int]@));
            let ghost prev = nodes@;
            nodes.push(h);
            assert(hashes(nodes@) =~= hashes(prev).push(h@));
            assert(l0.take(i + 1) =~= l0.take(i as int).push(l0[i as int]));
            i = i + 1;
        }
        assert(l0.take(n as int) =~= l0);
        let mut level_start: usize = 0;
        let mut level_len: usize = n;
        while level_len > 1
            invariant
                level_len >= 1,
                level_start + level_len == nodes@.len(),
                l0.len() == n,
                hashes(nodes@).take(level_start as int) + tree_levels(
                    hashes(nodes@).subrange(level_start as int, nodes@.len() as int),
                ) == tree_levels(l0),
                top(hashes(nodes@).subrange(level_start as int, nodes@.len() as int)) == top(l0),
            decreases level_len,
        {
            let total: usize = nodes.len();
            let ghost before = nodes@;
            let ghost cur = hashes(before).subrange(level_start as int, before.len() as int);
            let ghost par = parent_level(cur);
            let pairs: usize = level_len / 2;
            let mut p: usize = 0;
            while p < pairs
                invariant
                    pairs == level_len / 2,
                    p <= pairs,
                    total == before.len(),
                    level_start + level_len == before.len(),
                    cur == hashes(before).subrange(level_start as int, before.len() as int),
                    par == parent_level(cur),
                    nodes@.len() == before.len() + p,
                    nodes@.subrange(0, before.len() as int) == before,
                    hashes(nodes@).subrange(before.len() as int, nodes@.len() as int) =~= par.take(
                        p as int,
                    ),
                decreases pairs - p,
            {
                let left = nodes[level_start + p * 2];
                let right = nodes[level_start + p * 2 + 1];
                assert(left@ == cur[2 * p as int]);
                assert(right@ == cur[2 * p + 1]);
                let h = hash_two(&left, &right);
                let ghost prev = nodes@;
                nodes.push(h);
                assert(nodes@.subrange(0, before.len() as int) =~= before) by {
                    assert(prev.subrange(0, before.len() as int) == before);
                }
                assert(hashes(nodes@).subrange(before.len() as int, nodes@.len() as int) =~= par.take(
                    p + 1,
                )) by {
                    assert(hashes(prev).subrange(before.len() as int, prev.len() as int) == par.take(
                        p as int,
                    ));
                }
                p = p + 1;
            }
            if level_len % 2 == 1 {
                let lone = nodes[level_start + level_len - 1];
                assert(lone@ == cur[level_len - 1]);
                let h = hash_two(&lone, &lone);
                let ghost prev = nodes@;
                nodes.push(h);
                assert(nodes@.subrange(0, before.len() as int) =~= before) by {
                    assert(prev.subrange(0, before.len() as int) == before);
                }
                assert(hashes(nodes@).subrange(before.len() as int, nodes@.len() as int) =~= par.take(
                    pairs + 1,
                )) by {
                    assert(hashes(prev).subrange(before.len() as int, prev.len() as int) == par.take(
                        pairs as int,
                    ));
                }
            }
            let new_len: usize = pairs + level_len % 2;
            assert(par.len() == new_len);
            assert(hashes(nodes@).subrange(before.len() as int, nodes@.len() as int) =~= par);
            assert(hashes(nodes@).take(before.len() as int) =~= hashes(before).take(
                level_start as int,
            ) + cur);
            assert(hashes(before).take(level_start as int) + tree_levels(cur) == tree_levels(l0));
            assert(tree_levels(cur) == cur + tree_levels(par));
            assert(hashes(nodes@).take(before.len() as int) + tree_levels(par) =~= hashes(
                before,
            ).take(level_start as int) + tree_levels(cur));
            level_start = level_start + level_len;
            level_len = new_len;
        }
        let ghost last = hashes(nodes@).subrange(level_start as int, nodes@.len() as int);
        assert(hashes(nodes@).take(level_start as int) + last =~= hashes(nodes@));
        let root = nodes[nodes.len() - 1];
        assert(root@ == last[0]);
        MerkleTree { nodes, leaf_count: n, root }
    }

    /// Verify a single leaf at `index` against its stored hash.
    pub fn verify_leaf(&self, index: usize, data: &[u8]) -> (r: bool)
        requires
            self.leaf_count <= self.nodes@.len(),
        ensures
            r == (index < self.leaf_count && self.node_view()[index as int] == sha256_spec(data@)),
    {
        if index >= self.leaf_count {
            return false;
        }
        let computed = sha256(data);
        bytes32_eq(&self.nodes[index], &computed)
    }

    /// Get the Merkle proof path for a leaf: (sibling_hash, is_right) pairs from leaf to root.
    pub fn proof_path(&self, index: usize) -> (r: Vec<([u8; 32], bool)>)
        requires
            index >= self.leaf_count || self.has_layout(),
        ensures
            index >= self.leaf_count ==> r@.len() == 0,
            index < self.leaf_count ==> path_view(r@) == nodes_path(
                self.node_view(),
                0,
                self.leaf_count as nat,
                index as nat,
            ),
    {
        if index >= self.leaf_count {
            return Vec::new();
        }
        let mut path: Vec<([u8; 32], bool)> = Vec::new();
        let mut level_start: usize = 0;
        let mut level_len: usize = self.leaf_count;
        let mut pos: usize = index;
        let ghost nv = self.node_view();
        let nn: usize = self.nodes.len();
        while level_len > 1
            invariant
                nn == self.nodes@.len(),
                pos < level_len,
                level_start + total_nodes(level_len as nat) <= self.nodes@.len(),
                nv == self.node_view(),
                path_view(path@) + nodes_path(nv, level_start as nat, level_len as nat, pos as nat)
                    == nodes_path(nv, 0, self.leaf_count as nat, index as nat),
            decreases level_len,
        {
            let sib: usize = if pos % 2 == 0 {
                if pos + 1 < level_len {
                    pos + 1
                } else {
                    pos
                }
            } else {
                pos - 1
            };
            let is_right = pos % 2 == 1;
            proof {
                lemma_total_nodes_ge((((level_len + 1) / 2) as nat));
                lemma_total_nodes_ge(level_len as nat);
            }
            let ghost rest = nodes_path(
                nv,
                (level_start + level_len) as nat,
                ((level_len + 1) / 2) as nat,
                (pos / 2) as nat,
            );
            assert(nodes_path(nv, level_start as nat, level_len as nat, pos as nat) == seq![
                (nv[level_start + sib], is_right),
            ] + rest);
            let ghost prev = path@;
            path.push((self.nodes[level_start + sib], is_right));
            assert(path_view(path@) =~= path_view(prev) + seq![(nv[level_start + sib], is_right)]);
            assert(path_view(path@) + rest =~= path_view(prev) + (seq![
                (nv[level_start + sib], is_right),
            ] + rest));
            level_start = level_start + level_len;
            level_len = (level_len + 1) / 2;
            pos = pos / 2;
        }
        assert(path_view(path@) + Seq::<(Seq<u8>, bool)>::empty() =~= path_view(path@));
        path
    }

    /// Verify a Merkle proof against a known root.
    pub fn verify_proof(root: &[u8; 32], leaf_data: &[u8], proof: &[([u8; 32], bool)]) -> (r: bool)
        ensures
            r == (fold_path(sha256_spec(leaf_data@), path_view(proof@)) == root@),
    {
        let mut current = sha256(leaf_data);
        let mut i: usize = 0;
        assert(path_view(proof@).skip(0) =~= path_view(proof@));
        let n: usize = proof.len();
        while i < n
            invariant
                i <= n,
                n == proof@.len(),
                fold_path(sha256_spec(leaf_data@), path_view(proof@)) == fold_path(
                    current@,
                    path_view(proof@).skip(i as int),
                ),
            decreases n - i,
        {
            let (sibling, is_right) = proof[i];
            let ghost rest = path_view(proof@).skip(i as int);
            assert(rest.drop_first() =~= path_view(proof@).skip(i + 1));
            if is_right {
                current = hash_two(&sibling, &current);
            } else {
                current = hash_two(&current, &sibling);
            }
            i = i + 1;
        }
        assert(path_view(proof@).skip(n as int) =~= Seq::<(Seq<u8>, bool)>::empty());
        bytes32_eq(&current, root)
    }
}

pub proof fn lemma_total_nodes_ge(n: nat)
    ensures
        total_nodes(n) >= n,
    decreases n,
{
    if n > 1 {
        lemma_total_nodes_ge(((n + 1) / 2) as nat);
    }
}

impl MerkleTree {
    /// Serialize the tree: `[u32 leaf_count][u32 node_count][nodes: 32 bytes each]`.
    pub fn to_bytes(&self) -> (r: Vec<u8>)
        ensures
            r@ == serialize(self.leaf_count as nat, self.node_view()),
    {
        let mut buf: Vec<u8> = Vec::new();
        let lc: u64 = (self.leaf_count as u64) % 0x1_0000_0000;
        let nn: usize = self.nodes.len();
        let nc: u64 = (nn as u64) % 0x1_0000_0000;
        push_le(&mut buf, lc, 4);
        push_le(&mut buf, nc, 4);
        let ghost header = buf@;
        let ghost nv = self.node_view();
        let mut i: usize = 0;
        assert(nv.take(0) =~= Seq::<Seq<u8>>::empty());
        assert(header + flatten(Seq::<Seq<u8>>::empty()) =~= header);
        while i < nn
            invariant
                i <= nn,
                nn == self.nodes@.len(),
                nv == self.node_view(),
                buf@ == header + flatten(nv.take(i as int)),
            decreases nn - i,
        {
            let node = self.nodes[i];
            let mut k: usize = 0;
            let ghost start = buf@;
            while k < 32
                invariant
                    k <= 32,
                    buf@ =~= start + node@.take(k as int),
                decreases 32 - k,
            {
                buf.push(node[k]);
                k = k + 1;
            }
            proof {
                assert(node@.take(32) =~= node@);
                lemma_flatten_push(nv.take(i as int), nv[i as int]);
                assert(nv.take(i + 1) =~= nv.take(i as int).push(nv[i as int]));
            }
            i = i + 1;
        }
        assert(nv.take(nn as int) =~= nv);
        buf
    }

    /// Deserialize from bytes.
    pub fn from_bytes(data: &[u8]) -> (r: Option<Self>)
        ensures
            match deserialize(data@) {
                None => r is None,
                Some((lc, nodes)) => match r {
                    Some(t) => t.leaf_count == lc && t.node_view() == nodes && t.root@
                        == nodes.last(),
                    None => false,
                },
            },
    {
        let len: usize = data.len();
        if len < 8 {
            return None;
        }
        let lc: u64 = read_le(data, 0, 4);
        let nc: u64 = read_le(data, 4, 4);
        proof {
            lemma_le_value_bound(data@.subrange(0, 4));
            lemma_le_value_bound(data@.subrange(4, 8));
            lemma_pow256_values();
        }
        if (len as u64) < 8 + nc * 32 {
            return None;
        }
        if lc == 0 || nc == 0 {
            return None;
        }
        let node_count: usize = nc as usize;
        let ghost expected = Seq::new(
            nc as nat,
            |j: int| data@.subrange(8 + 32 * j, 8 + 32 * j + 32),
        );
        let mut nodes: Vec<[u8; 32]> = Vec::new();
        let mut i: usize = 0;
        while i < node_count
            invariant
                i <= node_count,
                node_count == nc,
                len == data@.len(),
                8 + nc * 32 <= len,
                expected == Seq::new(
                    nc as nat,
                    |j: int| data@.subrange(8 + 32 * j, 8 + 32 * j + 32),
                ),
                hashes(nodes@) =~= expected.take(i as int),
            decreases node_count - i,
        {
            let off: usize = 8 + i * 32;
            let mut hash: [u8; 32] = [0u8; 32];
            let mut k: usize = 0;
            while k < 32
                invariant
                    k <= 32,
                    off == 8 + i * 32,
                    i < node_count,
                    8 + nc * 32 <= len,
                    node_count == nc,
                    len == data@.len(),
                    forall|m: int| 0 <= m < k ==> hash@[m] == data@[off + m],
                decreases 32 - k,
            {
                hash[k] = data[off + k];
                k = k + 1;
            }
            assert(hash@ =~= data@.subrange(off as int, off + 32));
            let ghost prev = nodes@;
            nodes.push(hash);
            assert(hashes(nodes@) =~= hashes(prev).push(hash@));
            assert(expected.take(i + 1) =~= expected.take(i as int).push(expected[i as int]));
            i = i + 1;
        }
        assert(expected.take(node_count as int) =~= expected);
        let root = nodes[node_count - 1];
        Some(MerkleTree { nodes, leaf_count: lc as usize, root })
    }
}

impl MerkleTree {
    /// Whether the tree holds as many nodes as its leaf count calls for, so
    /// that a proof path can be read for every leaf.
    pub fn layout_complete(&self) -> (r: bool)
        ensures
            r == self.has_layout(),
    {
        let nn: usize = self.nodes.len();
        let mut n: usize = self.leaf_count;
        let mut acc: usize = 0;
        while n > 1
            invariant
                acc <= nn,
                nn == self.nodes@.len(),
                total_nodes(self.leaf_count as nat) == acc + total_nodes(n as nat),
            decreases n,
        {
            proof {
                lemma_total_nodes_ge(((n + 1) / 2) as nat);
            }
            if n > nn - acc {
                return false;
            }
            acc = acc + n;
            n = n / 2 + n % 2;
        }
        n <= nn - acc
    }
}

/// The last node of the tree over `level` is its top.
pub proof fn lemma_tree_levels_last(level: Seq<Seq<u8>>)
    requires
        level.len() > 0,
    ensures
        tree_levels(level).last() == top(level),
    decreases level.len(),
{
    if level.len() > 1 {
        let par = parent_level(level);
        lemma_tree_levels_last(par);
        assert(tree_levels(level) == level + tree_levels(par));
    }
}

/// Concatenation distributes over appending one more byte string.
pub proof fn lemma_flatten_push(v: Seq<Seq<u8>>, x: Seq<u8>)
    ensures
        flatten(v.push(x)) == flatten(v) + x,
    decreases v.len(),
{
    if v.len() == 0 {
        assert(v.push(x).drop_first() =~= Seq::<Seq<u8>>::empty());
        assert(flatten(v.push(x)) =~= x + flatten(Seq::<Seq<u8>>::empty()));
    } else {
        lemma_flatten_push(v.drop_first(), x);
        assert(v.push(x).drop_first() =~= v.drop_first().push(x));
        assert(flatten(v.push(x)) =~= v[0] + (flatten(v.drop_first()) + x));
    }
}

/// Pieces of equal length `32` can be read back out of their concatenation.
pub proof fn lemma_flatten_chunks(v: Seq<Seq<u8>>)
    requires
        forall|i: int| 0 <= i < v.len() ==> #[trigger] v[i].len() == 32,
    ensures
        flatten(v).len() == 32 * v.len(),
        forall|i: int|
            0 <= i < v.len() ==> flatten(v).subrange(32 * i, 32 * i + 32) == #[trigger] v[i],
    decreases v.len(),
{
    if v.len() > 0 {
        let t = v.drop_first();
        assert forall|i: int| 0 <= i < t.len() implies #[trigger] t[i].len() == 32 by {
            assert(t[i] == v[i + 1]);
        }
        lemma_flatten_chunks(t);
        let f = flatten(v);
        assert(f == v[0] + flatten(t));
        assert forall|i: int| 0 <= i < v.len() implies f.subrange(32 * i, 32 * i + 32)
            == #[trigger] v[i] by {
            if i == 0 {
                assert(f.subrange(0, 32) =~= v[0]);
            } else {
                assert(t[i - 1] == v[i]);
                assert(flatten(t).subrange(32 * (i - 1), 32 * (i - 1) + 32) == t[i - 1]);
                assert(f.subrange(32 * i, 32 * i + 32) =~= flatten(t).subrange(
                    32 * (i - 1),
                    32 * (i - 1) + 32,
                ));
            }
        }
    }
}

/// Law: a tree of 32-byte nodes whose counts fit in 32 bits reads back from its
/// serialized form unchanged.
pub proof fn lemma_serialize_roundtrip(leaf_count: nat, nodes: Seq<Seq<u8>>)
    requires
        0 < leaf_count < 0x1_0000_0000,
        0 < nodes.len() < 0x1_0000_0000,
        forall|i: int| 0 <= i < nodes.len() ==> #[trigger] nodes[i].len() == 32,
    ensures
        deserialize(serialize(leaf_count, nodes)) == Some((leaf_count, nodes)),
{
    let data = serialize(leaf_count, nodes);
    lemma_pow256_values();
    lemma_le_bytes_len(leaf_count, 4);
    lemma_le_bytes_len(nodes.len(), 4);
    lemma_le_value_of_bytes(leaf_count, 4);
    lemma_le_value_of_bytes(nodes.len(), 4);
    lemma_flatten_chunks(nodes);
    let h1 = le_bytes(leaf_count % 0x1_0000_0000, 4);
    let h2 = le_bytes(nodes.len() % 0x1_0000_0000, 4);
    let f = flatten(nodes);
    assert(leaf_count % 0x1_0000_0000 == leaf_count);
    assert(nodes.len() % 0x1_0000_0000 == nodes.len());
    assert(data.subrange(0, 4) =~= h1);
    assert(data.subrange(4, 8) =~= h2);
    let back = Seq::new(nodes.len(), |i: int| data.subrange(8 + 32 * i, 8 + 32 * i + 32));
    assert forall|i: int| 0 <= i < nodes.len() implies back[i] == nodes[i] by {
        assert(data.subrange(8 + 32 * i, 8 + 32 * i + 32) =~= f.subrange(32 * i, 32 * i + 32));
    }
    assert(back =~= nodes);
}

/// The number of nodes of the tree over `level` is `total_nodes` of its size.
pub proof fn lemma_tree_levels_len(level: Seq<Seq<u8>>)
    ensures
        tree_levels(level).len() == total_nodes(level.len()),
    decreases level.len(),
{
    if level.len() > 1 {
        lemma_tree_levels_len(parent_level(level));
    }
}

/// Reading the authentication path out of a layout that holds the tree over
/// `level` at offset `prefix.len()` gives the path of the tree.
pub proof fn lemma_nodes_path_is_merkle_path(prefix: Seq<Seq<u8>>, level: Seq<Seq<u8>>, pos: nat)
    requires
        pos < level.len(),
    ensures
        nodes_path(prefix + tree_levels(level), prefix.len(), level.len(), pos) == merkle_path(
            level,
            pos,
        ),
    decreases level.len(),
{
    if level.len() > 1 {
        let par = parent_level(level);
        let nodes = prefix + tree_levels(level);
        assert(tree_levels(level) == level + tree_levels(par));
        assert(nodes =~= (prefix + level) + tree_levels(par));
        lemma_nodes_path_is_merkle_path(prefix + level, par, pos / 2);
        let sib = sibling(pos, level.len());
        assert(nodes[(prefix.len() + sib) as int] == level[sib as int]);
    }
}

/// Folding the authentication path of `pos` over its node reaches the top.
pub proof fn lemma_fold_merkle_path(level: Seq<Seq<u8>>, pos: nat)
    requires
        pos < level.len(),
    ensures
        fold_path(level[pos as int], merkle_path(level, pos)) == top(level),
    decreases level.len(),
{
    if level.len() > 1 {
        let par = parent_level(level);
        let path = merkle_path(level, pos);
        assert(path.drop_first() =~= merkle_path(par, pos / 2));
        let q = (pos / 2) as int;
        if pos % 2 == 0 {
            assert(2 * q == pos);
        } else {
            assert(2 * q + 1 == pos);
        }
        lemma_fold_merkle_path(par, pos / 2);
    }
}

/// Law: the proof produced for leaf `i` of a tree built from `leaves` holds
/// the authentication path of that leaf, and folding it over the leaf's hash
/// gives the tree's root, so `verify_proof` accepts it.
pub proof fn lemma_proof_verifies(leaves: Seq<Seq<u8>>, i: nat)
    requires
        i < leaves.len(),
    ensures
        nodes_path(merkle_nodes(leaves), 0, leaves.len(), i) == merkle_path(leaf_hashes(leaves), i),
        fold_path(sha256_spec(leaves[i as int]), nodes_path(merkle_nodes(leaves), 0, leaves.len(), i))
            == merkle_root(leaves),
{
    let l0 = leaf_hashes(leaves);
    lemma_nodes_path_is_merkle_path(Seq::empty(), l0, i);
    assert(Seq::<Seq<u8>>::empty() + tree_levels(l0) =~= tree_levels(l0));
    lemma_fold_merkle_path(l0, i);
}

/// Law: a tree built from `leaves` has the layout `proof_path` needs, and its
/// leaf nodes are the hashes of the leaves, so `verify_leaf` accepts each leaf.
pub proof fn lemma_built_tree_leaves(leaves: Seq<Seq<u8>>)
    ensures
        merkle_nodes(leaves).len() == total_nodes(leaves.len()),
        forall|i: int| 0 <= i < leaves.len() ==> #[trigger] merkle_nodes(leaves)[i] == sha256_spec(leaves[i]),
{
    let l0 = leaf_hashes(leaves);
    lemma_tree_levels_len(l0);
    if l0.len() > 1 {
        assert(tree_levels(l0) == l0 + tree_levels(parent_level(l0)));
    }
}

/// Hash of two 32-byte nodes concatenated.
fn hash_two(left: &[u8; 32], right: &[u8; 32]) -> (r: [u8; 32])
    ensures
        r@ == hash_pair(left@, right@),
{
    let mut buf: Vec<u8> = Vec::new();
    let mut i: usize = 0;
    while i < 32
        invariant
            i <= 32,
            buf@ =~= left@.take(i as int),
        decreases 32 - i,
    {
        buf.push(left[i]);
        i = i + 1;
    }
    let mut j: usize = 0;
    while j < 32
        invariant
            j <= 32,
            buf@ =~= left@ + right@.take(j as int),
        decreases 32 - j,
    {
        buf.push(right[j]);
        j = j + 1;
    }
    assert(right@.take(32) =~= right@);
    sha256(buf.as_slice())
}

/// Byte-wise equality of two hashes.
pub fn bytes32_eq(a: &[u8; 32], b: &[u8; 32]) -> (r: bool)
    ensures
        r == (a@ == b@),
{
    let mut i: usize = 0;
    while i < 32
        invariant
            i <= 32,
            a@.take(i as int) == b@.take(i as int),
        decreases 32 - i,
    {
        if a[i] != b[i] {
            assert(a@[i as int] != b@[i as int]);
            return false;
        }
        assert(a@.take(i + 1) =~= a@.take(i as int).push(a@[i as int]));
        assert(b@.take(i + 1) =~= b@.take(i as int).push(b@[i as int]));
        i = i + 1;
    }
    assert(a@.take(32) =~= a@);
    assert(b@.take(32) =~= b@);
    true
}

} // verus!
