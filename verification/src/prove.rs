//! Proof of memory existence and integrity: the verdict of the checks and
//! the text renderings of a proof.
use vstd::prelude::*;
use vstd::utf8::encode_utf8;
use crate::merkle::{
    deserialize, fold_path, lemma_built_tree_leaves, lemma_proof_verifies, lemma_serialize_roundtrip,
    lemma_tree_levels_last, merkle_nodes, merkle_root, nodes_path, serialize, sha256_spec,
    total_nodes, MerkleTree,
};
use crate::relevance::{byte_len, split_words, strings_view, words};
use crate::text::{chars_vec, lower_text, str_to_lowercase, string_push};

verus! {

#[derive(Clone, Copy, Debug, PartialEq, Eq)]
pub enum IntegrityStatus {
    /// Both Merkle and CRC pass.
    Verified,
    /// CRC passes but no Merkle tree.
    CrcOnly,
    /// Verification failed.
    Failed,
    /// Memory not found.
    NotFound,
}

/// The verdict on a found memory: verified when both its Merkle proof and
/// its CRC pass; CRC-only when the CRC passes and the index has no Merkle
/// root to prove against; failed otherwise (a failed CRC, or a Merkle proof
/// that fails against the index's root).
pub open spec fn integrity_spec(merkle_valid: bool, crc_valid: bool, has_merkle_root: bool) -> IntegrityStatus {
    if merkle_valid && crc_valid {
        IntegrityStatus::Verified
    } else if crc_valid && !has_merkle_root {
        IntegrityStatus::CrcOnly
    } else {
        IntegrityStatus::Failed
    }
}

/// Integrity verdict of a found memory.
pub fn integrity_status(merkle_valid: bool, crc_valid: bool, has_merkle_root: bool) -> (r: IntegrityStatus)
    ensures
        r == integrity_spec(merkle_valid, crc_valid, has_merkle_root),
{
    if merkle_valid && crc_valid {
        IntegrityStatus::Verified
    } else if crc_valid && !has_merkle_root {
        IntegrityStatus::CrcOnly
    } else {
        IntegrityStatus::Failed
    }
}

/// Law: the verdict on a found memory is Verified exactly when both its
/// Merkle proof and its CRC pass, whether or not the index has a root;
/// CRC-only exactly when the CRC passes, the proof does not and there is no
/// root to prove against; and Failed in every other case. A found memory is
/// never reported as not found.
pub proof fn lemma_integrity_verdict(merkle_valid: bool, crc_valid: bool, has_merkle_root: bool)
    ensures
        (integrity_spec(merkle_valid, crc_valid, has_merkle_root) == IntegrityStatus::Verified) <==> (
        merkle_valid && crc_valid),
        (integrity_spec(merkle_valid, crc_valid, has_merkle_root) == IntegrityStatus::CrcOnly) <==> (
        crc_valid && !merkle_valid && !has_merkle_root),
        (integrity_spec(merkle_valid, crc_valid, has_merkle_root) == IntegrityStatus::Failed) <==> (
        !crc_valid || (!merkle_valid && has_merkle_root)),
        integrity_spec(merkle_valid, crc_valid, has_merkle_root) != IntegrityStatus::NotFound,
{
}

impl IntegrityStatus {
    /// The status as written into an exported proof.
    pub fn json_label(&self) -> (r: &'static str)
        ensures
            r@ == match *self {
                IntegrityStatus::Verified => "VERIFIED"@,
                IntegrityStatus::CrcOnly => "CRC_ONLY"@,
                IntegrityStatus::Failed => "FAILED"@,
                IntegrityStatus::NotFound => "NOT_FOUND"@,
            },
    {
        match self {
            IntegrityStatus::Verified => "VERIFIED",
            IntegrityStatus::CrcOnly => "CRC_ONLY",
            IntegrityStatus::Failed => "FAILED",
            IntegrityStatus::NotFound => "NOT_FOUND",
        }
    }
}

// ─── Hex rendering ──────────────────────────────────

/// Lower-case hex digit of a value below 16.
pub open spec fn hex_digit(d: nat) -> char {
    if d < 10 {
        (d + 48) as char
    } else {
        (d + 87) as char
    }
}

/// Two lower-case hex digits per byte.
pub open spec fn hex_spec(bytes: Seq<u8>) -> Seq<char>
    decreases bytes.len(),
{
    if bytes.len() == 0 {
        Seq::empty()
    } else {
        hex_spec(bytes.drop_last()).push(hex_digit(bytes.last() as nat / 16)).push(
            hex_digit(bytes.last() as nat % 16),
        )
    }
}

fn hex_char(d: u8) -> (c: char)
    requires
        d < 16,
    ensures
        c == hex_digit(d as nat),
{
    if d < 10 {
        (d + 48) as char
    } else {
        (d + 87) as char
    }
}

/// Lower-case hex rendering of bytes.
pub fn hex_str(bytes: &[u8]) -> (r: String)
    ensures
        r@ == hex_spec(bytes@),
{
    let mut s = String::new();
    let n: usize = bytes.len();
    let mut i: usize = 0;
    assert(bytes@.take(0) =~= Seq::<u8>::empty());
    while i < n
        invariant
            i <= n,
            n == bytes@.len(),
            s@ == hex_spec(bytes@.take(i as int)),
        decreases n - i,
    {
        let b = bytes[i];
        string_push(&mut s, hex_char(b / 16));
        string_push(&mut s, hex_char(b % 16));
        assert(bytes@.take(i + 1).drop_last() =~= bytes@.take(i as int));
        i = i + 1;
    }
    assert(bytes@.take(n as int) =~= bytes@);
    s
}

// ─── JSON string escaping ───────────────────────────

/// The escape of one character in a JSON string.
pub open spec fn escape_char(c: char) -> Seq<char> {
    if c == '\\' {
        seq!['\\', '\\']
    } else if c == '"' {
        seq!['\\', '"']
    } else if c == '\n' {
        seq!['\\', 'n']
    } else if c == '\r' {
        seq!['\\', 'r']
    } else if c == '\t' {
        seq!['\\', 't']
    } else {
        seq![c]
    }
}

/// `s` with backslashes, quotes, newlines, carriage returns and tabs escaped.
pub open spec fn escape_spec(s: Seq<char>) -> Seq<char>
    decreases s.len(),
{
    if s.len() == 0 {
        Seq::empty()
    } else {
        escape_spec(s.drop_last()) + escape_char(s.last())
    }
}

/// Escape text for a JSON string literal.
pub fn escape_json(s: &str) -> (r: String)
    ensures
        r@ == escape_spec(s@),
{
    let mut out = String::new();
    let n: usize = s.unicode_len();
    let mut i: usize = 0;
    assert(s@.take(0) =~= Seq::<char>::empty());
    while i < n
        invariant
            i <= n,
            n == s@.len(),
            out@ == escape_spec(s@.take(i as int)),
        decreases n - i,
    {
        let c = s.get_char(i);
        let ghost before = out@;
        if c == '\\' {
            string_push(&mut out, '\\');
            string_push(&mut out, '\\');
        } else if c == '"' {
            string_push(&mut out, '\\');
            string_push(&mut out, '"');
        } else if c == '\n' {
            string_push(&mut out, '\\');
            string_push(&mut out, 'n');
        } else if c == '\r' {
            string_push(&mut out, '\\');
            string_push(&mut out, 'r');
        } else if c == '\t' {
            string_push(&mut out, '\\');
            string_push(&mut out, 't');
        } else {
            string_push(&mut out, c);
        }
        assert(out@ =~= before + escape_char(c));
        assert(s@.take(i + 1).drop_last() =~= s@.take(i as int));
        i = i + 1;
    }
    assert(s@.take(n as int) =~= s@);
    out
}

// ─── Proof records ──────────────────────────────────

/// A complete proof of memory existence and integrity. The coordinates are
/// kept as the bit patterns of the `f32` values stored in the block header.
#[derive(Clone, Debug)]
pub struct MemoryProof {
    pub query: String,
    pub block_idx: usize,
    pub block_text: String,
    pub layer: String,
    pub depth: u8,
    pub x_bits: u32,
    pub y_bits: u32,
    pub z_bits: u32,
    pub merkle_root: String,
    pub merkle_proof: Vec<String>,
    pub proof_valid: bool,
    pub crc_valid: bool,
    pub generated_at_ms: u64,
}

/// Result of a proof verification.
#[derive(Clone, Debug)]
pub struct ProofVerification {
    pub proof: MemoryProof,
    pub integrity: IntegrityStatus,
    pub human_readable: String,
}

/// The proof reported when no memory was found: the query and nothing else.
pub fn empty_proof(query: &str) -> (p: MemoryProof)
    ensures
        p.query@ == query@,
        p.block_idx == 0,
        p.block_text@.len() == 0,
        p.layer@.len() == 0,
        p.depth == 0,
        p.x_bits == 0 && p.y_bits == 0 && p.z_bits == 0,
        p.merkle_root@.len() == 0,
        p.merkle_proof@.len() == 0,
        !p.proof_valid,
        !p.crc_valid,
        p.generated_at_ms == 0,
{
    MemoryProof {
        query: query.to_string(),
        block_idx: 0,
        block_text: String::new(),
        layer: String::new(),
        depth: 0,
        x_bits: 0,
        y_bits: 0,
        z_bits: 0,
        merkle_root: String::new(),
        merkle_proof: Vec::new(),
        proof_valid: false,
        crc_valid: false,
        generated_at_ms: 0,
    }
}

// ─── Finding the memory to prove ────────────────────

/// A word counts as a keyword when it is longer than two bytes.
pub open spec fn is_keyword(w: Seq<char>) -> bool {
    encode_utf8(w).len() > 2
}

/// The keywords of a query: the words of its lower-case form longer than two bytes.
pub open spec fn keywords_spec(query: Seq<char>) -> Seq<Seq<char>> {
    words(lower_text(query)).filter(|w: Seq<char>| is_keyword(w))
}

/// The keywords a proof search looks for.
pub fn proof_keywords(query: &str) -> (r: Vec<String>)
    ensures
        strings_view(r@) == keywords_spec(query@),
{
    let lower = str_to_lowercase(query);
    let ws = split_words(lower.as_str());
    let ghost all = strings_view(ws@);
    let ghost pred = |w: Seq<char>| is_keyword(w);
    let mut out: Vec<String> = Vec::new();
    let n: usize = ws.len();
    let mut i: usize = 0;
    proof {
        reveal_with_fuel(Seq::filter, 1);
        assert(all.take(0) =~= Seq::<Seq<char>>::empty());
    }
    while i < n
        invariant
            i <= n,
            n == ws@.len(),
            all == strings_view(ws@),
            pred == (|w: Seq<char>| is_keyword(w)),
            strings_view(out@) == all.take(i as int).filter(pred),
        decreases n - i,
    {
        let w = ws[i].clone();
        proof {
            reveal_with_fuel(Seq::filter, 1);
            assert(all.take(i + 1).drop_last() =~= all.take(i as int));
        }
        let ghost prev = out@;
        if byte_len(&ws[i]) > 2 {
            out.push(w.clone());
            assert(strings_view(out@) =~= strings_view(prev).push(ws@[i as int]@));
        }
        i = i + 1;
    }
    assert(all.take(n as int) =~= all);
    out
}

/// `k` occurs in `t` starting at position `i`.
pub open spec fn occurs_at(t: Seq<char>, k: Seq<char>, i: int) -> bool {
    0 <= i && i + k.len() <= t.len() && t.subrange(i, i + k.len()) == k
}

/// `k` occurs somewhere in `t` (the empty string occurs everywhere).
pub open spec fn contains_text(t: Seq<char>, k: Seq<char>) -> bool {
    exists|i: int| occurs_at(t, k, i)
}

/// Number of keywords that occur in `text`, each counted once per listing.
pub open spec fn keyword_hits(kws: Seq<Seq<char>>, text: Seq<char>) -> nat
    decreases kws.len(),
{
    if kws.len() == 0 {
        0
    } else {
        keyword_hits(kws.drop_last(), text) + if contains_text(text, kws.last()) {
            1nat
        } else {
            0nat
        }
    }
}

/// Hits of the keywords in the lower-case form of block `i`.
pub open spec fn block_hits(kws: Seq<Seq<char>>, texts: Seq<Seq<char>>, i: int) -> nat {
    keyword_hits(kws, lower_text(texts[i]))
}

pub(crate) fn text_contains(t: &Vec<char>, k: &Vec<char>) -> (r: bool)
    ensures
        r == contains_text(t@, k@),
{
    let n: usize = t.len();
    let m: usize = k.len();
    if m > n {
        return false;
    }
    let mut i: usize = 0;
    while i <= n - m
        invariant
            m <= n,
            n == t@.len(),
            m == k@.len(),
            forall|j: int| 0 <= j < i ==> !occurs_at(t@, k@, j),
        decreases n - m + 1 - i,
    {
        let mut j: usize = 0;
        while j < m && t[i + j] == k[j]
            invariant
                j <= m,
                i + m <= n,
                n == t@.len(),
                m == k@.len(),
                forall|q: int| 0 <= q < j ==> t@[i + q] == k@[q],
            decreases m - j,
        {
            j = j + 1;
        }
        if j == m {
            assert(t@.subrange(i as int, i + m) =~= k@);
            assert(occurs_at(t@, k@, i as int));
            return true;
        }
        assert(t@.subrange(i as int, i + m)[j as int] != k@[j as int]);
        i = i + 1;
    }
    false
}

pub(crate) fn count_hits(kws: &[String], text: &Vec<char>) -> (r: usize)
    ensures
        r == keyword_hits(strings_view(kws@), text@),
        r <= kws@.len(),
{
    let ghost kv = strings_view(kws@);
    let n: usize = kws.len();
    let mut hits: usize = 0;
    let mut i: usize = 0;
    assert(kv.take(0) =~= Seq::<Seq<char>>::empty());
    while i < n
        invariant
            i <= n,
            n == kws@.len(),
            kv == strings_view(kws@),
            hits == keyword_hits(kv.take(i as int), text@),
            hits <= i,
        decreases n - i,
    {
        let kw = chars_vec(kws[i].as_str());
        assert(kv.take(i + 1).drop_last() =~= kv.take(i as int));
        if text_contains(text, &kw) {
            hits = hits + 1;
        }
        i = i + 1;
    }
    assert(kv.take(n as int) =~= kv);
    hits
}

/// The block whose lower-case text holds the most keywords, the first of
/// them on a tie; `None` when no block holds any.
pub fn best_block(keywords: &[String], texts: &[String]) -> (r: Option<usize>)
    ensures
        match r {
            None => forall|i: int|
                0 <= i < texts@.len() ==> block_hits(strings_view(keywords@), strings_view(texts@), i)
                    == 0,
            Some(b) => {
                &&& b < texts@.len()
                &&& block_hits(strings_view(keywords@), strings_view(texts@), b as int) > 0
                &&& forall|j: int|
                    0 <= j < texts@.len() ==> block_hits(
                        strings_view(keywords@),
                        strings_view(texts@),
                        j,
                    ) <= block_hits(strings_view(keywords@), strings_view(texts@), b as int)
                &&& forall|j: int|
                    0 <= j < b ==> block_hits(strings_view(keywords@), strings_view(texts@), j)
                        < block_hits(strings_view(keywords@), strings_view(texts@), b as int)
            },
        },
{
    let ghost kv = strings_view(keywords@);
    let ghost tv = strings_view(texts@);
    let n: usize = texts.len();
    let mut best: Option<(usize, usize)> = None;
    let mut idx: usize = 0;
    while idx < n
        invariant
            idx <= n,
            n == texts@.len(),
            kv == strings_view(keywords@),
            tv == strings_view(texts@),
            match best {
                None => forall|j: int| 0 <= j < idx ==> block_hits(kv, tv, j) == 0,
                Some((b, bh)) => {
                    &&& b < idx
                    &&& bh == block_hits(kv, tv, b as int)
                    &&& bh > 0
                    &&& forall|j: int| 0 <= j < idx ==> block_hits(kv, tv, j) <= bh
                    &&& forall|j: int| 0 <= j < b ==> block_hits(kv, tv, j) < bh
                },
            },
        decreases n - idx,
    {
        let lower = str_to_lowercase(texts[idx].as_str());
        let chars = chars_vec(lower.as_str());
        let hits = count_hits(keywords, &chars);
        assert(hits == block_hits(kv, tv, idx as int));
        if hits > 0 {
            match best {
                None => {
                    best = Some((idx, hits));
                },
                Some((_, best_hits)) => {
                    if hits > best_hits {
                        best = Some((idx, hits));
                    }
                },
            }
        }
        idx = idx + 1;
    }
    match best {
        Some((b, _)) => Some(b),
        None => None,
    }
}

// ─── Merkle evidence ────────────────────────────────

/// Bytes of an optional slice.
pub open spec fn opt_bytes(o: Option<&[u8]>) -> Option<Seq<u8>> {
    match o {
        Some(d) => Some(d@),
        None => None,
    }
}

/// The authentication path of leaf `idx` read out of a tree with
/// `leaf_count` leaves and `nodes`; empty past the last leaf.
pub open spec fn leaf_path(nodes: Seq<Seq<u8>>, leaf_count: nat, idx: nat) -> Seq<(Seq<u8>, bool)> {
    if idx < leaf_count {
        nodes_path(nodes, 0, leaf_count, idx)
    } else {
        Seq::empty()
    }
}

/// Hex renderings of the sibling hashes of a path.
pub open spec fn path_hexes(p: Seq<(Seq<u8>, bool)>) -> Seq<Seq<char>> {
    p.map_values(|e: (Seq<u8>, bool)| hex_spec(e.0))
}

/// A serialized tree can prove leaf `idx`: either the index is past its
/// leaves or it holds all the nodes its leaf count calls for.
pub open spec fn can_prove(merkle_data: Option<Seq<u8>>, idx: nat) -> bool {
    match merkle_data {
        Some(d) => match deserialize(d) {
            Some((lc, nodes)) => idx < lc ==> nodes.len() >= total_nodes(lc),
            None => true,
        },
        None => true,
    }
}

/// The Merkle evidence for block `idx`: the root in hex, the hex hashes of
/// the proof path and whether the block's data folds up to the root. Without
/// a readable tree the stored root stands and nothing is proved; without the
/// block's data the tree's root stands and nothing is proved.
pub open spec fn evidence_spec(
    stored_root: Seq<u8>,
    merkle_data: Option<Seq<u8>>,
    idx: nat,
    block: Option<Seq<u8>>,
) -> (Seq<char>, Seq<Seq<char>>, bool) {
    match merkle_data {
        None => (hex_spec(stored_root), Seq::empty(), false),
        Some(d) => match deserialize(d) {
            None => (hex_spec(stored_root), Seq::empty(), false),
            Some((lc, nodes)) => {
                let path = leaf_path(nodes, lc, idx);
                match block {
                    None => (hex_spec(nodes.last()), Seq::empty(), false),
                    Some(b) => (
                        hex_spec(nodes.last()),
                        path_hexes(path),
                        fold_path(sha256_spec(b), path) == nodes.last(),
                    ),
                }
            },
        },
    }
}

/// Merkle evidence for block `block_idx`, from the root stored in the index
/// metadata, the serialized tree (if it could be read) and the block's data
/// (if it lies within the data file).
pub fn merkle_evidence(
    stored_root: &[u8; 32],
    merkle_data: Option<&[u8]>,
    block_idx: usize,
    block_data: Option<&[u8]>,
) -> (r: (String, Vec<String>, bool))
    requires
        can_prove(opt_bytes(merkle_data), block_idx as nat),
    ensures
        (r.0@, strings_view(r.1@), r.2) == evidence_spec(
            stored_root@,
            opt_bytes(merkle_data),
            block_idx as nat,
            opt_bytes(block_data),
        ),
{
    let data = match merkle_data {
        None => {
            return (hex_str(stored_root.as_slice()), Vec::new(), false);
        },
        Some(d) => d,
    };
    let tree = match MerkleTree::from_bytes(data) {
        None => {
            return (hex_str(stored_root.as_slice()), Vec::new(), false);
        },
        Some(t) => t,
    };
    let proof = tree.proof_path(block_idx);
    let root_hex = hex_str(tree.root.as_slice());
    let ghost path = leaf_path(tree.node_view(), tree.leaf_count as nat, block_idx as nat);
    assert(crate::merkle::path_view(proof@) == path);
    match block_data {
        None => (root_hex, Vec::new(), false),
        Some(b) => {
            let valid = MerkleTree::verify_proof(&tree.root, b, proof.as_slice());
            let mut hexes: Vec<String> = Vec::new();
            let n: usize = proof.len();
            let mut i: usize = 0;
            while i < n
                invariant
                    i <= n,
                    n == proof@.len(),
                    path == crate::merkle::path_view(proof@),
                    strings_view(hexes@) =~= path_hexes(path).take(i as int),
                decreases n - i,
            {
                let h = hex_str(proof[i].0.as_slice());
                let ghost prev = hexes@;
                assert(path[i as int].0 == proof@[i as int].0@);
                hexes.push(h);
                assert(strings_view(hexes@) =~= strings_view(prev).push(h@));
                assert(path_hexes(path).take(i + 1) =~= path_hexes(path).take(i as int).push(
                    hex_spec(path[i as int].0),
                ));
                i = i + 1;
            }
            assert(path_hexes(path).take(n as int) =~= path_hexes(path));
            (root_hex, hexes, valid)
        },
    }
}

/// Law: a tree built from the index's blocks, written out and read back,
/// proves each of its blocks: the evidence for block `i` with that block's
/// data names the tree's root and is valid. Holds where the node and leaf
/// counts fit the 32-bit fields of the file.
pub proof fn lemma_stored_tree_proves_block(t: MerkleTree, leaves: Seq<Seq<u8>>, stored_root: Seq<u8>, i: nat)
    requires
        t.leaf_count == leaves.len(),
        t.node_view() == merkle_nodes(leaves),
        i < leaves.len(),
        total_nodes(leaves.len()) < 0x1_0000_0000,
    ensures
        can_prove(Some(serialize(t.leaf_count as nat, t.node_view())), i),
        evidence_spec(stored_root, Some(serialize(t.leaf_count as nat, t.node_view())), i, Some(leaves[i as int])).0
            == hex_spec(merkle_root(leaves)),
        evidence_spec(stored_root, Some(serialize(t.leaf_count as nat, t.node_view())), i, Some(leaves[i as int])).2,
{
    let nodes = t.node_view();
    lemma_built_tree_leaves(leaves);
    crate::merkle::lemma_total_nodes_ge(leaves.len());
    assert forall|k: int| 0 <= k < nodes.len() implies #[trigger] nodes[k].len() == 32 by {
        assert(nodes[k] == t.nodes@[k]@);
    }
    lemma_serialize_roundtrip(t.leaf_count as nat, nodes);
    lemma_proof_verifies(leaves, i);
    lemma_tree_levels_last(crate::merkle::leaf_hashes(leaves));
}

} // verus!
