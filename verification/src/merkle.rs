//! The Merkle engine: roots, inclusion proofs and their verification.
//!
//! A tree is built level by level. Adjacent nodes are combined in pairs; the
//! last node of a level of odd length has no partner and moves up unchanged.
//! In hashed mode a pair is combined by hashing the concatenation of its two
//! hexadecimal digests; in concatenation mode the two texts are joined.

use vstd::prelude::*;
use vstd::string::*;
use crate::hashing::{
    digest_hex, is_digest, is_hex_digest, lemma_digest_hex_is_digest, lower_hex, normalize_hash,
    same_digest, sha256_hex, strip_marker,
};

verus! {

/// The texts held by a sequence of strings.
pub open spec fn texts(strings: Seq<String>) -> Seq<Seq<char>> {
    Seq::new(strings.len(), |i: int| strings[i]@)
}

/// The prefix that marks a root built by plain concatenation.
pub open spec fn concat_tag() -> Seq<char> {
    "simple_concat:"@
}

/// The parent of two nodes.
pub open spec fn combine(hashed: bool, left: Seq<char>, right: Seq<char>) -> Seq<char> {
    if hashed {
        digest_hex(left + right)
    } else {
        left + right
    }
}

/// The node that a leaf value enters the tree as. In hashed mode a value
/// that is a digest once its marker is stripped is used as that digest, and
/// any other value is hashed; in concatenation mode the value is the node.
pub open spec fn leaf_node(hashed: bool, leaf: Seq<char>) -> Seq<char> {
    if !hashed {
        leaf
    } else if is_digest(strip_marker(leaf)) {
        strip_marker(leaf)
    } else {
        digest_hex(leaf)
    }
}

/// The bottom level of the tree over `leaves`.
pub open spec fn leaf_level(hashed: bool, leaves: Seq<Seq<char>>) -> Seq<Seq<char>> {
    Seq::new(leaves.len(), |i: int| leaf_node(hashed, leaves[i]))
}

/// The level above `level`: pairs combined, an unpaired last node kept.
pub open spec fn next_level(hashed: bool, level: Seq<Seq<char>>) -> Seq<Seq<char>> {
    Seq::new(
        (level.len() + 1) / 2,
        |i: int|
            if 2 * i + 1 < level.len() {
                combine(hashed, level[2 * i], level[2 * i + 1])
            } else {
                level[2 * i]
            },
    )
}

/// The single node that `level` reduces to; the empty text for no nodes.
pub open spec fn level_root(hashed: bool, level: Seq<Seq<char>>) -> Seq<char>
    decreases level.len(),
{
    if level.len() == 0 {
        Seq::empty()
    } else if level.len() == 1 {
        level[0]
    } else {
        level_root(hashed, next_level(hashed, level))
    }
}

/// The root of the tree over `leaves`.
pub open spec fn merkle_root(leaves: Seq<Seq<char>>, hashed: bool) -> Seq<char> {
    level_root(hashed, leaf_level(hashed, leaves))
}

/// The position of the node that `index` is paired with.
pub open spec fn sibling_index(index: int) -> int {
    if index % 2 == 0 {
        index + 1
    } else {
        index - 1
    }
}

/// The siblings met on the way from position `index` of `level` to the
/// root, lowest first. A level where the node has no partner adds nothing.
pub open spec fn level_proof(hashed: bool, level: Seq<Seq<char>>, index: int) -> Seq<Seq<char>>
    decreases level.len(),
{
    if level.len() <= 1 {
        Seq::empty()
    } else {
        let above = level_proof(hashed, next_level(hashed, level), index / 2);
        if sibling_index(index) < level.len() {
            seq![level[sibling_index(index)]] + above
        } else {
            above
        }
    }
}

/// The inclusion proof for leaf `index`; empty when there is no such leaf.
pub open spec fn merkle_proof(leaves: Seq<Seq<char>>, index: int, hashed: bool) -> Seq<Seq<char>> {
    if 0 <= index < leaves.len() {
        level_proof(hashed, leaf_level(hashed, leaves), index)
    } else {
        Seq::empty()
    }
}

/// The node reached from `current` by combining it with each proof element
/// in turn. An even index puts the current node on the left, an odd index
/// on the right; the index is halved after each element. In hashed mode the
/// marker of a proof element is stripped before use.
pub open spec fn fold_proof(
    hashed: bool,
    current: Seq<char>,
    proof: Seq<Seq<char>>,
    index: int,
) -> Seq<char>
    decreases proof.len(),
{
    if proof.len() == 0 {
        current
    } else {
        let sibling = if hashed {
            strip_marker(proof[0])
        } else {
            proof[0]
        };
        let parent = if index % 2 == 0 {
            combine(hashed, current, sibling)
        } else {
            combine(hashed, sibling, current)
        };
        fold_proof(hashed, parent, proof.drop_first(), index / 2)
    }
}

/// How a stored root is encoded.
#[derive(Clone, Copy, Debug, PartialEq, Eq, Structural)]
pub enum RootEncoding {
    /// The concatenation tag followed by a root built by concatenation.
    LegacyConcat,
    /// A 64-character hexadecimal digest.
    Hex256,
    /// Any other text: a bare root built by concatenation.
    FallbackConcat,
}

/// True when the root starts with the concatenation tag.
pub open spec fn is_tagged(root: Seq<char>) -> bool {
    root.len() >= concat_tag().len() && root.subrange(0, concat_tag().len() as int)
        == concat_tag()
}

/// The encoding that the shape of a stored root selects.
pub open spec fn root_encoding(root: Seq<char>) -> RootEncoding {
    if is_tagged(root) {
        RootEncoding::LegacyConcat
    } else if is_digest(root) {
        RootEncoding::Hex256
    } else {
        RootEncoding::FallbackConcat
    }
}

/// Whether `leaf` at position `index` is proved by `proof` to lie under the
/// stored `root`. Exactly one encoding applies, chosen by the root's shape.
/// A digest root is compared with the computed digest whatever the case of
/// their letters; a digest root carries no marker to strip.
pub open spec fn leaf_verifies(
    leaf: Seq<char>,
    proof: Seq<Seq<char>>,
    index: int,
    root: Seq<char>,
) -> bool {
    match root_encoding(root) {
        RootEncoding::LegacyConcat => fold_proof(false, leaf, proof, index) == root.subrange(
            concat_tag().len() as int,
            root.len() as int,
        ),
        RootEncoding::Hex256 => lower_hex(
            fold_proof(true, leaf_node(true, leaf), proof, index),
        ) == lower_hex(root),
        RootEncoding::FallbackConcat => fold_proof(false, leaf, proof, index) == root,
    }
}

/// The node that a proof leads to from a leaf: under the digest encoding
/// by hashing, from the node of the leaf; under either concatenation
/// encoding by joining, from the leaf itself.
pub open spec fn proved_node(
    leaf: Seq<char>,
    proof: Seq<Seq<char>>,
    index: int,
    encoding: RootEncoding,
) -> Seq<char> {
    match encoding {
        RootEncoding::Hex256 => fold_proof(true, leaf_node(true, leaf), proof, index),
        _ => fold_proof(false, leaf, proof, index),
    }
}

/// In hashed mode every leaf enters the tree as a digest.
pub proof fn lemma_leaf_node_is_digest(leaf: Seq<char>)
    ensures
        is_digest(leaf_node(true, leaf)),
{
    lemma_digest_hex_is_digest(leaf);
}

/// In hashed mode folding a proof from a digest arrives at a digest.
pub proof fn lemma_hashed_fold_is_digest(start: Seq<char>, proof: Seq<Seq<char>>, index: int)
    requires
        is_digest(start),
    ensures
        is_digest(fold_proof(true, start, proof, index)),
    decreases proof.len(),
{
    if proof.len() > 0 {
        let sibling = strip_marker(proof[0]);
        let parent = if index % 2 == 0 {
            combine(true, start, sibling)
        } else {
            combine(true, sibling, start)
        };
        lemma_digest_hex_is_digest(start + sibling);
        lemma_digest_hex_is_digest(sibling + start);
        lemma_hashed_fold_is_digest(parent, proof.drop_first(), index / 2);
    }
}

/// Joins or hashes two nodes into their parent.
pub fn combine_nodes(left: &String, right: &String, hashed: bool) -> (parent: String)
    ensures
        parent@ == combine(hashed, left@, right@),
{
    let joined = left.clone().concat(right.as_str());
    if hashed {
        sha256_hex(joined.as_str())
    } else {
        joined
    }
}

/// Turns a leaf value into the node it enters the tree as.
pub fn leaf_to_node(leaf: &String, hashed: bool) -> (node: String)
    ensures
        node@ == leaf_node(hashed, leaf@),
{
    if !hashed {
        return leaf.clone();
    }
    let stripped = normalize_hash(leaf.as_str());
    if is_hex_digest(stripped.as_str()) {
        stripped
    } else {
        sha256_hex(leaf.as_str())
    }
}

fn leaf_nodes(leaves: &Vec<String>, hashed: bool) -> (level: Vec<String>)
    ensures
        level@.len() == leaves@.len(),
        texts(level@) == leaf_level(hashed, texts(leaves@)),
{
    let mut level: Vec<String> = Vec::new();
    let mut i: usize = 0;
    while i < leaves.len()
        invariant
            i <= leaves@.len(),
            level@.len() == i,
            forall|k: int| 0 <= k < i ==> (#[trigger] level@[k])@ == leaf_node(hashed, leaves@[k]@),
        decreases leaves@.len() - i,
    {
        level.push(leaf_to_node(&leaves[i], hashed));
        i = i + 1;
    }
    assert(texts(level@) =~= leaf_level(hashed, texts(leaves@)));
    level
}

fn pair_up(level: &Vec<String>, hashed: bool) -> (above: Vec<String>)
    ensures
        above@.len() == (level@.len() + 1) / 2,
        texts(above@) == next_level(hashed, texts(level@)),
{
    let ghost nodes = texts(level@);
    let mut above: Vec<String> = Vec::new();
    let mut i: usize = 0;
    while level.len() - i >= 2
        invariant
            i <= level@.len(),
            i % 2 == 0,
            above@.len() == i / 2,
            nodes == texts(level@),
            forall|k: int|
                0 <= k < above@.len() ==> (#[trigger] above@[k])@ == next_level(hashed, nodes)[k],
        decreases level@.len() - i,
    {
        above.push(combine_nodes(&level[i], &level[i + 1], hashed));
        i = i + 2;
    }
    if i < level.len() {
        above.push(level[i].clone());
    }
    assert(texts(above@) =~= next_level(hashed, nodes));
    above
}

/// Computes the root of the tree over `leaves`; the empty string when there
/// are no leaves.
pub fn compute_root(leaves: &Vec<String>, hashed: bool) -> (root: String)
    ensures
        root@ == merkle_root(texts(leaves@), hashed),
{
    if leaves.len() == 0 {
        assert(leaf_level(hashed, texts(leaves@)).len() == 0);
        return String::new();
    }
    let mut level = leaf_nodes(leaves, hashed);
    while level.len() > 1
        invariant
            level@.len() >= 1,
            level_root(hashed, texts(level@)) == merkle_root(texts(leaves@), hashed),
        decreases level@.len(),
    {
        level = pair_up(&level, hashed);
    }
    level[0].clone()
}

/// Collects the siblings on the way from leaf `index` to the root. The
/// result is empty when there are no leaves or `index` is out of bounds.
pub fn generate_proof(leaves: &Vec<String>, index: u32, hashed: bool) -> (proof: Vec<String>)
    ensures
        texts(proof@) == merkle_proof(texts(leaves@), index as int, hashed),
{
    let mut proof: Vec<String> = Vec::new();
    if index as usize >= leaves.len() {
        assert(texts(proof@) =~= Seq::<Seq<char>>::empty());
        return proof;
    }
    let mut level = leaf_nodes(leaves, hashed);
    let mut position: usize = index as usize;
    assert(texts(proof@) + level_proof(hashed, texts(level@), position as int) =~= merkle_proof(
        texts(leaves@),
        index as int,
        hashed,
    ));
    while level.len() > 1
        invariant
            position < level@.len(),
            texts(proof@) + level_proof(hashed, texts(level@), position as int) == merkle_proof(
                texts(leaves@),
                index as int,
                hashed,
            ),
        decreases level@.len(),
    {
        let ghost before = texts(proof@);
        let ghost nodes = texts(level@);
        let ghost below = position as int;
        let sibling: usize = if position % 2 == 0 {
            position + 1
        } else {
            position - 1
        };
        if sibling < level.len() {
            proof.push(level[sibling].clone());
            assert(texts(proof@) =~= before + seq![nodes[sibling as int]]);
        }
        level = pair_up(&level, hashed);
        position = position / 2;
        assert(texts(proof@) + level_proof(hashed, texts(level@), position as int) =~= before
            + level_proof(hashed, nodes, below));
    }
    assert(texts(proof@) + Seq::<Seq<char>>::empty() =~= texts(proof@));
    proof
}

/// Tells which encoding a stored root has.
pub fn classify_root(root: &str) -> (encoding: RootEncoding)
    ensures
        encoding == root_encoding(root@),
{
    proof {
        reveal_strlit("simple_concat:");
    }
    let len: usize = root.unicode_len();
    if len >= 14 {
        let head = String::from_str(root.substring_char(0, 14));
        let tag = String::from_str("simple_concat:");
        if head == tag {
            return RootEncoding::LegacyConcat;
        }
    }
    if is_hex_digest(root) {
        RootEncoding::Hex256
    } else {
        RootEncoding::FallbackConcat
    }
}

fn fold(start: String, proof: &Vec<String>, index: u32, hashed: bool) -> (end: String)
    ensures
        end@ == fold_proof(hashed, start@, texts(proof@), index as int),
{
    let ghost elements = texts(proof@);
    let mut current = start;
    let mut position: u32 = index;
    let mut i: usize = 0;
    assert(elements.skip(0) =~= elements);
    while i < proof.len()
        invariant
            i <= proof@.len(),
            elements == texts(proof@),
            fold_proof(hashed, current@, elements.skip(i as int), position as int) == fold_proof(
                hashed,
                start@,
                elements,
                index as int,
            ),
        decreases proof@.len() - i,
    {
        let sibling = if hashed {
            normalize_hash(proof[i].as_str())
        } else {
            proof[i].clone()
        };
        proof {
            assert(elements.skip(i as int)[0] == proof@[i as int]@);
            assert(elements.skip(i as int).drop_first() =~= elements.skip(i as int + 1));
        }
        current = if position % 2 == 0 {
            combine_nodes(&current, &sibling, hashed)
        } else {
            combine_nodes(&sibling, &current, hashed)
        };
        position = position / 2;
        i = i + 1;
    }
    assert(elements.skip(i as int).len() == 0);
    current
}

/// Computes the node that a proof leads to from a leaf under an encoding:
/// what verification compares with the stored root.
pub fn compute_proved_node(
    leaf: &String,
    proof: &Vec<String>,
    index: u32,
    encoding: RootEncoding,
) -> (node: String)
    ensures
        node@ == proved_node(leaf@, texts(proof@), index as int, encoding),
{
    match encoding {
        RootEncoding::Hex256 => fold(leaf_to_node(leaf, true), proof, index, true),
        _ => fold(leaf.clone(), proof, index, false),
    }
}

/// Checks that `leaf` at position `index` is proved by `proof` to lie under
/// the stored `root`, under the one encoding that the root's shape selects.
pub fn verify_leaf(leaf: &String, proof: &Vec<String>, index: u32, root: &String) -> (valid: bool)
    ensures
        valid == leaf_verifies(leaf@, texts(proof@), index as int, root@),
{
    proof {
        reveal_strlit("simple_concat:");
    }
    let encoding = classify_root(root.as_str());
    let computed = compute_proved_node(leaf, proof, index, encoding);
    match encoding {
        RootEncoding::LegacyConcat => {
            let expected = String::from_str(
                root.as_str().substring_char(14, root.as_str().unicode_len()),
            );
            computed == expected
        },
        RootEncoding::Hex256 => {
            proof {
                lemma_leaf_node_is_digest(leaf@);
                lemma_hashed_fold_is_digest(leaf_node(true, leaf@), texts(proof@), index as int);
            }
            same_digest(computed.as_str(), root.as_str())
        },
        RootEncoding::FallbackConcat => computed == *root,
    }
}

} // verus!
