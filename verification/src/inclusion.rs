//! What holds of roots and inclusion proofs: when a generated proof
//! verifies against the computed root, and when an altered input cannot.

use vstd::prelude::*;
use crate::hashing::{
    digest_bytes, digest_hex, is_digest, is_hex_char, lemma_digest_has_no_marker,
    lemma_digest_hex_is_digest, lemma_hex_of_is_lower, lower_hex, strip_marker,
};
use crate::merkle::{
    combine, concat_tag, fold_proof, is_tagged, leaf_level, leaf_node, leaf_verifies,
    level_proof, level_root, merkle_proof, merkle_root, next_level, root_encoding,
    sibling_index, RootEncoding,
};

verus! {

/// True when the node at `index` has a partner on every level of a tree
/// whose bottom level has `width` nodes.
pub open spec fn fully_paired(width: nat, index: int) -> bool
    decreases width,
{
    if width <= 1 {
        true
    } else {
        sibling_index(index) < width && fully_paired((width + 1) / 2, index / 2)
    }
}

/// True when every node of the level has the shape of a digest.
pub open spec fn all_digests(level: Seq<Seq<char>>) -> bool {
    forall|i: int| 0 <= i < level.len() ==> is_digest(#[trigger] level[i])
}

/// Two texts of one length that are not the same text. A text with one
/// character flipped is altered in this sense.
pub open spec fn altered(text: Seq<char>, other: Seq<char>) -> bool {
    text.len() == other.len() && text != other
}

/// No leaves give the empty root, and no proof for any index.
pub proof fn empty_tree(index: int, hashed: bool)
    ensures
        merkle_root(Seq::empty(), hashed) == Seq::<char>::empty(),
        merkle_proof(Seq::empty(), index, hashed) == Seq::<Seq<char>>::empty(),
{
    assert(leaf_level(hashed, Seq::empty()).len() == 0);
}

/// The root over a single leaf is the node of that leaf: in hashed mode the
/// leaf's hash, unless the leaf is a digest already; otherwise the leaf.
pub proof fn single_leaf_root(leaf: Seq<char>, hashed: bool)
    ensures
        merkle_root(seq![leaf], hashed) == leaf_node(hashed, leaf),
        !hashed ==> merkle_root(seq![leaf], hashed) == leaf,
        hashed && is_digest(leaf) ==> merkle_root(seq![leaf], hashed) == leaf,
        hashed && !is_digest(strip_marker(leaf)) ==> merkle_root(seq![leaf], hashed)
            == digest_hex(leaf),
{
    let level = leaf_level(hashed, seq![leaf]);
    assert(level.len() == 1);
    assert(level[0] == leaf_node(hashed, leaf));
    if is_digest(leaf) {
        lemma_digest_has_no_marker(leaf);
    }
}

/// The last node of a level of odd length has no partner: it is the last
/// node of the level above as well, and its proof gains nothing there.
pub proof fn unpaired_last_node_moves_up(hashed: bool, level: Seq<Seq<char>>)
    requires
        level.len() > 1,
        level.len() % 2 == 1,
    ensures
        next_level(hashed, level).last() == level.last(),
        level_proof(hashed, level, level.len() - 1) == level_proof(
            hashed,
            next_level(hashed, level),
            (level.len() - 1) / 2,
        ),
{
}

/// In hashed mode every leaf enters the tree as a digest.
pub proof fn lemma_leaf_level_digests(leaves: Seq<Seq<char>>)
    ensures
        all_digests(leaf_level(true, leaves)),
{
    assert forall|i: int| 0 <= i < leaf_level(true, leaves).len() implies is_digest(
        #[trigger] leaf_level(true, leaves)[i],
    ) by {
        lemma_digest_hex_is_digest(leaves[i]);
    }
}

/// In hashed mode a level of digests has a level of digests above it.
pub proof fn lemma_next_level_digests(level: Seq<Seq<char>>)
    requires
        all_digests(level),
    ensures
        all_digests(next_level(true, level)),
{
    assert forall|i: int| 0 <= i < next_level(true, level).len() implies is_digest(
        #[trigger] next_level(true, level)[i],
    ) by {
        if 2 * i + 1 < level.len() {
            lemma_digest_hex_is_digest(level[2 * i] + level[2 * i + 1]);
        } else {
            assert(is_digest(level[2 * i]));
        }
    }
}

/// In hashed mode the root over a level of digests is a digest.
pub proof fn lemma_level_root_digest(level: Seq<Seq<char>>)
    requires
        level.len() > 0,
        all_digests(level),
    ensures
        is_digest(level_root(true, level)),
    decreases level.len(),
{
    if level.len() > 1 {
        lemma_next_level_digests(level);
        lemma_level_root_digest(next_level(true, level));
    }
}

/// Folding the proof of a node that has a partner on every level, from
/// that node, arrives at the root of the level.
pub proof fn lemma_fold_reaches_root(hashed: bool, level: Seq<Seq<char>>, index: int)
    requires
        0 <= index < level.len(),
        fully_paired(level.len(), index),
        hashed ==> all_digests(level),
    ensures
        fold_proof(hashed, level[index], level_proof(hashed, level, index), index) == level_root(
            hashed,
            level,
        ),
    decreases level.len(),
{
    if level.len() > 1 {
        let above = next_level(hashed, level);
        let sibling = level[sibling_index(index)];
        let proof = level_proof(hashed, level, index);
        let rest = level_proof(hashed, above, index / 2);
        assert(proof =~= seq![sibling] + rest);
        assert(proof[0] == sibling);
        assert(proof.drop_first() =~= rest);
        if hashed {
            assert(is_digest(sibling));
            lemma_digest_has_no_marker(sibling);
            lemma_next_level_digests(level);
        }
        assert(above[index / 2] == combine(hashed, level[2 * (index / 2)], level[2 * (index / 2) + 1]));
        lemma_fold_reaches_root(hashed, above, index / 2);
    }
}

/// A digest does not start with the concatenation tag.
pub proof fn lemma_digest_is_not_tagged(root: Seq<char>)
    requires
        is_digest(root),
    ensures
        !is_tagged(root),
        root_encoding(root) == RootEncoding::Hex256,
{
    reveal_strlit("simple_concat:");
    if is_tagged(root) {
        assert(root.subrange(0, 14)[0] == 's');
        assert(is_hex_char(root[0]));
    }
}

/// A proof generated in hashed mode verifies against the root computed in
/// hashed mode, for every leaf that has a partner on every level.
pub proof fn hashed_proof_verifies(leaves: Seq<Seq<char>>, index: int)
    requires
        0 <= index < leaves.len(),
        fully_paired(leaves.len(), index),
    ensures
        leaf_verifies(
            leaves[index],
            merkle_proof(leaves, index, true),
            index,
            merkle_root(leaves, true),
        ),
{
    let level = leaf_level(true, leaves);
    let root = merkle_root(leaves, true);
    lemma_leaf_level_digests(leaves);
    lemma_level_root_digest(level);
    lemma_digest_is_not_tagged(root);
    lemma_digest_has_no_marker(root);
    lemma_fold_reaches_root(true, level, index);
}

/// A proof generated in concatenation mode verifies against the root
/// computed in concatenation mode, for every leaf that has a partner on
/// every level, when that root reads as a bare concatenation.
pub proof fn concat_proof_verifies(leaves: Seq<Seq<char>>, index: int)
    requires
        0 <= index < leaves.len(),
        fully_paired(leaves.len(), index),
        root_encoding(merkle_root(leaves, false)) == RootEncoding::FallbackConcat,
    ensures
        leaf_verifies(
            leaves[index],
            merkle_proof(leaves, index, false),
            index,
            merkle_root(leaves, false),
        ),
{
    lemma_fold_reaches_root(false, leaf_level(false, leaves), index);
}

/// A proof generated in concatenation mode verifies against the root
/// computed in concatenation mode and stored behind the concatenation tag,
/// for every leaf that has a partner on every level.
pub proof fn tagged_proof_verifies(leaves: Seq<Seq<char>>, index: int)
    requires
        0 <= index < leaves.len(),
        fully_paired(leaves.len(), index),
    ensures
        leaf_verifies(
            leaves[index],
            merkle_proof(leaves, index, false),
            index,
            concat_tag() + merkle_root(leaves, false),
        ),
{
    let root = merkle_root(leaves, false);
    let stored = concat_tag() + root;
    assert(stored.subrange(0, concat_tag().len() as int) =~= concat_tag());
    assert(stored.subrange(concat_tag().len() as int, stored.len() as int) =~= root);
    lemma_fold_reaches_root(false, leaf_level(false, leaves), index);
}

/// Joining with a fixed text on either side keeps altered texts altered.
proof fn lemma_join_keeps_altered(a: Seq<char>, b: Seq<char>, other: Seq<char>)
    requires
        altered(a, b),
    ensures
        altered(a + other, b + other),
        altered(other + a, other + b),
{
    if a + other == b + other {
        assert((a + other).subrange(0, a.len() as int) =~= a);
        assert((b + other).subrange(0, b.len() as int) =~= b);
    }
    if other + a == other + b {
        assert((other + a).subrange(other.len() as int, (other + a).len() as int) =~= a);
        assert((other + b).subrange(other.len() as int, (other + b).len() as int) =~= b);
    }
}

/// Under concatenation, folding one proof from altered starting texts gives
/// altered results.
pub proof fn lemma_concat_fold_from_altered(
    a: Seq<char>,
    b: Seq<char>,
    proof: Seq<Seq<char>>,
    index: int,
)
    requires
        altered(a, b),
    ensures
        altered(fold_proof(false, a, proof, index), fold_proof(false, b, proof, index)),
    decreases proof.len(),
{
    if proof.len() > 0 {
        lemma_join_keeps_altered(a, b, proof[0]);
        if index % 2 == 0 {
            lemma_concat_fold_from_altered(a + proof[0], b + proof[0], proof.drop_first(), index / 2);
        } else {
            lemma_concat_fold_from_altered(proof[0] + a, proof[0] + b, proof.drop_first(), index / 2);
        }
    }
}

/// Under concatenation, folding a proof with one element altered gives an
/// altered result.
pub proof fn lemma_concat_fold_with_altered_element(
    start: Seq<char>,
    proof: Seq<Seq<char>>,
    at: int,
    element: Seq<char>,
    index: int,
)
    requires
        0 <= at < proof.len(),
        altered(proof[at], element),
    ensures
        altered(
            fold_proof(false, start, proof, index),
            fold_proof(false, start, proof.update(at, element), index),
        ),
    decreases proof.len(),
{
    let changed = proof.update(at, element);
    if at == 0 {
        assert(changed.drop_first() =~= proof.drop_first());
        lemma_join_keeps_altered(proof[0], element, start);
        if index % 2 == 0 {
            lemma_concat_fold_from_altered(
                start + proof[0],
                start + element,
                proof.drop_first(),
                index / 2,
            );
        } else {
            lemma_concat_fold_from_altered(
                proof[0] + start,
                element + start,
                proof.drop_first(),
                index / 2,
            );
        }
    } else {
        assert(changed.drop_first() =~= proof.drop_first().update(at - 1, element));
        let parent = if index % 2 == 0 {
            start + proof[0]
        } else {
            proof[0] + start
        };
        lemma_concat_fold_with_altered_element(parent, proof.drop_first(), at - 1, element, index / 2);
    }
}

/// Against a root in either concatenation encoding, a leaf that verifies
/// no longer does once it is altered.
pub proof fn altered_leaf_is_rejected(
    leaf: Seq<char>,
    other: Seq<char>,
    proof: Seq<Seq<char>>,
    index: int,
    root: Seq<char>,
)
    requires
        root_encoding(root) != RootEncoding::Hex256,
        leaf_verifies(leaf, proof, index, root),
        altered(leaf, other),
    ensures
        !leaf_verifies(other, proof, index, root),
{
    lemma_concat_fold_from_altered(leaf, other, proof, index);
}

/// Against a root in either concatenation encoding, a proof that verifies
/// no longer does once one of its elements is altered.
pub proof fn altered_proof_is_rejected(
    leaf: Seq<char>,
    proof: Seq<Seq<char>>,
    at: int,
    element: Seq<char>,
    index: int,
    root: Seq<char>,
)
    requires
        root_encoding(root) != RootEncoding::Hex256,
        leaf_verifies(leaf, proof, index, root),
        0 <= at < proof.len(),
        altered(proof[at], element),
    ensures
        !leaf_verifies(leaf, proof.update(at, element), index, root),
{
    lemma_concat_fold_with_altered_element(leaf, proof, at, element, index);
}

/// A leaf and proof that verify against a root do not verify against an
/// altered root, when the altered root is a digest exactly if the root is
/// and, where both are digests, differs from it in more than the case of
/// its letters.
pub proof fn altered_root_is_rejected(
    leaf: Seq<char>,
    proof: Seq<Seq<char>>,
    index: int,
    root: Seq<char>,
    other: Seq<char>,
)
    requires
        leaf_verifies(leaf, proof, index, root),
        altered(root, other),
        root_encoding(root) == RootEncoding::Hex256 <==> root_encoding(other)
            == RootEncoding::Hex256,
        root_encoding(root) == RootEncoding::Hex256 ==> lower_hex(root) != lower_hex(other),
    ensures
        !leaf_verifies(leaf, proof, index, other),
{
    let tag = concat_tag().len() as int;
    if root_encoding(root) == RootEncoding::Hex256 {
    } else if is_tagged(root) && is_tagged(other) {
        let tail = root.subrange(tag, root.len() as int);
        let other_tail = other.subrange(tag, other.len() as int);
        if tail == other_tail {
            assert(root =~= root.subrange(0, tag) + tail);
            assert(other =~= other.subrange(0, tag) + other_tail);
        }
    } else if is_tagged(root) || is_tagged(other) {
        reveal_strlit("simple_concat:");
    }
}

/// Two to the power `e`.
pub open spec fn power_of_two(e: nat) -> nat
    decreases e,
{
    if e == 0 {
        1
    } else {
        2 * power_of_two((e - 1) as nat)
    }
}

/// In a tree whose number of leaves is a power of two, every node has a
/// partner on every level.
pub proof fn power_of_two_is_fully_paired(e: nat, index: int)
    requires
        0 <= index < power_of_two(e),
    ensures
        fully_paired(power_of_two(e), index),
    decreases e,
{
    if e > 0 {
        power_of_two_is_fully_paired((e - 1) as nat, index / 2);
    }
}

/// Two different texts with one digest.
pub open spec fn collision(a: Seq<char>, b: Seq<char>) -> bool {
    a != b && digest_hex(a) == digest_hex(b)
}

/// Some two different texts have one digest.
pub open spec fn collision_exists() -> bool {
    exists|a: Seq<char>, b: Seq<char>| collision(a, b)
}

/// Joining with a fixed text on either side keeps different texts
/// different.
proof fn lemma_join_keeps_different(a: Seq<char>, b: Seq<char>, other: Seq<char>)
    requires
        a != b,
    ensures
        a + other != b + other,
        other + a != other + b,
{
    if a + other == b + other {
        assert((a + other).len() == (b + other).len());
        assert((a + other).subrange(0, a.len() as int) =~= a);
        assert((b + other).subrange(0, b.len() as int) =~= b);
    }
    if other + a == other + b {
        assert((other + a).len() == (other + b).len());
        assert((other + a).subrange(other.len() as int, (other + a).len() as int) =~= a);
        assert((other + b).subrange(other.len() as int, (other + b).len() as int) =~= b);
    }
}

/// Altered texts stay different when their markers are stripped.
pub proof fn lemma_strip_keeps_altered(a: Seq<char>, b: Seq<char>)
    requires
        altered(a, b),
    ensures
        strip_marker(a) != strip_marker(b),
{
    if strip_marker(a) == strip_marker(b) {
        assert(a =~= a.subrange(0, 2) + strip_marker(a));
        assert(b =~= b.subrange(0, 2) + strip_marker(b));
        assert(a.subrange(0, 2) =~= b.subrange(0, 2));
    }
}

/// In hashed mode, when one proof folds two different nodes into one,
/// two different texts have one digest.
pub proof fn lemma_hashed_fold_from_different(
    a: Seq<char>,
    b: Seq<char>,
    proof: Seq<Seq<char>>,
    index: int,
)
    requires
        a != b,
        fold_proof(true, a, proof, index) == fold_proof(true, b, proof, index),
    ensures
        collision_exists(),
    decreases proof.len(),
{
    if proof.len() > 0 {
        let sibling = strip_marker(proof[0]);
        lemma_join_keeps_different(a, b, sibling);
        let (x, y) = if index % 2 == 0 {
            (a + sibling, b + sibling)
        } else {
            (sibling + a, sibling + b)
        };
        if digest_hex(x) == digest_hex(y) {
            assert(collision(x, y));
        } else {
            lemma_hashed_fold_from_different(
                digest_hex(x),
                digest_hex(y),
                proof.drop_first(),
                index / 2,
            );
        }
    }
}

/// In hashed mode, when a proof and the same proof with one element
/// altered fold one node into one node, two different texts have one
/// digest.
pub proof fn lemma_hashed_fold_with_altered_element(
    start: Seq<char>,
    proof: Seq<Seq<char>>,
    at: int,
    element: Seq<char>,
    index: int,
)
    requires
        0 <= at < proof.len(),
        altered(proof[at], element),
        fold_proof(true, start, proof, index) == fold_proof(
            true,
            start,
            proof.update(at, element),
            index,
        ),
    ensures
        collision_exists(),
    decreases proof.len(),
{
    let changed = proof.update(at, element);
    if at == 0 {
        assert(changed.drop_first() =~= proof.drop_first());
        lemma_strip_keeps_altered(proof[0], element);
        let sibling = strip_marker(proof[0]);
        let other = strip_marker(element);
        lemma_join_keeps_different(sibling, other, start);
        let (x, y) = if index % 2 == 0 {
            (start + sibling, start + other)
        } else {
            (sibling + start, other + start)
        };
        if digest_hex(x) == digest_hex(y) {
            assert(collision(x, y));
        } else {
            lemma_hashed_fold_from_different(
                digest_hex(x),
                digest_hex(y),
                proof.drop_first(),
                index / 2,
            );
        }
    } else {
        assert(changed.drop_first() =~= proof.drop_first().update(at - 1, element));
        let sibling = strip_marker(proof[0]);
        let parent = if index % 2 == 0 {
            digest_hex(start + sibling)
        } else {
            digest_hex(sibling + start)
        };
        lemma_hashed_fold_with_altered_element(
            parent,
            proof.drop_first(),
            at - 1,
            element,
            index / 2,
        );
    }
}

/// A digest root in upper case verifies what the same root in lower case
/// verifies.
pub proof fn root_case_is_ignored(
    leaf: Seq<char>,
    proof: Seq<Seq<char>>,
    index: int,
    root: Seq<char>,
    other: Seq<char>,
)
    requires
        is_digest(root),
        is_digest(other),
        lower_hex(root) == lower_hex(other),
    ensures
        leaf_verifies(leaf, proof, index, root) == leaf_verifies(leaf, proof, index, other),
{
    lemma_digest_is_not_tagged(root);
    lemma_digest_is_not_tagged(other);
}

/// In hashed mode, folding a proof that is not empty arrives at a digest
/// in lower case.
pub proof fn lemma_hashed_fold_is_lower(start: Seq<char>, proof: Seq<Seq<char>>, index: int)
    requires
        proof.len() > 0,
    ensures
        lower_hex(fold_proof(true, start, proof, index)) == fold_proof(true, start, proof, index),
    decreases proof.len(),
{
    let sibling = strip_marker(proof[0]);
    let joined = if index % 2 == 0 {
        start + sibling
    } else {
        sibling + start
    };
    let rest = proof.drop_first();
    assert(fold_proof(true, start, proof, index) == fold_proof(
        true,
        digest_hex(joined),
        rest,
        index / 2,
    ));
    if rest.len() == 0 {
        lemma_hex_of_is_lower(digest_bytes(vstd::utf8::encode_utf8(joined)));
    } else {
        lemma_hashed_fold_is_lower(digest_hex(joined), rest, index / 2);
    }
}

/// Against a digest root, a proof that verifies still verifies with one
/// of its elements altered only if two different texts have one digest.
pub proof fn altered_proof_verifies_only_by_collision(
    leaf: Seq<char>,
    proof: Seq<Seq<char>>,
    at: int,
    element: Seq<char>,
    index: int,
    root: Seq<char>,
)
    requires
        root_encoding(root) == RootEncoding::Hex256,
        0 <= at < proof.len(),
        altered(proof[at], element),
        leaf_verifies(leaf, proof, index, root),
        leaf_verifies(leaf, proof.update(at, element), index, root),
    ensures
        collision_exists(),
{
    lemma_hashed_fold_is_lower(leaf_node(true, leaf), proof, index);
    lemma_hashed_fold_is_lower(leaf_node(true, leaf), proof.update(at, element), index);
    lemma_hashed_fold_with_altered_element(leaf_node(true, leaf), proof, at, element, index);
}

/// Against a digest root, a leaf that verifies still verifies when
/// altered only if two different texts have one digest; or if one of the
/// two leaves is a digest and the other is hashed to that digest; or if
/// the proof is empty and the two leaves are one digest in different case.
pub proof fn altered_leaf_verifies_only_by_collision(
    leaf: Seq<char>,
    other: Seq<char>,
    proof: Seq<Seq<char>>,
    index: int,
    root: Seq<char>,
)
    requires
        root_encoding(root) == RootEncoding::Hex256,
        altered(leaf, other),
        leaf_verifies(leaf, proof, index, root),
        leaf_verifies(other, proof, index, root),
    ensures
        collision_exists() || (is_digest(strip_marker(leaf)) != is_digest(strip_marker(other))
            && lower_hex(leaf_node(true, leaf)) == lower_hex(leaf_node(true, other))) || (
        proof.len() == 0 && is_digest(strip_marker(leaf)) && is_digest(strip_marker(other))
            && lower_hex(strip_marker(leaf)) == lower_hex(strip_marker(other))),
{
    let node = leaf_node(true, leaf);
    let other_node = leaf_node(true, other);
    let both = is_digest(strip_marker(leaf)) && is_digest(strip_marker(other));
    let neither = !is_digest(strip_marker(leaf)) && !is_digest(strip_marker(other));
    if proof.len() > 0 {
        lemma_hashed_fold_is_lower(node, proof, index);
        lemma_hashed_fold_is_lower(other_node, proof, index);
        if node != other_node {
            lemma_hashed_fold_from_different(node, other_node, proof, index);
        } else if both {
            lemma_strip_keeps_altered(leaf, other);
        } else if neither {
            assert(collision(leaf, other));
        }
    } else if neither {
        lemma_hex_of_is_lower(digest_bytes(vstd::utf8::encode_utf8(leaf)));
        lemma_hex_of_is_lower(digest_bytes(vstd::utf8::encode_utf8(other)));
        assert(collision(leaf, other));
    }
}

} // verus!
