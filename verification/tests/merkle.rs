use etrap_nft::merkle::{
    classify_root, combine_nodes, compute_proved_node, compute_root, generate_proof,
    leaf_to_node, verify_leaf, RootEncoding,
};

const HASH_A: &str = "ca978112ca1bbdcafac231b39a23dc4da786eff8147c4e72b9807785afee48bb";
const HASH_B: &str = "3e23e8160039594a33894f6564e1b1348bbd7a0088d42c4acb73eeaed59c009d";
const HASH_C: &str = "2e7d2c03a9507ae265ecf5b5356885a53393a2029d241394997265a1a25aefc6";
const HASH_D: &str = "18ac3e7343f016890c510e93f935261169d9e3f565436429830faf0934f4f8e4";
const HASH_AB: &str = "62af5c3cb8da3e4f25061e829ebeea5c7513c54949115b1acc225930a90154da";
const HASH_CD: &str = "d3a0f1c792ccf7f1708d5422696263e35755a86917ea76ef9242bd4a8cf4891a";
const HASH_ABCD: &str = "58c89d709329eb37285837b042ab6ff72c7c8f74de0446b091b6a0131c102cfd";
const HASH_AB_C: &str = "d71dc32fa2cd95be60b32dbb3e63009fa8064407ee19f457c92a09a5ff841a8a";

fn strings(items: &[&str]) -> Vec<String> {
    items.iter().map(|s| s.to_string()).collect()
}

fn flip(text: &str, at: usize) -> String {
    let mut chars: Vec<char> = text.chars().collect();
    chars[at] = if chars[at] == '0' { '1' } else { '0' };
    chars.into_iter().collect()
}

#[test]
fn root_of_no_leaves_is_empty() {
    assert_eq!(compute_root(&vec![], true), "");
    assert_eq!(compute_root(&vec![], false), "");
}

#[test]
fn proof_of_no_leaves_is_empty() {
    assert_eq!(generate_proof(&vec![], 0, true), Vec::<String>::new());
    assert_eq!(generate_proof(&vec![], 0, false), Vec::<String>::new());
    assert_eq!(generate_proof(&vec![], 7, false), Vec::<String>::new());
}

#[test]
fn proof_for_an_index_out_of_bounds_is_empty() {
    let leaves = strings(&["a", "b", "c"]);
    assert_eq!(generate_proof(&leaves, 3, false), Vec::<String>::new());
    assert_eq!(generate_proof(&leaves, 3, true), Vec::<String>::new());
    assert_eq!(generate_proof(&leaves, u32::MAX, true), Vec::<String>::new());
}

#[test]
fn single_leaf_root_is_the_hash_of_a_raw_leaf() {
    assert_eq!(compute_root(&strings(&["a"]), true), HASH_A);
}

#[test]
fn single_leaf_root_is_a_digest_leaf_itself() {
    assert_eq!(compute_root(&strings(&[HASH_A]), true), HASH_A);
    let upper = HASH_A.to_uppercase();
    assert_eq!(compute_root(&strings(&[&upper]), true), upper);
}

#[test]
fn single_leaf_root_strips_the_marker_of_a_digest_leaf() {
    let marked = format!("0x{}", HASH_A);
    assert_eq!(compute_root(&strings(&[&marked]), true), HASH_A);
}

#[test]
fn single_leaf_root_hashes_a_marked_leaf_that_is_no_digest_whole() {
    assert_eq!(
        compute_root(&strings(&["0xabc"]), true),
        "eb4b9e8905923468a20ce3dc86bcdefef67f743a8156f44ca52e548e62e2c8f0"
    );
}

#[test]
fn single_leaf_root_in_concat_mode_is_the_leaf() {
    assert_eq!(compute_root(&strings(&["a"]), false), "a");
    assert_eq!(compute_root(&strings(&[HASH_A]), false), HASH_A);
    assert_eq!(compute_root(&strings(&["0xabc"]), false), "0xabc");
}

#[test]
fn single_leaf_has_an_empty_proof() {
    assert_eq!(generate_proof(&strings(&["a"]), 0, true), Vec::<String>::new());
    assert_eq!(generate_proof(&strings(&["a"]), 0, false), Vec::<String>::new());
}

#[test]
fn leaf_nodes_follow_the_mode() {
    assert_eq!(leaf_to_node(&"a".to_string(), false), "a");
    assert_eq!(leaf_to_node(&"a".to_string(), true), HASH_A);
    assert_eq!(leaf_to_node(&HASH_B.to_string(), true), HASH_B);
    assert_eq!(leaf_to_node(&format!("0x{}", HASH_B), true), HASH_B);
    assert_eq!(
        leaf_to_node(&"z".repeat(64), true),
        "72996563049cc84daa2c3f31fd5c3d10770e69d6ebbb8da5b6d76db303dbae43"
    );
}

#[test]
fn combine_joins_or_hashes() {
    assert_eq!(combine_nodes(&"left".to_string(), &"right".to_string(), false), "leftright");
    assert_eq!(combine_nodes(&HASH_A.to_string(), &HASH_B.to_string(), true), HASH_AB);
    assert_eq!(
        combine_nodes(&"aa".repeat(32), &"bb".repeat(32), true),
        "fa0dafbf43f1f551e536353e9d1a942a8e86e41a0b58dfeaf264ef217f6b862a"
    );
}

#[test]
fn combine_depends_on_the_side() {
    assert_ne!(
        combine_nodes(&HASH_A.to_string(), &HASH_B.to_string(), true),
        combine_nodes(&HASH_B.to_string(), &HASH_A.to_string(), true)
    );
}

#[test]
fn concat_roots() {
    assert_eq!(compute_root(&strings(&["a", "b"]), false), "ab");
    assert_eq!(compute_root(&strings(&["a", "b", "c", "d"]), false), "abcd");
    assert_eq!(compute_root(&strings(&["a", "b", "c", "d", "e"]), false), "abcde");
    assert_eq!(compute_root(&strings(&["a", "b", "c", "d", "e", "f", "g"]), false), "abcdefg");
}

#[test]
fn hashed_roots() {
    assert_eq!(compute_root(&strings(&["a", "b"]), true), HASH_AB);
    assert_eq!(compute_root(&strings(&["a", "b", "c", "d"]), true), HASH_ABCD);
    assert_eq!(compute_root(&strings(&[HASH_A, HASH_B, HASH_C, HASH_D]), true), HASH_ABCD);
    let marked = format!("0x{}", HASH_B);
    assert_eq!(compute_root(&strings(&["a", &marked, HASH_C, "d"]), true), HASH_ABCD);
}

#[test]
fn three_leaf_tree_promotes_the_third_leaf() {
    let leaves = strings(&["a", "b", "c"]);
    assert_eq!(compute_root(&leaves, false), "abc");
    assert_eq!(compute_root(&leaves, true), HASH_AB_C);
    // The third leaf has no partner on the bottom level: its proof holds
    // the one sibling of the level above.
    assert_eq!(generate_proof(&leaves, 2, false), strings(&["ab"]));
    assert_eq!(generate_proof(&leaves, 2, true), strings(&[HASH_AB]));
    assert_eq!(generate_proof(&leaves, 0, false), strings(&["b", "c"]));
    assert_eq!(generate_proof(&leaves, 1, false), strings(&["a", "c"]));
    assert_eq!(generate_proof(&leaves, 0, true), strings(&[HASH_B, HASH_C]));
    assert_eq!(generate_proof(&leaves, 1, true), strings(&[HASH_A, HASH_C]));
}

#[test]
fn five_leaf_tree_promotes_the_last_leaf_twice() {
    let leaves = strings(&["a", "b", "c", "d", "e"]);
    assert_eq!(generate_proof(&leaves, 4, false), strings(&["abcd"]));
    assert_eq!(generate_proof(&leaves, 2, false), strings(&["d", "ab", "e"]));
}

#[test]
fn four_leaf_proofs() {
    let leaves = strings(&["a", "b", "c", "d"]);
    assert_eq!(generate_proof(&leaves, 0, false), strings(&["b", "cd"]));
    assert_eq!(generate_proof(&leaves, 1, false), strings(&["a", "cd"]));
    assert_eq!(generate_proof(&leaves, 2, false), strings(&["d", "ab"]));
    assert_eq!(generate_proof(&leaves, 3, false), strings(&["c", "ab"]));
    assert_eq!(generate_proof(&leaves, 0, true), strings(&[HASH_B, HASH_CD]));
    assert_eq!(generate_proof(&leaves, 3, true), strings(&[HASH_C, HASH_AB]));
}

#[test]
fn proof_of_digest_leaves_holds_the_digests() {
    let leaves = strings(&[HASH_A, HASH_B]);
    assert_eq!(generate_proof(&leaves, 0, true), strings(&[HASH_B]));
    assert_eq!(generate_proof(&leaves, 1, true), strings(&[HASH_A]));
}

#[test]
fn round_trip_in_hashed_mode() {
    for count in [1usize, 2, 4, 8, 16] {
        let leaves: Vec<String> = (0..count).map(|i| format!("tx-{}", i)).collect();
        let root = compute_root(&leaves, true);
        for index in 0..count {
            let proof = generate_proof(&leaves, index as u32, true);
            assert!(verify_leaf(&leaves[index], &proof, index as u32, &root));
        }
    }
}

#[test]
fn round_trip_in_hashed_mode_with_digest_leaves() {
    let marked = format!("0x{}", HASH_C);
    let leaves = strings(&[HASH_A, "raw", &marked, "0xabc"]);
    let root = compute_root(&leaves, true);
    for index in 0..4 {
        let proof = generate_proof(&leaves, index as u32, true);
        assert!(verify_leaf(&leaves[index], &proof, index as u32, &root));
    }
}

#[test]
fn round_trip_in_concat_mode() {
    for count in [1usize, 2, 4, 8] {
        let leaves: Vec<String> = (0..count).map(|i| format!("leaf{};", i)).collect();
        let root = compute_root(&leaves, false);
        let tagged = format!("simple_concat:{}", root);
        for index in 0..count {
            let proof = generate_proof(&leaves, index as u32, false);
            assert!(verify_leaf(&leaves[index], &proof, index as u32, &root));
            assert!(verify_leaf(&leaves[index], &proof, index as u32, &tagged));
        }
    }
}

#[test]
fn round_trip_of_paired_leaves_in_odd_trees() {
    let leaves = strings(&["a", "b", "c", "d", "e", "f"]);
    let root = compute_root(&leaves, false);
    assert_eq!(root, "abcdef");
    // Leaves 0 to 3 have a partner on every level.
    for index in 0..4 {
        let proof = generate_proof(&leaves, index as u32, false);
        assert!(verify_leaf(&leaves[index], &proof, index as u32, &root));
    }
}

#[test]
fn promoted_leaf_is_verified_with_the_sides_of_its_index() {
    // The proof of a promoted leaf is shorter than the tree is high, and
    // verification reads the sides from the low bits of the index.
    let leaves = strings(&["a", "b", "c"]);
    let proof = generate_proof(&leaves, 2, false);
    assert!(!verify_leaf(&"c".to_string(), &proof, 2, &"abc".to_string()));
    assert!(verify_leaf(&"c".to_string(), &proof, 2, &"cab".to_string()));
    assert!(verify_leaf(&"c".to_string(), &proof, 1, &"abc".to_string()));
}

#[test]
fn root_encodings() {
    assert_eq!(classify_root("simple_concat:abc"), RootEncoding::LegacyConcat);
    assert_eq!(classify_root("simple_concat:"), RootEncoding::LegacyConcat);
    assert_eq!(classify_root(HASH_A), RootEncoding::Hex256);
    assert_eq!(classify_root(&HASH_A.to_uppercase()), RootEncoding::Hex256);
    assert_eq!(classify_root("abc"), RootEncoding::FallbackConcat);
    assert_eq!(classify_root(""), RootEncoding::FallbackConcat);
    assert_eq!(classify_root("simple_concat"), RootEncoding::FallbackConcat);
    assert_eq!(classify_root("Simple_concat:abc"), RootEncoding::FallbackConcat);
    assert_eq!(classify_root(&format!("0x{}", HASH_A)), RootEncoding::FallbackConcat);
    assert_eq!(classify_root(&HASH_A[..63]), RootEncoding::FallbackConcat);
}

#[test]
fn tagged_root_of_digest_shape_after_the_tag_is_still_tagged() {
    let root = format!("simple_concat:{}", HASH_A);
    assert_eq!(classify_root(&root), RootEncoding::LegacyConcat);
    assert!(verify_leaf(&HASH_A.to_string(), &vec![], 0, &root));
}

#[test]
fn proved_node_under_each_encoding() {
    let leaf = "a".to_string();
    let joined = strings(&["b", "cd"]);
    assert_eq!(compute_proved_node(&leaf, &joined, 0, RootEncoding::FallbackConcat), "abcd");
    assert_eq!(compute_proved_node(&leaf, &joined, 1, RootEncoding::LegacyConcat), "bacd");
    assert_eq!(compute_proved_node(&leaf, &joined, 3, RootEncoding::FallbackConcat), "cdba");
    let hashed = strings(&[HASH_B, HASH_CD]);
    assert_eq!(compute_proved_node(&leaf, &hashed, 0, RootEncoding::Hex256), HASH_ABCD);
    assert_eq!(compute_proved_node(&leaf, &vec![], 0, RootEncoding::Hex256), HASH_A);
    assert_eq!(compute_proved_node(&leaf, &vec![], 0, RootEncoding::LegacyConcat), "a");
}

#[test]
fn verify_under_the_tagged_encoding() {
    let proof = strings(&["b", "cd"]);
    assert!(verify_leaf(&"a".to_string(), &proof, 0, &"simple_concat:abcd".to_string()));
    assert!(!verify_leaf(&"a".to_string(), &proof, 0, &"simple_concat:abdc".to_string()));
    assert!(!verify_leaf(&"a".to_string(), &proof, 1, &"simple_concat:abcd".to_string()));
    assert!(verify_leaf(&"a".to_string(), &proof, 1, &"simple_concat:bacd".to_string()));
    assert!(verify_leaf(&"a".to_string(), &proof, 3, &"simple_concat:cdba".to_string()));
}

#[test]
fn verify_under_the_fallback_encoding() {
    let proof = strings(&["b", "cd"]);
    assert!(verify_leaf(&"a".to_string(), &proof, 0, &"abcd".to_string()));
    assert!(verify_leaf(&"a".to_string(), &proof, 2, &"cdab".to_string()));
    assert!(!verify_leaf(&"a".to_string(), &proof, 0, &"abcdx".to_string()));
    assert!(verify_leaf(&"".to_string(), &vec![], 0, &"".to_string()));
}

#[test]
fn verify_under_the_hex_encoding() {
    let proof = strings(&[HASH_B, HASH_CD]);
    assert!(verify_leaf(&"a".to_string(), &proof, 0, &HASH_ABCD.to_string()));
    assert!(verify_leaf(&HASH_A.to_string(), &proof, 0, &HASH_ABCD.to_string()));
    assert!(!verify_leaf(&"a".to_string(), &proof, 1, &HASH_ABCD.to_string()));
    assert!(!verify_leaf(&"b".to_string(), &proof, 0, &HASH_ABCD.to_string()));
    let right = strings(&[HASH_C, HASH_AB]);
    assert!(verify_leaf(&"d".to_string(), &right, 3, &HASH_ABCD.to_string()));
}

#[test]
fn verify_strips_markers_under_the_hex_encoding() {
    let proof = vec![format!("0x{}", HASH_B), format!("0x{}", HASH_CD)];
    assert!(verify_leaf(&format!("0x{}", HASH_A), &proof, 0, &HASH_ABCD.to_string()));
}

#[test]
fn verify_ignores_the_case_of_a_digest_root() {
    let proof = strings(&[HASH_B, HASH_CD]);
    assert!(verify_leaf(&"a".to_string(), &proof, 0, &HASH_ABCD.to_uppercase()));
    assert!(!verify_leaf(&"b".to_string(), &proof, 0, &HASH_ABCD.to_uppercase()));
    let mixed: String = HASH_ABCD
        .chars()
        .enumerate()
        .map(|(i, c)| if i % 2 == 0 { c.to_ascii_uppercase() } else { c })
        .collect();
    assert!(verify_leaf(&"a".to_string(), &proof, 0, &mixed));
}

#[test]
fn verify_against_the_upper_case_digest_of_a_leaf() {
    let root = "BA7816BF8F01CFEA414140DE5DAE2223B00361A396177A9CB410FF61F20015AD".to_string();
    assert!(verify_leaf(&"abc".to_string(), &vec![], 0, &root));
    assert!(!verify_leaf(&"abd".to_string(), &vec![], 0, &root));
}

#[test]
fn verify_ignores_the_case_of_a_digest_leaf() {
    assert!(verify_leaf(&HASH_A.to_uppercase(), &vec![], 0, &HASH_A.to_string()));
    assert!(verify_leaf(&HASH_A.to_string(), &vec![], 0, &HASH_A.to_uppercase()));
    // With a proof the leaf is hashed in the case it has.
    let proof = strings(&[HASH_B, HASH_CD]);
    assert!(!verify_leaf(&HASH_A.to_uppercase(), &proof, 0, &HASH_ABCD.to_string()));
}

#[test]
fn a_digit_changed_in_a_digest_root_is_detected_in_either_case() {
    let proof = strings(&[HASH_B, HASH_CD]);
    let upper = HASH_ABCD.to_uppercase();
    for at in [0usize, 31, 63] {
        assert!(!verify_leaf(&"a".to_string(), &proof, 0, &flip(&upper, at)));
    }
}

#[test]
fn verify_never_mixes_encodings() {
    // A concatenation that happens to have the shape of a digest is read
    // as a digest.
    let left = "a".repeat(32);
    let right = "b".repeat(32);
    let root = compute_root(&vec![left.clone(), right.clone()], false);
    assert_eq!(classify_root(&root), RootEncoding::Hex256);
    assert!(!verify_leaf(&left, &vec![right], 0, &root));
}

#[test]
fn verify_with_an_empty_proof() {
    assert!(verify_leaf(&"a".to_string(), &vec![], 0, &HASH_A.to_string()));
    assert!(verify_leaf(&"a".to_string(), &vec![], 5, &HASH_A.to_string()));
    assert!(verify_leaf(&"a".to_string(), &vec![], 0, &"a".to_string()));
    assert!(verify_leaf(&"a".to_string(), &vec![], 0, &"simple_concat:a".to_string()));
    assert!(!verify_leaf(&"a".to_string(), &vec![], 0, &"b".to_string()));
}

#[test]
fn tampering_is_detected_under_the_hex_encoding() {
    let leaves = strings(&[HASH_A, HASH_B, HASH_C, HASH_D]);
    let root = compute_root(&leaves, true);
    let proof = generate_proof(&leaves, 2, true);
    assert!(verify_leaf(&leaves[2], &proof, 2, &root));
    for at in [0usize, 31, 63] {
        assert!(!verify_leaf(&flip(&leaves[2], at), &proof, 2, &root));
        assert!(!verify_leaf(&leaves[2], &proof, 2, &flip(&root, at)));
        for element in 0..proof.len() {
            let mut altered = proof.clone();
            altered[element] = flip(&proof[element], at);
            assert!(!verify_leaf(&leaves[2], &altered, 2, &root));
        }
    }
}

#[test]
fn tampering_is_detected_under_the_tagged_encoding() {
    let leaves = strings(&["alpha", "beta", "gamma", "delta"]);
    let root = format!("simple_concat:{}", compute_root(&leaves, false));
    let proof = generate_proof(&leaves, 1, false);
    assert!(verify_leaf(&leaves[1], &proof, 1, &root));
    for at in 0..leaves[1].len() {
        assert!(!verify_leaf(&flip(&leaves[1], at), &proof, 1, &root));
    }
    for at in 0..root.len() {
        assert!(!verify_leaf(&leaves[1], &proof, 1, &flip(&root, at)));
    }
    for element in 0..proof.len() {
        for at in 0..proof[element].len() {
            let mut altered = proof.clone();
            altered[element] = flip(&proof[element], at);
            assert!(!verify_leaf(&leaves[1], &altered, 1, &root));
        }
    }
}

#[test]
fn tampering_is_detected_under_the_fallback_encoding() {
    let leaves = strings(&["alpha", "beta", "gamma", "delta"]);
    let root = compute_root(&leaves, false);
    let proof = generate_proof(&leaves, 3, false);
    assert!(verify_leaf(&leaves[3], &proof, 3, &root));
    for at in 0..leaves[3].len() {
        assert!(!verify_leaf(&flip(&leaves[3], at), &proof, 3, &root));
    }
    for at in 0..root.len() {
        assert!(!verify_leaf(&leaves[3], &proof, 3, &flip(&root, at)));
    }
    for element in 0..proof.len() {
        for at in 0..proof[element].len() {
            let mut altered = proof.clone();
            altered[element] = flip(&proof[element], at);
            assert!(!verify_leaf(&leaves[3], &altered, 3, &root));
        }
    }
}
