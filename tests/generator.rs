use pso2_rainbow::build_graphemes;
use pso2_rainbow::grapheme::is_valid_grapheme;
use pso2_rainbow::rainbow_table::{
    take_str_slice, validate_permutation_bounds, GeneratorError, PlaintextGenerator,
};

fn always(_s: &str) -> bool {
    true
}

#[test]
fn graphemes_of_single_characters() {
    let g = build_graphemes(&['a', 'b', '0', '1'], 1, always);
    assert_eq!(g, vec!["", "a", "b", "0", "1"]);
}

#[test]
fn graphemes_hold_empty_string_once_and_no_duplicates() {
    let g = build_graphemes(&['a', 'b'], 2, always);
    assert_eq!(g.iter().filter(|s| s.is_empty()).count(), 1);
    assert_eq!(g[0], "");
    let mut sorted = g.clone();
    sorted.sort();
    sorted.dedup();
    assert_eq!(sorted.len(), g.len());
    assert_eq!(g.len(), 1 + 2 + 4);
    for w in ["a", "b", "aa", "ab", "ba", "bb"] {
        assert!(g.iter().any(|s| s == w), "missing {}", w);
    }
}

#[test]
fn graphemes_of_length_three_are_all_arrangements() {
    let g = build_graphemes(&['x', 'y'], 3, always);
    assert_eq!(g.len(), 1 + 2 + 4 + 8);
    assert!(g.iter().any(|s| s == "xyx"));
    assert!(g.iter().any(|s| s == "yyy"));
}

#[test]
fn graphemes_filtered_but_empty_kept() {
    let g = build_graphemes(&['a', '_'], 2, |s: &str| !s.contains('_'));
    assert_eq!(g, vec!["", "a", "aa"]);
    let none = build_graphemes(&['a'], 2, |_s: &str| false);
    assert_eq!(none, vec![""]);
}

#[test]
fn graphemes_with_repeated_alphabet_character() {
    let g = build_graphemes(&['a', 'a'], 2, always);
    assert_eq!(g, vec!["", "a", "aa"]);
}

#[test]
fn grapheme_filter_of_the_grammar() {
    assert!(is_valid_grapheme(""));
    assert!(is_valid_grapheme("a_b"));
    assert!(is_valid_grapheme("1a"));
    assert!(is_valid_grapheme("a1b"));
    assert!(!is_valid_grapheme("__"));
    assert!(!is_valid_grapheme("x__"));
    assert!(!is_valid_grapheme("1a2"));
    assert!(!is_valid_grapheme("b9z0"));
    let g = build_graphemes(&['1', 'a', '_'], 3, is_valid_grapheme);
    assert!(!g.iter().any(|s| s == "1a1"));
    assert!(!g.iter().any(|s| s == "__a"));
    assert!(g.iter().any(|s| s == "a1a"));
    assert!(g.iter().any(|s| s == "_1_"));
}

#[test]
fn permutation_bounds_divide_by_grapheme_length() {
    assert_eq!(validate_permutation_bounds(0, 6, 3), (0, 2));
    assert_eq!(validate_permutation_bounds(3, 9, 3), (1, 3));
    assert_eq!(validate_permutation_bounds(4, 4, 2), (2, 2));
}

#[test]
fn str_slices_are_copied() {
    assert_eq!(take_str_slice(&["", "sy_", "ab"]), vec!["", "sy_", "ab"]);
    assert!(take_str_slice(&[]).is_empty());
}

#[test]
fn single_character_scenario() {
    let gen = PlaintextGenerator::new(&[""], &[".x"], "ab01", 1, always, 1).unwrap();
    assert_eq!(gen.len(), 5);
    assert_eq!(gen.range(0), 0..5);
    let got: Vec<String> = gen.range(0).map(|i| gen.get(i)).collect();
    assert_eq!(got, vec![".x", "a.x", "b.x", "0.x", "1.x"]);
}

#[test]
fn mixed_radix_addressing() {
    // 2 prefixes, 3 suffixes, graphemes ["", "a", "b"], 2 graphemes each.
    let gen = PlaintextGenerator::new(&["p", "q"], &["1", "2", "3"], "ab", 1, always, 2).unwrap();
    assert_eq!(gen.len(), 2 * 3 * 9);
    assert_eq!(gen.get(0), "p1");
    assert_eq!(gen.get(1), "q1");
    assert_eq!(gen.get(2), "p2");
    assert_eq!(gen.get(6), "pa1");
    // prefix 1, suffix 2, first grapheme 1, second grapheme 2.
    assert_eq!(gen.get(1 + 2 * 2 + 6 * 1 + 18 * 2), "qab3");
    assert_eq!(gen.get(53), "qbb3");
}

#[test]
fn size_matches_enumeration() {
    let gen = PlaintextGenerator::new(&["p", "q"], &["1", "2", "3"], "ab", 1, always, 2).unwrap();
    let all: Vec<String> = gen.range(7).map(|i| gen.get(i)).collect();
    assert_eq!(all.len(), gen.len());
    // Each (prefix, suffix, first, second) appears once: the candidates that
    // use both graphemes non-empty are all distinct.
    let mut full: Vec<&String> = all.iter().filter(|s| s.len() == 4).collect();
    assert_eq!(full.len(), 2 * 3 * 4);
    full.sort();
    full.dedup();
    assert_eq!(full.len(), 2 * 3 * 4);
}

#[test]
fn round_trip_of_every_index() {
    // With graphemes of distinct lengths and a separator in every candidate,
    // a candidate determines its address; decoding then re-encoding every
    // index must give it back.
    let gen = PlaintextGenerator::new(&["<"], &[">", "]"], "xy", 2, |s: &str| s != "x" && s != "xx" && s != "xy" && s != "yx", 4).unwrap();
    let graphemes = ["", "y", "yy"];
    let n = gen.len() as u64;
    assert_eq!(n, 1 * 2 * 9);
    for i in 0..n {
        let c = gen.get(i);
        let expected = format!(
            "<{}{}{}",
            graphemes[((i / 2) % 3) as usize],
            graphemes[((i / 6) % 3) as usize],
            if i % 2 == 0 { ">" } else { "]" }
        );
        assert_eq!(c, expected);
    }
}

#[test]
fn configuration_errors() {
    assert!(matches!(
        PlaintextGenerator::new(&[""], &[""], "ab", 0, always, 3),
        Err(GeneratorError::ZeroGraphemeLength)
    ));
    assert!(matches!(
        PlaintextGenerator::new(&[""], &[""], "ab", 2, always, 3),
        Err(GeneratorError::MisalignedLength)
    ));
    assert!(matches!(
        PlaintextGenerator::new(&[""], &[""], "", 1, always, 3),
        Err(GeneratorError::EmptyAlphabet)
    ));
    // 27 graphemes to the power 20 exceeds 64 bits.
    assert!(matches!(
        PlaintextGenerator::new(&[""], &[""], "abcdefghijklmnopqrstuvwxyz", 1, always, 20),
        Err(GeneratorError::SpaceOverflow)
    ));
}

#[test]
fn empty_prefix_list_gives_empty_space() {
    let gen = PlaintextGenerator::new(&[], &[""], "abcdefghijklmnopqrstuvwxyz", 1, always, 20).unwrap();
    assert_eq!(gen.len(), 0);
    assert_eq!(gen.range(0), 0..0);
}

#[test]
fn zero_graphemes_per_candidate() {
    let gen = PlaintextGenerator::new(&["a", "b"], &["1"], "xyz", 1, always, 0).unwrap();
    assert_eq!(gen.len(), 2);
    assert_eq!(gen.get(0), "a1");
    assert_eq!(gen.get(1), "b1");
}
