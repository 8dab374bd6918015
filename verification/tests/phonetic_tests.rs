use langviz_core::phonetic;
use langviz_core::types::{EditOp, IPASegment, Ratio};

fn value(r: Ratio) -> f64 {
    r.num as f64 / r.den as f64
}

#[test]
fn phonetic_test_phonetic_distance() {
    // "pater" and "pitar" differ in exactly two of five segments, so the
    // similarity is exactly 3/5.
    let dist = value(phonetic::phonetic_distance("pater", "pitar"));
    assert!(dist >= 0.6 && dist < 1.0);
}

#[test]
fn test_identical() {
    let dist = value(phonetic::phonetic_distance("test", "test"));
    assert_eq!(dist, 1.0);
}

#[test]
fn lib_test_phonetic_distance() {
    let result = value(phonetic::phonetic_distance("pater", "pitar"));
    assert!(result >= 0.6 && result < 1.0);
}

#[test]
fn test_identical_strings() {
    let result = value(phonetic::phonetic_distance("test", "test"));
    assert_eq!(result, 1.0);
}

#[test]
fn test_dtw_align() {
    let alignment = phonetic::dtw_align("pater", "pat\u{025b}r");
    assert!((alignment.cost as f64) < 2.0);
    assert!(!alignment.operations.is_empty());
}

#[test]
fn phonetic_test_lcs() {
    let ratio = value(phonetic::lcs_ratio("abcd", "acd"));
    assert!(ratio > 0.7);
}

#[test]
fn test_phonetic_distance_basic() {
    let dist = value(phonetic::phonetic_distance("test", "test"));
    assert_eq!(dist, 1.0);

    let dist2 = value(phonetic::phonetic_distance("pater", "mater"));
    assert!(dist2 > 0.5 && dist2 < 1.0);
}

#[test]
fn test_batch_phonetic() {
    let pairs = vec![
        ("pater".to_string(), "pitar".to_string()),
        ("mater".to_string(), "meter".to_string()),
    ];

    let distances = phonetic::batch_phonetic_distance(pairs);
    assert_eq!(distances.len(), 2);
    assert!(value(distances[0]) > 0.5);
}

#[test]
fn test_dtw_alignment() {
    let alignment = phonetic::dtw_align("abc", "adc");
    assert!((alignment.cost as f64) < 2.0);
    assert_eq!(alignment.sequence_a.len(), 3);
    assert_eq!(alignment.sequence_b.len(), 3);
}

#[test]
fn test_dtw_substitution_op() {
    let alignment = phonetic::dtw_align("abc", "adc");
    assert!(alignment.operations.contains(&EditOp::Substitute));
}

#[test]
fn integration_test_test_lcs() {
    let ratio = value(phonetic::lcs_ratio("abcde", "ace"));
    assert!(ratio > 0.5 && ratio <= 1.0);
}

#[test]
fn test_lcs_exact_value() {
    let r = phonetic::lcs_ratio("abcde", "ace");
    assert_eq!(r.num, 3);
    assert_eq!(r.den, 5);
}

#[test]
fn test_similarity_matrix() {
    let ipa_strings = vec!["pater".to_string(), "pitar".to_string(), "mater".to_string()];

    let matrix = phonetic::compute_similarity_matrix(&ipa_strings);

    assert_eq!(matrix.len(), 3);
    assert_eq!(matrix[0].len(), 3);

    assert_eq!(value(matrix[0][0]), 1.0);
    assert_eq!(value(matrix[1][1]), 1.0);

    assert_eq!(matrix[0][1], matrix[1][0]);
}

#[test]
fn test_empty_strings_match_perfectly() {
    let r = phonetic::phonetic_distance("", "");
    assert_eq!(r.num, r.den);
}

#[test]
fn test_grapheme_clusters_stay_whole() {
    // One combining sequence is one segment: against a single-segment
    // string the longer side has length one, not two.
    let r = phonetic::phonetic_distance("e\u{301}", "x");
    assert_eq!(r.den, 1);
}

#[test]
fn test_feature_weighted_distance() {
    let mut fa = [0i8; 24];
    let fb = [0i8; 24];
    fa[0] = 1;
    let a = vec![IPASegment::new("p".to_string(), fa)];
    let b = vec![IPASegment::new("b".to_string(), fb)];
    let d = langviz_core::phonetic::feature_weighted_distance(&a, &b);
    // one differing feature out of 24, over a longest length of one
    assert_eq!(d.num, 1);
    assert_eq!(d.den, 24);
}

#[test]
fn test_feature_distance_counts_positions() {
    let mut fa = [0i8; 24];
    let fb = [0i8; 24];
    fa[0] = 1;
    fa[5] = -1;
    let a = IPASegment::new("a".to_string(), fa);
    let b = IPASegment::new("b".to_string(), fb);
    let d = a.feature_distance(&b);
    assert_eq!(d.num, 2);
    assert_eq!(d.den, 24);
}

#[test]
fn test_alignment_correspondences() {
    let al = phonetic::dtw_align("pater", "pitar");
    let rules = al.extract_correspondences();
    assert!(rules.iter().any(|(a, b)| a == "a" && b == "i"));
}

#[test]
fn test_sound_correspondences() {
    let alignments = vec![
        phonetic::dtw_align("pater", "pitar"),
        phonetic::dtw_align("mater", "mitar"),
    ];

    let correspondences = phonetic::extract_sound_correspondences(&alignments);

    assert!(!correspondences.is_empty());
}

#[test]
fn test_sound_correspondence_counts() {
    let alignments = vec![
        phonetic::dtw_align("pater", "pitar"),
        phonetic::dtw_align("mater", "mitar"),
    ];
    let correspondences = phonetic::extract_sound_correspondences(&alignments);
    // a -> i and e -> a each occur once per word pair
    let get = |a: &str, b: &str| {
        correspondences.iter().find(|(x, y, _)| x == a && y == b).map(|(_, _, c)| *c)
    };
    assert_eq!(get("a", "i"), Some(2));
    assert_eq!(get("e", "a"), Some(2));
    // descending counts
    for w in correspondences.windows(2) {
        assert!(w[0].2 >= w[1].2);
    }
}
