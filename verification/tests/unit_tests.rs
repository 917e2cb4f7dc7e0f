use edit_distance::unit_distance;

fn chars(s: &str) -> Vec<char> {
    s.chars().collect()
}

#[test]
fn kitten_sitting_is_three() {
    assert_eq!(unit_distance(&chars("kitten"), &chars("sitting")), 3);
}

#[test]
fn empty_empty_is_zero() {
    assert_eq!(unit_distance(&chars(""), &chars("")), 0);
}

#[test]
fn flaw_lawn_is_two() {
    assert_eq!(unit_distance(&chars("flaw"), &chars("lawn")), 2);
}

#[test]
fn identity_on_sample_inputs() {
    for s in ["a", "kitten", "edit distance", "\u{e9}t\u{e9}"] {
        assert_eq!(unit_distance(&chars(s), &chars(s)), 0);
    }
}

#[test]
fn symmetry_on_sample_inputs() {
    let pairs = [("kitten", "sitting"), ("flaw", "lawn"), ("", "abc"), ("ab", "ba")];
    for (a, b) in pairs {
        assert_eq!(
            unit_distance(&chars(a), &chars(b)),
            unit_distance(&chars(b), &chars(a))
        );
    }
}

#[test]
fn triangle_on_sample_inputs() {
    let triples = [("kitten", "sitting", "mittens"), ("", "ab", "ba"), ("flaw", "lawn", "law")];
    for (a, b, c) in triples {
        let ac = unit_distance(&chars(a), &chars(c));
        let ab = unit_distance(&chars(a), &chars(b));
        let bc = unit_distance(&chars(b), &chars(c));
        assert!(ac <= ab + bc);
    }
}

#[test]
fn empty_input_gives_other_length() {
    assert_eq!(unit_distance(&chars(""), &chars("sitting")), 7);
    assert_eq!(unit_distance(&chars("kitten"), &chars("")), 6);
}

#[test]
fn single_substitution() {
    assert_eq!(unit_distance(&chars("a"), &chars("b")), 1);
}

#[test]
fn non_ascii_counts_characters_not_bytes() {
    // One accented character differs: one substitution, though the UTF-8
    // byte lengths differ.
    assert_eq!(unit_distance(&chars("caf\u{e9}"), &chars("cafe")), 1);
    assert_eq!(unit_distance(&chars("\u{65e5}\u{672c}\u{8a9e}"), &chars("\u{65e5}\u{672c}")), 1);
}

#[test]
fn longer_first_or_second_argument() {
    assert_eq!(unit_distance(&chars("abcdef"), &chars("azced")), 3);
    assert_eq!(unit_distance(&chars("azced"), &chars("abcdef")), 3);
}
