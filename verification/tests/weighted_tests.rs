use edit_distance::CostTable;
use edit_distance::LookupError;
use edit_distance::SubstTable;
use edit_distance::COST_ONE;
use edit_distance::unit_distance;
use edit_distance::weighted_distance;

fn chars(s: &str) -> Vec<char> {
    s.chars().collect()
}

fn char_table(pairs: &[(char, u64)]) -> CostTable {
    let mut t = CostTable::new();
    for &(c, cost) in pairs {
        t.insert(c, cost);
    }
    t
}

fn sub_table(pairs: &[(char, char, u64)]) -> SubstTable {
    let mut t = SubstTable::new();
    for &(from, to, cost) in pairs {
        t.insert(from, to, cost);
    }
    t
}

#[test]
fn defaults_equal_unit_distance_scaled() {
    let pairs = [("kitten", "sitting"), ("flaw", "lawn"), ("", "abc"), ("same", "same")];
    for (a, b) in pairs {
        let a = chars(a);
        let b = chars(b);
        let w = weighted_distance(&a, &b, None, None, None).unwrap();
        assert_eq!(w, COST_ONE * unit_distance(&a, &b) as u64);
    }
}

#[test]
fn explicit_unit_tables_equal_unit_distance_scaled() {
    let a = chars("flaw");
    let b = chars("lawn");
    let del = char_table(&[('f', COST_ONE), ('l', COST_ONE), ('a', COST_ONE), ('w', COST_ONE)]);
    let ins = char_table(&[('l', COST_ONE), ('a', COST_ONE), ('w', COST_ONE), ('n', COST_ONE)]);
    let mut sub = SubstTable::new();
    for &x in &['f', 'l', 'a', 'w'] {
        for &y in &['l', 'a', 'w', 'n'] {
            if x != y {
                sub.insert(x, y, COST_ONE);
            }
        }
    }
    let w = weighted_distance(&a, &b, Some(&ins), Some(&del), Some(&sub)).unwrap();
    assert_eq!(w, COST_ONE * unit_distance(&a, &b) as u64);
}

#[test]
fn weighted_identity_is_zero() {
    for s in ["", "a", "kitten", "caf\u{e9}"] {
        let s = chars(s);
        assert_eq!(weighted_distance(&s, &s, None, None, None).unwrap(), 0);
    }
}

#[test]
fn half_cost_substitution() {
    // Substituting 'b' for 'a' costs 0.5; every other cost defaults to 1.0.
    let sub = sub_table(&[('a', 'b', COST_ONE / 2)]);
    let w = weighted_distance(&chars("a"), &chars("b"), None, None, Some(&sub)).unwrap();
    assert_eq!(w, COST_ONE / 2);
    assert_eq!(w as f64 / COST_ONE as f64, 0.5);
}

#[test]
fn missing_insertion_entry_is_lookup_error() {
    // The supplied insertion table lacks entries for B's characters.
    let ins = char_table(&[('z', COST_ONE)]);
    let r = weighted_distance(&chars("a"), &chars("bc"), Some(&ins), None, None);
    assert_eq!(r, Err(LookupError));
}

#[test]
fn missing_deletion_entry_is_lookup_error() {
    let del = char_table(&[]);
    let r = weighted_distance(&chars("ab"), &chars(""), None, Some(&del), None);
    assert_eq!(r, Err(LookupError));
}

#[test]
fn missing_substitution_pair_is_lookup_error() {
    let sub = sub_table(&[('a', 'c', COST_ONE)]);
    let r = weighted_distance(&chars("a"), &chars("b"), None, None, Some(&sub));
    assert_eq!(r, Err(LookupError));
}

#[test]
fn identical_characters_bypass_substitution_table() {
    // All aligned pairs match, so an empty substitution table is never
    // consulted and the distance is 0.
    let sub = sub_table(&[]);
    let a = chars("aaa");
    assert_eq!(weighted_distance(&a, &a, None, None, Some(&sub)).unwrap(), 0);
}

#[test]
fn empty_first_input_sums_insertion_costs() {
    let ins = char_table(&[('a', 100), ('b', 200), ('c', 300)]);
    let r = weighted_distance(&chars(""), &chars("abc"), Some(&ins), None, None).unwrap();
    assert_eq!(r, 600);
}

#[test]
fn empty_second_input_sums_deletion_costs() {
    let del = char_table(&[('x', 250), ('y', 750)]);
    let r = weighted_distance(&chars("xy"), &chars(""), None, Some(&del), None).unwrap();
    assert_eq!(r, 1000);
}

#[test]
fn weighted_distance_is_not_symmetric() {
    // Deleting 'a' is cheap, inserting it is dear: the two directions differ.
    let del = char_table(&[('a', 100)]);
    let ins = char_table(&[('a', 900)]);
    let forward =
        weighted_distance(&chars("a"), &chars(""), Some(&ins), Some(&del), None).unwrap();
    let backward =
        weighted_distance(&chars(""), &chars("a"), Some(&ins), Some(&del), None).unwrap();
    assert_eq!(forward, 100);
    assert_eq!(backward, 900);
    assert_ne!(forward, backward);
}

#[test]
fn substitution_loses_to_cheaper_delete_and_insert() {
    let del = char_table(&[('a', 100)]);
    let ins = char_table(&[('b', 100)]);
    let sub = sub_table(&[('a', 'b', 1000)]);
    let r = weighted_distance(&chars("a"), &chars("b"), Some(&ins), Some(&del), Some(&sub))
        .unwrap();
    assert_eq!(r, 200);
}

#[test]
fn non_ascii_characters_key_the_tables() {
    // A character outside the one-byte range gets its own entry; no
    // truncated index is ever used. The table covers every differing pair
    // the recurrence can look at; only the accented one is cheap.
    let mut sub = SubstTable::new();
    for x in ['c', 'a', 'f', '\u{e9}'] {
        for y in ['c', 'a', 'f', 'e'] {
            if x != y {
                sub.insert(x, y, COST_ONE);
            }
        }
    }
    sub.insert('\u{e9}', 'e', 500);
    let r = weighted_distance(&chars("caf\u{e9}"), &chars("cafe"), None, None, Some(&sub))
        .unwrap();
    assert_eq!(r, 500);
}

#[test]
fn later_table_entry_overrides_earlier() {
    let t = char_table(&[('a', 100), ('a', 900)]);
    assert_eq!(t.get('a'), Some(900));
    assert_eq!(t.get('b'), None);
}

#[test]
fn substitution_table_lookup() {
    let t = sub_table(&[('a', 'b', 42), ('a', 'b', 43)]);
    assert_eq!(t.get('a', 'b'), Some(43));
    assert_eq!(t.get('b', 'a'), None);
}

#[test]
fn second_input_longer_keeps_roles_and_pair_order() {
    // "a" -> "bc": substitute 'b' for 'a' (300), then insert 'c' (100).
    // The second input is the longer one, so this also exercises the
    // transposed working-row orientation.
    let del = char_table(&[('a', 1000)]);
    let ins = char_table(&[('b', 100), ('c', 100)]);
    let sub = sub_table(&[('a', 'b', 300), ('a', 'c', 400)]);
    let r = weighted_distance(&chars("a"), &chars("bc"), Some(&ins), Some(&del), Some(&sub))
        .unwrap();
    assert_eq!(r, 400);
}

#[test]
fn mixed_costs_choose_the_cheapest_script() {
    // "ab" -> "b": delete 'a' (40) beats substituting and reshuffling.
    let del = char_table(&[('a', 40), ('b', 40)]);
    let ins = char_table(&[('b', 500)]);
    let sub = sub_table(&[('a', 'b', 300)]);
    let r = weighted_distance(&chars("ab"), &chars("b"), Some(&ins), Some(&del), Some(&sub))
        .unwrap();
    assert_eq!(r, 40);
}
