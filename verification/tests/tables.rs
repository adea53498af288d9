use symmie::modifier::Modifier;
use symmie::matcher::best_match;
use symmie::table::{comes_before, name_of_entry, same_bytes, Table};

const GREEK: &[(&str, char)] = &[
    ("alpha", 'α'),
    ("beta", 'β'),
    ("beta:alt", 'ϐ'),
    ("gamma", 'γ'),
    ("gamma:big", 'Γ'),
    ("gamma:big:alt", 'ℾ'),
    ("omega", 'ω'),
];

#[test]
fn bytes_are_ordered_as_in_a_dictionary() {
    assert!(comes_before(b"", b""));
    assert!(comes_before(b"", b"a"));
    assert!(!comes_before(b"a", b""));
    assert!(comes_before(b"a", b"a"));
    assert!(comes_before(b"a", b"ab"));
    assert!(!comes_before(b"ab", b"a"));
    assert!(comes_before(b"ab", b"b"));
    assert!(!comes_before(b"b", b"ab"));
    assert!(comes_before(b"a-c", b"a:b"));
    assert!(comes_before(&[0x7f], &[0x80]));
    assert!(!comes_before(&[0xff], &[0x00, 0xff]));
}

#[test]
fn order_agrees_with_the_standard_one() {
    let words: [&[u8]; 7] = [b"", b"a", b"ab", b"abc", b"b", b"ba", &[0xc3, 0xa4]];
    for a in words {
        for b in words {
            assert_eq!(comes_before(a, b), a <= b);
            assert_eq!(same_bytes(a, b), a == b);
        }
    }
}

#[test]
fn the_name_of_an_entry_is_its_first_segment() {
    assert_eq!(name_of_entry(b"arrow:l:double"), b"arrow");
    assert_eq!(name_of_entry(b"pi"), b"pi");
    assert_eq!(name_of_entry(b""), b"");
    assert_eq!(name_of_entry(b":a"), b"");
}

#[test]
fn the_first_candidate_is_found_by_halving() {
    let table = Table::new(GREEK).unwrap();
    assert_eq!(table.first_candidate(b"alpha"), 0);
    assert_eq!(table.first_candidate(b"beta"), 1);
    assert_eq!(table.first_candidate(b"gamma"), 3);
    assert_eq!(table.first_candidate(b"omega"), 6);
    assert_eq!(table.first_candidate(b""), 0);
    assert_eq!(table.first_candidate(b"delta"), 3);
    assert_eq!(table.first_candidate(b"zeta"), 7);
    assert_eq!(table.first_candidate(b"bet"), 1);
    assert_eq!(table.first_candidate(b"betaa"), 3);
}

#[test]
fn entries_of_one_name_anywhere_in_their_run_are_found() {
    let same: Vec<(&str, char)> = vec![
        ("a", '0'),
        ("n:a", '1'),
        ("n:b", '2'),
        ("n:c", '3'),
        ("n:d", '4'),
        ("n:e", '5'),
        ("n:f", '6'),
        ("n:g", '7'),
        ("z", '8'),
    ];
    let table = Table::new(&same).unwrap();
    assert_eq!(table.first_candidate(b"n"), 1);
    for (notation, symbol) in &same {
        let wanted: Vec<Modifier> =
            notation.split(':').skip(1).map(Modifier::new).collect();
        let name = notation.split(':').next().unwrap();
        assert_eq!(best_match(name.as_bytes(), &wanted, &table, &[]), Some(*symbol));
    }
}

#[test]
fn best_match_takes_names_and_modifiers() {
    let table = Table::new(GREEK).unwrap();
    assert_eq!(best_match(b"gamma", &[], &table, &[]), Some('γ'));
    assert_eq!(best_match(b"gamma", &[Modifier::new("big")], &table, &[]), Some('Γ'));
    assert_eq!(
        best_match(b"gamma", &[Modifier::new("alt"), Modifier::new("big")], &table, &[]),
        Some('ℾ')
    );
    assert_eq!(best_match(b"gamma", &[Modifier::new("alt")], &table, &[]), Some('ℾ'));
    assert_eq!(best_match(b"gamma", &[Modifier::new("none")], &table, &[]), Some('γ'));
    assert_eq!(best_match(b"delta", &[], &table, &[]), None);
    assert_eq!(best_match(b"", &[], &table, &[]), None);
    assert_eq!(best_match(b"gamma:big", &[], &table, &[]), None);
}

#[test]
fn many_defaults_may_decide() {
    let table = Table::new(&[("n:a:x", '1'), ("n:b:y", '2'), ("n:c:z", '3')]).unwrap();
    let none: [Modifier; 0] = [];
    assert_eq!(best_match(b"n", &[], &table, &none), Some('1'));
    assert_eq!(best_match(b"n", &[], &table, &[Modifier::new("y")]), Some('2'));
    assert_eq!(best_match(b"n", &[], &table, &[Modifier::new("z"), Modifier::new("c")]), Some('3'));
    assert_eq!(
        best_match(b"n", &[], &table, &[Modifier::new("z"), Modifier::new("b"), Modifier::new("y")]),
        Some('2')
    );
    assert_eq!(
        best_match(b"n", &[Modifier::new("a")], &table, &[Modifier::new("z"), Modifier::new("c")]),
        Some('1')
    );
}

#[test]
fn a_table_keeps_its_entries() {
    let table = Table::new(GREEK).unwrap();
    assert_eq!(table.entries(), GREEK);
    let copy = table;
    assert_eq!(copy.entries().len(), 7);
    assert_eq!(table.entries()[2], ("beta:alt", 'ϐ'));
}

#[test]
fn names_are_compared_not_notations() {
    assert!(Table::new(&[("a:z", '1'), ("a:b", '2')]).is_some());
    assert!(Table::new(&[("a:z", '1'), ("a", '2')]).is_some());
    assert!(Table::new(&[("b", '1'), ("a:z", '2')]).is_none());
    let table = Table::new(&[("a:z", '1'), ("a", '2'), ("a:b", '3')]).unwrap();
    assert_eq!(best_match(b"a", &[], &table, &[]), Some('2'));
    assert_eq!(best_match(b"a", &[Modifier::new("b")], &table, &[]), Some('3'));
    assert_eq!(best_match(b"a", &[Modifier::new("z")], &table, &[]), Some('1'));
}
