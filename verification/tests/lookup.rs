use symmie::modifier::Modifier;
use symmie::table::Table;
use symmie::{get, list};

fn defaults() -> Vec<Modifier> {
    vec![Modifier::new("r"), Modifier::new("filled"), Modifier::new("smile")]
}

const SYMBOLS: &[(&str, char)] = &[
    ("arrow:r", '→'),
    ("arrow:l", '←'),
    ("arrow:r:double", '⇒'),
    ("arrow:l:double", '⇐'),
    ("face:grin", '😀'),
    ("face:smile", '🙂'),
    ("in", '∈'),
    ("integral", '∫'),
    ("integral:cont", '∮'),
    ("integral:ccw:cont", '∳'),
    ("pi", 'π'),
    ("turtle", '🐢'),
];

#[test]
fn known_notations_resolve() {
    let table = Table::new(SYMBOLS).unwrap();
    let defaults = defaults();
    assert_eq!(get("pi", &table, &defaults), Some('π'));
    assert_eq!(get("in", &table, &defaults), Some('∈'));
    assert_eq!(get("arrow:l", &table, &defaults), Some('←'));
    assert_eq!(get("integral:ccw:cont", &table, &defaults), Some('∳'));
    assert_eq!(get("face:grin", &table, &defaults), Some('😀'));
    assert_eq!(get("turtle", &table, &defaults), Some('🐢'));
    assert_eq!(get("nonexistant", &table, &defaults), None);
}

#[test]
fn lookup_is_repeatable() {
    let table = Table::new(SYMBOLS).unwrap();
    let defaults = defaults();
    for notation in ["arrow", "arrow:double", "integral:cont", "", "zeta", "face:smile:grin"] {
        assert_eq!(get(notation, &table, &defaults), get(notation, &table, &defaults));
    }
}

#[test]
fn a_sole_candidate_wins_without_matching() {
    let table = Table::new(&[("name:a", 'X')]).unwrap();
    assert_eq!(get("name", &table, &[]), Some('X'));
    assert_eq!(get("name:b", &table, &[]), Some('X'));
}

#[test]
fn more_matching_modifiers_win() {
    let table = Table::new(&[("name", 'X'), ("name:a", 'Y')]).unwrap();
    assert_eq!(get("name:a", &table, &[]), Some('Y'));
    assert_eq!(get("name", &table, &[]), Some('X'));
}

#[test]
fn fewer_modifiers_break_a_tie() {
    let table = Table::new(&[("name:a:b", 'X'), ("name:a", 'Y')]).unwrap();
    assert_eq!(get("name:a", &table, &[]), Some('Y'));
    assert_eq!(get("name:a:b", &table, &[]), Some('X'));
}

#[test]
fn a_modifier_written_twice_counts_twice() {
    let table = Table::new(&[("name:a:a", 'X'), ("name:a", 'Y')]).unwrap();
    assert_eq!(get("name:a", &table, &[]), Some('X'));
    assert_eq!(get("name", &table, &[]), Some('Y'));
}

#[test]
fn default_modifiers_break_a_tie() {
    let table = Table::new(&[("name:a", 'X'), ("name:b", 'Y')]).unwrap();
    assert_eq!(get("name", &table, &[Modifier::new("a")]), Some('X'));
    assert_eq!(get("name", &table, &[Modifier::new("b")]), Some('Y'));
}

#[test]
fn the_first_of_equals_wins() {
    let table = Table::new(&[("name:a", 'X'), ("name:b", 'Y')]).unwrap();
    assert_eq!(get("name", &table, &[]), Some('X'));
    let table = Table::new(&[("name:b", 'Y'), ("name:a", 'X')]).unwrap();
    assert_eq!(get("name", &table, &[]), Some('Y'));
}

#[test]
fn the_first_of_twins_wins() {
    let table = Table::new(&[("a", '0'), ("n", '1'), ("n", '2'), ("n", '3'), ("z", '4')]).unwrap();
    assert_eq!(get("n", &table, &[]), Some('1'));
    assert_eq!(get("n:x", &table, &defaults()), Some('1'));
    let table = Table::new(&[("n", '1'), ("n", '2')]).unwrap();
    assert_eq!(get("n", &table, &[]), Some('1'));
}

#[test]
fn the_crate_example_holds() {
    let table = Table::new(&[("arrow:r", '→'), ("arrow:l", '←'), ("pi", 'π')]).unwrap();
    let defaults = [Modifier::new("r")];
    assert_eq!(get("arrow:l", &table, &defaults), Some('←'));
    assert_eq!(get("arrow", &table, &defaults), Some('→'));
    assert_eq!(get("tau", &table, &defaults), None);
    assert_eq!(list(&table).len(), 3);
}

#[test]
fn defaults_decide_among_arrows() {
    let table = Table::new(SYMBOLS).unwrap();
    assert_eq!(get("arrow", &table, &defaults()), Some('→'));
    assert_eq!(get("arrow", &table, &[Modifier::new("l")]), Some('←'));
    assert_eq!(get("arrow:double", &table, &defaults()), Some('⇒'));
    assert_eq!(get("face", &table, &defaults()), Some('🙂'));
    assert_eq!(get("face", &table, &[]), Some('😀'));
}

#[test]
fn an_unknown_name_gives_nothing() {
    let table = Table::new(SYMBOLS).unwrap();
    let defaults = defaults();
    assert_eq!(get("arro", &table, &defaults), None);
    assert_eq!(get("arrows", &table, &defaults), None);
    assert_eq!(get("a", &table, &defaults), None);
    assert_eq!(get("zzz", &table, &defaults), None);
    assert_eq!(get("l:arrow", &table, &defaults), None);
    assert_eq!(get("Arrow", &table, &defaults), None);
    assert_eq!(get("pi ", &table, &defaults), None);
}

#[test]
fn an_empty_notation_gives_nothing() {
    let table = Table::new(SYMBOLS).unwrap();
    let defaults = defaults();
    assert_eq!(get("", &table, &defaults), None);
    assert_eq!(get(":", &table, &defaults), None);
    assert_eq!(get(":::", &table, &defaults), None);
    let odd = Table::new(&[("", 'E'), (":a", 'F')]).unwrap();
    assert_eq!(get("", &odd, &defaults), None);
    assert_eq!(get(":a", &odd, &defaults), None);
}

#[test]
fn an_empty_table_gives_nothing() {
    let table = Table::new(&[]).unwrap();
    assert_eq!(get("pi", &table, &defaults()), None);
    assert!(list(&table).is_empty());
}

#[test]
fn outer_separators_do_not_count() {
    let table = Table::new(SYMBOLS).unwrap();
    let defaults = defaults();
    assert_eq!(get(":pi:", &table, &defaults), Some('π'));
    assert_eq!(get("::arrow:l::", &table, &defaults), Some('←'));
    assert_eq!(get(":arrow:l:double", &table, &defaults), Some('⇐'));
}

#[test]
fn the_order_of_modifiers_does_not_count() {
    let table = Table::new(SYMBOLS).unwrap();
    let defaults = defaults();
    assert_eq!(get("arrow:double:l", &table, &defaults), Some('⇐'));
    assert_eq!(get("integral:cont:ccw", &table, &defaults), Some('∳'));
    assert_eq!(get("arrow:l:l:l", &table, &defaults), Some('←'));
}

#[test]
fn a_long_modifier_is_passed_over() {
    let table = Table::new(SYMBOLS).unwrap();
    let defaults = defaults();
    assert_eq!(get("arrow:waytoolong:l", &table, &defaults), Some('←'));
    assert_eq!(get("arrow:l:waytoolong", &table, &defaults), Some('←'));
    assert_eq!(get("pi:123456789", &table, &defaults), Some('π'));
}

#[test]
fn modifiers_of_full_length_match() {
    let table = Table::new(&[("box", 'a'), ("box:12345678", 'b'), ("box:1234567", 'c')]).unwrap();
    assert_eq!(get("box:12345678", &table, &[]), Some('b'));
    assert_eq!(get("box:1234567", &table, &[]), Some('c'));
    assert_eq!(get("box:123456789", &table, &[]), Some('a'));
}

#[test]
fn only_eight_segments_are_read() {
    let table = Table::new(&[("n", 'a'), ("n:x", 'b')]).unwrap();
    assert_eq!(get("n:1:2:3:4:5:6:7:x", &table, &[]), Some('b'));
    assert_eq!(get("n:1:2:3:4:5:6:7:8:x", &table, &[]), Some('a'));
    assert_eq!(get("n:123456789:2:3:4:5:6:7:8:x", &table, &[]), Some('a'));
}

#[test]
fn entries_with_many_modifiers_are_rated() {
    let table = Table::new(&[("n:a:b:c:d:e:f:g:h:i:j", 'm'), ("n:z", 'z')]).unwrap();
    assert_eq!(get("n", &table, &[]), Some('z'));
    assert_eq!(get("n:a", &table, &[]), Some('m'));
    assert_eq!(get("n:j", &table, &[]), Some('m'));
    assert_eq!(get("n:z:a", &table, &[]), Some('z'));
    assert_eq!(get("n:z:a:b", &table, &[]), Some('m'));
}

#[test]
fn the_list_is_the_table() {
    let table = Table::new(SYMBOLS).unwrap();
    assert_eq!(list(&table), SYMBOLS);
    assert_eq!(list(&table).len(), 12);
    assert_eq!(list(&table)[10], ("pi", 'π'));
}

#[test]
fn a_table_out_of_order_is_refused() {
    assert!(Table::new(&[("b", '1'), ("a", '2')]).is_none());
    assert!(Table::new(&[("a", '1'), ("b", '2'), ("a:x", '3')]).is_none());
    assert!(Table::new(&[("ab", '1'), ("a", '2')]).is_none());
    assert!(Table::new(&[("a", '1'), ("ab", '2')]).is_some());
    assert!(Table::new(&[("a:z", '1'), ("a:b", '2'), ("a", '3')]).is_some());
    assert!(Table::new(&[("a-c", '1'), ("a:b", '2')]).is_none());
    assert!(Table::new(&[("a:b", '1'), ("a-c", '2')]).is_some());
}

#[test]
fn a_table_with_a_long_modifier_is_refused() {
    assert!(Table::new(&[("a:123456789", '1')]).is_none());
    assert!(Table::new(&[("a:12345678", '1')]).is_some());
    assert!(Table::new(&[("a:b:123456789:c", '1')]).is_none());
    assert!(Table::new(&[("averylongname:b", '1')]).is_some());
    assert!(Table::new(&[("a", '1'), ("b:x:longerthan8", '2')]).is_none());
}
