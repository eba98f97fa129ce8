use dfa_rs::label::{compare, Rank};
use dfa_rs::state_set::{to_multi_state, StateSet};
use dfa_rs::table::{Item, Key, KeySet, Table};

fn set_of(names: &[&str]) -> StateSet {
    let mut s = StateSet::new();
    for n in names {
        s.insert(n.to_string());
    }
    s
}

fn members_of(s: &StateSet) -> Vec<String> {
    (0..s.len()).map(|i| s.get(i).clone()).collect()
}

#[test]
fn compare_orders_by_code_point() {
    assert_eq!(compare("q1", "q2"), Rank::Before);
    assert_eq!(compare("q2", "q1"), Rank::After);
    assert_eq!(compare("q1", "q1"), Rank::Same);
    assert_eq!(compare("", ""), Rank::Same);
    assert_eq!(compare("", "a"), Rank::Before);
    assert_eq!(compare("a", ""), Rank::After);
}

#[test]
fn compare_puts_a_prefix_first() {
    assert_eq!(compare("q1", "q10"), Rank::Before);
    assert_eq!(compare("q10", "q1"), Rank::After);
    assert_eq!(compare("q10", "q2"), Rank::Before);
}

#[test]
fn compare_agrees_with_string_order_beyond_ascii() {
    let words = ["", "a", "ab", "b", "z", "é", "ε", "εa", "日本", "𝔸", "q0,q1"];
    for a in words {
        for b in words {
            let expected = if a < b {
                Rank::Before
            } else if a == b {
                Rank::Same
            } else {
                Rank::After
            };
            assert_eq!(compare(a, b), expected, "{:?} against {:?}", a, b);
        }
    }
}

#[test]
fn insert_reports_new_members_only() {
    let mut s = StateSet::new();
    assert!(s.insert("q1".to_string()));
    assert!(s.insert("q0".to_string()));
    assert!(!s.insert("q1".to_string()));
    assert_eq!(s.len(), 2);
    assert!(s.contains("q0"));
    assert!(s.contains("q1"));
    assert!(!s.contains("q2"));
}

#[test]
fn members_are_kept_in_ascending_order() {
    let s = set_of(&["q3", "q1", "q2", "q0", "q1"]);
    assert_eq!(members_of(&s), vec!["q0", "q1", "q2", "q3"]);
}

#[test]
fn label_does_not_depend_on_insertion_order() {
    let a = set_of(&["q0", "q1", "q2"]);
    let b = set_of(&["q2", "q0", "q1"]);
    let c = set_of(&["q1", "q2", "q0", "q2", "q1"]);
    assert_eq!(a.to_state(), "q0,q1,q2");
    assert_eq!(b.to_state(), "q0,q1,q2");
    assert_eq!(c.to_state(), "q0,q1,q2");
    assert_eq!(members_of(&a), members_of(&b));
    assert!(a.matches(&b));
    assert!(b.matches(&c));
}

#[test]
fn label_of_small_sets() {
    assert_eq!(StateSet::new().to_state(), "");
    assert_eq!(set_of(&["q7"]).to_state(), "q7");
    assert_eq!(set_of(&["b", "a"]).to_state(), "a,b");
}

#[test]
fn to_multi_state_holds_the_state_alone() {
    let s = to_multi_state(&"q4".to_string());
    assert_eq!(members_of(&s), vec!["q4"]);
    assert_eq!(s.to_state(), "q4");
}

#[test]
fn union_with_adds_every_member() {
    let mut a = set_of(&["q0", "q2"]);
    let b = set_of(&["q1", "q2", "q3"]);
    a.union_with(&b);
    assert_eq!(members_of(&a), vec!["q0", "q1", "q2", "q3"]);
    assert_eq!(members_of(&b), vec!["q1", "q2", "q3"]);
}

#[test]
fn intersects_looks_for_a_common_member() {
    let a = set_of(&["q0", "q2"]);
    assert!(a.intersects(&set_of(&["q1", "q2"])));
    assert!(!a.intersects(&set_of(&["q1", "q3"])));
    assert!(!a.intersects(&StateSet::new()));
    assert!(!StateSet::new().intersects(&a));
}

#[test]
fn comes_before_compares_members_in_ascending_order() {
    let a = set_of(&["q0", "q1"]);
    assert!(!a.comes_before(&a));
    assert!(a.comes_before(&set_of(&["q0", "q2"])));
    assert!(!set_of(&["q0", "q2"]).comes_before(&a));
    assert!(set_of(&["q0"]).comes_before(&a));
    assert!(!a.comes_before(&set_of(&["q0"])));
    assert!(StateSet::new().comes_before(&a));
    assert!(!StateSet::new().comes_before(&StateSet::new()));
    assert!(set_of(&["a", "b"]).comes_before(&set_of(&["a,b"])));
    assert!(set_of(&["q0", "q9"]).comes_before(&set_of(&["q1"])));
}

#[test]
fn matches_tells_sets_apart() {
    let a = set_of(&["q0", "q1"]);
    assert!(a.matches(&a.duplicate()));
    assert!(!a.matches(&set_of(&["q0"])));
    assert!(!a.matches(&set_of(&["q0", "q2"])));
    assert!(!a.matches(&StateSet::new()));
}

#[test]
fn table_insert_replaces_the_value_of_a_known_key() {
    let mut t: Table<char, String> = Table::new();
    t.insert('a', "x".to_string());
    t.insert('b', "y".to_string());
    t.insert('a', "z".to_string());
    assert_eq!(t.len(), 2);
    assert_eq!(t.get(&'a'), Some(&"z".to_string()));
    assert_eq!(t.get(&'b'), Some(&"y".to_string()));
    assert_eq!(t.get(&'c'), None);
    assert_eq!(t.position(&'a'), Some(0));
    assert_eq!(t.position(&'b'), Some(1));
    assert_eq!(t.position(&'c'), None);
    assert_eq!(*t.key_at(1), 'b');
    assert_eq!(t.value_at(0), "z");
}

#[test]
fn table_is_keyed_by_membership_of_state_sets() {
    let mut t: Table<StateSet, char> = Table::new();
    t.insert(set_of(&["q1", "q0"]), 'x');
    t.insert(set_of(&["q0", "q1"]), 'y');
    t.insert(set_of(&["q0"]), 'z');
    assert_eq!(t.len(), 2);
    assert_eq!(t.get(&set_of(&["q1", "q0"])), Some(&'y'));
    assert_eq!(t.get(&set_of(&["q0"])), Some(&'z'));
    assert_eq!(t.get(&StateSet::new()), None);
}

#[test]
fn table_duplicate_copies_every_entry() {
    let mut t: Table<String, StateSet> = Table::new();
    t.insert("a".to_string(), set_of(&["q0"]));
    t.insert("b".to_string(), set_of(&["q1", "q2"]));
    let copy = t.duplicate();
    assert_eq!(copy.len(), 2);
    assert_eq!(copy.key_at(0), "a");
    assert_eq!(copy.value_at(1).to_state(), "q1,q2");
}

#[test]
fn key_set_holds_each_key_once() {
    let mut s: KeySet<char> = KeySet::new();
    assert!(s.insert('b'));
    assert!(s.insert('a'));
    assert!(!s.insert('b'));
    assert_eq!(s.len(), 2);
    assert!(s.contains(&'a'));
    assert!(!s.contains(&'c'));
    assert_eq!(*s.get(0), 'b');
    let copy = s.duplicate();
    assert_eq!(copy.len(), 2);
    assert!(copy.contains(&'b'));
}
