use dfa_rs::{
    Acceptance, Alphabet, Dfa, MultiNfa, MultiNfaStateTransitions, Nfa, NfaStateTransitions,
    NfaTransitions, StateSet, StateTransitions, Transitions, EPSILON,
};

fn set_of(names: &[&str]) -> StateSet {
    let mut s = StateSet::new();
    for n in names {
        s.insert(n.to_string());
    }
    s
}

fn alphabet_of(symbols: &str) -> Alphabet {
    let mut a = Alphabet::new();
    for c in symbols.chars() {
        a.insert(c);
    }
    a
}

fn table_of(moves: &[(&str, &[(char, &[&str])])]) -> NfaStateTransitions {
    let mut table = NfaStateTransitions::new();
    for (state, row) in moves {
        let mut transitions = NfaTransitions::new();
        for (symbol, targets) in row.iter() {
            transitions.insert(*symbol, set_of(targets));
        }
        table.insert(state.to_string(), transitions);
    }
    table
}

fn nfa_of(
    states: &[&str],
    alphabet: &str,
    moves: &[(&str, &[(char, &[&str])])],
    start: &str,
    finals: &[&str],
) -> Nfa {
    Nfa::new(
        set_of(states),
        alphabet_of(alphabet),
        table_of(moves),
        start.to_string(),
        set_of(finals),
    )
}

fn dfa_of(
    states: &[&str],
    alphabet: &str,
    moves: &[(&str, &[(char, &str)])],
    start: &str,
    finals: &[&str],
) -> Dfa {
    let mut table = StateTransitions::new();
    for (state, row) in moves {
        let mut transitions = Transitions::new();
        for (symbol, target) in row.iter() {
            transitions.insert(*symbol, target.to_string());
        }
        table.insert(state.to_string(), transitions);
    }
    Dfa::new(set_of(states), alphabet_of(alphabet), table, start.to_string(), set_of(finals))
}

fn members_of(s: &StateSet) -> Vec<String> {
    (0..s.len()).map(|i| s.get(i).clone()).collect()
}

fn binary_nfa() -> Nfa {
    nfa_of(
        &["q1", "q2", "q3"],
        "01",
        &[
            ("q1", &[('0', &["q1"]), ('1', &["q2"])]),
            ("q2", &[('0', &["q3"]), ('1', &["q2"])]),
            ("q3", &[('0', &["q2"]), ('1', &["q2"])]),
        ],
        "q1",
        &["q2"],
    )
}

fn branching_nfa() -> Nfa {
    nfa_of(
        &["q0", "q1", "q2", "q3"],
        "ab",
        &[
            ("q0", &[(EPSILON, &["q1"])]),
            ("q1", &[('a', &["q1", "q2"]), ('b', &["q2"])]),
            ("q2", &[('a', &["q0", "q2"]), ('b', &["q3"])]),
            ("q3", &[('b', &["q1"])]),
        ],
        "q0",
        &["q0"],
    )
}

fn target<'a>(dfa: &'a Dfa, from: &str, on: char) -> Option<&'a String> {
    dfa.get_state_transitions().get(&from.to_string()).and_then(|row| row.get(&on))
}

#[test]
fn epsilon_is_the_greek_letter() {
    assert_eq!(EPSILON, 'ε');
}

#[test]
fn binary_dfa_walks() {
    let dfa = dfa_of(
        &["q1", "q2", "q3"],
        "01",
        &[
            ("q1", &[('0', "q1"), ('1', "q2")]),
            ("q2", &[('0', "q3"), ('1', "q2")]),
            ("q3", &[('0', "q2"), ('1', "q2")]),
        ],
        "q1",
        &["q2"],
    );
    assert_eq!(dfa.accepts("11111"), Acceptance::Accepted);
    assert_eq!(dfa.accepts("00000"), Acceptance::Rejected);
    assert_eq!(dfa.accepts("a111"), Acceptance::InvalidAlphabet);
}

#[test]
fn branching_nfa_converts() {
    let dfa = Dfa::from_nfa(branching_nfa());
    assert_eq!(dfa.get_start_state(), "q0,q1");
    assert!(dfa.get_final_states().contains("q0,q1,q2"));
    assert!(dfa.get_states().contains("q1,q2"));
    assert_eq!(target(&dfa, "q1,q2", 'a'), Some(&"q0,q1,q2".to_string()));
    assert_eq!(target(&dfa, "q1,q2", 'b'), Some(&"q2,q3".to_string()));
}

#[test]
fn branching_nfa_has_eight_state_sets() {
    let dfa = Dfa::from_nfa(branching_nfa());
    assert_eq!(
        members_of(dfa.get_states()),
        vec!["q0,q1", "q0,q1,q2", "q1", "q1,q2", "q1,q3", "q2", "q2,q3", "q3"]
    );
    assert_eq!(members_of(dfa.get_final_states()), vec!["q0,q1", "q0,q1,q2"]);
    assert_eq!(dfa.get_state_transitions().len(), 8);
    assert_eq!(target(&dfa, "q3", 'a'), None);
    assert_eq!(target(&dfa, "q0,q1", EPSILON), None);
}

#[test]
fn conversion_accepts_what_the_nfa_accepts() {
    let dfa = Dfa::from_nfa(branching_nfa());
    // The empty word: the start state is final.
    assert_eq!(dfa.accepts(""), Acceptance::Accepted);
    // q0 -> q1 -a-> q2 -a-> q0.
    assert_eq!(dfa.accepts("aa"), Acceptance::Accepted);
    // q0 -> q1 -b-> q2 -a-> q0.
    assert_eq!(dfa.accepts("ba"), Acceptance::Accepted);
    assert_eq!(dfa.accepts("aaa"), Acceptance::Accepted);
    // No run on these words ends in q0.
    assert_eq!(dfa.accepts("a"), Acceptance::Rejected);
    assert_eq!(dfa.accepts("b"), Acceptance::Rejected);
    assert_eq!(dfa.accepts("ab"), Acceptance::Rejected);
    assert_eq!(dfa.accepts("bb"), Acceptance::Rejected);
    assert_eq!(dfa.accepts("bbb"), Acceptance::Rejected);
    // After "bb" only q3 is left, which has no move on a.
    assert_eq!(dfa.accepts("bba"), Acceptance::NoTransition);
    assert_eq!(dfa.accepts("ac"), Acceptance::InvalidAlphabet);
    assert_eq!(dfa.accepts("ε"), Acceptance::InvalidAlphabet);
}

#[test]
fn deterministic_input_is_read_back_unchanged() {
    let nfa = binary_nfa();
    assert!(nfa.is_dfa());
    let dfa = Dfa::from_nfa(nfa);
    assert_eq!(members_of(dfa.get_states()), vec!["q1", "q2", "q3"]);
    assert_eq!(members_of(dfa.get_final_states()), vec!["q2"]);
    assert_eq!(dfa.get_start_state(), "q1");
    assert_eq!(dfa.get_alphabet().len(), 2);
    assert_eq!(dfa.get_state_transitions().len(), 3);
    assert_eq!(target(&dfa, "q1", '0'), Some(&"q1".to_string()));
    assert_eq!(target(&dfa, "q1", '1'), Some(&"q2".to_string()));
    assert_eq!(target(&dfa, "q2", '0'), Some(&"q3".to_string()));
    assert_eq!(target(&dfa, "q2", '1'), Some(&"q2".to_string()));
    assert_eq!(target(&dfa, "q3", '0'), Some(&"q2".to_string()));
    assert_eq!(target(&dfa, "q3", '1'), Some(&"q2".to_string()));
}

#[test]
fn both_paths_behave_alike_on_deterministic_input() {
    let fast = Dfa::from_nfa(binary_nfa());
    let general = Dfa::from_multi_nfa(&MultiNfa::from_nfa(&binary_nfa()));
    assert_eq!(members_of(general.get_states()), vec!["q1", "q2", "q3"]);
    assert_eq!(general.get_start_state(), "q1");
    for word in ["", "0", "1", "11111", "00100", "00000", "01010", "001000", "a11", "1a", "012"] {
        assert_eq!(fast.accepts(word), general.accepts(word), "on {:?}", word);
    }
    assert_eq!(general.accepts("11111"), Acceptance::Accepted);
    assert_eq!(general.accepts("00000"), Acceptance::Rejected);
    assert_eq!(general.accepts("a111"), Acceptance::InvalidAlphabet);
}

#[test]
fn is_dfa_rejects_spontaneous_moves_and_branching() {
    assert!(!branching_nfa().is_dfa());
    let spontaneous = nfa_of(&["p", "q"], "a", &[("p", &[(EPSILON, &["q"])]), ("q", &[])], "p", &[]);
    assert!(!spontaneous.is_dfa());
    // An entry for the spontaneous move counts even without targets.
    let idle = nfa_of(&["p"], "a", &[("p", &[(EPSILON, &[])])], "p", &[]);
    assert!(!idle.is_dfa());
    let branching = nfa_of(&["p", "q"], "a", &[("p", &[('a', &["p", "q"])]), ("q", &[])], "p", &[]);
    assert!(!branching.is_dfa());
    let partial = nfa_of(&["p", "q"], "ab", &[("p", &[('a', &["q"]), ('b', &[])])], "p", &["q"]);
    assert!(partial.is_dfa());
    let empty = nfa_of(&[], "", &[], "p", &[]);
    assert!(empty.is_dfa());
}

#[test]
fn empty_word_is_accepted_where_the_start_state_is_final() {
    let accepting = dfa_of(&["s"], "a", &[("s", &[('a', "s")])], "s", &["s"]);
    assert_eq!(accepting.accepts(""), Acceptance::Accepted);
    let rejecting = dfa_of(&["s", "t"], "a", &[("s", &[('a', "t")])], "s", &["t"]);
    assert_eq!(rejecting.accepts(""), Acceptance::Rejected);
    let bare = dfa_of(&[], "", &[], "s", &[]);
    assert_eq!(bare.accepts(""), Acceptance::Rejected);
}

#[test]
fn walk_stops_at_the_first_fault() {
    let dfa = dfa_of(&["s", "t"], "ab", &[("s", &[('a', "t")])], "s", &["t"]);
    assert_eq!(dfa.accepts("a"), Acceptance::Accepted);
    // s has no move on b.
    assert_eq!(dfa.accepts("b"), Acceptance::NoTransition);
    // t has no entry at all.
    assert_eq!(dfa.accepts("aa"), Acceptance::NoTransition);
    // The missing move comes before the foreign symbol, and the other way round.
    assert_eq!(dfa.accepts("bx"), Acceptance::NoTransition);
    assert_eq!(dfa.accepts("xb"), Acceptance::InvalidAlphabet);
    assert_eq!(dfa.accepts("ax"), Acceptance::InvalidAlphabet);
}

#[test]
fn read_back_leaves_out_entries_without_targets() {
    let nfa = nfa_of(&["p", "q"], "ab", &[("p", &[('a', &["q"]), ('b', &[])])], "p", &["q"]);
    let dfa = Dfa::from_nfa(nfa);
    assert_eq!(target(&dfa, "p", 'a'), Some(&"q".to_string()));
    assert_eq!(target(&dfa, "p", 'b'), None);
    assert_eq!(dfa.get_state_transitions().len(), 1);
    assert_eq!(dfa.accepts("a"), Acceptance::Accepted);
    assert_eq!(dfa.accepts("b"), Acceptance::NoTransition);
}

#[test]
fn epsilon_closure_ends_on_cycles() {
    let table = table_of(&[
        ("p", &[(EPSILON, &["q"])]),
        ("q", &[(EPSILON, &["r"])]),
        ("r", &[(EPSILON, &["p"])]),
    ]);
    let mut reachable = set_of(&["p"]);
    MultiNfa::epsilon_closure(&mut reachable, &"p".to_string(), &table);
    assert_eq!(members_of(&reachable), vec!["p", "q", "r"]);
}

#[test]
fn epsilon_closure_does_not_look_beyond_known_members() {
    let table = table_of(&[("a", &[(EPSILON, &["b"])]), ("b", &[(EPSILON, &["c"])])]);
    let mut reachable = set_of(&["b"]);
    MultiNfa::epsilon_closure(&mut reachable, &"a".to_string(), &table);
    assert_eq!(members_of(&reachable), vec!["b"]);
    let mut fresh = StateSet::new();
    MultiNfa::epsilon_closure(&mut fresh, &"a".to_string(), &table);
    assert_eq!(members_of(&fresh), vec!["b", "c"]);
}

#[test]
fn epsilon_closure_of_a_state_without_spontaneous_moves() {
    let table = table_of(&[("a", &[('x', &["b"])])]);
    let mut reachable = set_of(&["a"]);
    MultiNfa::epsilon_closure(&mut reachable, &"a".to_string(), &table);
    assert_eq!(members_of(&reachable), vec!["a"]);
    MultiNfa::epsilon_closure(&mut reachable, &"missing".to_string(), &table);
    assert_eq!(members_of(&reachable), vec!["a"]);
}

#[test]
fn closure_of_closes_every_member() {
    let table = table_of(&[
        ("a", &[(EPSILON, &["b"])]),
        ("b", &[(EPSILON, &["c"])]),
        ("d", &[(EPSILON, &["e"])]),
    ]);
    assert_eq!(members_of(&MultiNfa::closure_of(&set_of(&["a", "b"]), &table)), vec!["a", "b", "c"]);
    assert_eq!(
        members_of(&MultiNfa::closure_of(&set_of(&["a", "d"]), &table)),
        vec!["a", "b", "c", "d", "e"]
    );
    assert_eq!(members_of(&MultiNfa::closure_of(&StateSet::new(), &table)), Vec::<String>::new());
}

#[test]
fn transitions_of_unites_and_closes_the_targets() {
    let table = table_of(&[
        ("p", &[('a', &["q"]), (EPSILON, &["r"])]),
        ("q", &[(EPSILON, &["s"])]),
        ("r", &[('a', &["t"]), ('b', &["p"])]),
    ]);
    let row = MultiNfa::transitions_of(&set_of(&["p", "r"]), &table);
    assert_eq!(row.len(), 2);
    assert_eq!(row.get(&'a').map(members_of), Some(vec!["q".to_string(), "s".into(), "t".into()]));
    assert_eq!(row.get(&'b').map(members_of), Some(vec!["p".to_string(), "r".into()]));
    assert!(row.get(&EPSILON).is_none());
}

#[test]
fn has_entries_asks_for_every_member() {
    let table = table_of(&[("p", &[]), ("q", &[('a', &["r"])])]);
    assert!(MultiNfa::has_entries(&set_of(&["p", "q"]), &table));
    assert!(!MultiNfa::has_entries(&set_of(&["p", "r"]), &table));
    assert!(MultiNfa::has_entries(&StateSet::new(), &table));
}

#[test]
fn aggregate_transitions_records_each_state_set_once() {
    let nfa = branching_nfa();
    let mut all = MultiNfaStateTransitions::new();
    MultiNfa::aggregate_transitions(&mut all, &set_of(&["q0"]), nfa.get_state_transitions());
    assert_eq!(all.len(), 8);
    let known: Vec<String> = (0..all.len()).map(|i| all.key_at(i).to_state()).collect();
    MultiNfa::aggregate_transitions(&mut all, &set_of(&["q1", "q2"]), nfa.get_state_transitions());
    let after: Vec<String> = (0..all.len()).map(|i| all.key_at(i).to_state()).collect();
    assert_eq!(known, after);
}

#[test]
fn state_set_with_a_member_without_entry_has_no_moves() {
    // q1 has no entry in the table, so the state set {q1, q2} is recorded
    // without moves, though q2 has one. It is final, for q1 is.
    let nfa = nfa_of(
        &["q0", "q1", "q2"],
        "a",
        &[("q0", &[('a', &["q1", "q2"])]), ("q2", &[('a', &["q2"])])],
        "q0",
        &["q1"],
    );
    let multi = MultiNfa::from_nfa(&nfa);
    assert_eq!(multi.get_states().len(), 2);
    assert_eq!(multi.get_states().get(0).to_state(), "q0");
    assert_eq!(multi.get_states().get(1).to_state(), "q1,q2");
    assert_eq!(multi.get_state_transitions().value_at(1).len(), 0);
    assert_eq!(multi.get_final_states().len(), 1);
    assert_eq!(multi.get_final_states().get(0).to_state(), "q1,q2");
    let dfa = Dfa::from_multi_nfa(&multi);
    assert_eq!(members_of(dfa.get_states()), vec!["q0", "q1,q2"]);
    assert_eq!(members_of(dfa.get_final_states()), vec!["q1,q2"]);
    assert_eq!(target(&dfa, "q0", 'a'), Some(&"q1,q2".to_string()));
    assert_eq!(dfa.get_state_transitions().get(&"q1,q2".to_string()).map(|row| row.len()), Some(0));
    assert_eq!(dfa.accepts("a"), Acceptance::Accepted);
    assert_eq!(dfa.accepts("aa"), Acceptance::NoTransition);
}

#[test]
fn final_state_without_entry_is_reached() {
    // q0 moves to itself spontaneously and to q1 on a; q1 is final and has
    // no entry in the table.
    let nfa = nfa_of(
        &["q0", "q1"],
        "a",
        &[("q0", &[(EPSILON, &["q0"]), ('a', &["q1"])])],
        "q0",
        &["q1"],
    );
    assert!(!nfa.is_dfa());
    let dfa = Dfa::from_nfa(nfa);
    assert_eq!(members_of(dfa.get_states()), vec!["q0", "q1"]);
    assert_eq!(members_of(dfa.get_final_states()), vec!["q1"]);
    assert_eq!(dfa.accepts("a"), Acceptance::Accepted);
    assert_eq!(dfa.accepts(""), Acceptance::Rejected);
    assert_eq!(dfa.accepts("aa"), Acceptance::NoTransition);
}

#[test]
fn state_set_holding_a_final_state_without_entry_is_final() {
    let nfa = nfa_of(&["q0", "q1"], "a", &[("q0", &[('a', &["q0", "q1"])])], "q0", &["q1"]);
    let dfa = Dfa::from_nfa(nfa);
    assert_eq!(target(&dfa, "q0", 'a'), Some(&"q0,q1".to_string()));
    assert!(dfa.get_states().contains("q0,q1"));
    assert!(dfa.get_final_states().contains("q0,q1"));
    assert_eq!(dfa.accepts("a"), Acceptance::Accepted);
}

#[test]
fn both_paths_behave_alike_where_a_state_has_no_entry() {
    // q1 is final and has no entry in the table.
    let make = || nfa_of(&["q0", "q1"], "a", &[("q0", &[('a', &["q1"])])], "q0", &["q1"]);
    assert!(make().is_dfa());
    let fast = Dfa::from_nfa(make());
    let general = Dfa::from_multi_nfa(&MultiNfa::from_nfa(&make()));
    assert_eq!(fast.accepts("a"), Acceptance::Accepted);
    for word in ["", "a", "aa", "b", "ab"] {
        assert_eq!(fast.accepts(word), general.accepts(word), "on {:?}", word);
    }
}

#[test]
fn aggregate_transitions_records_an_empty_row_for_a_member_without_entry() {
    let table = table_of(&[("p", &[('a', &["q"]), (EPSILON, &["r"])]), ("r", &[('a', &["p"])])]);
    let mut all = MultiNfaStateTransitions::new();
    // q has no entry: the closure of {p, q} is recorded without moves, and
    // what p and r lead to is not looked at.
    MultiNfa::aggregate_transitions(&mut all, &set_of(&["p", "q"]), &table);
    assert_eq!(all.len(), 1);
    assert_eq!(all.key_at(0).to_state(), "p,q,r");
    assert_eq!(all.value_at(0).len(), 0);
    // Recorded once: a second search from the same closure changes nothing.
    MultiNfa::aggregate_transitions(&mut all, &set_of(&["p", "q", "r"]), &table);
    assert_eq!(all.len(), 1);
    assert_eq!(all.value_at(0).len(), 0);
}

#[test]
fn member_without_entry_in_a_closure_adds_no_moves() {
    // q2 comes into the start set by a spontaneous move and has no entry:
    // the set is recorded with the moves of its other members. The set
    // that these lead to holds q2 from the outset and has no moves.
    let nfa = nfa_of(
        &["q0", "q1", "q2"],
        "a",
        &[("q0", &[(EPSILON, &["q2"]), ('a', &["q0", "q1"])]), ("q1", &[])],
        "q0",
        &["q2"],
    );
    let dfa = Dfa::from_nfa(nfa);
    assert_eq!(dfa.get_start_state(), "q0,q2");
    assert_eq!(target(&dfa, "q0,q2", 'a'), Some(&"q0,q1,q2".to_string()));
    assert_eq!(members_of(dfa.get_states()), vec!["q0,q1,q2", "q0,q2"]);
    assert_eq!(members_of(dfa.get_final_states()), vec!["q0,q1,q2", "q0,q2"]);
    assert_eq!(target(&dfa, "q0,q1,q2", 'a'), None);
    assert_eq!(dfa.accepts(""), Acceptance::Accepted);
    assert_eq!(dfa.accepts("a"), Acceptance::Accepted);
    assert_eq!(dfa.accepts("aa"), Acceptance::NoTransition);
}

#[test]
fn start_state_without_entry_is_a_state_without_moves() {
    let nfa = nfa_of(&["q0", "q1"], "a", &[("q1", &[('a', &["q0", "q1"])])], "q0", &["q0"]);
    assert!(!nfa.is_dfa());
    let dfa = Dfa::from_nfa(nfa);
    assert_eq!(members_of(dfa.get_states()), vec!["q0"]);
    assert_eq!(dfa.get_start_state(), "q0");
    assert_eq!(members_of(dfa.get_final_states()), vec!["q0"]);
    assert_eq!(dfa.get_state_transitions().len(), 1);
    assert_eq!(dfa.accepts(""), Acceptance::Accepted);
    assert_eq!(dfa.accepts("a"), Acceptance::NoTransition);
}

#[test]
fn moves_of_other_members_are_lost_with_a_member_without_entry() {
    // q0 -a-> {q1, q2}, q2 -b-> q3, q3 final; q1 has no entry. The
    // automaton accepts "ab" through q2, and the state set {q1, q2} has no
    // moves.
    let nfa = nfa_of(
        &["q0", "q1", "q2", "q3"],
        "ab",
        &[("q0", &[('a', &["q1", "q2"])]), ("q2", &[('b', &["q3"])]), ("q3", &[])],
        "q0",
        &["q3"],
    );
    let dfa = Dfa::from_nfa(nfa);
    assert_eq!(members_of(dfa.get_states()), vec!["q0", "q1,q2"]);
    assert_eq!(dfa.accepts("a"), Acceptance::Rejected);
    assert_eq!(dfa.accepts("ab"), Acceptance::NoTransition);
}

#[test]
fn entry_without_targets_leads_to_the_empty_state_set() {
    let nfa = nfa_of(
        &["p", "q"],
        "ab",
        &[("p", &[('a', &["p", "q"]), ('b', &[])]), ("q", &[])],
        "p",
        &["q"],
    );
    let dfa = Dfa::from_nfa(nfa);
    assert_eq!(target(&dfa, "p", 'b'), Some(&"".to_string()));
    assert!(dfa.get_states().contains(""));
    assert_eq!(dfa.accepts("b"), Acceptance::Rejected);
    assert_eq!(dfa.accepts("ba"), Acceptance::NoTransition);
    assert_eq!(dfa.accepts("a"), Acceptance::Accepted);
}

#[test]
fn shared_label_gets_the_row_of_the_last_state_set() {
    // The state sets {"a", "b"} and {"a,b"} have the same label. The second
    // comes later in the order of state sets, whichever is found first.
    for (first, second) in [("a,b", "a b"), ("a b", "a,b")] {
        let on_x: Vec<&str> = first.split(' ').collect();
        let on_y: Vec<&str> = second.split(' ').collect();
        let nfa = nfa_of(
            &["s", "a", "b", "a,b"],
            "wxyz",
            &[
                ("s", &[('x', &on_x), ('y', &on_y)]),
                ("a", &[('z', &["a"])]),
                ("b", &[]),
                ("a,b", &[('w', &["a,b"])]),
            ],
            "s",
            &[],
        );
        assert!(!nfa.is_dfa());
        let multi = MultiNfa::from_nfa(&nfa);
        assert_eq!(multi.get_states().len(), 4);
        let dfa = Dfa::from_multi_nfa(&multi);
        assert_eq!(members_of(dfa.get_states()), vec!["a", "a,b", "s"]);
        assert_eq!(dfa.get_state_transitions().len(), 3);
        assert_eq!(target(&dfa, "a,b", 'w'), Some(&"a,b".to_string()));
        assert_eq!(target(&dfa, "a,b", 'z'), None);
    }
}

#[test]
fn every_move_of_the_conversion_stays_among_its_states() {
    for dfa in [Dfa::from_nfa(branching_nfa()), Dfa::from_nfa(binary_nfa())] {
        let states = dfa.get_states();
        assert!(states.contains(dfa.get_start_state()));
        let finals = dfa.get_final_states();
        for i in 0..finals.len() {
            assert!(states.contains(finals.get(i)));
        }
        let table = dfa.get_state_transitions();
        assert_eq!(table.len(), states.len());
        for i in 0..table.len() {
            assert!(states.contains(table.key_at(i)));
            let row = table.value_at(i);
            for j in 0..row.len() {
                assert_ne!(*row.key_at(j), EPSILON);
                assert!(states.contains(row.value_at(j)));
            }
        }
    }
}

#[test]
fn number_of_state_sets_is_bounded_by_the_power_set() {
    let nfa = branching_nfa();
    let multi = MultiNfa::from_nfa(&nfa);
    assert_eq!(multi.get_states().len(), 8);
    assert!(multi.get_states().len() <= 1 << nfa.get_states().len());
    assert_eq!(multi.get_state_transitions().len(), multi.get_states().len());
    assert_eq!(multi.get_start_state().to_state(), "q0,q1");
    assert_eq!(multi.get_final_states().len(), 2);
    assert_eq!(multi.get_alphabet().len(), 2);
}

#[test]
fn all_subsets_can_be_reached() {
    // From {p} every non-empty subset of {p, q, r} is reached: three
    // states, seven state sets, and the empty one is not among them.
    let nfa = nfa_of(
        &["p", "q", "r"],
        "abcdefg",
        &[
            (
                "p",
                &[
                    ('a', &["p"]),
                    ('b', &["q"]),
                    ('c', &["r"]),
                    ('d', &["p", "q"]),
                    ('e', &["p", "r"]),
                    ('f', &["q", "r"]),
                    ('g', &["p", "q", "r"]),
                ],
            ),
            ("q", &[('a', &["p"])]),
            ("r", &[('a', &["p"])]),
        ],
        "p",
        &["r"],
    );
    let dfa = Dfa::from_nfa(nfa);
    assert_eq!(
        members_of(dfa.get_states()),
        vec!["p", "p,q", "p,q,r", "p,r", "q", "q,r", "r"]
    );
    assert_eq!(members_of(dfa.get_final_states()), vec!["p,q,r", "p,r", "q,r", "r"]);
    assert_eq!(dfa.accepts("ga"), Acceptance::Rejected);
    assert_eq!(dfa.accepts("gac"), Acceptance::Accepted);
}

#[test]
fn nfa_keeps_its_parts() {
    let nfa = branching_nfa();
    assert_eq!(members_of(nfa.get_states()), vec!["q0", "q1", "q2", "q3"]);
    assert_eq!(nfa.get_start_state(), "q0");
    assert_eq!(members_of(nfa.get_final_states()), vec!["q0"]);
    assert!(nfa.get_alphabet().contains(&'a'));
    assert!(!nfa.get_alphabet().contains(&EPSILON));
    let row = nfa.get_state_transitions().get(&"q1".to_string()).unwrap();
    assert_eq!(row.get(&'a').map(members_of), Some(vec!["q1".to_string(), "q2".into()]));
}
