use dfa_rs::{
    Acceptance, Alphabet, Dfa, Nfa, NfaStateTransitions, NfaTransitions, State, States, Symbol,
};

struct DfaTransition {
    pub s1: State,
    pub symbol: Symbol,
    pub s2: State,
}

const TEST_DFA_JSON1: &'static str = r#"{
          "states": [
            "q1",
            "q2",
            "q3"
          ],
          "alphabet": [
            "0",
            "1"
          ],
          "start_state": "q1",
          "final_states": ["q2"],
          "state_transitions": {
            "q1": {
              "0": ["q1"],
              "1": ["q2"]
            },
            "q2": {
              "0": ["q3"],
              "1": ["q2"]
            },
            "q3": {
              "0": ["q2"],
              "1": ["q2"]
            }
          }
        }"#;

const TEST_NFA_JSON1: &'static str = r#"{
	"states": [
		"q0",
		"q1",
		"q2",
		"q3"
	],
	"alphabet": [
		"a",
		"b"
	],
	"start_state": "q0",
	"final_states": ["q0"],
	"state_transitions": {
		"q0": {
			"ε": ["q1"]
		},
		"q1": {
			"a": ["q1", "q2"],
			"b": ["q2"]
		},
		"q2": {
			"a": ["q0", "q2"],
			"b": ["q3"]
		},
		"q3": {
			"b": ["q1"]
		}
	}
}
"#;

fn names(value: &serde_json::Value) -> States {
    let mut states = States::new();
    for name in value.as_array().unwrap() {
        states.insert(name.as_str().unwrap().to_string());
    }
    states
}

fn symbol(text: &str) -> Symbol {
    let mut chars = text.chars();
    let c = chars.next().unwrap();
    assert!(chars.next().is_none());
    c
}

fn nfa_from_json(json: &str) -> Nfa {
    let value: serde_json::Value = serde_json::from_str(json).unwrap();
    let mut alphabet = Alphabet::new();
    for s in value["alphabet"].as_array().unwrap() {
        alphabet.insert(symbol(s.as_str().unwrap()));
    }
    let mut table = NfaStateTransitions::new();
    for (state, row) in value["state_transitions"].as_object().unwrap() {
        let mut transitions = NfaTransitions::new();
        for (on, targets) in row.as_object().unwrap() {
            transitions.insert(symbol(on), names(targets));
        }
        table.insert(state.clone(), transitions);
    }
    Nfa::new(
        names(&value["states"]),
        alphabet,
        table,
        value["start_state"].as_str().unwrap().to_string(),
        names(&value["final_states"]),
    )
}

fn dfa_from_json(json: &str) -> Dfa {
    Dfa::from_nfa(nfa_from_json(json))
}

#[test]
fn deserialize() {
    let dfa = dfa_from_json(TEST_DFA_JSON1);

    let states = dfa.get_states();
    assert!(states.contains("q1"));
    assert!(states.contains("q2"));
    assert!(states.contains("q3"));

    let alphabet = dfa.get_alphabet();
    assert!(alphabet.contains(&'0'));
    assert!(alphabet.contains(&'1'));

    assert_eq!(dfa.get_start_state(), "q1");
    assert!(dfa.get_final_states().contains("q2"));

    let state_transitions = dfa.get_state_transitions();
    let expected_transitions = [
        DfaTransition {
            s1: "q1".parse().unwrap(),
            symbol: "0".parse().unwrap(),
            s2: "q1".parse().unwrap(),
        },
        DfaTransition {
            s1: "q1".parse().unwrap(),
            symbol: "1".parse().unwrap(),
            s2: "q2".parse().unwrap(),
        },
        DfaTransition {
            s1: "q2".parse().unwrap(),
            symbol: "0".parse().unwrap(),
            s2: "q3".parse().unwrap(),
        },
        DfaTransition {
            s1: "q2".parse().unwrap(),
            symbol: "1".parse().unwrap(),
            s2: "q2".parse().unwrap(),
        },
        DfaTransition {
            s1: "q3".parse().unwrap(),
            symbol: "0".parse().unwrap(),
            s2: "q2".parse().unwrap(),
        },
        DfaTransition {
            s1: "q3".parse().unwrap(),
            symbol: "1".parse().unwrap(),
            s2: "q2".parse().unwrap(),
        },
    ];

    for expected_transition in expected_transitions.iter() {
        let transitions = state_transitions
            .get(&expected_transition.s1)
            .expect("Transitions not found");
        let transition = transitions
            .get(&expected_transition.symbol)
            .expect("Transition not found");
        assert_eq!(&expected_transition.s2, transition, "Incorrect transition");
    }
}

#[test]
fn accepts() {
    let dfa = dfa_from_json(TEST_DFA_JSON1);

    assert_eq!(dfa.accepts("11111"), Acceptance::Accepted);
    assert_eq!(dfa.accepts("00100"), Acceptance::Accepted);
    assert_eq!(dfa.accepts("11100"), Acceptance::Accepted);
    assert_eq!(dfa.accepts("110011"), Acceptance::Accepted);
    assert_eq!(dfa.accepts("001001"), Acceptance::Accepted);
    assert_eq!(dfa.accepts("0010001"), Acceptance::Accepted);
}

#[test]
fn rejects() {
    let dfa = dfa_from_json(TEST_DFA_JSON1);

    assert_eq!(dfa.accepts("00000"), Acceptance::Rejected);
    assert_eq!(dfa.accepts("01010"), Acceptance::Rejected);
    assert_eq!(dfa.accepts("001000"), Acceptance::Rejected);
}

#[test]
fn invalid_alphabet() {
    let dfa = dfa_from_json(TEST_DFA_JSON1);

    assert_eq!(dfa.accepts("a11111"), Acceptance::InvalidAlphabet);
    assert_eq!(dfa.accepts("00100b"), Acceptance::InvalidAlphabet);
    assert_eq!(dfa.accepts("111c00"), Acceptance::InvalidAlphabet);
    assert_eq!(dfa.accepts("111020"), Acceptance::InvalidAlphabet);
    assert_eq!(dfa.accepts("1-11c00"), Acceptance::InvalidAlphabet);
}

#[test]
fn deserialize_nfa() {
    let dfa = dfa_from_json(TEST_NFA_JSON1);

    let states = dfa.get_states();
    assert!(states.contains("q1"));
    assert!(states.contains("q2"));
    assert!(states.contains("q3"));
    assert!(states.contains("q0,q1"));
    assert!(states.contains("q1,q2"));
    assert!(states.contains("q1,q3"));
    assert!(states.contains("q2,q3"));
    assert!(states.contains("q0,q1,q2"));

    let alphabet = dfa.get_alphabet();
    assert!(alphabet.contains(&'a'));
    assert!(alphabet.contains(&'b'));

    assert_eq!(dfa.get_start_state(), "q0,q1");
    assert!(dfa.get_final_states().contains("q0,q1"));
    assert!(dfa.get_final_states().contains("q0,q1,q2"));

    let state_transitions = dfa.get_state_transitions();
    let expected_transitions = [
        DfaTransition {
            s1: "q1".parse().unwrap(),
            symbol: "a".parse().unwrap(),
            s2: "q1,q2".parse().unwrap(),
        },
        DfaTransition {
            s1: "q1".parse().unwrap(),
            symbol: "b".parse().unwrap(),
            s2: "q2".parse().unwrap(),
        },
        DfaTransition {
            s1: "q2".parse().unwrap(),
            symbol: "a".parse().unwrap(),
            s2: "q0,q1,q2".parse().unwrap(),
        },
        DfaTransition {
            s1: "q2".parse().unwrap(),
            symbol: "b".parse().unwrap(),
            s2: "q3".parse().unwrap(),
        },
        DfaTransition {
            s1: "q3".parse().unwrap(),
            symbol: "b".parse().unwrap(),
            s2: "q1".parse().unwrap(),
        },
        DfaTransition {
            s1: "q0,q1".parse().unwrap(),
            symbol: "a".parse().unwrap(),
            s2: "q1,q2".parse().unwrap(),
        },
        DfaTransition {
            s1: "q0,q1".parse().unwrap(),
            symbol: "b".parse().unwrap(),
            s2: "q2".parse().unwrap(),
        },
        DfaTransition {
            s1: "q1,q2".parse().unwrap(),
            symbol: "a".parse().unwrap(),
            s2: "q0,q1,q2".parse().unwrap(),
        },
        DfaTransition {
            s1: "q1,q2".parse().unwrap(),
            symbol: "b".parse().unwrap(),
            s2: "q2,q3".parse().unwrap(),
        },
        DfaTransition {
            s1: "q1,q3".parse().unwrap(),
            symbol: "a".parse().unwrap(),
            s2: "q1,q2".parse().unwrap(),
        },
        DfaTransition {
            s1: "q1,q3".parse().unwrap(),
            symbol: "b".parse().unwrap(),
            s2: "q1,q2".parse().unwrap(),
        },
        DfaTransition {
            s1: "q2,q3".parse().unwrap(),
            symbol: "a".parse().unwrap(),
            s2: "q0,q1,q2".parse().unwrap(),
        },
        DfaTransition {
            s1: "q2,q3".parse().unwrap(),
            symbol: "b".parse().unwrap(),
            s2: "q1,q3".parse().unwrap(),
        },
        DfaTransition {
            s1: "q0,q1,q2".parse().unwrap(),
            symbol: "a".parse().unwrap(),
            s2: "q0,q1,q2".parse().unwrap(),
        },
        DfaTransition {
            s1: "q0,q1,q2".parse().unwrap(),
            symbol: "b".parse().unwrap(),
            s2: "q2,q3".parse().unwrap(),
        },
    ];

    for expected_transition in expected_transitions.iter() {
        let transitions = state_transitions
            .get(&expected_transition.s1)
            .expect("Transitions not found");
        let transition = transitions
            .get(&expected_transition.symbol)
            .expect("Transition not found");
        assert_eq!(&expected_transition.s2, transition, "Incorrect transition");
    }
}
