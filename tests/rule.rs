use escpos_md::node_set::NodeSet;
use escpos_md::rule::{parse_rules, parse_selector, Dfa, Language, Nfa, NfaEdge, Op};
use escpos_md::rule::Language::{Alphabet, Any, Begin, KleenStar};
use escpos_md::style_tag::StyleTag;
use escpos_md::style_tag::StyleTag::{Blockquote, Em, Li, Ol, Strong, Ul, A, P};
use escpos_md::Error;

fn symbols(s: &str) -> Result<Vec<Language>, Error> {
    parse_selector(&s.chars().collect())
}

fn set(v: Vec<usize>) -> NodeSet {
    NodeSet::from_vec(v)
}

/// Every transition of `dfa` from `state`, over the whole alphabet.
fn edges_of(dfa: &Dfa, state: &NodeSet) -> Vec<(Op, NodeSet)> {
    Op::enumerate_all()
        .into_iter()
        .filter_map(|op| dfa.transition(state, &op).map(|t| (op, t)))
        .collect()
}

fn assert_dfa(dfa: &Dfa, expected: Vec<(NodeSet, Vec<(Op, NodeSet)>)>) {
    assert_eq!(dfa.states().len(), expected.len());
    for (state, edges) in expected {
        assert!(dfa.states().contains(&state));
        assert_eq!(edges_of(dfa, &state), edges);
    }
}

#[test]
fn rule_nfa() {

    let nfa = Nfa::from_string(&vec![
        Begin,
        Any,
        KleenStar,
        Alphabet(Ul),
        Alphabet(Li),
        Any,
        KleenStar,
        Alphabet(Em),
    ])
    .unwrap();

    let expected_nfa = {
        let mut n = Nfa::from_op(Op::Begin);
        let any_star = {
            let mut n = Nfa::from_op(Op::Any);
            n.kleen_star();
            n
        };
        n.concat(any_star.clone());
        n.concat(Nfa::from_op(Op::Alphabet(Ul)));
        n.concat(Nfa::from_op(Op::Alphabet(Li)));
        n.concat(any_star.clone());
        n.concat(Nfa::from_op(Op::Alphabet(Em)));
        n
    };

    assert_eq!(nfa.nodes(), expected_nfa.nodes());
    assert_eq!(nfa.start(), expected_nfa.start());
    assert_eq!(nfa.end(), expected_nfa.end());
}

#[test]
fn rule_epsilon_closures() {
    let mut nfa = Nfa::from_op(Op::Begin);
    let any_star = {
        let mut n = Nfa::from_op(Op::Any);
        n.kleen_star();
        n
    };
    nfa.concat(any_star);
    assert_eq!(
        nfa.epsilon_closures(),
        vec![
            set(vec![0]),
            set(vec![1, 2, 4, 5]),
            set(vec![2]),
            set(vec![2, 3, 4]),
            set(vec![4]),
            set(vec![2, 4, 5]),
        ]
    );
}

#[test]
fn rule_nfa_to_dsa_test_1() {
    let nodes: Vec<Vec<NfaEdge>> = vec![
        vec![(None, 1), (None, 2)],
        vec![(Some(Op::Begin), 3)],
        vec![(Some(Op::End), 3)],
        vec![(Some(Op::Alphabet(A)), 4)],
        vec![],
    ];
    let nfa = Nfa::from_parts(nodes, 0, 4);
    let dfa = Dfa::from_nfa(&nfa);
    let state_a = set(vec![0, 1, 2]);
    let state_b = set(vec![3]);
    let state_c = set(vec![4]);
    assert_dfa(
        &dfa,
        vec![
            (
                state_a.clone(),
                vec![(Op::Begin, state_b.clone()), (Op::End, state_b.clone())],
            ),
            (state_b.clone(), vec![(Op::Alphabet(A), state_c.clone())]),
            (state_c.clone(), vec![]),
        ],
    );
    assert_eq!(dfa.start(), &state_a);
    assert_eq!(dfa.accepting_idx(), 4);
}

#[test]
fn rule_nfa_to_dsa_test_2() {
    let nodes: Vec<Vec<NfaEdge>> = vec![
        vec![(Some(Op::Begin), 0), (None, 1)],
        vec![(Some(Op::Alphabet(A)), 1), (None, 2)],
        vec![(Some(Op::End), 2)],
    ];
    let nfa = Nfa::from_parts(nodes, 0, 2);
    let dfa = Dfa::from_nfa(&nfa);
    let state_a = set(vec![0, 1, 2]);
    let state_b = set(vec![1, 2]);
    let state_c = set(vec![2]);
    assert_dfa(
        &dfa,
        vec![
            (
                state_a.clone(),
                vec![
                    (Op::Alphabet(A), state_b.clone()),
                    (Op::Begin, state_a.clone()),
                    (Op::End, state_c.clone()),
                ],
            ),
            (
                state_b.clone(),
                vec![(Op::Alphabet(A), state_b.clone()), (Op::End, state_c.clone())],
            ),
            (state_c.clone(), vec![(Op::End, state_c.clone())]),
        ],
    );
    assert_eq!(dfa.start(), &state_a);
    assert_eq!(dfa.accepting_idx(), 2);
}

#[test]
fn rule_rule_matches() {
    let rule = parse_rules("> a").unwrap().pop().unwrap();
    assert!(rule.matches_loose(&[A]));
    assert!(rule.matches_exact(&[A]));
    assert!(rule.matches_loose(&[A, P]));
    assert!(!rule.matches_exact(&[A, P]));
    assert!(!rule.matches_loose(&[P, A]));
    assert!(!rule.matches_exact(&[P, A]));
    let rule = parse_rules("ul > li em").unwrap().pop().unwrap();
    assert!(rule.matches_loose(&[Ul, Li, Em]));
    assert!(rule.matches_exact(&[Ul, Li, Em]));
    assert!(rule.matches_loose(&[Ul, Li, Em, A]));
    assert!(!rule.matches_exact(&[Ul, Li, Em, A]));
    assert!(rule.matches_loose(&[P, Ul, Li, Em]));
    assert!(rule.matches_exact(&[P, Ul, Li, Em]));
    assert!(!rule.matches_loose(&[P, Ul, A, Em]));
    assert!(rule.matches_exact(&[P, Ul, Li, A, Em]));
    assert!(!rule.matches_loose(&[P, Ul, A, Li, Em]));
    assert!(rule.matches_exact(&[P, Ul, Li, Em, Em]));
}

#[test]
fn rule_parse_language() {

    assert_eq!(symbols("a"), Ok(vec![Begin, Any, KleenStar, Alphabet(A)]));
    assert_eq!(symbols("> a"), Ok(vec![Begin, Alphabet(A)]));
    assert!(symbols("a >").is_err());
    assert_eq!(
        symbols("a a"),
        Ok(vec![Begin, Any, KleenStar, Alphabet(A), Any, KleenStar, Alphabet(A)])
    );
    assert_eq!(
        symbols("a > a"),
        Ok(vec![Begin, Any, KleenStar, Alphabet(A), Alphabet(A)])
    );
    assert!(symbols("b").is_err());
    assert!(symbols("a b").is_err());
    assert_eq!(
        symbols("ul > li em"),
        Ok(vec![
            Begin,
            Any,
            KleenStar,
            Alphabet(Ul),
            Alphabet(Li),
            Any,
            KleenStar,
            Alphabet(Em)
        ])
    );
}

#[test]
fn selector_errors() {
    assert_eq!(symbols("a >"), Err(Error::DanglingDirectChild));
    assert_eq!(symbols("   "), Err(Error::EmptyRuleString));
    assert_eq!(symbols("ul bogus"), Err(Error::InvalidRuleTag("bogus".to_string())));
    assert_eq!(symbols("* > p"), Ok(vec![Language::Begin, Language::Any, Language::KleenStar, Language::Any, Language::Alphabet(StyleTag::P)]));
    assert!(parse_rules("ul, ,li").is_err());
    assert_eq!(parse_rules("ul ul, ul ol, ol ol").unwrap().len(), 3);
}

#[test]
fn selector_scenario_ul_li_em() {
    let rule = parse_rules("ul > li em").unwrap().pop().unwrap();
    assert!(rule.matches_loose(&[Ul, Li, Em]) && rule.matches_exact(&[Ul, Li, Em]));
    assert!(rule.matches_loose(&[Ul, Li, Em, A]) && !rule.matches_exact(&[Ul, Li, Em, A]));
    assert!(!rule.matches_loose(&[P, Ul, A, Em]));
}

#[test]
fn exact_match_implies_loose_match() {
    let stacks: Vec<Vec<StyleTag>> = vec![
        vec![],
        vec![A],
        vec![P, A],
        vec![Ul, Li, Em],
        vec![Ul, Ul, Li],
        vec![Ol, Li, Ul, Li, Strong],
        vec![Blockquote, P, Em, A],
    ];
    for sel in ["*", "> a", "ul > li em", "ul ul", "> ul > li", "li", "p a", "ol * strong"] {
        let rule = parse_rules(sel).unwrap().pop().unwrap();
        for stack in &stacks {
            if rule.matches_exact(stack) {
                assert!(rule.matches_loose(stack), "{} on {:?}", sel, stack);
            }
        }
    }
}
