use expert_system::input::{Input, InputError, ParseError};
use expert_system::node::{Fact, Node, Operator, Resolve, ResolveError};

fn loaded(content: &str) -> Input {
    let mut input = Input::new();
    assert!(input.parse_content(content).is_ok());
    input
}

fn ask(input: &mut Input, q: char) -> Result<Resolve, ResolveError> {
    let mut path: Vec<String> = vec![];
    input.resolve_query(q, &mut path)
}

fn no_marks(input: &Input) -> bool {
    input.nodes.iter().all(|n| !n.visited)
}

#[test]
fn one_fact_per_atom_and_well_formed_trees() {
    let input = loaded("A + B => C\nC | !A <=> D\nA ^ D => E\n=A\n?DE");
    for i in 0..input.facts.len() {
        for j in (i + 1)..input.facts.len() {
            assert_ne!(input.facts[i].repr, input.facts[j].repr);
        }
    }
    for r in input.rules.iter() {
        let node = input.nodes[*r];
        assert!(
            node.operator == Some(Operator::Implies) || node.operator == Some(Operator::IfAndOnlyIf)
        );
        assert!(node.left.is_some() && node.right.is_some());
    }
    for node in input.nodes.iter() {
        match node.operator {
            Some(Operator::And) | Some(Operator::Or) | Some(Operator::Xor) => {
                assert!(node.left.is_some() && node.right.is_some());
            }
            Some(Operator::Not) => assert!(node.left.is_some() && node.right.is_none()),
            None => assert!(node.fact.is_some()),
            _ => {}
        }
        if let Some(f) = node.fact {
            assert!(f < input.facts.len());
        }
    }
    let a_leaves: Vec<usize> = input
        .nodes
        .iter()
        .filter_map(|n| n.fact)
        .filter(|f| input.facts[*f].repr == 'A')
        .collect();
    assert_eq!(a_leaves.len(), 3);
    assert!(a_leaves.iter().all(|f| *f == a_leaves[0]));
}

#[test]
fn nodes_are_unmarked_after_resolution() {
    let mut input = loaded("A + B => C\nC => D\n=AB\n?D");
    assert_eq!(ask(&mut input, 'D'), Ok(Resolve::True));
    assert!(no_marks(&input));
}

#[test]
fn cycle_is_reported_and_leaves_no_mark() {
    let mut input = loaded("A => B\nB => A\n=\n?A");
    assert_eq!(ask(&mut input, 'A'), Err(ResolveError::InfiniteRule));
    assert!(no_marks(&input));
}

#[test]
fn reset_restores_initial_state() {
    let mut input = loaded("A => B\nB => C\n=A\n?C");
    assert_eq!(ask(&mut input, 'C'), Ok(Resolve::True));
    input.reset();
    for fact in input.facts.iter() {
        let initial = input.initial_facts.contains(&fact.repr);
        assert_eq!(fact.resolved, initial);
        assert_eq!(fact.value, if initial { Resolve::True } else { Resolve::False });
    }
}

#[test]
fn reset_then_resolve_is_idempotent() {
    let mut input = loaded("A => C | D\nA => C\nC => D\nB <=> !D\n=A\n?CDB");
    for q in ['B', 'C', 'D'] {
        input.reset();
        let first = ask(&mut input, q);
        let values: Vec<(Resolve, bool)> = input.facts.iter().map(|f| (f.value, f.resolved)).collect();
        input.reset();
        let second = ask(&mut input, q);
        let again: Vec<(Resolve, bool)> = input.facts.iter().map(|f| (f.value, f.resolved)).collect();
        assert_eq!(first, second);
        assert_eq!(values, again);
    }
}

#[test]
fn double_negation_resolves_like_block() {
    for facts in ["=", "=A", "=C", "=AC"] {
        let mut plain = loaded(&format!("A + C => B\n{}\n?B", facts));
        let mut doubled = loaded(&format!("!!A + C => B\n{}\n?B", facts));
        assert_eq!(ask(&mut plain, 'B'), ask(&mut doubled, 'B'));
    }
}

#[test]
fn twenty_negations_resolve_like_atom() {
    let mut off = loaded("!!!!!!!!!!!!!!!!!!!!A => B\n=\n?B");
    assert_eq!(ask(&mut off, 'B'), Ok(Resolve::False));
    let mut on = loaded("!!!!!!!!!!!!!!!!!!!!A => B\n=A\n?B");
    assert_eq!(ask(&mut on, 'B'), Ok(Resolve::True));
}

#[test]
fn adding_an_initial_fact_keeps_a_true_query_without_negation() {
    let mut before = loaded("A | B => C\n=A\n?C");
    assert_eq!(ask(&mut before, 'C'), Ok(Resolve::True));
    let mut after = loaded("A | B => C\n=AB\n?C");
    assert_eq!(ask(&mut after, 'C'), Ok(Resolve::True));
}

#[test]
fn negation_breaks_monotonicity() {
    let mut before = loaded("!A => B\n=\n?B");
    assert_eq!(ask(&mut before, 'B'), Ok(Resolve::True));
    let mut after = loaded("!A => B\n=A\n?B");
    assert_eq!(ask(&mut after, 'B'), Ok(Resolve::False));
}

#[test]
fn block_boundaries() {
    let mut input = Input::new();
    assert_eq!(input.parse_rule_block("()"), Err(ParseError::UnusedContext));
    assert_eq!(input.parse_rule_block("A+"), Err(ParseError::IncompleteRoot));
    assert_eq!(input.parse_rule_block("+A"), Err(ParseError::IncompleteRoot));
    assert_eq!(input.parse_rule_block("!"), Err(ParseError::IncompleteRoot));
    assert_eq!(input.parse_rule_block("A | B"), Err(ParseError::InvalidCharacter));
    assert!(input.parse_rule_block("!!!!!!!!!!!!!!!!!!!!A").is_ok());
    assert!(input.nodes.iter().all(|n| !n.visited));
}

#[test]
fn block_error_kinds() {
    let mut input = Input::new();
    assert_eq!(input.parse_rule_block("A$B"), Err(ParseError::InvalidCharacter));
    assert_eq!(input.parse_rule_block(")A("), Err(ParseError::CloseOnRoot));
    assert_eq!(input.parse_rule_block("(A"), Err(ParseError::UnclosedContext));
    assert_eq!(input.parse_rule_block("AB"), Err(ParseError::IncompleteRoot));
    assert_eq!(input.facts.len(), 0);
    assert_eq!(input.nodes.len(), 0);
}

#[test]
fn precedence_of_infix_operators() {
    let mut input = Input::new();
    let n = input.parse_rule_block("A+B|C").unwrap();
    assert_eq!(input.nodes[n].operator, Some(Operator::Or));
    let n = input.parse_rule_block("A|B+C").unwrap();
    assert_eq!(input.nodes[n].operator, Some(Operator::Or));
    let r = input.nodes[n].right.unwrap();
    assert_eq!(input.nodes[r].operator, Some(Operator::And));
    let n = input.parse_rule_block("A^B|C").unwrap();
    assert_eq!(input.nodes[n].operator, Some(Operator::Xor));
    let n = input.parse_rule_block("A+B+C").unwrap();
    let l = input.nodes[n].left.unwrap();
    assert_eq!(input.nodes[l].operator, Some(Operator::And));
    assert_eq!(Node::describe(&input.facts, &input.nodes, n), "((A + B) + C)");
}

#[test]
fn rule_text() {
    let mut input = Input::new();
    assert!(input.parse_rule("A + !B => (C | D)").is_ok());
    let r = input.rules[0];
    assert_eq!(Node::describe(&input.facts, &input.nodes, r), "(A + !B) => (C | D)");
    assert!(input.parse_rule("A <=> B").is_ok());
    assert_eq!(Node::describe(&input.facts, &input.nodes, input.rules[1]), "A <=> B");
}

#[test]
fn rule_registration() {
    let mut input = Input::new();
    assert!(input.parse_rule("A => B + C").is_ok());
    assert!(input.parse_rule("D <=> B").is_ok());
    let b = input.find_fact('B').unwrap();
    let a = input.find_fact('A').unwrap();
    let d = input.find_fact('D').unwrap();
    assert_eq!(input.facts[b].rules, vec![input.rules[0], input.rules[1]]);
    assert!(input.facts[a].rules.is_empty());
    assert_eq!(input.facts[d].rules, vec![input.rules[1]]);
}

#[test]
fn line_error_kinds() {
    let mut input = Input::new();
    assert_eq!(input.parse_rule("A B"), Err(InputError::NotARule));
    assert_eq!(
        input.parse_rule("A => B$"),
        Err(InputError::Block(ParseError::InvalidCharacter))
    );
    assert_eq!(input.parse_initial_facts("A"), Err(InputError::NotInitialFacts));
    assert_eq!(input.parse_initial_facts("=a"), Err(InputError::InvalidInitialFact));
    assert_eq!(input.parse_queries("B"), Err(InputError::NotQueries));
    assert_eq!(input.parse_queries("?b"), Err(InputError::InvalidQuery));
    assert_eq!(input.parse_queries("?"), Err(InputError::EmptyQueries));
    assert_eq!(input.rules.len(), 0);
}

#[test]
fn content_error_kinds() {
    assert_eq!(
        Input::new().parse_content("A => B\n?B"),
        Err(InputError::MissingInitialFacts)
    );
    assert_eq!(Input::new().parse_content("A => B\n=A"), Err(InputError::MissingQueries));
    assert_eq!(
        Input::new().parse_content("A => B\n=A\n?B\nC => D"),
        Err(InputError::QueriesNotLast)
    );
    assert_eq!(
        Input::new().parse_content("A => B\n=A\n?B\n\n# done\n   \n"),
        Ok(())
    );
    assert_eq!(
        Input::new().parse_content("A => (B\n=A\n?B"),
        Err(InputError::Block(ParseError::UnclosedContext))
    );
    assert_eq!(Input::new().parse_content("hello\n=A\n?B"), Err(InputError::NotARule));
}

#[test]
fn comments_and_indentation() {
    let mut input = loaded("  # rules\n\tA => B # why\r\n  =A  # facts\n?B # ask\n");
    assert_eq!(input.initial_facts, vec!['A']);
    assert_eq!(input.queries, vec!['B']);
    assert_eq!(ask(&mut input, 'B'), Ok(Resolve::True));
}

#[test]
fn spaced_initial_facts_and_queries() {
    let mut input = Input::new();
    assert!(input.parse_initial_facts("= A\tB  A").is_ok());
    assert_eq!(input.initial_facts, vec!['A', 'B']);
    assert!(input.parse_queries("? C A C").is_ok());
    assert_eq!(input.queries, vec!['C', 'A']);
}

#[test]
fn warnings_name_the_atom() {
    let mut input = loaded("A => B\n=AAZ\n?BBQ");
    assert_eq!(
        input.warnings,
        vec![
            "Duplicate initial fact for symbol A".to_string(),
            "Unused initial fact Z".to_string(),
            "Duplicate query for fact B".to_string(),
            "Query for missing fact Q".to_string(),
        ]
    );
    assert_eq!(ask(&mut input, 'Q'), Ok(Resolve::False));
    assert_eq!(ask(&mut input, 'Z'), Ok(Resolve::True));
    assert!(input.check().is_ok());
    let mut empty = loaded("=A\n?A");
    assert!(empty.check().is_ok());
    assert_eq!(
        empty.warnings,
        vec!["Unused initial fact A".to_string(), "No rules".to_string()]
    );
}

#[test]
fn trace_names_facts_and_rules() {
    let mut input = loaded("A => B\n=A\n?B");
    let mut path: Vec<String> = vec![];
    assert_eq!(input.resolve_query('B', &mut path), Ok(Resolve::True));
    assert!(path.contains(&"A => B".to_string()));
    assert!(path.contains(&"A is true".to_string()));
    assert!(path.contains(&"B is true".to_string()));
}

#[test]
fn reparse_replaces_lists() {
    let mut input = loaded("A => B\n=A\n?B");
    assert!(input.reparse_initial_facts("=C").is_ok());
    assert_eq!(input.initial_facts, vec!['C']);
    input.reset();
    assert_eq!(ask(&mut input, 'B'), Ok(Resolve::False));
    assert!(input.reparse_queries("?AC").is_ok());
    assert_eq!(input.queries, vec!['A', 'C']);
    assert_eq!(input.reparse_queries("?a"), Err(InputError::InvalidQuery));
    assert!(input.queries.is_empty());
}

#[test]
fn conclusion_errors() {
    let mut input = Input::new();
    assert!(input.parse_rule("A => B").is_ok());
    let r = input.rules[0];
    let mut collected: Vec<usize> = vec![];
    assert_eq!(
        Node::resolve_conclusion(&input.nodes, r, Resolve::True, &mut collected),
        Err(ResolveError::DisallowedInConclusion)
    );
    assert_eq!(
        Node::resolve_conclusion(&input.nodes, 99, Resolve::True, &mut collected),
        Err(ResolveError::EmptyNode)
    );
    let right = input.nodes[r].right.unwrap();
    assert_eq!(
        Node::resolve_conclusion(&input.nodes, right, Resolve::True, &mut collected),
        Ok(Resolve::True)
    );
    assert_eq!(collected, vec![input.find_fact('B').unwrap()]);
}

#[test]
fn disjunctive_conclusion_propagates_ambiguity() {
    let mut input = Input::new();
    let n = input.parse_rule_block("B|!C").unwrap();
    let mut collected: Vec<usize> = vec![];
    assert_eq!(
        Node::resolve_conclusion(&input.nodes, n, Resolve::True, &mut collected),
        Ok(Resolve::Ambiguous)
    );
    assert_eq!(collected.len(), 2);
    assert_eq!(Node::all_facts(&input.nodes, n), collected);
    let c = input.find_fact('C').unwrap();
    assert!(Node::contains_fact(&input.facts, &input.nodes, n, 'C'));
    assert!(!Node::contains_fact(&input.facts, &input.nodes, n, 'D'));
    assert_eq!(input.facts[c].repr, 'C');
}

#[test]
fn truth_operations() {
    assert_eq!(Resolve::True.not(), Resolve::False);
    assert_eq!(Resolve::False.not(), Resolve::True);
    assert_eq!(Resolve::Ambiguous.not(), Resolve::Ambiguous);
    assert!(Resolve::True.is_true() && !Resolve::True.is_false());
    assert!(Resolve::Ambiguous.is_ambiguous());
    assert_eq!(Node::match_operator('+'), Some(Operator::And));
    assert_eq!(Node::match_operator('|'), Some(Operator::Or));
    assert_eq!(Node::match_operator('^'), Some(Operator::Xor));
    assert_eq!(Node::match_operator('!'), None);
    let node = Node::operator(Operator::Not);
    assert!(node.has_operator() && node.operator_eq(&Operator::Not));
    assert!(!node.has_left() && !node.has_right() && !node.has_fact());
    assert_eq!(Node::new().operator, None);
}

#[test]
fn fact_setters_and_cleanup() {
    let mut fact = Fact { repr: 'A', value: Resolve::False, resolved: false, rules: vec![] };
    fact.set_value(Resolve::Ambiguous);
    assert_eq!((fact.value, fact.resolved), (Resolve::Ambiguous, false));
    fact.set(Resolve::True);
    assert_eq!((fact.value, fact.resolved), (Resolve::True, true));
    let mut input = loaded("A + B => C\n=A\n?C");
    for node in input.nodes.iter_mut() {
        node.visited = true;
    }
    let c = input.find_fact('C').unwrap();
    Fact::cleanup(&input.facts, &mut input.nodes, c);
    assert!(input.nodes.iter().all(|n| !n.visited));
    input.nodes[0].visited = true;
    let root = input.rules[0];
    Node::cleanup(&mut input.nodes, root);
    assert!(input.nodes.iter().all(|n| !n.visited));
}

#[test]
fn biconditional_drives_either_side() {
    let mut input = loaded("A <=> B\n=B\n?A");
    assert_eq!(ask(&mut input, 'A'), Ok(Resolve::True));
    let mut input = loaded("A <=> B\n=\n?AB");
    assert_eq!(ask(&mut input, 'A'), Ok(Resolve::False));
    assert_eq!(ask(&mut input, 'B'), Ok(Resolve::False));
}

#[test]
fn arrows_inside_comments_are_ignored() {
    let mut input = loaded("A => B # not C <=> D\n=A # E => F\n?B");
    assert_eq!(input.rules.len(), 1);
    assert_eq!(Node::describe(&input.facts, &input.nodes, input.rules[0]), "A => B");
    assert_eq!(input.initial_facts, vec!['A']);
    assert_eq!(ask(&mut input, 'B'), Ok(Resolve::True));
}

#[test]
fn cyclic_biconditional_counts_as_false_and_later_rules_run() {
    let mut input = loaded("C <=> A\nD => A\nC => C\n=D\n?A");
    assert_eq!(ask(&mut input, 'A'), Ok(Resolve::True));
    assert!(no_marks(&input));
}

#[test]
fn reparse_keeps_only_the_new_warnings() {
    let mut input = loaded("A => B\n=AA\n?B");
    assert_eq!(input.warnings.len(), 1);
    assert!(input.reparse_queries("?BBZ").is_ok());
    assert_eq!(
        input.warnings,
        vec!["Duplicate query for fact B".to_string(), "Query for missing fact Z".to_string()]
    );
    let z = input.find_fact('Z').unwrap();
    assert!(input.facts[z].rules.is_empty() && !input.facts[z].resolved);
}
