use rustomaton::parse::{BinOp, Expr, Rule};
use rustomaton::transfer_fn::{make_binary_clause, make_transfer_fn, Predicate};
use rustomaton::{
    rustomaton, Automaton, AutomatonContext, AutomatonResult, AutomatonType, Body, BuildError,
    EatCheck, Exhausted, ParseError, SpecError,
};

const DFA: &str = "
    #[input(AutomatonContext)]
    #[init(0)]
    #[ends(3)]

    0 -> 1: eat(\"a\");
    0 -> 2: eat(\"b\");
    1 -> 2: eat(\"b\");
    2 -> 1: eat(\"a\");
    1 -> 3: eat(\"a\");
    2 -> 3: eat(\"b\");
    3 -> 3: eat(\"a\") || eat(\"b\")
";

fn build(text: &str) -> Automaton {
    match rustomaton(text) {
        Ok(a) => a,
        Err(e) => panic!("specification refused: {:?}", e),
    }
}

fn run_on(a: &Automaton, input: &str) -> AutomatonResult {
    let mut context = AutomatonContext::new(String::from(input));
    a.run(&EatCheck, &mut context)
}

fn eat(pat: &str) -> Predicate {
    Predicate::Check { name: b"eat".to_vec(), args: vec![pat.as_bytes().to_vec()] }
}

fn ctx(src: &str, cur: usize) -> AutomatonContext {
    AutomatonContext { src: String::from(src), cur }
}

#[test]
fn it_works() {
    assert_eq!(2 + 2, 4);
}

#[test]
fn dfa_test_tmp() {
    let automaton = build(DFA);
    let verdict = automaton.run(&EatCheck, &mut AutomatonContext {
        src: String::from("baaaaaaaaa"),
        cur: 0,
    });
    println!("{:?}", verdict);
    assert_eq!(verdict, AutomatonResult::Accepted);
}

#[test]
fn nfa_test_tmp() {
    let text = "
        #[init(0)]
        #[ends(7)]

        0 -> 5: _;
        5 -> 5: eat(\"a\") || eat(\"b\");
        5 -> 1: _;
        1 -> 3: eat(\"a\");
        1 -> 4: eat(\"b\");
        3 -> 2: eat(\"a\");
        4 -> 2: eat(\"b\");
        2 -> 6: _;
        6 -> 6: eat(\"a\") || eat(\"b\");
        6 -> 7: _
    ";
    let body = Body::parse(text).unwrap();
    assert_eq!(body.validate(), AutomatonType::NFA);
    match rustomaton(text) {
        Err(e) => {
            println!("{:?}", e);
            assert_eq!(e, SpecError::Build(BuildError::Nondeterministic));
        }
        Ok(_) => panic!("a state mixing epsilon and checked edges must not build"),
    }
}

#[test]
fn tmp_test_tmp() {
    let automaton = build(DFA);
    let verdict = automaton.run(&EatCheck, &mut AutomatonContext {
        src: String::from("baab"),
        cur: 0,
    });
    println!("{:?}", verdict);
    assert_eq!(verdict, AutomatonResult::Accepted);
}

#[test]
fn scenario_a_baab_accepted() {
    let automaton = build(DFA);
    let mut context = ctx("baab", 0);
    assert_eq!(automaton.run(&EatCheck, &mut context), AutomatonResult::Accepted);
    assert_eq!(context.cur, 4);
    assert_eq!(context.src, "baab");
}

#[test]
fn scenario_b_bb_reaches_final_state() {
    // 0 -> 2 on "b", then 2 -> 3 on the second "b": input used up in final state 3.
    let automaton = build(DFA);
    assert_eq!(run_on(&automaton, "bb"), AutomatonResult::Accepted);
}

#[test]
fn dead_end_rejects() {
    let automaton = build(DFA);
    let mut c = ctx("c", 0);
    assert_eq!(automaton.run(&EatCheck, &mut c), AutomatonResult::Rejected);
    assert_eq!(c.cur, 0);
    let mut c = ctx("bc", 0);
    assert_eq!(automaton.run(&EatCheck, &mut c), AutomatonResult::Rejected);
    assert_eq!(c.cur, 1);
}

#[test]
fn exhausted_context_is_left_unchanged() {
    let automaton = build(DFA);
    let mut c = ctx("ab", 2);
    assert_eq!(automaton.run(&EatCheck, &mut c), AutomatonResult::Rejected);
    assert_eq!(c.cur, 2);
    let a = build("#[init(0)] #[ends(0)] 0 -> 1: eat(\"a\")");
    let mut c = ctx("x", 1);
    assert_eq!(a.run(&EatCheck, &mut c), AutomatonResult::Accepted);
    assert_eq!(c.cur, 1);
}

#[test]
fn equal_contexts_give_equal_runs() {
    let automaton = build(DFA);
    let mut c1 = ctx("baab", 0);
    let mut c2 = ctx("baab", 0);
    assert_eq!(automaton.run(&EatCheck, &mut c1), automaton.run(&EatCheck, &mut c2));
    assert_eq!(c1.cur, c2.cur);
    assert_eq!(c1.src, c2.src);
}

#[test]
fn exhausted_in_non_final_state_rejects() {
    let automaton = build(DFA);
    assert_eq!(run_on(&automaton, "ab"), AutomatonResult::Rejected);
    assert_eq!(run_on(&automaton, "a"), AutomatonResult::Rejected);
}

#[test]
fn scenario_c_epsilon_fan_out() {
    let automaton = build("#[init(0)] #[ends(2)] 0->1:_; 1->2: eat(\"x\"); ");
    let mut context = ctx("x", 0);
    assert_eq!(automaton.run(&EatCheck, &mut context), AutomatonResult::Accepted);
    assert_eq!(context.cur, 1);
    assert_eq!(run_on(&automaton, "y"), AutomatonResult::Rejected);
}

#[test]
fn duplicate_edge_fails_to_build() {
    let text = "#[init(0)] #[ends(1)] 0 -> 1: eat(\"a\"); 0 -> 1: eat(\"b\")";
    match rustomaton(text) {
        Err(e) => assert_eq!(e, SpecError::Build(BuildError::DuplicateEdge { from: 0, to: 1 })),
        Ok(_) => panic!("duplicate edge accepted"),
    }
}

#[test]
fn duplicate_edge_reported_before_nondeterminism() {
    let text = "#[init(0)] #[ends(1)] 0 -> 1: eat(\"a\"); 0 -> 2: _; 0 -> 1: eat(\"b\")";
    match rustomaton(text) {
        Err(e) => assert_eq!(e, SpecError::Build(BuildError::DuplicateEdge { from: 0, to: 1 })),
        Ok(_) => panic!("duplicate edge accepted"),
    }
}

#[test]
fn any_named_check_compiles_and_is_resolved_by_the_check_set() {
    let a = build("#[init(0)] #[ends(1, 2)] 0 -> 1: eat_char(\"a\"); 0 -> 2: eat(\"a\")");
    assert_eq!(
        a.predicate(0, 1),
        Some(&Predicate::Check { name: b"eat_char".to_vec(), args: vec![b"a".to_vec()] })
    );
    let mut c = ctx("a", 0);
    assert_eq!(a.run(&EatCheck, &mut c), AutomatonResult::Accepted);
    assert_eq!(c.cur, 1);
    let b = build("#[init(0)] #[ends(1)] 0 -> 1: go || eat(\"a\", \"b\")");
    let mut c = ctx("a", 0);
    assert_eq!(b.run(&EatCheck, &mut c), AutomatonResult::Rejected);
    assert_eq!(c.cur, 0);
}

#[test]
fn build_is_idempotent() {
    let x = build(DFA);
    let y = build(DFA);
    assert_eq!(x.init_state(), y.init_state());
    assert_eq!(x.state_count(), 4);
    assert_eq!(y.state_count(), 4);
    for s in 0..10u64 {
        assert_eq!(x.has_state(s), y.has_state(s));
        assert_eq!(x.is_final(s), y.is_final(s));
        assert_eq!(x.successors(s), y.successors(s));
    }
    assert_eq!(x.successors(0), vec![1, 2]);
    assert_eq!(x.successors(1), vec![2, 3]);
    assert_eq!(x.successors(2), vec![1, 3]);
    assert_eq!(x.successors(3), vec![3]);
    assert!(x.is_final(3));
    assert!(!x.is_final(0));
}

#[test]
fn final_state_without_rules_is_a_state() {
    let a = build("#[init(0)] #[ends(9)] 0 -> 1: eat(\"a\")");
    assert!(a.has_state(9));
    assert!(a.is_final(9));
    assert_eq!(a.state_count(), 3);
    assert_eq!(a.successors(9), Vec::<u64>::new());
}

#[test]
fn first_declared_edge_wins() {
    let first = build("#[init(0)] #[ends(1)] 0 -> 1: eat(\"a\"); 0 -> 2: eat(\"a\")");
    assert_eq!(run_on(&first, "a"), AutomatonResult::Accepted);
    let second = build("#[init(0)] #[ends(2)] 0 -> 1: eat(\"a\"); 0 -> 2: eat(\"a\")");
    assert_eq!(run_on(&second, "a"), AutomatonResult::Rejected);
}

#[test]
fn failed_sibling_keeps_its_effect() {
    // The first edge consumes "a" and then fails on "x": the second edge sees the cursor at 1.
    let a = build("#[init(0)] #[ends(2)] 0 -> 1: eat(\"a\") && eat(\"x\"); 0 -> 2: eat(\"b\")");
    assert_eq!(run_on(&a, "ab"), AutomatonResult::Accepted);
    let mut c = ctx("aab", 0);
    assert_eq!(a.run(&EatCheck, &mut c), AutomatonResult::Rejected);
    assert_eq!(c.cur, 1);
    assert_eq!(run_on(&a, "b"), AutomatonResult::Accepted);
}

#[test]
fn and_short_circuits() {
    let p = Predicate::And(
        Box::new(eat("x")),
        Box::new(eat("y")),
    );
    let mut c = ctx("y", 0);
    assert!(!p.eval(&EatCheck, &mut c));
    assert_eq!(c.cur, 0);
    let mut c = ctx("xy", 0);
    assert!(p.eval(&EatCheck, &mut c));
    assert_eq!(c.cur, 2);
}

#[test]
fn or_short_circuits() {
    let p = Predicate::Or(
        Box::new(eat("x")),
        Box::new(eat("xy")),
    );
    let mut c = ctx("xy", 0);
    assert!(p.eval(&EatCheck, &mut c));
    assert_eq!(c.cur, 1);
    let mut c = ctx("zy", 0);
    assert!(!p.eval(&EatCheck, &mut c));
    assert_eq!(c.cur, 0);
}

#[test]
fn epsilon_cycle_terminates_rejected() {
    let a = build("#[init(0)] #[ends(1)] 0 -> 1: _; 1 -> 0: _");
    assert_eq!(run_on(&a, "a"), AutomatonResult::Rejected);
    let b = build("#[init(0)] #[ends(3)] 0 -> 1: eat(\"\"); 1 -> 0: eat(\"\") || eat(\"a\")");
    assert_eq!(run_on(&b, "a"), AutomatonResult::Rejected);
}

#[test]
fn empty_input_checks_initial_state() {
    let a = build("#[init(0)] #[ends(0)] 0 -> 1: eat(\"a\")");
    assert_eq!(run_on(&a, ""), AutomatonResult::Accepted);
    let b = build("#[init(0)] #[ends(1)] 0 -> 1: _");
    assert_eq!(run_on(&b, ""), AutomatonResult::Rejected);
}

#[test]
fn epsilon_fan_out_takes_first_branch() {
    let a = build("#[init(0)] #[ends(1, 2)] 0 -> 3: _; 0 -> 4: _; 3 -> 1: eat(\"b\"); 4 -> 2: eat(\"b\")");
    assert_eq!(run_on(&a, "b"), AutomatonResult::Accepted);
    assert_eq!(a.successors(0), vec![3, 4]);
}

#[test]
fn parse_gives_rules_in_order() {
    let body = Body::parse("#[init(4)] #[ends(5, 6)] 4 -> 5: _; 5 -> 6: (eat(\"a\") || go) && eat(\"b\");").unwrap();
    let expected = Body {
        input_type: None,
        init_stat: 4,
        fini_stats: vec![5, 6],
        rules: vec![
            Rule { begin_stat: 4, end_stat: 5, transfer: None },
            Rule {
                begin_stat: 5,
                end_stat: 6,
                transfer: Some(Expr::Binary {
                    op: BinOp::And,
                    left: Box::new(Expr::Paren(Box::new(Expr::Binary {
                        op: BinOp::Or,
                        left: Box::new(Expr::Call { name: b"eat".to_vec(), args: vec![b"a".to_vec()] }),
                        right: Box::new(Expr::Call { name: b"go".to_vec(), args: vec![] }),
                    }))),
                    right: Box::new(Expr::Call { name: b"eat".to_vec(), args: vec![b"b".to_vec()] }),
                }),
            },
        ],
    };
    assert_eq!(body, expected);
}

#[test]
fn input_declaration_names_the_context_type() {
    let body = Body::parse("#[input(Context)] #[init(0)] #[ends(1)] 0 -> 1: _").unwrap();
    assert_eq!(body.input_type, Some(b"Context".to_vec()));
    assert_eq!(body.init_stat, 0);
    let body = Body::parse("#[init(0)] #[ends(1)] #[input(Ctx)] 0 -> 1: _").unwrap();
    assert_eq!(body.input_type, Some(b"Ctx".to_vec()));
}

#[test]
fn and_binds_tighter_than_or() {
    let body = Body::parse("#[init(0)] #[ends(1)] 0 -> 1: a || b && c").unwrap();
    let call = |n: &str| Expr::Call { name: n.as_bytes().to_vec(), args: vec![] };
    let expected = Expr::Binary {
        op: BinOp::Or,
        left: Box::new(call("a")),
        right: Box::new(Expr::Binary { op: BinOp::And, left: Box::new(call("b")), right: Box::new(call("c")) }),
    };
    assert_eq!(body.rules[0].transfer, Some(expected));
    let body = Body::parse("#[init(0)] #[ends(1)] 0 -> 1: a && b && c").unwrap();
    let expected = Expr::Binary {
        op: BinOp::And,
        left: Box::new(Expr::Binary { op: BinOp::And, left: Box::new(call("a")), right: Box::new(call("b")) }),
        right: Box::new(call("c")),
    };
    assert_eq!(body.rules[0].transfer, Some(expected));
}

#[test]
fn parse_errors() {
    assert_eq!(Body::parse("#[ends(1)] 0 -> 1: _").unwrap_err(), ParseError::MissingInit);
    assert_eq!(Body::parse("#[init(0)] 0 -> 1: _").unwrap_err(), ParseError::MissingEnds);
    assert_eq!(Body::parse("#[init(0)] #[ends()] 0 -> 1: _").unwrap_err(), ParseError::MissingEnds);
    assert_eq!(Body::parse("#[init(0)] #[ends(1)]").unwrap_err(), ParseError::Syntax);
    assert_eq!(Body::parse("#[init(0)] #[ends(1)] 0 -> 1: eat(\"a\") & eat(\"b\")").unwrap_err(), ParseError::InvalidToken);
    assert_eq!(Body::parse("#[init(0)] #[ends(1)] 0 -> 1: eat(\"a").unwrap_err(), ParseError::InvalidToken);
    assert_eq!(Body::parse("#[init(0)] #[ends(1)] 0 -> 1: eat(1)").unwrap_err(), ParseError::Syntax);
    assert_eq!(Body::parse("#[init(0)] #[init(1)] #[ends(1)] 0 -> 1: _").unwrap_err(), ParseError::Syntax);
    assert_eq!(
        Body::parse("#[input(A)] #[input(B)] #[init(0)] #[ends(1)] 0 -> 1: _").unwrap_err(),
        ParseError::Syntax
    );
    assert_eq!(Body::parse("#[input(1)] #[init(0)] #[ends(1)] 0 -> 1: _").unwrap_err(), ParseError::Syntax);
    assert_eq!(Body::parse("#[init(0)] #[ends(1)] 0 -> 1: _;;").unwrap_err(), ParseError::Syntax);
    assert_eq!(Body::parse("#[init(0)] #[ends(1)] 0 -> 1: _ 1 -> 2: _").unwrap_err(), ParseError::Syntax);
    assert_eq!(
        Body::parse("#[init(18446744073709551616)] #[ends(1)] 0 -> 1: _").unwrap_err(),
        ParseError::Syntax
    );
    assert_eq!(
        rustomaton("#[ends(1)] 0 -> 1: _").err().unwrap(),
        SpecError::Parse(ParseError::MissingInit)
    );
}

#[test]
fn largest_state_number() {
    let body = Body::parse("#[init(18446744073709551615)] #[ends(0)] 18446744073709551615 -> 0: _").unwrap();
    assert_eq!(body.init_stat, u64::MAX);
    let a = Automaton::new(&body).unwrap();
    assert_eq!(run_on(&a, "z"), AutomatonResult::Rejected);
    assert!(a.has_state(u64::MAX));
}

#[test]
fn eat_moves_cursor_on_match_only() {
    let mut c = ctx("abc", 0);
    assert!(c.eat("ab"));
    assert_eq!(c.cur, 2);
    assert!(!c.eat("ab"));
    assert_eq!(c.cur, 2);
    assert!(!c.eat("cd"));
    assert!(c.eat("c"));
    assert_eq!(c.cur, 3);
    assert!(c.exhausted());
    assert!(c.eat(""));
    assert_eq!(c.cur, 3);
}

#[test]
fn compile_expressions() {
    assert_eq!(make_transfer_fn(&None), Predicate::Always);
    let e = Expr::Binary {
        op: BinOp::Or,
        left: Box::new(Expr::Wildcard),
        right: Box::new(Expr::Paren(Box::new(Expr::Call { name: b"eat".to_vec(), args: vec![b"q".to_vec()] }))),
    };
    assert_eq!(make_binary_clause(&e), Predicate::Or(Box::new(Predicate::Always), Box::new(eat("q"))));
    let bare = Expr::Call { name: b"go".to_vec(), args: vec![] };
    assert_eq!(make_transfer_fn(&Some(bare)), Predicate::Check { name: b"go".to_vec(), args: vec![] });
}

#[test]
fn predicate_of_edge() {
    let a = build(DFA);
    assert_eq!(
        a.predicate(3, 3),
        Some(&Predicate::Or(Box::new(eat("a")), Box::new(eat("b"))))
    );
    assert_eq!(a.predicate(0, 3), None);
    let e = build("#[init(0)] #[ends(1)] 0 -> 1: _");
    assert_eq!(e.predicate(0, 1), Some(&Predicate::Always));
}
