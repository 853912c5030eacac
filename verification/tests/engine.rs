use lsysgen::ast::CtxNode;
use lsysgen::ast::Expr;
use lsysgen::ast::Leaf;
use lsysgen::ast::LeftLeaf;
use lsysgen::ast::Node as WordNode;
use lsysgen::ast::Rule;
use lsysgen::ast::RuleBase;
use lsysgen::ast::RulesTable;
use lsysgen::ast::Word;
use lsysgen::eval::eval;
use lsysgen::lsystem::LSystem;
use lsysgen::node::Instance;
use lsysgen::node::Node;
use lsysgen::node::NodeContent;
use lsysgen::rng::Lcg;
use lsysgen::rng::weighted_choice;
use lsysgen::tree::Tree;
use lsysgen::tree::TreeError;
use lsysgen::values::Parameter;
use lsysgen::values::Scope;
use lsysgen::values::Value;

fn leaf(ch: char) -> NodeContent<Instance, char> {
    NodeContent::new_instance(ch)
}

fn leaf_with(ch: char, vals: Vec<Value>) -> NodeContent<Instance, char> {
    NodeContent {
        character: ch,
        context: Instance { values: vals },
    }
}

fn plain_rule(from: char, to: &str, weight: u32, coding: bool) -> Rule {
    let succ: Vec<WordNode> = to
        .chars()
        .map(|c| WordNode::Leaf(Leaf { symbol: c, args: None }))
        .collect();
    let base = RuleBase {
        weight,
        left_leaf: LeftLeaf { symbol: from, params: None },
        condition: None,
        l_ctx: Vec::new(),
        r_ctx: Vec::new(),
        right_side: Word(succ),
    };
    if coding {
        Rule::Coding(base)
    } else {
        Rule::Production(base)
    }
}

fn symbols(t: &Tree<Instance, char>) -> String {
    let mut s = String::new();
    let mut i = 0usize;
    while i < t.len() {
        match t.node_at(i) {
            Node::BranchStart(_) => s.push('['),
            Node::BranchEnd(_) => s.push(']'),
            Node::Leaf(c) => s.push(c.character),
        }
        i += 1;
    }
    s
}

fn empty_table(name: &str) -> RulesTable {
    RulesTable { name: Some(name.to_string()), rules: Vec::new() }
}

#[test]
fn branch_markers_point_at_each_other() {
    // A [ B ] C : the open marker and the close marker reference each other
    let mut t: Tree<Instance, char> = Tree::new();
    t.add_leaf(leaf('A'));
    t.open_branch();
    t.add_leaf(leaf('B'));
    assert!(t.close_branch().is_ok());
    t.add_leaf(leaf('C'));
    match t.node_at(1) {
        Node::BranchStart(j) => {
            assert_eq!(*j, 3usize);
            match t.node_at(*j) {
                Node::BranchEnd(i) => assert_eq!(*i, 1usize),
                _ => panic!("expected a close marker"),
            }
        }
        _ => panic!("expected an open marker"),
    }
    assert_eq!(symbols(&t), "A[B]C");
}

#[test]
fn close_without_open_fails() {
    let mut t: Tree<Instance, char> = Tree::new();
    t.add_leaf(leaf('A'));
    assert_eq!(t.close_branch(), Err(TreeError::UnbalancedBranch));
    // the sequence is untouched
    assert_eq!(t.len(), 1);
}

#[test]
fn scope_lookup_falls_back_to_parent() {
    let mut parent = Scope::new();
    parent.set("x".to_string(), Value::Int(1));
    parent.set("y".to_string(), Value::Int(2));
    let mut child = Scope::child_of(&parent);
    child.set("x".to_string(), Value::Int(10));
    // local binding shadows the parent
    match child.get(&"x".to_string()) {
        Some(Value::Int(v)) => assert_eq!(*v, 10),
        _ => panic!("expected the child's binding"),
    }
    // absent locally: the parent answers
    match child.get(&"y".to_string()) {
        Some(Value::Int(v)) => assert_eq!(*v, 2),
        _ => panic!("expected the parent's binding"),
    }
    assert!(child.has(&"x".to_string()));
    assert!(!child.has(&"y".to_string()));
}

#[test]
fn scope_set_never_alters_parent() {
    let mut parent = Scope::new();
    parent.set("x".to_string(), Value::Int(1));
    {
        let mut child = Scope::child_of(&parent);
        child.set("x".to_string(), Value::Int(99));
        match child.get(&"x".to_string()) {
            Some(Value::Int(v)) => assert_eq!(*v, 99),
            _ => panic!(),
        }
    }
    match parent.get(&"x".to_string()) {
        Some(Value::Int(v)) => assert_eq!(*v, 1),
        _ => panic!("parent binding must be untouched"),
    }
}

#[test]
fn evaluator_arithmetic() {
    let s = Scope::new();
    // 2 + 3 * 4 == 14
    let e = Expr::Add(
        Box::new(Expr::Int(2)),
        Box::new(Expr::Mul(Box::new(Expr::Int(3)), Box::new(Expr::Int(4)))),
    );
    assert!(matches!(eval(&e, &s, 1000), Value::Int(14)));
    // truncated division and remainder
    let d = Expr::Div(Box::new(Expr::Int(-7)), Box::new(Expr::Int(2)));
    assert!(matches!(eval(&d, &s, 1000), Value::Int(-3)));
    let m = Expr::Mod(Box::new(Expr::Int(-7)), Box::new(Expr::Int(2)));
    assert!(matches!(eval(&m, &s, 1000), Value::Int(-1)));
    // division by zero is the error value
    let z = Expr::Div(Box::new(Expr::Int(1)), Box::new(Expr::Int(0)));
    assert!(matches!(eval(&z, &s, 1000), Value::Error));
    // power
    let p = Expr::Pow(Box::new(Expr::Int(2)), Box::new(Expr::Int(10)));
    assert!(matches!(eval(&p, &s, 1000), Value::Int(1024)));
}

#[test]
fn evaluator_errors_propagate() {
    let s = Scope::new();
    // unknown identifier is the error value, and it propagates
    let e = Expr::Add(Box::new(Expr::Int(1)), Box::new(Expr::ID("nope".to_string())));
    assert!(matches!(eval(&e, &s, 1000), Value::Error));
    // type mismatch is the error value
    let e2 = Expr::Add(Box::new(Expr::Int(1)), Box::new(Expr::Bool(true)));
    assert!(matches!(eval(&e2, &s, 1000), Value::Error));
    // short-circuit: false && <error> is false
    let e3 = Expr::And(
        Box::new(Expr::Bool(false)),
        Box::new(Expr::ID("nope".to_string())),
    );
    assert!(matches!(eval(&e3, &s, 1000), Value::Bool(false)));
    // overflow is the error value
    let e4 = Expr::Add(Box::new(Expr::Int(i64::MAX)), Box::new(Expr::Int(1)));
    assert!(matches!(eval(&e4, &s, 1000), Value::Error));
}

#[test]
fn evaluator_lambda_call() {
    let s = Scope::new();
    // ((x) -> x + 1)(41) == 42
    let lam = Expr::Lambda(
        vec![Parameter { name: "x".to_string() }],
        std::rc::Rc::new(Expr::Add(
            Box::new(Expr::ID("x".to_string())),
            Box::new(Expr::Int(1)),
        )),
    );
    let call = Expr::FnCall(Box::new(lam), vec![Expr::Int(41)]);
    assert!(matches!(eval(&call, &s, 1000), Value::Int(42)));
    // wrong arity is the error value
    let lam2 = Expr::Lambda(
        vec![Parameter { name: "x".to_string() }],
        std::rc::Rc::new(Expr::ID("x".to_string())),
    );
    let bad = Expr::FnCall(Box::new(lam2), vec![Expr::Int(1), Expr::Int(2)]);
    assert!(matches!(eval(&bad, &s, 1000), Value::Error));
}

#[test]
fn weighted_choice_intervals() {
    // weights [1, 3]: draw 0 selects the first rule, draws 1..3 the second
    let ws = vec![1u32, 3u32];
    assert_eq!(weighted_choice(&ws, 0), 0);
    assert_eq!(weighted_choice(&ws, 1), 1);
    assert_eq!(weighted_choice(&ws, 2), 1);
    assert_eq!(weighted_choice(&ws, 3), 1);
    // a zero weight is never selected
    let wz = vec![0u32, 2u32];
    assert_eq!(weighted_choice(&wz, 0), 1);
    assert_eq!(weighted_choice(&wz, 1), 1);
}

#[test]
fn weighted_selection_frequency() {
    // weights [1, 3]: the second rule is selected with frequency near 3/4
    let ws = vec![1u32, 3u32];
    let mut rng = Lcg::new(0xfeed_5eed);
    let mut second = 0u32;
    let trials = 10000u32;
    for _ in 0..trials {
        let draw = rng.draw_below(4);
        if weighted_choice(&ws, draw) == 1 {
            second += 1;
        }
    }
    let freq = second as f64 / trials as f64;
    assert!((freq - 0.75).abs() < 0.03, "frequency {} out of tolerance", freq);
}

#[test]
fn fibonacci_word_growth() {
    // rules A -> B, B -> A B over A: lengths 1, 1, 2, 3, 5
    let table = RulesTable {
        name: None,
        rules: vec![plain_rule('A', "B", 1, false), plain_rule('B', "AB", 1, false)],
    };
    let mut start: Tree<Instance, char> = Tree::new();
    start.add_leaf(leaf('A'));
    let mut sys = LSystem::new(
        "fibo".to_string(),
        start,
        Vec::new(),
        table,
        empty_table("coding"),
        Vec::new(),
        4,
        Scope::new(),
        7,
    );
    let expected = ["A", "B", "AB", "BAB", "ABBAB"];
    assert_eq!(symbols(sys.current_generation()), expected[0]);
    for want in expected.iter().skip(1) {
        sys.step(100000);
        assert_eq!(symbols(sys.current_generation()), *want);
    }
    assert_eq!(sys.current_iteration(), 4);
}

#[test]
fn empty_context_rule_matches_inside_branches() {
    // a context-free rule rewrites its symbol wherever it stands
    let table = RulesTable { name: None, rules: vec![plain_rule('A', "BB", 1, false)] };
    let mut start: Tree<Instance, char> = Tree::new();
    start.add_leaf(leaf('C'));
    start.open_branch();
    start.add_leaf(leaf('A'));
    start.close_branch().unwrap();
    start.add_leaf(leaf('A'));
    let mut sys = LSystem::new(
        "ctxfree".to_string(),
        start,
        Vec::new(),
        table,
        empty_table("coding"),
        Vec::new(),
        1,
        Scope::new(),
        1,
    );
    sys.step(100000);
    assert_eq!(symbols(sys.current_generation()), "C[BB]BB");
}

#[test]
fn failing_guard_passes_leaf_through() {
    // guard x > 0 with x bound to -1: the rule is not viable and the leaf
    // passes through unchanged
    let base = RuleBase {
        weight: 1,
        left_leaf: LeftLeaf { symbol: 'A', params: Some(vec!["x".to_string()]) },
        condition: Some(Expr::GT(
            Box::new(Expr::ID("x".to_string())),
            Box::new(Expr::Int(0)),
        )),
        l_ctx: Vec::new(),
        r_ctx: Vec::new(),
        right_side: Word(vec![WordNode::Leaf(Leaf { symbol: 'B', args: None })]),
    };
    let table = RulesTable { name: None, rules: vec![Rule::Production(base)] };
    let mut start: Tree<Instance, char> = Tree::new();
    start.add_leaf(leaf_with('A', vec![Value::Int(-1)]));
    let mut sys = LSystem::new(
        "guarded".to_string(),
        start,
        Vec::new(),
        table,
        empty_table("coding"),
        Vec::new(),
        1,
        Scope::new(),
        1,
    );
    sys.step(100000);
    assert_eq!(symbols(sys.current_generation()), "A");
    // the value rode along unchanged
    match sys.current_generation().node_at(0) {
        Node::Leaf(c) => assert!(matches!(c.context.values[0], Value::Int(-1))),
        _ => panic!(),
    }
}

#[test]
fn passing_guard_rewrites_leaf() {
    let base = RuleBase {
        weight: 1,
        left_leaf: LeftLeaf { symbol: 'A', params: Some(vec!["x".to_string()]) },
        condition: Some(Expr::GT(
            Box::new(Expr::ID("x".to_string())),
            Box::new(Expr::Int(0)),
        )),
        l_ctx: Vec::new(),
        r_ctx: Vec::new(),
        right_side: Word(vec![WordNode::Leaf(Leaf { symbol: 'B', args: None })]),
    };
    let table = RulesTable { name: None, rules: vec![Rule::Production(base)] };
    let mut start: Tree<Instance, char> = Tree::new();
    start.add_leaf(leaf_with('A', vec![Value::Int(5)]));
    let mut sys = LSystem::new(
        "guarded2".to_string(),
        start,
        Vec::new(),
        table,
        empty_table("coding"),
        Vec::new(),
        1,
        Scope::new(),
        1,
    );
    sys.step(100000);
    assert_eq!(symbols(sys.current_generation()), "B");
}

#[test]
fn coding_pass_translates_terminal_sequence() {
    // terminal AB, coding rules A -> X, B -> Y: coded output XY
    let coding = RulesTable {
        name: Some("coding".to_string()),
        rules: vec![plain_rule('A', "X", 1, true), plain_rule('B', "Y", 1, true)],
    };
    let mut start: Tree<Instance, char> = Tree::new();
    start.add_leaf(leaf('A'));
    start.add_leaf(leaf('B'));
    let mut sys = LSystem::new(
        "coded".to_string(),
        start,
        Vec::new(),
        empty_table("default"),
        coding,
        Vec::new(),
        0,
        Scope::new(),
        1,
    );
    sys.run(100000);
    assert_eq!(sys.coded_outputs().len(), 1);
    assert_eq!(symbols(&sys.coded_outputs()[0]), "XY");
    // the terminal sequence itself is unchanged
    assert_eq!(symbols(sys.current_generation()), "AB");
}

#[test]
fn right_context_restricts_match() {
    // A -> B only before C: in "AC AD" only the first A is rewritten
    let base = RuleBase {
        weight: 1,
        left_leaf: LeftLeaf { symbol: 'A', params: None },
        condition: None,
        l_ctx: Vec::new(),
        r_ctx: vec![CtxNode::Leaf(LeftLeaf { symbol: 'C', params: None })],
        right_side: Word(vec![WordNode::Leaf(Leaf { symbol: 'B', args: None })]),
    };
    let table = RulesTable { name: None, rules: vec![Rule::Production(base)] };
    let mut start: Tree<Instance, char> = Tree::new();
    start.add_leaf(leaf('A'));
    start.add_leaf(leaf('C'));
    start.add_leaf(leaf('A'));
    start.add_leaf(leaf('D'));
    let mut sys = LSystem::new(
        "rctx".to_string(),
        start,
        Vec::new(),
        table,
        empty_table("coding"),
        Vec::new(),
        1,
        Scope::new(),
        1,
    );
    sys.step(100000);
    assert_eq!(symbols(sys.current_generation()), "BCAD");
}

#[test]
fn left_context_restricts_match() {
    // A -> B only after C: in "CA DA" only the first A is rewritten
    let base = RuleBase {
        weight: 1,
        left_leaf: LeftLeaf { symbol: 'A', params: None },
        condition: None,
        l_ctx: vec![CtxNode::Leaf(LeftLeaf { symbol: 'C', params: None })],
        r_ctx: Vec::new(),
        right_side: Word(vec![WordNode::Leaf(Leaf { symbol: 'B', args: None })]),
    };
    let table = RulesTable { name: None, rules: vec![Rule::Production(base)] };
    let mut start: Tree<Instance, char> = Tree::new();
    start.add_leaf(leaf('C'));
    start.add_leaf(leaf('A'));
    start.add_leaf(leaf('D'));
    start.add_leaf(leaf('A'));
    let mut sys = LSystem::new(
        "lctx".to_string(),
        start,
        Vec::new(),
        table,
        empty_table("coding"),
        Vec::new(),
        1,
        Scope::new(),
        1,
    );
    sys.step(100000);
    assert_eq!(symbols(sys.current_generation()), "CBDA");
}

#[test]
fn successor_arguments_are_evaluated() {
    // A(x) -> A(x + 1) carries an incremented value
    let base = RuleBase {
        weight: 1,
        left_leaf: LeftLeaf { symbol: 'A', params: Some(vec!["x".to_string()]) },
        condition: None,
        l_ctx: Vec::new(),
        r_ctx: Vec::new(),
        right_side: Word(vec![WordNode::Leaf(Leaf {
            symbol: 'A',
            args: Some(vec![Expr::Add(
                Box::new(Expr::ID("x".to_string())),
                Box::new(Expr::Int(1)),
            )]),
        })]),
    };
    let table = RulesTable { name: None, rules: vec![Rule::Production(base)] };
    let mut start: Tree<Instance, char> = Tree::new();
    start.add_leaf(leaf_with('A', vec![Value::Int(3)]));
    let mut sys = LSystem::new(
        "param".to_string(),
        start,
        Vec::new(),
        table,
        empty_table("coding"),
        Vec::new(),
        2,
        Scope::new(),
        1,
    );
    sys.step(100000);
    sys.step(100000);
    match sys.current_generation().node_at(0) {
        Node::Leaf(c) => assert!(matches!(c.context.values[0], Value::Int(5))),
        _ => panic!(),
    }
}

#[test]
fn ignored_symbols_are_transparent_to_context() {
    // A -> B before C, with D ignored: "ADC" still rewrites the A
    let base = RuleBase {
        weight: 1,
        left_leaf: LeftLeaf { symbol: 'A', params: None },
        condition: None,
        l_ctx: Vec::new(),
        r_ctx: vec![CtxNode::Leaf(LeftLeaf { symbol: 'C', params: None })],
        right_side: Word(vec![WordNode::Leaf(Leaf { symbol: 'B', args: None })]),
    };
    let table = RulesTable { name: None, rules: vec![Rule::Production(base)] };
    let mut start: Tree<Instance, char> = Tree::new();
    start.add_leaf(leaf('A'));
    start.add_leaf(leaf('D'));
    start.add_leaf(leaf('C'));
    let mut sys = LSystem::new(
        "ignored".to_string(),
        start,
        Vec::new(),
        table,
        empty_table("coding"),
        vec!['D'],
        1,
        Scope::new(),
        1,
    );
    sys.step(100000);
    assert_eq!(symbols(sys.current_generation()), "BDC");
}

#[test]
fn branched_successor_keeps_structure() {
    // A -> B [ C ] D produces nested branch markers
    let base = RuleBase {
        weight: 1,
        left_leaf: LeftLeaf { symbol: 'A', params: None },
        condition: None,
        l_ctx: Vec::new(),
        r_ctx: Vec::new(),
        right_side: Word(vec![
            WordNode::Leaf(Leaf { symbol: 'B', args: None }),
            WordNode::Branch(vec![WordNode::Leaf(Leaf { symbol: 'C', args: None })]),
            WordNode::Leaf(Leaf { symbol: 'D', args: None }),
        ]),
    };
    let table = RulesTable { name: None, rules: vec![Rule::Production(base)] };
    let mut start: Tree<Instance, char> = Tree::new();
    start.add_leaf(leaf('A'));
    let mut sys = LSystem::new(
        "branching".to_string(),
        start,
        Vec::new(),
        table,
        empty_table("coding"),
        Vec::new(),
        1,
        Scope::new(),
        1,
    );
    sys.step(100000);
    assert_eq!(symbols(sys.current_generation()), "B[C]D");
}

#[test]
fn branch_iteration_is_symmetric() {
    // X A [ B ] C Y : scanning forward from X and backward from Y visit
    // the same top-level items in opposite order; the skipped branch shows
    // its open marker forward and its close marker backward
    let mut t: Tree<Instance, char> = Tree::new();
    t.add_leaf(leaf('X'));
    t.add_leaf(leaf('A'));
    t.open_branch();
    t.add_leaf(leaf('B'));
    t.close_branch().unwrap();
    t.add_leaf(leaf('C'));
    t.add_leaf(leaf('Y'));
    // indices: 0 X, 1 A, 2 [, 3 B, 4 ], 5 C, 6 Y
    let mut fwd = t.branch_iter(0);
    let mut seen_fwd = Vec::new();
    while let Some(n) = fwd.next() {
        seen_fwd.push(match n {
            Node::BranchStart(j) => ('[', *j),
            Node::BranchEnd(i) => (']', *i),
            Node::Leaf(c) => (c.character, 0),
        });
    }
    assert_eq!(seen_fwd, vec![('A', 0), ('[', 4), ('C', 0), ('Y', 0)]);
    let mut bwd = t.branch_iter(6);
    let mut seen_bwd = Vec::new();
    while let Some(n) = bwd.next_back() {
        seen_bwd.push(match n {
            Node::BranchStart(j) => ('[', *j),
            Node::BranchEnd(i) => (']', *i),
            Node::Leaf(c) => (c.character, 0),
        });
    }
    // the same interior items (A, the branch, C) in reverse, plus each
    // scan's own far end
    assert_eq!(seen_bwd, vec![('C', 0), (']', 2), ('A', 0), ('X', 0)]);
}

#[test]
fn plain_iteration_visits_every_node() {
    let mut t: Tree<Instance, char> = Tree::new();
    t.add_leaf(leaf('A'));
    t.open_branch();
    t.add_leaf(leaf('B'));
    t.close_branch().unwrap();
    let mut it = t.iter();
    let mut count = 0usize;
    while let Some(_) = it.next() {
        count += 1;
    }
    assert_eq!(count, 4);
}
