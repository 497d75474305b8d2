use letpass::frontend::ast::{AstNode, Program};
use letpass::frontend::decomplify::decomplify_program;
use letpass::frontend::uniquify::uniquify_program;
use std::rc::Rc;

fn name(text: &str) -> Rc<String> {
    Rc::new(text.to_owned())
}

fn lit(n: i64) -> AstNode {
    AstNode::Int(n)
}

fn var(text: &str) -> AstNode {
    AstNode::Var { name: name(text) }
}

fn read() -> AstNode {
    AstNode::Prim { op: name("read"), args: vec![] }
}

fn neg(a: AstNode) -> AstNode {
    AstNode::Prim { op: name("-"), args: vec![a] }
}

fn plus(a: AstNode, b: AstNode) -> AstNode {
    AstNode::Prim { op: name("+"), args: vec![a, b] }
}

fn bind(pairs: Vec<(&str, AstNode)>, body: AstNode) -> AstNode {
    AstNode::Let {
        bindings: pairs.into_iter().map(|(id, value)| (name(id), value)).collect(),
        body: Box::new(body),
    }
}

fn flat(exp: AstNode) -> AstNode {
    decomplify_program(Program { info: (), exp }).unwrap().exp
}

fn resolved(exp: AstNode) -> AstNode {
    uniquify_program(Program { info: (), exp }).exp
}

fn operands_atomic(e: &AstNode) -> bool {
    match e {
        AstNode::Prim { op, args } => {
            let strict = op.as_str() == "+" || op.as_str() == "-";
            args.iter().all(|a| {
                let atom = matches!(a, AstNode::Int(_) | AstNode::Var { .. });
                (atom || !strict) && operands_atomic(a)
            })
        }
        AstNode::Let { bindings, body } => {
            bindings.iter().all(|(_, value)| operands_atomic(value)) && operands_atomic(body)
        }
        _ => true,
    }
}

fn bound_names(e: &AstNode, out: &mut Vec<String>) {
    match e {
        AstNode::Prim { args, .. } => {
            for a in args {
                bound_names(a, out);
            }
        }
        AstNode::Let { bindings, body } => {
            for (id, value) in bindings {
                out.push((**id).clone());
                bound_names(value, out);
            }
            bound_names(body, out);
        }
        _ => {}
    }
}

fn binds_each_once(e: &AstNode) -> bool {
    let mut names = Vec::new();
    bound_names(e, &mut names);
    let mut sorted = names.clone();
    sorted.sort();
    sorted.dedup();
    sorted.len() == names.len()
}

fn samples() -> Vec<AstNode> {
    vec![
        plus(lit(2), plus(lit(2), lit(2))),
        bind(vec![("x", lit(42))], plus(var("x"), read())),
        bind(vec![("x", neg(lit(5)))], var("x")),
        neg(plus(neg(lit(1)), plus(read(), bind(vec![("y", read())], neg(var("y")))))),
        bind(
            vec![("a", plus(read(), read())), ("b", lit(1)), ("c", bind(vec![("d", read())], var("d")))],
            plus(plus(var("a"), var("b")), plus(var("c"), neg(var("b")))),
        ),
    ]
}

#[test]
fn flattened_operands_are_atoms() {
    for tree in samples() {
        let out = flat(tree);
        assert!(operands_atomic(&out), "{:?}", out);
    }
}

#[test]
fn negation_of_read_as_operand_keeps_its_operand() {
    let out = flat(plus(var("c"), neg(read())));
    assert_eq!(out, bind(vec![("tmp.0", neg(read()))], plus(var("c"), var("tmp.0"))));
    assert!(!operands_atomic(&out));
}

#[test]
fn negation_hoisted_as_it_stands_keeps_its_operand() {
    let out = flat(plus(lit(1), neg(neg(lit(2)))));
    assert_eq!(
        out,
        bind(vec![("tmp.0", neg(neg(lit(2))))], plus(lit(1), var("tmp.0")))
    );
    assert!(!operands_atomic(&out));
}

#[test]
fn plain_operands_flatten_to_a_fixed_point() {
    let trees = vec![
        plus(lit(2), plus(lit(2), lit(2))),
        bind(vec![("x", lit(42))], plus(var("x"), read())),
        plus(neg(lit(1)), read()),
        bind(vec![("x", bind(vec![("y", read())], var("y")))], neg(neg(var("x")))),
    ];
    for tree in trees {
        let once = flat(tree);
        assert_eq!(flat(once.clone()), once);
    }
}

#[test]
fn binding_with_a_binding_for_body_as_value_is_no_fixed_point() {
    let tree = bind(vec![("x", bind(vec![("y", lit(1))], bind(vec![("z", lit(2))], var("z"))))], var("x"));
    let once = flat(tree);
    assert_eq!(
        once,
        bind(vec![("y", lit(1)), ("x", bind(vec![("z", lit(2))], var("z")))], var("x"))
    );
    let twice = flat(once.clone());
    assert_eq!(twice, bind(vec![("z", lit(2)), ("x", var("z")), ("y", lit(1))], var("x")));
    assert_ne!(once, twice);
    assert_eq!(flat(twice.clone()), twice);
}

#[test]
fn names_differ_where_depths_or_identifiers_differ() {
    let tree = bind(
        vec![("x", lit(1)), ("y", bind(vec![("x", lit(2))], var("x")))],
        bind(vec![("z", var("x"))], bind(vec![("x", var("z"))], plus(var("x"), var("y")))),
    );
    let out = resolved(tree);
    assert_eq!(
        out,
        bind(
            vec![("x.1", lit(1)), ("y.1", bind(vec![("x.2", lit(2))], var("x.2")))],
            bind(
                vec![("z.2", var("x.1"))],
                bind(vec![("x.3", var("z.2"))], plus(var("x.3"), var("y.1")))
            ),
        )
    );
    assert!(binds_each_once(&out));
}

#[test]
fn one_identifier_at_one_depth_in_two_nodes_gets_one_name() {
    let tree = bind(
        vec![("y", bind(vec![("x", lit(2))], var("x")))],
        bind(vec![("x", var("y"))], var("x")),
    );
    let out = resolved(tree);
    assert_eq!(
        out,
        bind(
            vec![("y.1", bind(vec![("x.2", lit(2))], var("x.2")))],
            bind(vec![("x.2", var("y.1"))], var("x.2")),
        )
    );
    assert!(!binds_each_once(&out));
}

#[test]
fn one_identifier_twice_in_one_node_gets_one_name() {
    let out = resolved(bind(vec![("x", lit(1)), ("x", var("x"))], var("x")));
    assert_eq!(out, bind(vec![("x.1", lit(1)), ("x.1", var("x.1"))], var("x.1")));
    assert!(!binds_each_once(&out));
}

#[test]
fn identifier_with_a_dot_keeps_names_apart() {
    let out = resolved(bind(vec![("a", lit(1))], bind(vec![("a.1", var("a"))], var("a.1"))));
    assert_eq!(
        out,
        bind(vec![("a.1", lit(1))], bind(vec![("a.1.2", var("a.1"))], var("a.1.2")))
    );
    assert!(binds_each_once(&out));
}

#[test]
fn resolution_then_flattening() {
    let tree = bind(vec![("x", read())], plus(bind(vec![("x", neg(var("x")))], var("x")), var("x")));
    let out = flat(resolved(tree));
    assert_eq!(
        out,
        bind(
            vec![("x.1", read())],
            bind(
                vec![("tmp.0", bind(vec![("x.2", neg(var("x.2")))], var("x.2")))],
                plus(var("tmp.0"), var("x.1"))
            ),
        )
    );
}
