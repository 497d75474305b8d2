use letpass::frontend::ast::{AstNode, Program};
use letpass::frontend::names::{decimal_string, make_tmp_name, make_unique_name};
use letpass::frontend::scopes::Scopes;
use letpass::frontend::uniquify::{uniquify_exp, uniquify_program};
use std::rc::Rc;

fn name(text: &str) -> Rc<String> {
    Rc::new(text.to_owned())
}

fn lit(n: i64) -> AstNode {
    AstNode::Int(n)
}

fn var(text: &str) -> AstNode {
    AstNode::Var { name: name(text) }
}

fn prim(op: &str, args: Vec<AstNode>) -> AstNode {
    AstNode::Prim { op: name(op), args }
}

fn bind(pairs: Vec<(&str, AstNode)>, body: AstNode) -> AstNode {
    AstNode::Let {
        bindings: pairs.into_iter().map(|(id, value)| (name(id), value)).collect(),
        body: Box::new(body),
    }
}

fn resolved(exp: AstNode) -> AstNode {
    uniquify_program(Program { info: (), exp }).exp
}

#[test]
fn numerals() {
    assert_eq!(decimal_string(0), "0");
    assert_eq!(decimal_string(7), "7");
    assert_eq!(decimal_string(10), "10");
    assert_eq!(decimal_string(109), "109");
    assert_eq!(decimal_string(1234567890), "1234567890");
    assert_eq!(decimal_string(u64::MAX), "18446744073709551615");
}

#[test]
fn generated_names() {
    assert_eq!(*make_unique_name(&name("x"), 1), "x.1");
    assert_eq!(*make_unique_name(&name("a.1"), 12), "a.1.12");
    assert_eq!(*make_tmp_name(0), "tmp.0");
    assert_eq!(*make_tmp_name(31), "tmp.31");
}

#[test]
fn binding_gets_its_depth() {
    assert_eq!(
        resolved(bind(vec![("x", lit(1))], var("x"))),
        bind(vec![("x.1", lit(1))], var("x.1"))
    );
}

#[test]
fn unbound_reference_stays() {
    assert_eq!(resolved(var("y")), var("y"));
    assert_eq!(
        resolved(bind(vec![("x", var("y"))], prim("+", vec![var("x"), var("z")]))),
        bind(vec![("x.1", var("y"))], prim("+", vec![var("x.1"), var("z")]))
    );
}

#[test]
fn inner_binding_shadows_outer() {
    let tree = bind(
        vec![("x", lit(1))],
        prim("+", vec![bind(vec![("x", lit(2))], var("x")), var("x")]),
    );
    let expected = bind(
        vec![("x.1", lit(1))],
        prim("+", vec![bind(vec![("x.2", lit(2))], var("x.2")), var("x.1")]),
    );
    assert_eq!(resolved(tree), expected);
}

#[test]
fn value_sees_its_own_name_and_those_to_its_left() {
    let tree = bind(
        vec![("a", var("a")), ("b", prim("+", vec![var("a"), var("c")])), ("c", var("b"))],
        var("c"),
    );
    let expected = bind(
        vec![
            ("a.1", var("a.1")),
            ("b.1", prim("+", vec![var("a.1"), var("c")])),
            ("c.1", var("b.1")),
        ],
        var("c.1"),
    );
    assert_eq!(resolved(tree), expected);
}

#[test]
fn value_of_inner_binding_sees_the_inner_name() {
    let tree = bind(vec![("x", lit(1))], bind(vec![("x", var("x"))], var("x")));
    let expected = bind(vec![("x.1", lit(1))], bind(vec![("x.2", var("x.2"))], var("x.2")));
    assert_eq!(resolved(tree), expected);
}

#[test]
fn scope_ends_with_its_binding() {
    let tree = prim("+", vec![bind(vec![("x", lit(1))], var("x")), var("x")]);
    let expected = prim("+", vec![bind(vec![("x.1", lit(1))], var("x.1")), var("x")]);
    assert_eq!(resolved(tree), expected);
}

#[test]
fn bindings_at_different_depths_get_different_names() {
    let tree = bind(
        vec![("x", bind(vec![("y", lit(1))], var("y")))],
        bind(vec![("y", var("x"))], bind(vec![("z", var("y"))], var("z"))),
    );
    let expected = bind(
        vec![("x.1", bind(vec![("y.2", lit(1))], var("y.2")))],
        bind(vec![("y.2", var("x.1"))], bind(vec![("z.3", var("y.2"))], var("z.3"))),
    );
    assert_eq!(resolved(tree), expected);
}

#[test]
fn sibling_bindings_of_one_name_share_a_name() {
    let tree = prim(
        "+",
        vec![bind(vec![("x", lit(1))], var("x")), bind(vec![("x", lit(2))], var("x"))],
    );
    let expected = prim(
        "+",
        vec![bind(vec![("x.1", lit(1))], var("x.1")), bind(vec![("x.1", lit(2))], var("x.1"))],
    );
    assert_eq!(resolved(tree), expected);
}

#[test]
fn resolution_inside_open_scopes() {
    let mut scopes = Scopes::new();
    scopes.enter();
    scopes.bind(name("x"), name("x.1"));
    scopes.bind(name("y"), name("y.1"));
    scopes.enter();
    scopes.bind(name("x"), name("x.2"));
    assert_eq!(scopes.depth(), 2);
    let tree = bind(vec![("z", var("x"))], prim("+", vec![var("y"), var("z")]));
    let expected = bind(vec![("z.3", var("x.2"))], prim("+", vec![var("y.1"), var("z.3")]));
    assert_eq!(uniquify_exp(&mut scopes, tree), expected);
    assert_eq!(scopes.depth(), 2);
    assert_eq!(*scopes.resolve(&name("x")), "x.2");
    assert_eq!(*scopes.resolve(&name("z")), "z");
}

#[test]
fn scope_stack() {
    let mut scopes = Scopes::new();
    assert_eq!(scopes.depth(), 0);
    assert_eq!(*scopes.resolve(&name("x")), "x");
    scopes.enter();
    scopes.bind(name("x"), name("first"));
    scopes.bind(name("x"), name("second"));
    assert_eq!(*scopes.resolve(&name("x")), "second");
    scopes.enter();
    assert_eq!(*scopes.resolve(&name("x")), "second");
    scopes.bind(name("x"), name("inner"));
    assert_eq!(*scopes.resolve(&name("x")), "inner");
    scopes.leave();
    assert_eq!(*scopes.resolve(&name("x")), "second");
    scopes.leave();
    assert_eq!(scopes.depth(), 0);
    assert_eq!(*scopes.resolve(&name("x")), "x");
}
