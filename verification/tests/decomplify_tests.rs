use letpass::frontend::ast::{AstNode, Program, Token};
use letpass::frontend::decomplify::{decomplify_program, Rco};
use letpass::frontend::flat::FlattenError;
use letpass::frontend::uniquify::uniquify_program;
use std::rc::Rc;

fn name(text: &str) -> Rc<String> {
    Rc::new(text.to_owned())
}

fn lit(n: i64) -> AstNode {
    AstNode::Int(n)
}

fn var(text: &str) -> AstNode {
    AstNode::Var { name: name(text) }
}

fn prim(op: &str, args: Vec<AstNode>) -> AstNode {
    AstNode::Prim { op: name(op), args }
}

fn bind(pairs: Vec<(&str, AstNode)>, body: AstNode) -> AstNode {
    AstNode::Let {
        bindings: pairs.into_iter().map(|(id, value)| (name(id), value)).collect(),
        body: Box::new(body),
    }
}

fn program(exp: AstNode) -> Program {
    Program { info: (), exp }
}

fn words(source: &str) -> Vec<String> {
    let mut out = Vec::new();
    let mut word = String::new();
    for c in source.chars() {
        if c == '(' || c == ')' || c == '[' || c == ']' || c.is_whitespace() {
            if !word.is_empty() {
                out.push(word.clone());
                word.clear();
            }
            if !c.is_whitespace() {
                out.push(c.to_string());
            }
        } else {
            word.push(c);
        }
    }
    if !word.is_empty() {
        out.push(word);
    }
    out
}

fn read_exp(words: &[String], at: &mut usize) -> AstNode {
    let word = words[*at].clone();
    *at += 1;
    if word != "(" {
        return match word.parse::<i64>() {
            Ok(n) => lit(n),
            Err(_) => var(&word),
        };
    }
    let head = words[*at].clone();
    *at += 1;
    if head == "let" {
        assert_eq!(words[*at], "(");
        *at += 1;
        let mut bindings = Vec::new();
        while words[*at] == "[" {
            *at += 1;
            let id = name(&words[*at]);
            *at += 1;
            let value = read_exp(words, at);
            assert_eq!(words[*at], "]");
            *at += 1;
            bindings.push((id, value));
        }
        assert_eq!(words[*at], ")");
        *at += 1;
        let body = read_exp(words, at);
        assert_eq!(words[*at], ")");
        *at += 1;
        return AstNode::Let { bindings, body: Box::new(body) };
    }
    let mut args = Vec::new();
    while words[*at] != ")" {
        args.push(read_exp(words, at));
    }
    *at += 1;
    prim(&head, args)
}

fn parse(source: &str) -> Program {
    let words = words(source);
    let mut at = 0;
    let exp = read_exp(&words, &mut at);
    assert_eq!(at, words.len());
    program(exp)
}

#[test]
fn decomplify_addition() {
    let ast = parse("(+ 2 (+ 2 2))");

    let decomplified = decomplify_program(ast);

    let tmp = Rc::new("tmp.0".to_owned());

    let expected = Program {
        info: (),
        exp: AstNode::Let {
            bindings: vec![(
                tmp.clone(),
                AstNode::Prim {
                    op: Rc::new("+".to_owned()),
                    args: vec![AstNode::Int(2), AstNode::Int(2)],
                },
            )],
            body: Box::new(AstNode::Prim {
                op: Rc::new("+".to_owned()),
                args: vec![AstNode::Int(2), AstNode::Var { name: tmp }],
            }),
        },
    };

    assert_eq!(decomplified, Ok(expected));
}

#[test]
fn decomplify_let_read() {
    let ast = parse("(let ([x 42]) (+ x (read)))");

    let decomplified = decomplify_program(ast);

    let tmp = Rc::new("tmp.0".to_owned());
    let x_var = Rc::new("x".to_owned());

    let expected = Program {
        info: (),
        exp: AstNode::Let {
            bindings: vec![(x_var.clone(), AstNode::Int(42))],
            body: Box::new(AstNode::Let {
                bindings: vec![(
                    tmp.clone(),
                    AstNode::Prim { op: Rc::new("read".to_owned()), args: vec![] },
                )],
                body: Box::new(AstNode::Prim {
                    op: Rc::new("+".to_owned()),
                    args: vec![AstNode::Var { name: x_var }, AstNode::Var { name: tmp }],
                }),
            }),
        },
    };

    assert_eq!(decomplified, Ok(expected));
}

#[test]
fn parse_helper_builds_the_tree() {
    assert_eq!(
        parse("(let ([x (- 5)]) x)").exp,
        bind(vec![("x", prim("-", vec![lit(5)]))], var("x"))
    );
    assert_eq!(parse("(read)").exp, prim("read", vec![]));
}

#[test]
fn negation_of_literal_needs_no_hoist() {
    let resolved = uniquify_program(parse("(let ([x (- 5)]) x)"));
    let expected = bind(vec![("x.1", prim("-", vec![lit(5)]))], var("x.1"));
    assert_eq!(resolved.exp, expected);
    let flat = decomplify_program(resolved);
    assert_eq!(flat, Ok(program(expected)));
}

#[test]
fn atoms_and_read_stay() {
    assert_eq!(decomplify_program(parse("7")), Ok(parse("7")));
    assert_eq!(decomplify_program(parse("y")), Ok(parse("y")));
    assert_eq!(decomplify_program(parse("(read)")), Ok(parse("(read)")));
    assert_eq!(decomplify_program(parse("(+ 1 y)")), Ok(parse("(+ 1 y)")));
    assert_eq!(decomplify_program(parse("(- y)")), Ok(parse("(- y)")));
}

#[test]
fn negation_hoists_its_operand() {
    assert_eq!(
        decomplify_program(parse("(- (read))")),
        Ok(parse("(let ([tmp.0 (read)]) (- tmp.0))"))
    );
    assert_eq!(
        decomplify_program(parse("(- (+ 1 2))")),
        Ok(parse("(let ([tmp.0 (+ 1 2)]) (- tmp.0))"))
    );
}

#[test]
fn addition_emits_left_record_first() {
    assert_eq!(
        decomplify_program(parse("(+ (read) (- 3))")),
        Ok(parse("(let ([tmp.0 (read)] [tmp.1 (- 3)]) (+ tmp.0 tmp.1))"))
    );
    assert_eq!(
        decomplify_program(parse("(+ (read) 3)")),
        Ok(parse("(let ([tmp.0 (read)]) (+ tmp.0 3))"))
    );
}

#[test]
fn nested_addition_takes_the_outer_temporary_first() {
    assert_eq!(
        decomplify_program(parse("(+ 1 (+ 2 (+ 3 4)))")),
        Ok(parse(
            "(let ([tmp.0 (let ([tmp.1 (+ 3 4)]) (+ 2 tmp.1))]) (+ 1 tmp.0))"
        ))
    );
}

#[test]
fn hoisted_negation_is_recorded_as_it_stands() {
    assert_eq!(
        decomplify_program(parse("(+ 1 (- (+ 2 3)))")),
        Ok(parse("(let ([tmp.0 (- (+ 2 3))]) (+ 1 tmp.0))"))
    );
}

#[test]
fn binding_operand_is_flattened_and_hoisted() {
    assert_eq!(
        decomplify_program(parse("(+ 1 (let ([y (- (read))]) y))")),
        Ok(parse(
            "(let ([tmp.0 (let ([tmp.1 (read)] [y (- tmp.1)]) y)]) (+ 1 tmp.0))"
        ))
    );
}

#[test]
fn changed_pairs_come_before_untouched_ones() {
    assert_eq!(
        decomplify_program(parse("(let ([a 1] [b (+ 2 (read))] [c 3] [d (- (read))]) (+ a d))")),
        Ok(parse(
            "(let ([tmp.0 (read)] [b (+ 2 tmp.0)] [tmp.1 (read)] [d (- tmp.1)] [a 1] [c 3]) (+ a d))"
        ))
    );
}

#[test]
fn binding_value_that_is_a_binding_is_spliced() {
    assert_eq!(
        decomplify_program(parse("(let ([x (let ([y 1]) y)]) x)")),
        Ok(parse("(let ([y 1] [x y]) x)"))
    );
}

#[test]
fn error_node_passes_through() {
    let error = AstNode::Error {
        msg: name("unexpected token"),
        token: Token { text: "]".to_owned() },
    };
    assert_eq!(decomplify_program(program(error.clone())), Ok(program(error.clone())));
    let inside = prim("+", vec![lit(1), error.clone()]);
    assert_eq!(decomplify_program(program(inside.clone())), Ok(program(inside)));
    let resolved = uniquify_program(program(bind(vec![("x", error.clone())], var("x"))));
    assert_eq!(resolved.exp, bind(vec![("x.1", error)], var("x.1")));
}

#[test]
fn unsupported_operator_is_fatal() {
    assert_eq!(decomplify_program(parse("(* 2 3)")), Err(FlattenError::UnknownOperator));
    assert_eq!(decomplify_program(parse("(+ 1 (* 2 3))")), Err(FlattenError::UnknownOperator));
    assert_eq!(
        decomplify_program(parse("(let ([x (* 2 3)]) x)")),
        Err(FlattenError::UnknownOperator)
    );
    assert_eq!(
        decomplify_program(parse("(let ([x 1]) (- (* 2 3)))")),
        Err(FlattenError::UnknownOperator)
    );
}

#[test]
fn wrong_arity_is_fatal() {
    assert_eq!(decomplify_program(parse("(+ 1)")), Err(FlattenError::WrongArity));
    assert_eq!(decomplify_program(parse("(+ 1 2 3)")), Err(FlattenError::WrongArity));
    assert_eq!(decomplify_program(parse("(-)")), Err(FlattenError::WrongArity));
    assert_eq!(decomplify_program(parse("(- 1 2)")), Err(FlattenError::WrongArity));
    assert_eq!(decomplify_program(parse("(read 1)")), Err(FlattenError::WrongArity));
    assert_eq!(decomplify_program(parse("(+ 1 (read 1))")), Err(FlattenError::WrongArity));
    assert_eq!(decomplify_program(parse("(+ 1 (- 1 2))")), Err(FlattenError::WrongArity));
    assert_eq!(decomplify_program(parse("(- (+ 1))")), Err(FlattenError::WrongArity));
}

#[test]
fn counter_runs_on_across_calls() {
    let mut rco = Rco::new();
    assert_eq!(
        rco.decomplify(parse("(- (read))")),
        Ok(parse("(let ([tmp.0 (read)]) (- tmp.0))").exp)
    );
    assert_eq!(
        rco.decomplify(parse("(+ (read) (read))")),
        Ok(parse("(let ([tmp.1 (read)] [tmp.2 (read)]) (+ tmp.1 tmp.2))").exp)
    );
}

#[test]
fn counter_starts_where_asked() {
    let mut rco = Rco::starting_at(41);
    assert_eq!(
        rco.decomplify(parse("(+ (- 1) (read))")),
        Ok(parse("(let ([tmp.41 (- 1)] [tmp.42 (read)]) (+ tmp.41 tmp.42))").exp)
    );
}

#[test]
fn exhausted_counter_is_fatal() {
    let mut rco = Rco::starting_at(i64::MAX);
    assert_eq!(rco.decomplify(parse("(+ 1 2)")), Ok(parse("(+ 1 2)").exp));
    assert_eq!(rco.decomplify(parse("(- (read))")), Err(FlattenError::CounterExhausted));
    let mut last = Rco::starting_at(i64::MAX - 1);
    assert_eq!(
        last.decomplify(parse("(- (read))")),
        Ok(parse("(let ([tmp.9223372036854775806 (read)]) (- tmp.9223372036854775806))").exp)
    );
    assert_eq!(last.decomplify(parse("(- (read))")), Err(FlattenError::CounterExhausted));
}

#[test]
fn flattening_flat_output_again_changes_nothing() {
    for source in ["(+ 2 (+ 2 2))", "(let ([x 42]) (+ x (read)))", "(let ([x (- 5)]) x)"] {
        let once = decomplify_program(parse(source)).unwrap();
        let twice = decomplify_program(once.clone()).unwrap();
        assert_eq!(once, twice);
    }
}

#[test]
fn flattening_nested_output_again_splices_it() {
    let once = decomplify_program(parse("(+ 1 (let ([y 2]) y))")).unwrap();
    assert_eq!(once, parse("(let ([tmp.0 (let ([y 2]) y)]) (+ 1 tmp.0))"));
    let twice = decomplify_program(once).unwrap();
    assert_eq!(twice, parse("(let ([y 2] [tmp.0 y]) (+ 1 tmp.0))"));
}

#[test]
fn copies_are_equal_and_independent() {
    let tree = parse("(let ([x (+ 1 (read))]) (- x))");
    let copy = tree.clone();
    assert_eq!(tree, copy);
    assert_eq!(tree.exp.copy(), copy.exp);
}
