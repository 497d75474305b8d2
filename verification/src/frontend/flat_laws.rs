//! What holds of every flattened tree.
use crate::frontend::ast::Expr;
use crate::frontend::flat::{
    arity, atomize, emitted, flatten, flatten_pairs, lemma_operators_differ, op_minus, op_plus, op_read,
    Flat, FlattenError, Split,
};
use vstd::prelude::*;

verus! {

/// An atom is an integer literal or a variable.
pub open spec fn is_atom(e: Expr) -> bool {
    e is Int || e is Var
}

/// Every operand of every `+` and `-` in the tree is an atom.
pub open spec fn operands_atomic(e: Expr) -> bool
    decreases e,
{
    match e {
        Expr::Int(_) | Expr::Var { .. } | Expr::Error { .. } => true,
        Expr::Prim { op, args } => forall|i: int|
            0 <= i < args.len() ==> ((op == op_plus() || op == op_minus()) ==> is_atom(
                #[trigger] args[i],
            )) && operands_atomic(args[i]),
        Expr::Let { bindings, body } => (forall|i: int|
            0 <= i < bindings.len() ==> operands_atomic((#[trigger] bindings[i]).1))
            && operands_atomic(*body),
    }
}

/// Every value among the pairs has atomic operands throughout.
pub open spec fn values_atomic(pairs: Seq<(Seq<char>, Expr)>) -> bool {
    forall|i: int| 0 <= i < pairs.len() ==> operands_atomic((#[trigger] pairs[i]).1)
}

/// The trees that flatten to one with atomic operands throughout: every
/// operand that flattening reaches is fit to stand as one.
pub open spec fn fit(e: Expr) -> bool
    decreases e, 0nat,
{
    match e {
        Expr::Int(_) | Expr::Var { .. } | Expr::Error { .. } => true,
        Expr::Prim { op, args } => (op == op_plus() || op == op_minus()) ==> forall|i: int|
            0 <= i < args.len() ==> fit_operand(#[trigger] args[i]),
        Expr::Let { bindings, body } => (forall|i: int|
            0 <= i < bindings.len() ==> fit((#[trigger] bindings[i]).1)) && fit(*body),
    }
}

/// An operand is fit unless it is an error node, which stays where it is and
/// is no atom, or it is hoisted as it stands and has itself an operand that is
/// no atom.
pub open spec fn fit_operand(a: Expr) -> bool
    decreases a, 1nat,
{
    match a {
        Expr::Int(_) | Expr::Var { .. } => true,
        Expr::Error { .. } => false,
        Expr::Let { .. } => fit(a),
        Expr::Prim { op, .. } => if op == op_plus() {
            fit(a)
        } else {
            operands_atomic(a)
        },
    }
}

/// An operand that atomization leaves where it is: a literal, a variable or an error node.
pub open spec fn stays(e: Expr) -> bool {
    e is Int || e is Var || e is Error
}

/// A tree that is a single node has atomic operands, for want of any.
pub proof fn lemma_leaf_atomic(e: Expr)
    requires
        stays(e),
    ensures
        operands_atomic(e),
{
}

/// What atomization puts in an operand's place is a single node: the operand
/// itself where it stays, a variable where it was hoisted.
pub proof fn lemma_atomize_leaf(e: Expr, n: nat)
    ensures
        atomize(e, n) matches Ok(a) ==> stays(a.atom) && (a.hoisted ==> a.atom is Var && a.log.len()
            >= 1) && (!a.hoisted ==> a.atom == e),
{
}

/// A binding node has atomic operands exactly when its values and its body have.
pub proof fn lemma_binding_atomic(bindings: Seq<(Seq<char>, Expr)>, body: Expr)
    ensures
        operands_atomic(Expr::Let { bindings, body: Box::new(body) }) <==> values_atomic(bindings)
            && operands_atomic(body),
{
    let e = Expr::Let { bindings, body: Box::new(body) };
    assert(e->Let_bindings == bindings);
    assert(*e->Let_body == body);
    if operands_atomic(e) {
        assert(operands_atomic(body));
        assert(values_atomic(bindings));
    }
    if values_atomic(bindings) && operands_atomic(body) {
        assert(operands_atomic(e));
    }
}

/// Flattening gives the tree back as it was, or a binding node.
pub proof fn lemma_flatten_same_or_binding(e: Expr, n: nat)
    ensures
        flatten(e, n) matches Ok(f) ==> f.tree == e || f.tree is Let,
{
}

/// An operator that is none of `read`, `+` and `-` stops flattening, wherever
/// flattening meets it: as the tree itself or as an operand.
pub proof fn lemma_unknown_operator_is_fatal(op: Seq<char>, args: Seq<Expr>, n: nat)
    requires
        op != op_read(),
        op != op_plus(),
        op != op_minus(),
    ensures
        flatten(Expr::Prim { op, args }, n) == Err::<Flat, FlattenError>(
            FlattenError::UnknownOperator,
        ),
        atomize(Expr::Prim { op, args }, n) is Err,
        atomize(Expr::Prim { op, args }, n)->Err_0 == FlattenError::UnknownOperator,
{
}

/// A primitive with more or fewer operands than its operator takes stops flattening.
pub proof fn lemma_wrong_arity_is_fatal(op: Seq<char>, args: Seq<Expr>, n: nat)
    requires
        op == op_read() || op == op_plus() || op == op_minus(),
        args.len() != arity(op),
    ensures
        flatten(Expr::Prim { op, args }, n) == Err::<Flat, FlattenError>(FlattenError::WrongArity),
{
    lemma_operators_differ();
}

/// After flattening every operand of every `+` and `-` is an atom, for the
/// trees that are fit, and for no others.
pub proof fn lemma_flatten_atomic(e: Expr, n: nat)
    ensures
        flatten(e, n) matches Ok(f) ==> (operands_atomic(f.tree) <==> fit(e)),
    decreases e, 0nat,
{
    lemma_operators_differ();
    if let Ok(f) = flatten(e, n) {
        match e {
            Expr::Int(_) | Expr::Var { .. } | Expr::Error { .. } => {},
            Expr::Prim { op, args } => {
                if op == op_minus() {
                    let a = atomize(args[0], n)->Ok_0;
                    lemma_atomize_atomic(args[0], n);
                    lemma_atomize_leaf(args[0], n);
                    lemma_leaf_atomic(a.atom);
                    if a.hoisted {
                        let body = Expr::Prim { op, args: seq![a.atom] };
                        assert(body->Prim_args[0] == a.atom);
                        assert(operands_atomic(body) <==> is_atom(a.atom));
                        assert(emitted(a)[0] == a.log.last());
                        lemma_binding_atomic(emitted(a), body);
                        assert(values_atomic(emitted(a)) <==> operands_atomic(a.log.last().1));
                    } else {
                        assert(args[0] == a.atom);
                        assert(operands_atomic(e) <==> is_atom(a.atom));
                    }
                    assert(fit(e) <==> fit_operand(args[0]));
                } else if op == op_plus() {
                    let a = atomize(args[0], n)->Ok_0;
                    let b = atomize(args[1], a.next)->Ok_0;
                    lemma_atomize_atomic(args[0], n);
                    lemma_atomize_atomic(args[1], a.next);
                    lemma_atomize_leaf(args[0], n);
                    lemma_atomize_leaf(args[1], a.next);
                    lemma_leaf_atomic(a.atom);
                    lemma_leaf_atomic(b.atom);
                    assert(fit(e) <==> fit_operand(args[0]) && fit_operand(args[1]));
                    if a.hoisted || b.hoisted {
                        let body = Expr::Prim { op, args: seq![a.atom, b.atom] };
                        assert(body->Prim_args[0] == a.atom);
                        assert(body->Prim_args[1] == b.atom);
                        assert(operands_atomic(body) <==> is_atom(a.atom) && is_atom(b.atom));
                        let pairs = emitted(a) + emitted(b);
                        assert(values_atomic(pairs) <==> (a.hoisted ==> operands_atomic(
                            a.log.last().1,
                        )) && (b.hoisted ==> operands_atomic(b.log.last().1))) by {
                            if a.hoisted {
                                assert(pairs[0] == a.log.last());
                                if b.hoisted {
                                    assert(pairs[1] == b.log.last());
                                }
                            } else {
                                assert(pairs[0] == b.log.last());
                            }
                        }
                        lemma_binding_atomic(pairs, body);
                    } else {
                        assert(args[0] == a.atom);
                        assert(args[1] == b.atom);
                        assert(operands_atomic(e) <==> is_atom(a.atom) && is_atom(b.atom));
                    }
                } else {
                    assert(args.len() == 0);
                }
            },
            Expr::Let { bindings, body } => {
                let s = flatten_pairs(bindings, bindings.len(), n)->Ok_0;
                let g = flatten(*body, s.next)->Ok_0;
                lemma_pairs_atomic(bindings, bindings.len(), n);
                lemma_flatten_atomic(*body, s.next);
                lemma_values_atomic_concat(s.changed, s.untouched);
                lemma_binding_atomic(s.changed + s.untouched, g.tree);
            },
        }
    }
}

/// The values of two lists laid end to end are atomic exactly when those of both lists are.
pub proof fn lemma_values_atomic_concat(a: Seq<(Seq<char>, Expr)>, b: Seq<(Seq<char>, Expr)>)
    ensures
        values_atomic(a + b) <==> values_atomic(a) && values_atomic(b),
{
    if values_atomic(a + b) {
        assert forall|i: int| 0 <= i < a.len() implies operands_atomic((#[trigger] a[i]).1) by {
            assert((a + b)[i] == a[i]);
        }
        assert forall|i: int| 0 <= i < b.len() implies operands_atomic((#[trigger] b[i]).1) by {
            assert((a + b)[i + a.len()] == b[i]);
        }
    }
    if values_atomic(a) && values_atomic(b) {
        assert forall|i: int| 0 <= i < (a + b).len() implies operands_atomic(
            (#[trigger] (a + b)[i]).1,
        ) by {
            if i < a.len() {
                assert((a + b)[i] == a[i]);
            } else {
                assert((a + b)[i] == b[i - a.len()]);
            }
        }
    }
}

/// An operand made atomic is an atom, and what was recorded for it has atomic
/// operands, exactly when the operand is fit.
pub proof fn lemma_atomize_atomic(e: Expr, n: nat)
    ensures
        atomize(e, n) matches Ok(a) ==> ((is_atom(a.atom) && (a.hoisted ==> operands_atomic(
            a.log.last().1,
        ))) <==> fit_operand(e)),
    decreases e, 1nat,
{
    lemma_operators_differ();
    if let Ok(a) = atomize(e, n) {
        let flattened = match e {
            Expr::Let { .. } => true,
            Expr::Prim { op, .. } => op == op_plus(),
            _ => false,
        };
        if flattened {
            lemma_flatten_atomic(e, n + 1);
        }
    }
}

/// The values of the pairs that come of the first `k` pairs have atomic
/// operands exactly when the values of those `k` pairs are fit.
pub proof fn lemma_pairs_atomic(bindings: Seq<(Seq<char>, Expr)>, k: nat, n: nat)
    requires
        k <= bindings.len(),
    ensures
        flatten_pairs(bindings, k, n) matches Ok(s) ==> ((values_atomic(s.changed)
            && values_atomic(s.untouched)) <==> (forall|i: int|
            0 <= i < k ==> fit((#[trigger] bindings[i]).1))),
    decreases bindings, k,
{
    if let Ok(s) = flatten_pairs(bindings, k, n) {
        if k > 0 {
            let p = flatten_pairs(bindings, (k - 1) as nat, n)->Ok_0;
            let pair = bindings[k - 1];
            let f = flatten(pair.1, p.next)->Ok_0;
            lemma_pairs_atomic(bindings, (k - 1) as nat, n);
            lemma_flatten_atomic(pair.1, p.next);
            lemma_flatten_same_or_binding(pair.1, p.next);
            let before = forall|i: int| 0 <= i < k - 1 ==> fit((#[trigger] bindings[i]).1);
            let now = forall|i: int| 0 <= i < k ==> fit((#[trigger] bindings[i]).1);
            assert(now ==> before && fit(pair.1));
            assert(before && fit(pair.1) ==> now) by {
                if before && fit(pair.1) {
                    assert forall|i: int| 0 <= i < k implies fit((#[trigger] bindings[i]).1) by {
                        if i == k - 1 {
                        }
                    }
                }
            }
            assert((values_atomic(p.changed) && values_atomic(p.untouched)) <==> before);
            assert(operands_atomic(f.tree) <==> fit(pair.1));
            match f.tree {
                Expr::Let { bindings: inner, body } => {
                    let own = seq![(pair.0, *body)];
                    assert(own[0].1 == *body);
                    assert(values_atomic(own) <==> operands_atomic(*body));
                    lemma_values_atomic_concat(p.changed, inner);
                    lemma_values_atomic_concat(p.changed + inner, own);
                    lemma_binding_atomic(inner, *body);
                    assert(s.changed == p.changed + inner + own);
                    assert(s.untouched == p.untouched);
                },
                _ => {
                    let own = seq![pair];
                    assert(own[0] == pair);
                    assert(values_atomic(own) <==> operands_atomic(pair.1));
                    assert(p.untouched.push(pair) =~= p.untouched + own);
                    lemma_values_atomic_concat(p.untouched, own);
                    assert(f.tree == pair.1);
                    assert(s.changed == p.changed);
                    assert(s.untouched == p.untouched + own);
                },
            }
        }
    }
}

/// The trees that flattening leaves as they are: each primitive has its
/// operands in place, and no binding node binds a binding node.
pub open spec fn settled(e: Expr) -> bool
    decreases e, 0nat,
{
    match e {
        Expr::Int(_) | Expr::Var { .. } | Expr::Error { .. } => true,
        Expr::Prim { op, args } => if op == op_read() {
            args.len() == 0
        } else if op == op_minus() {
            args.len() == 1 && stays(args[0])
        } else if op == op_plus() {
            args.len() == 2 && stays(args[0]) && stays(args[1])
        } else {
            false
        },
        Expr::Let { bindings, body } => (forall|i: int|
            0 <= i < bindings.len() ==> rests((#[trigger] bindings[i]).1)) && settled(*body),
    }
}

/// A bound value that flattening leaves in its pair: settled, and no binding node.
pub open spec fn rests(value: Expr) -> bool
    decreases value, 1nat,
{
    !(value is Let) && settled(value)
}

/// Every value among the pairs rests.
pub open spec fn values_rest(pairs: Seq<(Seq<char>, Expr)>) -> bool {
    forall|i: int| 0 <= i < pairs.len() ==> rests((#[trigger] pairs[i]).1)
}

/// A binding node is settled exactly when its values rest and its body is settled.
pub proof fn lemma_binding_settled(bindings: Seq<(Seq<char>, Expr)>, body: Expr)
    ensures
        settled(Expr::Let { bindings, body: Box::new(body) }) <==> values_rest(bindings)
            && settled(body),
{
    let e = Expr::Let { bindings, body: Box::new(body) };
    assert(e->Let_bindings == bindings);
    assert(*e->Let_body == body);
    if settled(e) {
        assert(settled(body));
        assert(values_rest(bindings));
    }
    if values_rest(bindings) && settled(body) {
        assert(settled(e));
    }
}

/// The values of two lists laid end to end rest exactly when those of both lists do.
pub proof fn lemma_values_rest_concat(a: Seq<(Seq<char>, Expr)>, b: Seq<(Seq<char>, Expr)>)
    ensures
        values_rest(a + b) <==> values_rest(a) && values_rest(b),
{
    if values_rest(a + b) {
        assert forall|i: int| 0 <= i < a.len() implies rests((#[trigger] a[i]).1) by {
            assert((a + b)[i] == a[i]);
        }
        assert forall|i: int| 0 <= i < b.len() implies rests((#[trigger] b[i]).1) by {
            assert((a + b)[i + a.len()] == b[i]);
        }
    }
    if values_rest(a) && values_rest(b) {
        assert forall|i: int| 0 <= i < (a + b).len() implies rests((#[trigger] (a + b)[i]).1) by {
            if i < a.len() {
                assert((a + b)[i] == a[i]);
            } else {
                assert((a + b)[i] == b[i - a.len()]);
            }
        }
    }
}

/// A settled tree is a fixed point: flattening gives it back, takes no
/// temporary and records nothing, whatever the counter.
pub proof fn lemma_settled_is_fixed(e: Expr, n: nat)
    requires
        settled(e),
    ensures
        flatten(e, n) == Ok::<Flat, FlattenError>(Flat { tree: e, next: n, log: Seq::empty() }),
    decreases e, 0nat,
{
    lemma_operators_differ();
    let none = Seq::<(Seq<char>, Expr)>::empty();
    assert(none + none =~= none);
    match e {
        Expr::Int(_) | Expr::Var { .. } | Expr::Error { .. } => {},
        Expr::Prim { op, args } => {
            if op == op_minus() {
                assert(atomize(args[0], n)->Ok_0.log == none);
            } else if op == op_plus() {
                assert(atomize(args[0], n)->Ok_0.log == none);
                assert(atomize(args[1], n)->Ok_0.log == none);
            }
            assert(flatten(e, n)->Ok_0.tree == e);
            assert(flatten(e, n)->Ok_0.log == none);
        },
        Expr::Let { bindings, body } => {
            lemma_settled_pairs(bindings, bindings.len(), n);
            lemma_settled_is_fixed(*body, n);
            assert(bindings.take(bindings.len() as int) =~= bindings);
            assert(none + bindings =~= bindings);
            assert(flatten(e, n)->Ok_0.tree == e);
            assert(flatten(e, n)->Ok_0.log == none);
        },
    }
}

/// Pairs whose values rest are all left untouched.
pub proof fn lemma_settled_pairs(bindings: Seq<(Seq<char>, Expr)>, k: nat, n: nat)
    requires
        k <= bindings.len(),
        forall|i: int| 0 <= i < k ==> rests((#[trigger] bindings[i]).1),
    ensures
        flatten_pairs(bindings, k, n) == Ok::<Split, FlattenError>(
            Split {
                changed: Seq::empty(),
                untouched: bindings.take(k as int),
                next: n,
                log: Seq::empty(),
            },
        ),
    decreases bindings, k,
{
    let none = Seq::<(Seq<char>, Expr)>::empty();
    assert(none + none =~= none);
    if k == 0 {
        assert(bindings.take(0) =~= none);
    } else {
        lemma_settled_pairs(bindings, (k - 1) as nat, n);
        assert(rests(bindings[k - 1].1));
        lemma_settled_is_fixed(bindings[k - 1].1, n);
        assert(bindings.take(k - 1).push(bindings[k - 1]) =~= bindings.take(k as int));
    }
}

/// An operand that is hoisted, if at all, as a value that rests: it stays
/// where it is, or it is a settled primitive.
pub open spec fn plain(a: Expr) -> bool {
    stays(a) || (a is Prim && settled(a))
}

/// The trees that flatten to a settled tree: every operand is plain, and so is
/// the body of every binding node that is itself a bound value.
pub open spec fn hoists_plainly(e: Expr) -> bool
    decreases e, 0nat,
{
    match e {
        Expr::Int(_) | Expr::Var { .. } | Expr::Error { .. } => true,
        Expr::Prim { op, args } => (op == op_plus() || op == op_minus()) ==> forall|i: int|
            0 <= i < args.len() ==> plain(#[trigger] args[i]),
        Expr::Let { bindings, body } => (forall|i: int|
            0 <= i < bindings.len() ==> binds_plainly((#[trigger] bindings[i]).1))
            && hoists_plainly(*body),
    }
}

/// A bound value flattens to pairs whose values rest.
pub open spec fn binds_plainly(value: Expr) -> bool
    decreases value, 1nat,
{
    hoists_plainly(value) && (value matches Expr::Let { body, .. } ==> plain(*body))
}

/// Flattening leaves a tree as it is exactly when the tree is plain; if not,
/// it gives a binding node.
pub proof fn lemma_plain_is_unchanged(e: Expr, n: nat)
    ensures
        flatten(e, n) matches Ok(f) ==> (plain(e) <==> !(f.tree is Let)) && (plain(e) ==> f.tree
            == e && rests(e)),
{
    lemma_operators_differ();
    if let Ok(f) = flatten(e, n) {
        match e {
            Expr::Prim { op, args } => {
                if op == op_minus() {
                    lemma_atomize_leaf(args[0], n);
                } else if op == op_plus() {
                    lemma_atomize_leaf(args[0], n);
                    lemma_atomize_leaf(args[1], atomize(args[0], n)->Ok_0.next);
                }
            },
            _ => {},
        }
    }
}

/// What was recorded for a hoisted operand rests exactly when the operand is plain.
pub proof fn lemma_atomize_plain(e: Expr, n: nat)
    ensures
        atomize(e, n) matches Ok(a) ==> ((a.hoisted ==> rests(a.log.last().1)) <==> plain(e)),
{
    lemma_operators_differ();
    if let Ok(a) = atomize(e, n) {
        match e {
            Expr::Let { .. } => {
                lemma_plain_is_unchanged(e, n + 1);
            },
            Expr::Prim { op, .. } => {
                if op == op_plus() {
                    lemma_plain_is_unchanged(e, n + 1);
                }
            },
            _ => {},
        }
    }
}

/// The flattened tree is settled for the trees that hoist plainly, and for no others.
pub proof fn lemma_flatten_settled(e: Expr, n: nat)
    ensures
        flatten(e, n) matches Ok(f) ==> (settled(f.tree) <==> hoists_plainly(e)),
    decreases e, 0nat,
{
    lemma_operators_differ();
    if let Ok(f) = flatten(e, n) {
        match e {
            Expr::Int(_) | Expr::Var { .. } | Expr::Error { .. } => {},
            Expr::Prim { op, args } => {
                if op == op_minus() {
                    let a = atomize(args[0], n)->Ok_0;
                    lemma_atomize_plain(args[0], n);
                    lemma_atomize_leaf(args[0], n);
                    assert(hoists_plainly(e) <==> plain(args[0]));
                    if a.hoisted {
                        let body = Expr::Prim { op, args: seq![a.atom] };
                        assert(body->Prim_args[0] == a.atom);
                        assert(settled(body));
                        assert(emitted(a)[0] == a.log.last());
                        lemma_binding_settled(emitted(a), body);
                        assert(values_rest(emitted(a)) <==> rests(a.log.last().1));
                    }
                } else if op == op_plus() {
                    let a = atomize(args[0], n)->Ok_0;
                    let b = atomize(args[1], a.next)->Ok_0;
                    lemma_atomize_plain(args[0], n);
                    lemma_atomize_plain(args[1], a.next);
                    lemma_atomize_leaf(args[0], n);
                    lemma_atomize_leaf(args[1], a.next);
                    assert(hoists_plainly(e) <==> plain(args[0]) && plain(args[1]));
                    if a.hoisted || b.hoisted {
                        let body = Expr::Prim { op, args: seq![a.atom, b.atom] };
                        assert(body->Prim_args[0] == a.atom);
                        assert(body->Prim_args[1] == b.atom);
                        assert(settled(body));
                        let pairs = emitted(a) + emitted(b);
                        assert(values_rest(pairs) <==> (a.hoisted ==> rests(a.log.last().1)) && (
                        b.hoisted ==> rests(b.log.last().1))) by {
                            if a.hoisted {
                                assert(pairs[0] == a.log.last());
                                if b.hoisted {
                                    assert(pairs[1] == b.log.last());
                                }
                            } else {
                                assert(pairs[0] == b.log.last());
                            }
                        }
                        lemma_binding_settled(pairs, body);
                    }
                } else {
                    assert(args.len() == 0);
                }
            },
            Expr::Let { bindings, body } => {
                let s = flatten_pairs(bindings, bindings.len(), n)->Ok_0;
                let g = flatten(*body, s.next)->Ok_0;
                lemma_pairs_settled(bindings, bindings.len(), n);
                lemma_flatten_settled(*body, s.next);
                lemma_values_rest_concat(s.changed, s.untouched);
                lemma_binding_settled(s.changed + s.untouched, g.tree);
            },
        }
    }
}

/// The values of the pairs that come of the first `k` pairs rest exactly when
/// the values of those `k` pairs bind plainly.
pub proof fn lemma_pairs_settled(bindings: Seq<(Seq<char>, Expr)>, k: nat, n: nat)
    requires
        k <= bindings.len(),
    ensures
        flatten_pairs(bindings, k, n) matches Ok(s) ==> ((values_rest(s.changed) && values_rest(
            s.untouched,
        )) <==> (forall|i: int| 0 <= i < k ==> binds_plainly((#[trigger] bindings[i]).1))),
    decreases bindings, k,
{
    lemma_operators_differ();
    if let Ok(s) = flatten_pairs(bindings, k, n) {
        if k > 0 {
            let p = flatten_pairs(bindings, (k - 1) as nat, n)->Ok_0;
            let pair = bindings[k - 1];
            let f = flatten(pair.1, p.next)->Ok_0;
            lemma_pairs_settled(bindings, (k - 1) as nat, n);
            lemma_flatten_settled(pair.1, p.next);
            lemma_flatten_same_or_binding(pair.1, p.next);
            let before = forall|i: int|
                0 <= i < k - 1 ==> binds_plainly((#[trigger] bindings[i]).1);
            let now = forall|i: int| 0 <= i < k ==> binds_plainly((#[trigger] bindings[i]).1);
            assert(now ==> before && binds_plainly(pair.1));
            assert(before && binds_plainly(pair.1) ==> now) by {
                if before && binds_plainly(pair.1) {
                    assert forall|i: int| 0 <= i < k implies binds_plainly(
                        (#[trigger] bindings[i]).1,
                    ) by {
                        if i == k - 1 {
                        }
                    }
                }
            }
            assert((values_rest(p.changed) && values_rest(p.untouched)) <==> before);
            assert(settled(f.tree) <==> hoists_plainly(pair.1));
            match f.tree {
                Expr::Let { bindings: inner, body } => {
                    let own = seq![(pair.0, *body)];
                    assert(own[0].1 == *body);
                    assert(values_rest(own) <==> rests(*body));
                    lemma_values_rest_concat(p.changed, inner);
                    lemma_values_rest_concat(p.changed + inner, own);
                    lemma_binding_settled(inner, *body);
                    assert(s.changed == p.changed + inner + own);
                    assert(s.untouched == p.untouched);
                    // the body that the pair keeps is no binding node exactly
                    // when the value was a binding node with a plain body
                    match pair.1 {
                        Expr::Let { bindings: own_pairs, body: own_body } => {
                            let q = flatten_pairs(own_pairs, own_pairs.len(), p.next)->Ok_0;
                            lemma_plain_is_unchanged(*own_body, q.next);
                            assert(*body == flatten(*own_body, q.next)->Ok_0.tree);
                        },
                        Expr::Prim { op, args } => {
                            assert(*body is Prim);
                        },
                        _ => {},
                    }
                },
                _ => {
                    let own = seq![pair];
                    assert(own[0] == pair);
                    assert(values_rest(own) <==> rests(pair.1));
                    assert(p.untouched.push(pair) =~= p.untouched + own);
                    lemma_values_rest_concat(p.untouched, own);
                    assert(f.tree == pair.1);
                    assert(s.changed == p.changed);
                    assert(s.untouched == p.untouched + own);
                },
            }
        }
    }
}

/// How many binding nodes without pairs are wrapped around the tree.
pub open spec fn wraps(e: Expr) -> nat
    decreases e,
{
    match e {
        Expr::Let { bindings, body } => if bindings.len() == 0 {
            1 + wraps(*body)
        } else {
            0
        },
        _ => 0,
    }
}

/// The wrappings of all the values among the pairs, added up.
pub open spec fn total_wraps(pairs: Seq<(Seq<char>, Expr)>) -> nat
    decreases pairs.len(),
{
    if pairs.len() == 0 {
        0
    } else {
        total_wraps(pairs.drop_last()) + wraps(pairs.last().1)
    }
}

/// The wrappings of two lists laid end to end add up.
pub proof fn lemma_total_wraps_concat(a: Seq<(Seq<char>, Expr)>, b: Seq<(Seq<char>, Expr)>)
    ensures
        total_wraps(a + b) == total_wraps(a) + total_wraps(b),
    decreases b.len(),
{
    if b.len() == 0 {
        assert(a + b =~= a);
    } else {
        assert((a + b).drop_last() =~= a + b.drop_last());
        assert((a + b).last() == b.last());
        lemma_total_wraps_concat(a, b.drop_last());
    }
}

/// The wrappings of a single pair are those of its value.
pub proof fn lemma_total_wraps_one(pair: (Seq<char>, Expr))
    ensures
        total_wraps(seq![pair]) == wraps(pair.1),
{
    let one = seq![pair];
    assert(one.drop_last() =~= Seq::empty());
    assert(one.last() == pair);
    assert(total_wraps(one.drop_last()) == 0);
}

/// Flattening neither adds nor removes binding nodes without pairs around a tree.
pub proof fn lemma_flatten_keeps_wraps(e: Expr, n: nat)
    ensures
        flatten(e, n) matches Ok(f) ==> wraps(f.tree) == wraps(e),
    decreases e,
{
    lemma_operators_differ();
    if let Ok(f) = flatten(e, n) {
        match e {
            Expr::Prim { op, args } => {
                if op == op_minus() {
                    lemma_atomize_leaf(args[0], n);
                } else if op == op_plus() {
                    lemma_atomize_leaf(args[0], n);
                    lemma_atomize_leaf(args[1], atomize(args[0], n)->Ok_0.next);
                }
            },
            Expr::Let { bindings, body } => {
                let s = flatten_pairs(bindings, bindings.len(), n)->Ok_0;
                lemma_pairs_wraps(bindings, bindings.len(), n);
                lemma_flatten_keeps_wraps(*body, s.next);
                assert(f.tree->Let_bindings == s.changed + s.untouched);
            },
            _ => {},
        }
    }
}

/// Each pair gives at least one pair. Where each gives just one, every changed
/// pair has lost one binding node without pairs from around its value.
pub proof fn lemma_pairs_wraps(bindings: Seq<(Seq<char>, Expr)>, k: nat, n: nat)
    requires
        k <= bindings.len(),
    ensures
        flatten_pairs(bindings, k, n) matches Ok(s) ==> s.changed.len() + s.untouched.len() >= k
            && (s.changed.len() + s.untouched.len() == k ==> total_wraps(s.changed)
            + total_wraps(s.untouched) + s.changed.len() == total_wraps(bindings.take(k as int))),
    decreases bindings, k,
{
    if let Ok(s) = flatten_pairs(bindings, k, n) {
        if k == 0 {
            assert(bindings.take(0) =~= Seq::empty());
        } else {
            let p = flatten_pairs(bindings, (k - 1) as nat, n)->Ok_0;
            let pair = bindings[k - 1];
            let f = flatten(pair.1, p.next)->Ok_0;
            lemma_pairs_wraps(bindings, (k - 1) as nat, n);
            lemma_flatten_keeps_wraps(pair.1, p.next);
            lemma_flatten_same_or_binding(pair.1, p.next);
            assert(bindings.take(k as int) =~= bindings.take(k - 1) + seq![pair]);
            lemma_total_wraps_concat(bindings.take(k - 1), seq![pair]);
            lemma_total_wraps_one(pair);
            match f.tree {
                Expr::Let { bindings: inner, body } => {
                    let own = seq![(pair.0, *body)];
                    assert(s.changed == p.changed + inner + own);
                    lemma_total_wraps_concat(p.changed + inner, own);
                    lemma_total_wraps_concat(p.changed, inner);
                    lemma_total_wraps_one((pair.0, *body));
                    if inner.len() == 0 {
                        assert(total_wraps(inner) == 0);
                        assert(wraps(f.tree) == 1 + wraps(*body));
                    }
                },
                _ => {
                    let own = seq![pair];
                    assert(p.untouched.push(pair) =~= p.untouched + own);
                    lemma_total_wraps_concat(p.untouched, own);
                },
            }
        }
    }
}

/// A tree that flattening gives back as it was is settled.
pub proof fn lemma_fixed_is_settled(e: Expr, n: nat)
    requires
        flatten(e, n) is Ok,
        flatten(e, n)->Ok_0.tree == e,
    ensures
        settled(e),
    decreases e, 0nat,
{
    lemma_operators_differ();
    let f = flatten(e, n)->Ok_0;
    match e {
        Expr::Int(_) | Expr::Var { .. } | Expr::Error { .. } => {},
        Expr::Prim { op, args } => {
            if op == op_minus() {
                lemma_atomize_leaf(args[0], n);
            } else if op == op_plus() {
                lemma_atomize_leaf(args[0], n);
                lemma_atomize_leaf(args[1], atomize(args[0], n)->Ok_0.next);
            }
        },
        Expr::Let { bindings, body } => {
            let k = bindings.len();
            let s = flatten_pairs(bindings, k, n)->Ok_0;
            let g = flatten(*body, s.next)->Ok_0;
            assert(f.tree->Let_bindings == s.changed + s.untouched);
            assert(*f.tree->Let_body == g.tree);
            lemma_fixed_is_settled(*body, s.next);
            lemma_pairs_wraps(bindings, k, n);
            assert(bindings.take(k as int) =~= bindings);
            lemma_total_wraps_concat(s.changed, s.untouched);
            assert(s.changed.len() == 0);
            lemma_untouched_rest(bindings, k, n);
            lemma_binding_settled(bindings, *body);
        },
    }
}

/// Where no pair changed, the value of every pair rests.
pub proof fn lemma_untouched_rest(bindings: Seq<(Seq<char>, Expr)>, k: nat, n: nat)
    requires
        k <= bindings.len(),
        flatten_pairs(bindings, k, n) is Ok,
        flatten_pairs(bindings, k, n)->Ok_0.changed.len() == 0,
    ensures
        forall|i: int| 0 <= i < k ==> rests((#[trigger] bindings[i]).1),
    decreases bindings, k,
{
    if k > 0 {
        let p = flatten_pairs(bindings, (k - 1) as nat, n)->Ok_0;
        let pair = bindings[k - 1];
        let f = flatten(pair.1, p.next)->Ok_0;
        lemma_flatten_same_or_binding(pair.1, p.next);
        assert(!(f.tree is Let));
        lemma_untouched_rest(bindings, (k - 1) as nat, n);
        lemma_fixed_is_settled(pair.1, p.next);
        assert forall|i: int| 0 <= i < k implies rests((#[trigger] bindings[i]).1) by {
            if i == k - 1 {
            }
        }
    }
}

/// The fixed points of flattening are the settled trees.
pub proof fn lemma_fixed_points(e: Expr, n: nat)
    ensures
        settled(e) <==> flatten(e, n) == Ok::<Flat, FlattenError>(
            Flat { tree: e, next: n, log: Seq::empty() },
        ),
        settled(e) <==> (flatten(e, n) matches Ok(f) && f.tree == e),
{
    if settled(e) {
        lemma_settled_is_fixed(e, n);
    }
    if flatten(e, n) is Ok && flatten(e, n)->Ok_0.tree == e {
        lemma_fixed_is_settled(e, n);
    }
}

/// Flattening the tree that flattening gave changes nothing, takes no temporary
/// and records nothing, for the trees that hoist plainly. For every other tree
/// the second pass gives another tree than the first, or fails.
pub proof fn lemma_flatten_idempotent(e: Expr, n: nat, m: nat)
    requires
        flatten(e, n) is Ok,
    ensures
        hoists_plainly(e) ==> flatten(flatten(e, n)->Ok_0.tree, m) == Ok::<Flat, FlattenError>(
            Flat { tree: flatten(e, n)->Ok_0.tree, next: m, log: Seq::empty() },
        ),
        !hoists_plainly(e) ==> !(flatten(flatten(e, n)->Ok_0.tree, m) matches Ok(g) && g.tree
            == flatten(e, n)->Ok_0.tree),
{
    lemma_flatten_settled(e, n);
    lemma_fixed_points(flatten(e, n)->Ok_0.tree, m);
}

} // verus!
