//! Scope resolution: every bound identifier gets the depth of its binding
//! appended, so that a name says which binding it belongs to and shadowing is
//! settled once and for all.
use crate::frontend::ast::{
    exprs_of, lemma_let_view, lemma_prim_view, pairs_of, AstNode, Expr, Program,
};
use crate::frontend::names::{make_unique_name, unique_name};
use crate::frontend::scopes::{lookup, Scopes};
use std::rc::Rc;
use vstd::prelude::*;

verus! {

/// The frame of a binding node once its first `k` pairs are bound at `depth`.
pub open spec fn frame_after(bindings: Seq<(Seq<char>, Expr)>, depth: nat, k: nat) -> Map<
    Seq<char>,
    Seq<char>,
>
    decreases k,
{
    if k == 0 || k > bindings.len() {
        Map::empty()
    } else {
        frame_after(bindings, depth, (k - 1) as nat).insert(
            bindings[k - 1].0,
            unique_name(bindings[k - 1].0, depth),
        )
    }
}

/// The tree with every identifier resolved, inside the given scopes.
///
/// A binding node opens a scope one deeper than those around it. Its pairs are
/// bound from left to right, each before its own value is resolved: a value
/// sees its own name and those to its left.
pub open spec fn resolve(scopes: Seq<Map<Seq<char>, Seq<char>>>, e: Expr) -> Expr
    decreases e,
{
    match e {
        Expr::Int(_) | Expr::Error { .. } => e,
        Expr::Var { name } => Expr::Var { name: lookup(scopes, name) },
        Expr::Prim { op, args } => Expr::Prim {
            op,
            args: Seq::new(
                args.len(),
                |i: int| if 0 <= i < args.len() { resolve(scopes, args[i]) } else { Expr::Int(0) },
            ),
        },
        Expr::Let { bindings, body } => {
            let depth = scopes.len() + 1;
            Expr::Let {
                bindings: Seq::new(
                    bindings.len(),
                    |i: int| if 0 <= i < bindings.len() {
                        (
                            unique_name(bindings[i].0, depth),
                            resolve(
                                scopes.push(frame_after(bindings, depth, (i + 1) as nat)),
                                bindings[i].1,
                            ),
                        )
                    } else {
                        (Seq::empty(), Expr::Int(0))
                    },
                ),
                body: Box::new(
                    resolve(scopes.push(frame_after(bindings, depth, bindings.len())), *body),
                ),
            }
        },
    }
}

/// Resolves the identifiers of a tree inside the scopes that are open, and
/// leaves those scopes as they were.
#[verifier::loop_isolation(false)]
pub fn uniquify_exp(environments: &mut Scopes, e: AstNode) -> (res: AstNode)
    ensures
        res@ == resolve(old(environments)@, e@),
        final(environments)@ == old(environments)@,
    decreases e@,
{
    let ghost scopes = environments@;
    match e {
        AstNode::Int(n) => AstNode::Int(n),
        AstNode::Var { name } => AstNode::Var { name: environments.resolve(&name) },
        AstNode::Prim { op, args } => {
            proof {
                lemma_prim_view(op, args);
            }
            let mut out: Vec<AstNode> = Vec::new();
            let mut i: usize = 0;
            while i < args.len()
                invariant
                    i <= args.len(),
                    out.len() == i,
                    environments@ == scopes,
                    forall|j: int| 0 <= j < i ==> out[j]@ == resolve(scopes, args[j]@),
                decreases args.len() - i,
            {
                assert(exprs_of(args@)[i as int] == args[i as int]@);
                let new_arg_expr = uniquify_exp(environments, args[i].copy());
                out.push(new_arg_expr);
                i += 1;
            }
            proof {
                lemma_prim_view(op, out);
                assert(exprs_of(out@) =~= resolve(scopes, e@)->Prim_args);
            }
            AstNode::Prim { op, args: out }
        },
        AstNode::Let { bindings, body } => {
            proof {
                lemma_let_view(bindings, body);
            }
            let ghost pairs = pairs_of(bindings@);
            environments.enter();
            let depth = environments.depth();
            let mut uniq_bindings: Vec<(Rc<String>, AstNode)> = Vec::new();
            let mut i: usize = 0;
            while i < bindings.len()
                invariant
                    i <= bindings.len(),
                    uniq_bindings.len() == i,
                    depth == scopes.len() + 1,
                    environments@ == scopes.push(frame_after(pairs, depth as nat, i as nat)),
                    forall|j: int|
                        0 <= j < i ==> uniq_bindings[j].0@ == unique_name(
                            pairs[j].0,
                            depth as nat,
                        ) && uniq_bindings[j].1@ == resolve(
                            scopes.push(frame_after(pairs, depth as nat, (j + 1) as nat)),
                            pairs[j].1,
                        ),
                decreases bindings.len() - i,
            {
                let new_name = make_unique_name(&bindings[i].0, depth);
                environments.bind(bindings[i].0.clone(), new_name.clone());
                assert(environments@ =~= scopes.push(
                    frame_after(pairs, depth as nat, (i + 1) as nat),
                ));
                let unq_value = uniquify_exp(environments, bindings[i].1.copy());
                uniq_bindings.push((new_name, unq_value));
                i += 1;
            }
            let unq_body = uniquify_exp(environments, (*body).copy());
            environments.leave();
            let boxed = Box::new(unq_body);
            proof {
                lemma_let_view(uniq_bindings, boxed);
                assert(pairs_of(uniq_bindings@) =~= resolve(scopes, e@)->Let_bindings);
                assert(environments@ =~= scopes);
            }
            AstNode::Let { bindings: uniq_bindings, body: boxed }
        },
        AstNode::Error { msg, token } => AstNode::Error { msg, token },
    }
}

/// Resolves the identifiers of a program, with no scope open around it.
pub fn uniquify_program(p: Program) -> (res: Program)
    ensures
        res.exp@ == resolve(Seq::empty(), p.exp@),
{
    let mut env = Scopes::new();
    Program { info: p.info, exp: uniquify_exp(&mut env, p.exp) }
}

} // verus!
