//! What holds of every tree after scope resolution.
use crate::frontend::ast::Expr;
use crate::frontend::names::{lemma_unique_name_injective, unique_name};
use crate::frontend::scopes::lookup;
use crate::frontend::uniquify::{frame_after, resolve};
use vstd::prelude::*;

verus! {

/// How many pairs in the tree bind `name`.
pub open spec fn binds(e: Expr, name: Seq<char>) -> nat
    decreases e, 0nat,
{
    match e {
        Expr::Int(_) | Expr::Var { .. } | Expr::Error { .. } => 0,
        Expr::Prim { op, args } => binds_in_args(args, args.len(), name),
        Expr::Let { bindings, body } => binds_in_pairs(bindings, bindings.len(), name) + binds(
            *body,
            name,
        ),
    }
}

/// How many pairs in the first `k` operands bind `name`.
pub open spec fn binds_in_args(args: Seq<Expr>, k: nat, name: Seq<char>) -> nat
    decreases args, k,
{
    if k == 0 || k > args.len() {
        0
    } else {
        binds_in_args(args, (k - 1) as nat, name) + binds(args[k - 1], name)
    }
}

/// How many pairs bind `name` among the first `k` pairs and inside their values.
pub open spec fn binds_in_pairs(pairs: Seq<(Seq<char>, Expr)>, k: nat, name: Seq<char>) -> nat
    decreases pairs, k,
{
    if k == 0 || k > pairs.len() {
        0
    } else {
        binds_in_pairs(pairs, (k - 1) as nat, name) + (if pairs[k - 1].0 == name {
            1nat
        } else {
            0nat
        }) + binds(pairs[k - 1].1, name)
    }
}

/// How many pairs in the tree bind `name` at depth `at`, where the tree stands
/// inside `depth` scopes: the pairs of a binding node are one deeper than the node.
pub open spec fn sites(e: Expr, depth: nat, name: Seq<char>, at: nat) -> nat
    decreases e, 0nat,
{
    match e {
        Expr::Int(_) | Expr::Var { .. } | Expr::Error { .. } => 0,
        Expr::Prim { op, args } => sites_in_args(args, args.len(), depth, name, at),
        Expr::Let { bindings, body } => sites_in_pairs(
            bindings,
            bindings.len(),
            depth + 1,
            name,
            at,
        ) + sites(*body, depth + 1, name, at),
    }
}

/// The same, in the first `k` operands.
pub open spec fn sites_in_args(args: Seq<Expr>, k: nat, depth: nat, name: Seq<char>, at: nat) -> nat
    decreases args, k,
{
    if k == 0 || k > args.len() {
        0
    } else {
        sites_in_args(args, (k - 1) as nat, depth, name, at) + sites(args[k - 1], depth, name, at)
    }
}

/// The same, among the first `k` pairs of a node whose pairs are at `depth`,
/// and inside their values.
pub open spec fn sites_in_pairs(
    pairs: Seq<(Seq<char>, Expr)>,
    k: nat,
    depth: nat,
    name: Seq<char>,
    at: nat,
) -> nat
    decreases pairs, k,
{
    if k == 0 || k > pairs.len() {
        0
    } else {
        sites_in_pairs(pairs, (k - 1) as nat, depth, name, at) + (if pairs[k - 1].0 == name
            && depth == at {
            1nat
        } else {
            0nat
        }) + sites(pairs[k - 1].1, depth, name, at)
    }
}

/// No two pairs of the tree bind the same identifier.
pub open spec fn binds_each_once(e: Expr) -> bool {
    forall|name: Seq<char>| #[trigger] binds(e, name) <= 1
}

/// No two pairs of the tree bind the same identifier at the same depth.
pub open spec fn sites_apart(e: Expr, depth: nat) -> bool {
    forall|name: Seq<char>, at: nat| #[trigger] sites(e, depth, name, at) <= 1
}

/// `name` is some identifier with some depth appended.
pub open spec fn generated(name: Seq<char>) -> bool {
    exists|surface: Seq<char>, depth: nat| name == unique_name(surface, depth)
}

/// A pair of the resolved tree binds the generated name exactly when the pair
/// it came of binds that identifier at that depth.
pub proof fn lemma_same_generated_name(a: Seq<char>, m: nat, b: Seq<char>, n: nat)
    ensures
        unique_name(a, m) == unique_name(b, n) <==> a == b && m == n,
{
    if unique_name(a, m) == unique_name(b, n) {
        lemma_unique_name_injective(a, m, b, n);
    }
}

/// The pairs of the resolved tree that bind an identifier with a depth
/// appended are as many as the pairs of the tree that bind the identifier at that depth.
pub proof fn lemma_resolved_binds(
    scopes: Seq<Map<Seq<char>, Seq<char>>>,
    e: Expr,
    name: Seq<char>,
    at: nat,
)
    ensures
        binds(resolve(scopes, e), unique_name(name, at)) == sites(e, scopes.len(), name, at),
    decreases e, 0nat,
{
    match e {
        Expr::Int(_) | Expr::Var { .. } | Expr::Error { .. } => {},
        Expr::Prim { op, args } => {
            let out = resolve(scopes, e)->Prim_args;
            lemma_resolved_binds_args(scopes, args, out, args.len(), name, at);
        },
        Expr::Let { bindings, body } => {
            let depth = scopes.len() + 1;
            let out = resolve(scopes, e)->Let_bindings;
            let envs = Seq::new(
                bindings.len(),
                |i: int| scopes.push(frame_after(bindings, depth, (i + 1) as nat)),
            );
            lemma_resolved_binds_pairs(envs, bindings, out, bindings.len(), depth, name, at);
            lemma_resolved_binds(
                scopes.push(frame_after(bindings, depth, bindings.len())),
                *body,
                name,
                at,
            );
        },
    }
}

/// The same, of the first `k` operands of a primitive.
pub proof fn lemma_resolved_binds_args(
    scopes: Seq<Map<Seq<char>, Seq<char>>>,
    args: Seq<Expr>,
    out: Seq<Expr>,
    k: nat,
    name: Seq<char>,
    at: nat,
)
    requires
        k <= args.len(),
        out.len() == args.len(),
        forall|i: int| 0 <= i < args.len() ==> out[i] == resolve(scopes, #[trigger] args[i]),
    ensures
        binds_in_args(out, k, unique_name(name, at)) == sites_in_args(
            args,
            k,
            scopes.len(),
            name,
            at,
        ),
    decreases args, k,
{
    if k > 0 {
        lemma_resolved_binds_args(scopes, args, out, (k - 1) as nat, name, at);
        lemma_resolved_binds(scopes, args[k - 1], name, at);
        assert(out[k - 1] == resolve(scopes, args[k - 1]));
    }
}

/// The same, of the first `k` pairs of a binding node, each value resolved in scopes of its own.
pub proof fn lemma_resolved_binds_pairs(
    envs: Seq<Seq<Map<Seq<char>, Seq<char>>>>,
    pairs: Seq<(Seq<char>, Expr)>,
    out: Seq<(Seq<char>, Expr)>,
    k: nat,
    depth: nat,
    name: Seq<char>,
    at: nat,
)
    requires
        k <= pairs.len(),
        out.len() == pairs.len(),
        envs.len() == pairs.len(),
        forall|i: int|
            0 <= i < pairs.len() ==> envs[i].len() == depth && out[i] == (
                unique_name((#[trigger] pairs[i]).0, depth),
                resolve(envs[i], pairs[i].1),
            ),
    ensures
        binds_in_pairs(out, k, unique_name(name, at)) == sites_in_pairs(pairs, k, depth, name, at),
    decreases pairs, k,
{
    if k > 0 {
        lemma_resolved_binds_pairs(envs, pairs, out, (k - 1) as nat, depth, name, at);
        let pair = pairs[k - 1];
        assert(out[k - 1] == (unique_name(pair.0, depth), resolve(envs[k - 1], pair.1)));
        lemma_resolved_binds(envs[k - 1], pair.1, name, at);
        lemma_same_generated_name(pair.0, depth, name, at);
    }
}

/// No pair of a resolved tree binds a name that is not an identifier with a depth appended.
pub proof fn lemma_resolved_binds_generated(
    scopes: Seq<Map<Seq<char>, Seq<char>>>,
    e: Expr,
    name: Seq<char>,
)
    requires
        !generated(name),
    ensures
        binds(resolve(scopes, e), name) == 0,
    decreases e, 0nat,
{
    match e {
        Expr::Int(_) | Expr::Var { .. } | Expr::Error { .. } => {},
        Expr::Prim { op, args } => {
            let out = resolve(scopes, e)->Prim_args;
            lemma_resolved_args_generated(scopes, args, out, args.len(), name);
        },
        Expr::Let { bindings, body } => {
            let depth = scopes.len() + 1;
            let out = resolve(scopes, e)->Let_bindings;
            let envs = Seq::new(
                bindings.len(),
                |i: int| scopes.push(frame_after(bindings, depth, (i + 1) as nat)),
            );
            lemma_resolved_pairs_generated(envs, bindings, out, bindings.len(), depth, name);
            lemma_resolved_binds_generated(
                scopes.push(frame_after(bindings, depth, bindings.len())),
                *body,
                name,
            );
        },
    }
}

/// The same, of the first `k` operands of a primitive.
pub proof fn lemma_resolved_args_generated(
    scopes: Seq<Map<Seq<char>, Seq<char>>>,
    args: Seq<Expr>,
    out: Seq<Expr>,
    k: nat,
    name: Seq<char>,
)
    requires
        !generated(name),
        k <= args.len(),
        out.len() == args.len(),
        forall|i: int| 0 <= i < args.len() ==> out[i] == resolve(scopes, #[trigger] args[i]),
    ensures
        binds_in_args(out, k, name) == 0,
    decreases args, k,
{
    if k > 0 {
        lemma_resolved_args_generated(scopes, args, out, (k - 1) as nat, name);
        lemma_resolved_binds_generated(scopes, args[k - 1], name);
        assert(out[k - 1] == resolve(scopes, args[k - 1]));
    }
}

/// The same, of the first `k` pairs of a binding node.
pub proof fn lemma_resolved_pairs_generated(
    envs: Seq<Seq<Map<Seq<char>, Seq<char>>>>,
    pairs: Seq<(Seq<char>, Expr)>,
    out: Seq<(Seq<char>, Expr)>,
    k: nat,
    depth: nat,
    name: Seq<char>,
)
    requires
        !generated(name),
        k <= pairs.len(),
        out.len() == pairs.len(),
        envs.len() == pairs.len(),
        forall|i: int|
            0 <= i < pairs.len() ==> out[i] == (
                unique_name((#[trigger] pairs[i]).0, depth),
                resolve(envs[i], pairs[i].1),
            ),
    ensures
        binds_in_pairs(out, k, name) == 0,
    decreases pairs, k,
{
    if k > 0 {
        lemma_resolved_pairs_generated(envs, pairs, out, (k - 1) as nat, depth, name);
        let pair = pairs[k - 1];
        assert(out[k - 1] == (unique_name(pair.0, depth), resolve(envs[k - 1], pair.1)));
        lemma_resolved_binds_generated(envs[k - 1], pair.1, name);
        assert(out[k - 1].0 != name) by {
            if out[k - 1].0 == name {
                assert(name == unique_name(pair.0, depth));
            }
        }
    }
}

/// After scope resolution no two pairs bind the same identifier, for the trees
/// in which no two pairs bind the same identifier at the same depth, and for no others.
pub proof fn lemma_resolve_unique(scopes: Seq<Map<Seq<char>, Seq<char>>>, e: Expr)
    ensures
        binds_each_once(resolve(scopes, e)) <==> sites_apart(e, scopes.len()),
{
    let out = resolve(scopes, e);
    if sites_apart(e, scopes.len()) {
        assert forall|name: Seq<char>| #[trigger] binds(out, name) <= 1 by {
            if generated(name) {
                let (surface, at) = choose|surface: Seq<char>, at: nat|
                    name == unique_name(surface, at);
                lemma_resolved_binds(scopes, e, surface, at);
                assert(sites(e, scopes.len(), surface, at) <= 1);
            } else {
                lemma_resolved_binds_generated(scopes, e, name);
            }
        }
    }
    if binds_each_once(out) {
        assert forall|name: Seq<char>, at: nat| #[trigger]
            sites(e, scopes.len(), name, at) <= 1 by {
            lemma_resolved_binds(scopes, e, name, at);
            assert(binds(out, unique_name(name, at)) <= 1);
        }
    }
}

/// A name that the innermost frame holds resolves to what that frame says,
/// whatever the frames around it hold.
pub proof fn lemma_lookup_innermost(
    scopes: Seq<Map<Seq<char>, Seq<char>>>,
    frame: Map<Seq<char>, Seq<char>>,
    name: Seq<char>,
)
    ensures
        frame.contains_key(name) ==> lookup(scopes.push(frame), name) == frame[name],
        !frame.contains_key(name) ==> lookup(scopes.push(frame), name) == lookup(scopes, name),
{
    assert(scopes.push(frame).last() == frame);
    assert(scopes.push(frame).drop_last() =~= scopes);
}

/// Once `k` pairs are bound, the frame holds the identifier of each of them,
/// with the node's depth appended, and no other identifier.
pub proof fn lemma_frame_after(
    bindings: Seq<(Seq<char>, Expr)>,
    depth: nat,
    k: nat,
    name: Seq<char>,
)
    requires
        k <= bindings.len(),
    ensures
        frame_after(bindings, depth, k).contains_key(name) <==> exists|j: int|
            0 <= j < k && (#[trigger] bindings[j]).0 == name,
        frame_after(bindings, depth, k).contains_key(name) ==> frame_after(bindings, depth, k)[name]
            == unique_name(name, depth),
    decreases k,
{
    if k > 0 {
        lemma_frame_after(bindings, depth, (k - 1) as nat, name);
        if frame_after(bindings, depth, k).contains_key(name) {
            if bindings[k - 1].0 == name {
            } else {
                let j = choose|j: int| 0 <= j < k - 1 && (#[trigger] bindings[j]).0 == name;
                assert(0 <= j < k && bindings[j].0 == name);
            }
        }
        if exists|j: int| 0 <= j < k && (#[trigger] bindings[j]).0 == name {
            let j = choose|j: int| 0 <= j < k && (#[trigger] bindings[j]).0 == name;
            if j < k - 1 {
                assert(0 <= j < k - 1 && bindings[j].0 == name);
            }
        }
    }
}

/// A reference in the body of a binding node to an identifier that the node
/// binds resolves to that identifier with the node's own depth, never to a
/// name from a scope further out.
pub proof fn lemma_nearest_binding_wins(
    scopes: Seq<Map<Seq<char>, Seq<char>>>,
    bindings: Seq<(Seq<char>, Expr)>,
    j: int,
)
    requires
        0 <= j < bindings.len(),
    ensures
        resolve(
            scopes,
            Expr::Let { bindings, body: Box::new(Expr::Var { name: bindings[j].0 }) },
        )->Let_body == Box::new(Expr::Var { name: unique_name(bindings[j].0, scopes.len() + 1) }),
{
    let name = bindings[j].0;
    let depth = scopes.len() + 1;
    let frame = frame_after(bindings, depth, bindings.len());
    lemma_frame_after(bindings, depth, bindings.len(), name);
    lemma_lookup_innermost(scopes, frame, name);
    assert(0 <= j < bindings.len() && bindings[j].0 == name);
    let reference = Expr::Var { name };
    assert(resolve(scopes.push(frame), reference) == Expr::Var {
        name: lookup(scopes.push(frame), name),
    });
    let node = Expr::Let { bindings, body: Box::new(reference) };
    assert(*resolve(scopes, node)->Let_body == resolve(scopes.push(frame), reference));
}

/// A reference in a bound value to the identifier of its own pair, or of a
/// pair to its left, resolves to that identifier with the node's own depth.
pub proof fn lemma_value_sees_left(
    scopes: Seq<Map<Seq<char>, Seq<char>>>,
    bindings: Seq<(Seq<char>, Expr)>,
    i: int,
    j: int,
)
    requires
        0 <= j <= i < bindings.len(),
        bindings[i].1 == (Expr::Var { name: bindings[j].0 }),
    ensures
        resolve(scopes, Expr::Let { bindings, body: Box::new(Expr::Int(0)) })->Let_bindings[i].1
            == (Expr::Var { name: unique_name(bindings[j].0, scopes.len() + 1) }),
{
    let name = bindings[j].0;
    let depth = scopes.len() + 1;
    let frame = frame_after(bindings, depth, (i + 1) as nat);
    lemma_frame_after(bindings, depth, (i + 1) as nat, name);
    lemma_lookup_innermost(scopes, frame, name);
    assert(0 <= j < i + 1 && bindings[j].0 == name);
    let reference = Expr::Var { name };
    assert(resolve(scopes.push(frame), reference) == Expr::Var {
        name: lookup(scopes.push(frame), name),
    });
    let node = Expr::Let { bindings, body: Box::new(Expr::Int(0)) };
    assert(resolve(scopes, node)->Let_bindings[i].1 == resolve(scopes.push(frame), bindings[i].1));
}

} // verus!
