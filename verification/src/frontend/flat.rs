//! What operand flattening computes, as functions on the value of a tree.
use crate::frontend::ast::Expr;
use crate::frontend::names::{lemma_tmp_name_injective, tmp_name};
use vstd::prelude::*;

verus! {

/// Why flattening gave up: the tree broke a rule that an earlier pass should have kept.
#[derive(Clone, Copy, Debug, PartialEq, Eq, Structural)]
pub enum FlattenError {
    /// A primitive names an operator other than `read`, `+` and `-`.
    UnknownOperator,
    /// A primitive has more or fewer operands than its operator takes.
    WrongArity,
    /// Every temporary number has been handed out.
    CounterExhausted,
}

/// The name of the operator that reads an integer.
pub open spec fn op_read() -> Seq<char> {
    seq!['r', 'e', 'a', 'd']
}

/// The name of addition.
pub open spec fn op_plus() -> Seq<char> {
    seq!['+']
}

/// The name of negation.
pub open spec fn op_minus() -> Seq<char> {
    seq!['-']
}

/// The three operators have three different names.
pub proof fn lemma_operators_differ()
    ensures
        op_read() != op_plus(),
        op_read() != op_minus(),
        op_plus() != op_minus(),
{
    assert(op_read().len() == 4);
    assert(op_plus().len() == 1);
    assert(op_plus()[0] == '+');
    assert(op_minus()[0] == '-');
}

/// The largest number that the temporary counter can hold.
pub open spec fn counter_limit() -> nat {
    0x7fff_ffff_ffff_ffff
}

/// A flattened tree, the counter after it, and the records made on the way, in order.
pub ghost struct Flat {
    pub tree: Expr,
    pub next: nat,
    pub log: Seq<(Seq<char>, Expr)>,
}

/// An operand made atomic. When `hoisted`, the last record of `log` binds `atom`'s name.
pub ghost struct Atomized {
    pub hoisted: bool,
    pub atom: Expr,
    pub next: nat,
    pub log: Seq<(Seq<char>, Expr)>,
}

/// The pairs of a binding node after flattening: those that grew, and those left as they were.
pub ghost struct Split {
    pub changed: Seq<(Seq<char>, Expr)>,
    pub untouched: Seq<(Seq<char>, Expr)>,
    pub next: nat,
    pub log: Seq<(Seq<char>, Expr)>,
}

/// The operand `value` bound to temporary `n`, after the records in `log`.
pub open spec fn hoisted_as(
    n: nat,
    value: Expr,
    next: nat,
    log: Seq<(Seq<char>, Expr)>,
) -> Atomized {
    Atomized {
        hoisted: true,
        atom: Expr::Var { name: tmp_name(n) },
        next,
        log: log.push((tmp_name(n), value)),
    }
}

/// Makes an operand atomic, starting with temporary number `n`.
///
/// Literals and variables stay; so does an error node, which no pass touches.
/// A binding or an addition is flattened and bound to temporary `n`; a `read`
/// or a negation is bound to it as it stands.
pub open spec fn atomize(e: Expr, n: nat) -> Result<Atomized, FlattenError>
    decreases e, 1nat,
{
    match e {
        Expr::Int(_) | Expr::Var { .. } | Expr::Error { .. } => Ok(
            Atomized { hoisted: false, atom: e, next: n, log: Seq::empty() },
        ),
        Expr::Let { .. } => if n >= counter_limit() {
            Err(FlattenError::CounterExhausted)
        } else {
            match flatten(e, n + 1) {
                Err(x) => Err(x),
                Ok(f) => Ok(hoisted_as(n, f.tree, f.next, f.log)),
            }
        },
        Expr::Prim { op, args } => if op == op_plus() {
            if n >= counter_limit() {
                Err(FlattenError::CounterExhausted)
            } else {
                match flatten(e, n + 1) {
                    Err(x) => Err(x),
                    Ok(f) => Ok(hoisted_as(n, f.tree, f.next, f.log)),
                }
            }
        } else if op == op_read() || op == op_minus() {
            if args.len() != arity(op) {
                Err(FlattenError::WrongArity)
            } else if n >= counter_limit() {
                Err(FlattenError::CounterExhausted)
            } else {
                Ok(hoisted_as(n, e, n + 1, Seq::empty()))
            }
        } else {
            Err(FlattenError::UnknownOperator)
        },
    }
}

/// How many operands an operator takes.
pub open spec fn arity(op: Seq<char>) -> nat {
    if op == op_plus() {
        2
    } else if op == op_minus() {
        1
    } else {
        0
    }
}

/// The pairs to emit for one operand: its record where it was hoisted, nothing where not.
pub open spec fn emitted(a: Atomized) -> Seq<(Seq<char>, Expr)> {
    if a.hoisted {
        seq![a.log.last()]
    } else {
        Seq::empty()
    }
}

/// Flattens a tree, starting with temporary number `n`.
pub open spec fn flatten(e: Expr, n: nat) -> Result<Flat, FlattenError>
    decreases e, 0nat,
{
    match e {
        Expr::Int(_) | Expr::Var { .. } | Expr::Error { .. } => Ok(
            Flat { tree: e, next: n, log: Seq::empty() },
        ),
        Expr::Prim { op, args } => if op == op_read() {
            if args.len() != 0 {
                Err(FlattenError::WrongArity)
            } else {
                Ok(Flat { tree: e, next: n, log: Seq::empty() })
            }
        } else if op == op_minus() {
            if args.len() != 1 {
                Err(FlattenError::WrongArity)
            } else {
                match atomize(args[0], n) {
                    Err(x) => Err(x),
                    Ok(a) => Ok(
                        Flat {
                            tree: if a.hoisted {
                                Expr::Let {
                                    bindings: emitted(a),
                                    body: Box::new(Expr::Prim { op, args: seq![a.atom] }),
                                }
                            } else {
                                e
                            },
                            next: a.next,
                            log: a.log,
                        },
                    ),
                }
            }
        } else if op == op_plus() {
            if args.len() != 2 {
                Err(FlattenError::WrongArity)
            } else {
                match atomize(args[0], n) {
                    Err(x) => Err(x),
                    Ok(a) => match atomize(args[1], a.next) {
                        Err(x) => Err(x),
                        Ok(b) => Ok(
                            Flat {
                                tree: if a.hoisted || b.hoisted {
                                    Expr::Let {
                                        bindings: emitted(a) + emitted(b),
                                        body: Box::new(
                                            Expr::Prim { op, args: seq![a.atom, b.atom] },
                                        ),
                                    }
                                } else {
                                    e
                                },
                                next: b.next,
                                log: a.log + b.log,
                            },
                        ),
                    },
                }
            }
        } else {
            Err(FlattenError::UnknownOperator)
        },
        Expr::Let { bindings, body } => match flatten_pairs(bindings, bindings.len(), n) {
            Err(x) => Err(x),
            Ok(s) => match flatten(*body, s.next) {
                Err(x) => Err(x),
                Ok(f) => Ok(
                    Flat {
                        tree: Expr::Let {
                            bindings: s.changed + s.untouched,
                            body: Box::new(f.tree),
                        },
                        next: f.next,
                        log: s.log + f.log,
                    },
                ),
            },
        },
    }
}

/// Flattens the values of the first `k` pairs, left to right.
///
/// A value that flattens to a binding node has that node's pairs spliced in
/// before its own pair, which keeps the node's body as its value; such pairs
/// are `changed`. Any other pair is `untouched`.
pub open spec fn flatten_pairs(bindings: Seq<(Seq<char>, Expr)>, k: nat, n: nat) -> Result<
    Split,
    FlattenError,
>
    decreases bindings, k,
{
    if k == 0 || k > bindings.len() {
        Ok(Split { changed: Seq::empty(), untouched: Seq::empty(), next: n, log: Seq::empty() })
    } else {
        match flatten_pairs(bindings, (k - 1) as nat, n) {
            Err(x) => Err(x),
            Ok(s) => match flatten(bindings[k - 1].1, s.next) {
                Err(x) => Err(x),
                Ok(f) => match f.tree {
                    Expr::Let { bindings: inner, body } => Ok(
                        Split {
                            changed: s.changed + inner + seq![(bindings[k - 1].0, *body)],
                            untouched: s.untouched,
                            next: f.next,
                            log: s.log + f.log,
                        },
                    ),
                    _ => Ok(
                        Split {
                            changed: s.changed,
                            untouched: s.untouched.push(bindings[k - 1]),
                            next: f.next,
                            log: s.log + f.log,
                        },
                    ),
                },
            },
        }
    }
}

/// `name` is the name of a temporary whose number is at least `lo` and below `hi`.
pub open spec fn numbered(name: Seq<char>, lo: nat, hi: nat) -> bool {
    exists|k: nat| lo <= k < hi && name == tmp_name(k)
}

/// Every record of `log` is named by a temporary numbered from `lo` up to, not including, `hi`.
pub open spec fn all_numbered(log: Seq<(Seq<char>, Expr)>, lo: nat, hi: nat) -> bool {
    forall|i: int| 0 <= i < log.len() ==> numbered(#[trigger] log[i].0, lo, hi)
}

/// A name numbered within a range is not the name of a temporary outside it.
pub proof fn lemma_numbered_apart(name: Seq<char>, lo: nat, hi: nat, m: nat)
    requires
        numbered(name, lo, hi),
        m < lo || hi <= m,
    ensures
        name != tmp_name(m),
{
    let k = choose|k: nat| lo <= k < hi && name == tmp_name(k);
    if name == tmp_name(m) {
        lemma_tmp_name_injective(k, m);
    }
}

/// A wider range holds every name that a narrower one holds.
pub proof fn lemma_all_numbered_widen(
    log: Seq<(Seq<char>, Expr)>,
    lo: nat,
    hi: nat,
    lo2: nat,
    hi2: nat,
)
    requires
        all_numbered(log, lo, hi),
        lo2 <= lo,
        hi <= hi2,
    ensures
        all_numbered(log, lo2, hi2),
{
    assert forall|i: int| 0 <= i < log.len() implies numbered(#[trigger] log[i].0, lo2, hi2) by {
        let k = choose|k: nat| lo <= k < hi && log[i].0 == tmp_name(k);
        assert(lo2 <= k < hi2 && log[i].0 == tmp_name(k));
    }
}

/// Two logs numbered in adjoining ranges, one after the other, are numbered in the whole range.
pub proof fn lemma_all_numbered_concat(
    a: Seq<(Seq<char>, Expr)>,
    b: Seq<(Seq<char>, Expr)>,
    lo: nat,
    mid: nat,
    hi: nat,
)
    requires
        all_numbered(a, lo, mid),
        all_numbered(b, mid, hi),
        lo <= mid <= hi,
    ensures
        all_numbered(a + b, lo, hi),
{
    lemma_all_numbered_widen(a, lo, mid, lo, hi);
    lemma_all_numbered_widen(b, mid, hi, lo, hi);
    assert forall|i: int| 0 <= i < (a + b).len() implies numbered(
        #[trigger] (a + b)[i].0,
        lo,
        hi,
    ) by {
        if i < a.len() {
            assert((a + b)[i] == a[i]);
        } else {
            assert((a + b)[i] == b[i - a.len()]);
        }
    }
}

/// What holds of an operand made atomic from counter `n`.
pub open spec fn atomized_from(e: Expr, n: nat, a: Atomized) -> bool {
    &&& n <= a.next <= counter_limit()
    &&& all_numbered(a.log, n, a.next)
    &&& a.hoisted ==> {
        &&& n < a.next
        &&& a.atom == Expr::Var { name: tmp_name(n) }
        &&& a.log.len() >= 1
        &&& a.log.last().0 == tmp_name(n)
        &&& all_numbered(a.log.drop_last(), n + 1, a.next)
    }
    &&& !a.hoisted ==> a.atom == e && a.next == n && a.log.len() == 0
}

/// The counter never goes back, and each record made from counter `n` on is
/// named by a temporary numbered from `n` up to the counter that results.
pub proof fn lemma_flatten_log(e: Expr, n: nat)
    requires
        n <= counter_limit(),
    ensures
        flatten(e, n) matches Ok(f) ==> n <= f.next <= counter_limit() && all_numbered(
            f.log,
            n,
            f.next,
        ),
    decreases e, 0nat,
{
    match e {
        Expr::Int(_) | Expr::Var { .. } | Expr::Error { .. } => {},
        Expr::Prim { op, args } => {
            if op == op_minus() && args.len() == 1 {
                lemma_atomize_log(args[0], n);
            } else if op == op_plus() && args.len() == 2 {
                lemma_atomize_log(args[0], n);
                if let Ok(a) = atomize(args[0], n) {
                    lemma_atomize_log(args[1], a.next);
                    if let Ok(b) = atomize(args[1], a.next) {
                        lemma_all_numbered_concat(a.log, b.log, n, a.next, b.next);
                    }
                }
            }
        },
        Expr::Let { bindings, body } => {
            lemma_pairs_log(bindings, bindings.len(), n);
            if let Ok(s) = flatten_pairs(bindings, bindings.len(), n) {
                lemma_flatten_log(*body, s.next);
                if let Ok(f) = flatten(*body, s.next) {
                    lemma_all_numbered_concat(s.log, f.log, n, s.next, f.next);
                }
            }
        },
    }
}

/// A hoisted operand is bound to temporary `n`, by the last record of its log;
/// every record before that is named by a later temporary.
pub proof fn lemma_atomize_log(e: Expr, n: nat)
    requires
        n <= counter_limit(),
    ensures
        atomize(e, n) matches Ok(a) ==> atomized_from(e, n, a),
    decreases e, 1nat,
{
    if let Ok(a) = atomize(e, n) {
        if a.hoisted {
            let flattened = match e {
                Expr::Let { .. } => true,
                Expr::Prim { op, .. } => op == op_plus(),
                _ => false,
            };
            if flattened {
                lemma_flatten_log(e, n + 1);
                let f = flatten(e, n + 1)->Ok_0;
                assert(a.log.drop_last() =~= f.log);
                lemma_all_numbered_widen(f.log, n + 1, f.next, n, f.next);
            } else {
                assert(a.log.drop_last() =~= Seq::empty());
            }
            assert forall|i: int| 0 <= i < a.log.len() implies numbered(
                #[trigger] a.log[i].0,
                n,
                a.next,
            ) by {
                if i < a.log.len() - 1 {
                    assert(a.log[i] == a.log.drop_last()[i]);
                    lemma_all_numbered_widen(a.log.drop_last(), n + 1, a.next, n, a.next);
                } else {
                    assert(n <= n < a.next && a.log[i].0 == tmp_name(n));
                }
            }
        }
    }
}

/// The same, of the records made while the first `k` pairs are flattened.
pub proof fn lemma_pairs_log(bindings: Seq<(Seq<char>, Expr)>, k: nat, n: nat)
    requires
        n <= counter_limit(),
    ensures
        flatten_pairs(bindings, k, n) matches Ok(s) ==> n <= s.next <= counter_limit()
            && all_numbered(s.log, n, s.next),
    decreases bindings, k,
{
    if k == 0 || k > bindings.len() {
    } else {
        lemma_pairs_log(bindings, (k - 1) as nat, n);
        if let Ok(s) = flatten_pairs(bindings, (k - 1) as nat, n) {
            lemma_flatten_log(bindings[k - 1].1, s.next);
            if let Ok(f) = flatten(bindings[k - 1].1, s.next) {
                lemma_all_numbered_concat(s.log, f.log, n, s.next, f.next);
            }
        }
    }
}

/// Once a pair fails to flatten, taking more pairs fails in the same way.
pub proof fn lemma_pairs_error_stays(bindings: Seq<(Seq<char>, Expr)>, k: nat, m: nat, n: nat)
    requires
        k <= m <= bindings.len(),
        flatten_pairs(bindings, k, n) is Err,
    ensures
        flatten_pairs(bindings, m, n) == flatten_pairs(bindings, k, n),
    decreases m,
{
    if k < m {
        lemma_pairs_error_stays(bindings, k, (m - 1) as nat, n);
    }
}

} // verus!
