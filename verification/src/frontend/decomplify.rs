//! Operand flattening: after it, every operand of a primitive is an atom.
//!
//! `(+ 2 (+ 2 2))` becomes
//!
//! ```text
//! let [tmp.0 (+ 2 2)]
//!     (+ 2 tmp.0)
//! ```
use crate::frontend::ast::{
    exprs_of, lemma_let_view, lemma_prim_view, pairs_of, AstNode, Expr, Program,
};
use crate::frontend::flat::{
    all_numbered, atomize, counter_limit, emitted, flatten, flatten_pairs,
    lemma_all_numbered_concat, lemma_all_numbered_widen, lemma_atomize_log, lemma_flatten_log,
    lemma_numbered_apart, lemma_operators_differ, lemma_pairs_error_stays, numbered, op_minus,
    op_plus, op_read, FlattenError,
};
use crate::frontend::names::{make_tmp_name, tmp_name};
use std::rc::Rc;
use vstd::prelude::*;
use vstd::string::*;

verus! {

/// The value recorded under `name`: that of the earliest record with this name.
pub open spec fn first_match(log: Seq<(Seq<char>, Expr)>, name: Seq<char>) -> Option<Expr>
    decreases log.len(),
{
    if log.len() == 0 {
        None
    } else if log[0].0 == name {
        Some(log[0].1)
    } else {
        first_match(log.drop_first(), name)
    }
}

/// The first match is at `at` if the name stands there and nowhere before.
pub proof fn lemma_first_match_at(log: Seq<(Seq<char>, Expr)>, name: Seq<char>, at: int)
    requires
        0 <= at < log.len(),
        log[at].0 == name,
        forall|i: int| 0 <= i < at ==> log[i].0 != name,
    ensures
        first_match(log, name) == Some(log[at].1),
    decreases at,
{
    if at > 0 {
        let rest = log.drop_first();
        assert(forall|i: int| 0 <= i < at - 1 ==> rest[i] == log[i + 1]);
        lemma_first_match_at(rest, name, at - 1);
    }
}

/// There is no match where the name stands nowhere.
pub proof fn lemma_first_match_none(log: Seq<(Seq<char>, Expr)>, name: Seq<char>)
    requires
        forall|i: int| 0 <= i < log.len() ==> log[i].0 != name,
    ensures
        first_match(log, name) is None,
    decreases log.len(),
{
    if log.len() > 0 {
        let rest = log.drop_first();
        assert(forall|i: int| 0 <= i < rest.len() ==> rest[i] == log[i + 1]);
        lemma_first_match_none(rest, name);
    }
}

/// A list is the beginning of itself with more laid after it.
pub proof fn lemma_prefix_of_concat(a: Seq<(Seq<char>, Expr)>, b: Seq<(Seq<char>, Expr)>)
    ensures
        a.is_prefix_of(a + b),
{
    assert(a =~= (a + b).subrange(0, a.len() as int));
}

/// The beginning of a beginning is a beginning.
pub proof fn lemma_prefix_chain(
    a: Seq<(Seq<char>, Expr)>,
    b: Seq<(Seq<char>, Expr)>,
    c: Seq<(Seq<char>, Expr)>,
)
    requires
        a.is_prefix_of(b),
        b.is_prefix_of(c),
    ensures
        a.is_prefix_of(c),
{
    assert(a =~= c.subrange(0, a.len() as int));
}

/// Whether `text` is the operator's name.
fn names_operator(op: &Rc<String>, text: &str) -> (res: bool)
    ensures
        res == (op@ == text@),
{
    let other = String::from_str(text);
    **op == other
}

/// The state of one flattening: the next temporary number, and the records made so far.
pub struct Rco {
    num: i64,
    env: Vec<(Rc<String>, AstNode)>,
}

impl Rco {
    /// The number of the next temporary.
    pub closed spec fn counter(&self) -> nat {
        self.num as nat
    }

    /// The records made so far, oldest first.
    pub closed spec fn records(&self) -> Seq<(Seq<char>, Expr)> {
        pairs_of(self.env@)
    }

    /// Every record is named by a temporary that was already handed out.
    pub closed spec fn wf(&self) -> bool {
        &&& self.num >= 0
        &&& all_numbered(self.records(), 0, self.counter())
    }

    /// A flattener that has handed out no temporary and recorded nothing.
    pub fn new() -> (res: Rco)
        ensures
            res.wf(),
            res.counter() == 0,
            res.records() == Seq::<(Seq<char>, Expr)>::empty(),
    {
        let res = Rco { num: 0, env: Vec::new() };
        assert(res.records() =~= Seq::empty());
        res
    }

    /// A flattener whose first temporary has the number `first`, with no record yet.
    pub fn starting_at(first: i64) -> (res: Rco)
        requires
            first >= 0,
        ensures
            res.wf(),
            res.counter() == first,
            res.records() == Seq::<(Seq<char>, Expr)>::empty(),
    {
        let res = Rco { num: first, env: Vec::new() };
        assert(res.records() =~= Seq::empty());
        res
    }

    /// Hands out the next temporary name.
    fn tmp(&mut self) -> (res: Result<Rc<String>, FlattenError>)
        requires
            old(self).wf(),
        ensures
            final(self).wf(),
            final(self).records() == old(self).records(),
            old(self).counter() < counter_limit() ==> res is Ok && res->Ok_0@ == tmp_name(
                old(self).counter(),
            ) && final(self).counter() == old(self).counter() + 1,
            old(self).counter() >= counter_limit() ==> res == Err::<Rc<String>, FlattenError>(
                FlattenError::CounterExhausted,
            ) && final(self).counter() == old(self).counter(),
    {
        let current = self.num;
        if current == i64::MAX {
            return Err(FlattenError::CounterExhausted);
        }
        let new_tmp_var = make_tmp_name(current as u64);
        self.num = current + 1;
        proof {
            lemma_all_numbered_widen(
                old(self).records(),
                0,
                old(self).counter(),
                0,
                self.counter(),
            );
        }
        Ok(new_tmp_var)
    }

    /// Looks a name up among the records: the earliest record with that name counts.
    fn env_get(&self, find: &String) -> (res: Option<AstNode>)
        ensures
            match first_match(self.records(), find@) {
                Some(value) => res is Some && res->Some_0@ == value,
                None => res is None,
            },
    {
        let mut i: usize = 0;
        while i < self.env.len()
            invariant
                i <= self.env.len(),
                forall|j: int| 0 <= j < i ==> self.records()[j].0 != find@,
            decreases self.env.len() - i,
        {
            if *self.env[i].0 == *find {
                proof {
                    lemma_first_match_at(self.records(), find@, i as int);
                }
                return Some(self.env[i].1.copy());
            }
            i += 1;
        }
        proof {
            lemma_first_match_none(self.records(), find@);
        }
        None
    }

    /// Records `expr` under `name`, after every earlier record.
    fn env_set(&mut self, name: Rc<String>, expr: AstNode)
        requires
            old(self).wf(),
            numbered(name@, 0, old(self).counter()),
        ensures
            final(self).wf(),
            final(self).counter() == old(self).counter(),
            final(self).records() == old(self).records().push((name@, expr@)),
    {
        self.env.push((name, expr));
        assert(self.records() =~= old(self).records().push((name@, expr@)));
    }

    /// The pair to emit for a hoisted operand: its name, and the value recorded under it.
    fn recorded(&self, atom: &AstNode) -> (res: (Rc<String>, AstNode))
        requires
            atom@ is Var,
            first_match(self.records(), atom@->Var_name) is Some,
        ensures
            res.0@ == atom@->Var_name,
            res.1@ == first_match(self.records(), atom@->Var_name)->Some_0,
    {
        match atom {
            AstNode::Var { name } => {
                match self.env_get(&**name) {
                    Some(value) => (name.clone(), value),
                    None => unreached(),
                }
            },
            _ => unreached(),
        }
    }

    /// Makes an operand atomic. The flag says whether it had to be hoisted;
    /// if so, the node returned is the temporary that now stands for it.
    fn rco_atom(&mut self, e: AstNode) -> (res: Result<(bool, AstNode), FlattenError>)
        requires
            old(self).wf(),
        ensures
            final(self).wf(),
            old(self).counter() <= final(self).counter(),
            old(self).records().is_prefix_of(final(self).records()),
            match atomize(e@, old(self).counter()) {
                Ok(a) => res is Ok && res->Ok_0.0 == a.hoisted && res->Ok_0.1@ == a.atom
                    && final(self).counter() == a.next && final(self).records() == old(
                    self,
                ).records() + a.log,
                Err(x) => res is Err && res->Err_0 == x,
            },
        decreases e@, 2nat,
    {
        proof {
            lemma_operator_texts();
        }
        let ghost n0 = self.counter();
        let ghost log0 = self.records();
        let flattens = match &e {
            AstNode::Let { .. } => true,
            AstNode::Prim { op, args } => {
                proof {
                    lemma_prim_view(*op, *args);
                }
                if names_operator(op, "+") {
                    true
                } else if names_operator(op, "read") {
                    if args.len() != 0 {
                        return Err(FlattenError::WrongArity);
                    }
                    false
                } else if names_operator(op, "-") {
                    if args.len() != 1 {
                        return Err(FlattenError::WrongArity);
                    }
                    false
                } else {
                    return Err(FlattenError::UnknownOperator);
                }
            },
            _ => {
                assert(self.records() =~= log0 + Seq::empty());
                return Ok((false, e));
            },
        };
        let new_tmp = match self.tmp() {
            Ok(name) => name,
            Err(x) => {
                return Err(x);
            },
        };
        let ghost value = e@;
        let expr = if flattens {
            proof {
                lemma_flatten_log(e@, n0 + 1);
            }
            match self.rco_expr(e) {
                Ok(flat) => flat,
                Err(x) => {
                    return Err(x);
                },
            }
        } else {
            e
        };
        assert(numbered(new_tmp@, 0, self.counter())) by {
            assert(0 <= n0 < self.counter() && new_tmp@ == tmp_name(n0));
        }
        self.env_set(new_tmp.clone(), expr);
        assert(self.records() =~= log0 + atomize(value, n0)->Ok_0.log);
        Ok((true, AstNode::Var { name: new_tmp }))
    }

    /// Flattens a tree: every operand that is not an atom is hoisted into a
    /// binding in front of the primitive that takes it.
    fn rco_expr(&mut self, e: AstNode) -> (res: Result<AstNode, FlattenError>)
        requires
            old(self).wf(),
        ensures
            final(self).wf(),
            old(self).counter() <= final(self).counter(),
            old(self).records().is_prefix_of(final(self).records()),
            match flatten(e@, old(self).counter()) {
                Ok(f) => res is Ok && res->Ok_0@ == f.tree && final(self).counter() == f.next
                    && final(self).records() == old(self).records() + f.log,
                Err(x) => res is Err && res->Err_0 == x,
            },
        decreases e@, 1nat,
    {
        proof {
            lemma_operator_texts();
        }
        match &e {
            AstNode::Let { .. } => self.rco_let(e),
            AstNode::Prim { op, args } => {
                proof {
                    lemma_prim_view(*op, *args);
                }
                if names_operator(op, "read") {
                    if args.len() != 0 {
                        return Err(FlattenError::WrongArity);
                    }
                    assert(self.records() =~= old(self).records() + Seq::empty());
                    Ok(e)
                } else if names_operator(op, "-") {
                    self.rco_negation(e)
                } else if names_operator(op, "+") {
                    self.rco_addition(e)
                } else {
                    Err(FlattenError::UnknownOperator)
                }
            },
            _ => {
                assert(self.records() =~= old(self).records() + Seq::empty());
                Ok(e)
            },
        }
    }

    /// Flattens a binding node: each value in turn, then the body. The pairs
    /// that flattening grew come first, the others after them.
    #[verifier::loop_isolation(false)]
    fn rco_let(&mut self, e: AstNode) -> (res: Result<AstNode, FlattenError>)
        requires
            old(self).wf(),
            e@ is Let,
        ensures
            final(self).wf(),
            old(self).counter() <= final(self).counter(),
            old(self).records().is_prefix_of(final(self).records()),
            match flatten(e@, old(self).counter()) {
                Ok(f) => res is Ok && res->Ok_0@ == f.tree && final(self).counter() == f.next
                    && final(self).records() == old(self).records() + f.log,
                Err(x) => res is Err && res->Err_0 == x,
            },
        decreases e@, 0nat,
    {
        let ghost n0 = self.counter();
        let ghost log0 = self.records();
        match &e {
            AstNode::Let { bindings, body } => {
                proof {
                    lemma_let_view(*bindings, *body);
                }
                let ghost pairs = pairs_of(bindings@);
                let mut untouched: Vec<(Rc<String>, AstNode)> = Vec::new();
                let mut changed: Vec<(Rc<String>, AstNode)> = Vec::new();
                let mut i: usize = 0;
                assert(pairs_of(changed@) =~= Seq::empty());
                assert(pairs_of(untouched@) =~= Seq::empty());
                assert(self.records() =~= log0 + Seq::empty());
                while i < bindings.len()
                    invariant
                        i <= bindings.len(),
                        self.wf(),
                        n0 <= self.counter(),
                        log0.is_prefix_of(self.records()),
                        flatten_pairs(pairs, i as nat, n0) matches Ok(s) && pairs_of(changed@)
                            == s.changed && pairs_of(untouched@) == s.untouched
                            && self.counter() == s.next && self.records() == log0 + s.log,
                    decreases bindings.len() - i,
                {
                    let ghost s = flatten_pairs(pairs, i as nat, n0)->Ok_0;
                    let ghost before = pairs_of(changed@);
                    let ghost kept = pairs_of(untouched@);
                    let ghost log1 = self.records();
                    assert(bindings[i as int].1@ == pairs[i as int].1);
                    let value = match self.rco_expr(bindings[i].1.copy()) {
                        Ok(value) => value,
                        Err(x) => {
                            proof {
                                lemma_prefix_chain(log0, log1, self.records());
                                lemma_pairs_error_stays(
                                    pairs,
                                    (i + 1) as nat,
                                    bindings.len() as nat,
                                    n0,
                                );
                            }
                            return Err(x);
                        },
                    };
                    let ghost f = flatten(pairs[i as int].1, s.next)->Ok_0;
                    match value {
                        AstNode::Let { bindings: mut inner, body: inner_body } => {
                            proof {
                                lemma_let_view(inner, inner_body);
                            }
                            let ghost spliced = pairs_of(inner@);
                            changed.append(&mut inner);
                            changed.push((bindings[i].0.clone(), *inner_body));
                            assert(pairs_of(changed@) =~= before + spliced + seq![
                                (pairs[i as int].0, (*inner_body)@),
                            ]);
                        },
                        _ => {
                            untouched.push((bindings[i].0.clone(), bindings[i].1.copy()));
                            assert(pairs_of(untouched@) =~= kept.push(pairs[i as int]));
                        },
                    }
                    assert(self.records() =~= log0 + (s.log + f.log));
                    proof {
                        lemma_prefix_of_concat(log0, s.log + f.log);
                    }
                    i += 1;
                }
                let ghost s = flatten_pairs(pairs, bindings.len() as nat, n0)->Ok_0;
                let ghost log1 = self.records();
                let new_body = match self.rco_expr((**body).copy()) {
                    Ok(flat) => flat,
                    Err(x) => {
                        proof {
                            lemma_prefix_chain(log0, log1, self.records());
                        }
                        return Err(x);
                    },
                };
                let ghost f = flatten((**body)@, s.next)->Ok_0;
                let ghost first = pairs_of(changed@);
                let ghost second = pairs_of(untouched@);
                changed.append(&mut untouched);
                let boxed = Box::new(new_body);
                proof {
                    lemma_let_view(changed, boxed);
                    assert(pairs_of(changed@) =~= first + second);
                    assert(self.records() =~= log0 + (s.log + f.log));
                    lemma_prefix_of_concat(log0, s.log + f.log);
                }
                Ok(AstNode::Let { bindings: changed, body: boxed })
            },
            _ => unreached(),
        }
    }

    /// Flattens a negation: its operand is made atomic, and bound in front of
    /// the negation where that took a temporary.
    fn rco_negation(&mut self, e: AstNode) -> (res: Result<AstNode, FlattenError>)
        requires
            old(self).wf(),
            e@ matches Expr::Prim { op, .. } && op == op_minus(),
        ensures
            final(self).wf(),
            old(self).counter() <= final(self).counter(),
            old(self).records().is_prefix_of(final(self).records()),
            match flatten(e@, old(self).counter()) {
                Ok(f) => res is Ok && res->Ok_0@ == f.tree && final(self).counter() == f.next
                    && final(self).records() == old(self).records() + f.log,
                Err(x) => res is Err && res->Err_0 == x,
            },
        decreases e@, 0nat,
    {
        proof {
            lemma_operator_texts();
        }
        let ghost n0 = self.counter();
        let ghost log0 = self.records();
        match &e {
            AstNode::Prim { op, args } => {
                proof {
                    lemma_prim_view(*op, *args);
                }
                if args.len() != 1 {
                    return Err(FlattenError::WrongArity);
                }
                proof {
                    lemma_atomize_log(args[0]@, n0);
                }
                let arg = match self.rco_atom(args[0].copy()) {
                    Ok(arg) => arg,
                    Err(x) => {
                        return Err(x);
                    },
                };
                let ghost a = atomize(args[0]@, n0)->Ok_0;
                if arg.0 {
                    proof {
                        lemma_first_match_hoisted(log0, a.log, Seq::empty(), n0, a.next);
                        assert(log0 + a.log + Seq::empty() =~= log0 + a.log);
                    }
                    let pair = self.recorded(&arg.1);
                    let let_binding: Vec<(Rc<String>, AstNode)> = vec![pair];
                    let operands: Vec<AstNode> = vec![arg.1];
                    let inner = Box::new(AstNode::Prim { op: op.clone(), args: operands });
                    proof {
                        lemma_prim_view(*op, operands);
                        lemma_let_view(let_binding, inner);
                        assert(exprs_of(operands@) =~= seq![a.atom]);
                        assert(pairs_of(let_binding@) =~= seq![a.log.last()]);
                    }
                    Ok(AstNode::Let { bindings: let_binding, body: inner })
                } else {
                    Ok(e)
                }
            },
            _ => unreached(),
        }
    }

    /// Flattens an addition: both operands are made atomic, left then right,
    /// and those that took a temporary are bound in front of the addition.
    fn rco_addition(&mut self, e: AstNode) -> (res: Result<AstNode, FlattenError>)
        requires
            old(self).wf(),
            e@ matches Expr::Prim { op, .. } && op == op_plus(),
        ensures
            final(self).wf(),
            old(self).counter() <= final(self).counter(),
            old(self).records().is_prefix_of(final(self).records()),
            match flatten(e@, old(self).counter()) {
                Ok(f) => res is Ok && res->Ok_0@ == f.tree && final(self).counter() == f.next
                    && final(self).records() == old(self).records() + f.log,
                Err(x) => res is Err && res->Err_0 == x,
            },
        decreases e@, 0nat,
    {
        proof {
            lemma_operator_texts();
        }
        let ghost n0 = self.counter();
        let ghost log0 = self.records();
        match &e {
            AstNode::Prim { op, args } => {
                proof {
                    lemma_prim_view(*op, *args);
                }
                if args.len() != 2 {
                    return Err(FlattenError::WrongArity);
                }
                proof {
                    lemma_atomize_log(args[0]@, n0);
                }
                let lhand = match self.rco_atom(args[0].copy()) {
                    Ok(arg) => arg,
                    Err(x) => {
                        return Err(x);
                    },
                };
                let ghost a = atomize(args[0]@, n0)->Ok_0;
                proof {
                    lemma_atomize_log(args[1]@, a.next);
                }
                let rhand = match self.rco_atom(args[1].copy()) {
                    Ok(arg) => arg,
                    Err(x) => {
                        return Err(x);
                    },
                };
                let ghost b = atomize(args[1]@, a.next)->Ok_0;
                assert(self.records() =~= log0 + (a.log + b.log));
                let mut let_bindings: Vec<(Rc<String>, AstNode)> = Vec::new();
                assert(pairs_of(let_bindings@) =~= Seq::empty());
                if lhand.0 {
                    proof {
                        lemma_first_match_hoisted(log0, a.log, b.log, n0, a.next);
                        assert(log0 + a.log + b.log =~= log0 + (a.log + b.log));
                    }
                    let pair = self.recorded(&lhand.1);
                    let_bindings.push(pair);
                    assert(pairs_of(let_bindings@) =~= seq![a.log.last()]);
                }
                let ghost emitted_left = pairs_of(let_bindings@);
                if rhand.0 {
                    proof {
                        lemma_all_numbered_concat(log0, a.log, 0, n0, a.next);
                        lemma_first_match_hoisted(
                            log0 + a.log,
                            b.log,
                            Seq::empty(),
                            a.next,
                            b.next,
                        );
                        assert(log0 + a.log + b.log + Seq::empty() =~= log0 + (a.log + b.log));
                    }
                    let pair = self.recorded(&rhand.1);
                    let_bindings.push(pair);
                    assert(pairs_of(let_bindings@) =~= emitted_left + seq![b.log.last()]);
                }
                if lhand.0 || rhand.0 {
                    let operands: Vec<AstNode> = vec![lhand.1, rhand.1];
                    let inner = Box::new(AstNode::Prim { op: op.clone(), args: operands });
                    proof {
                        lemma_prim_view(*op, operands);
                        lemma_let_view(let_bindings, inner);
                        assert(exprs_of(operands@) =~= seq![a.atom, b.atom]);
                        assert(pairs_of(let_bindings@) =~= emitted(a) + emitted(b));
                    }
                    Ok(AstNode::Let { bindings: let_bindings, body: inner })
                } else {
                    Ok(e)
                }
            },
            _ => unreached(),
        }
    }

    /// Flattens the expression of a program.
    pub fn decomplify(&mut self, p: Program) -> (res: Result<AstNode, FlattenError>)
        requires
            old(self).wf(),
        ensures
            final(self).wf(),
            old(self).counter() <= final(self).counter(),
            old(self).records().is_prefix_of(final(self).records()),
            match flatten(p.exp@, old(self).counter()) {
                Ok(f) => res is Ok && res->Ok_0@ == f.tree && final(self).counter() == f.next
                    && final(self).records() == old(self).records() + f.log,
                Err(x) => res is Err && res->Err_0 == x,
            },
    {
        self.rco_expr(p.exp)
    }
}

/// The operators' names, as the trees spell them.
pub proof fn lemma_operator_texts()
    ensures
        "+"@ == op_plus(),
        "-"@ == op_minus(),
        "read"@ == op_read(),
        op_read() != op_plus(),
        op_read() != op_minus(),
        op_plus() != op_minus(),
{
    lemma_operators_differ();
    reveal_strlit("+");
    reveal_strlit("-");
    reveal_strlit("read");
    assert("+"@ =~= op_plus());
    assert("-"@ =~= op_minus());
    assert("read"@ =~= op_read());
}

/// A hoisted operand's name finds the record that hoisting made: no earlier
/// record has that name, whatever was recorded afterwards.
pub proof fn lemma_first_match_hoisted(
    before: Seq<(Seq<char>, Expr)>,
    log: Seq<(Seq<char>, Expr)>,
    after: Seq<(Seq<char>, Expr)>,
    n: nat,
    next: nat,
)
    requires
        all_numbered(before, 0, n),
        log.len() >= 1,
        log.last().0 == tmp_name(n),
        all_numbered(log.drop_last(), n + 1, next),
    ensures
        first_match(before + log + after, tmp_name(n)) == Some(log.last().1),
{
    let all = before + log + after;
    let at = before.len() + log.len() - 1;
    assert(all[at] == log.last());
    assert forall|i: int| 0 <= i < at implies all[i].0 != tmp_name(n) by {
        if i < before.len() {
            assert(all[i] == before[i]);
            lemma_numbered_apart(before[i].0, 0, n, n);
        } else {
            assert(all[i] == log.drop_last()[i - before.len()]);
            lemma_numbered_apart(log.drop_last()[i - before.len()].0, n + 1, next, n);
        }
    }
    lemma_first_match_at(all, tmp_name(n), at);
}

/// Flattens a program with a counter of its own, which starts at zero.
pub fn decomplify_program(program: Program) -> (res: Result<Program, FlattenError>)
    ensures
        match flatten(program.exp@, 0) {
            Ok(f) => res is Ok && res->Ok_0.exp@ == f.tree,
            Err(x) => res is Err && res->Err_0 == x,
        },
{
    let mut rco = Rco::new();
    match rco.decomplify(program) {
        Ok(exp) => Ok(Program { info: (), exp }),
        Err(x) => Err(x),
    }
}

} // verus!
