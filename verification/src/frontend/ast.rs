//! The tree that every pass reads and rebuilds, and its mathematical value.
use std::rc::Rc;
use vstd::prelude::*;

verus! {

/// The piece of source text at which parsing gave up.
#[derive(Debug, PartialEq)]
pub struct Token {
    pub text: String,
}

/// The mathematical value of a tree: contracts and laws speak of this type.
pub ghost enum Expr {
    Int(int),
    Prim { op: Seq<char>, args: Seq<Expr> },
    Let { bindings: Seq<(Seq<char>, Expr)>, body: Box<Expr> },
    Var { name: Seq<char> },
    Error { msg: Seq<char>, token: Seq<char> },
}

/// A node of the tree. Identifiers are shared strings: a pass hands them on
/// without copying their text.
#[derive(Debug, PartialEq)]
pub enum AstNode {
    Int(i64),
    Prim { op: Rc<String>, args: Vec<AstNode> },
    Let { bindings: Vec<(Rc<String>, AstNode)>, body: Box<AstNode> },
    Var { name: Rc<String> },
    Error { msg: Rc<String>, token: Token },
}

/// A program: one expression, and a place for what later passes will note about it.
#[derive(Debug, PartialEq)]
pub struct Program {
    pub info: (),
    pub exp: AstNode,
}

/// The value of a tree: the same shape, with every string and vector taken by its view.
pub open spec fn expr_of(node: AstNode) -> Expr
    decreases node,
{
    match node {
        AstNode::Int(n) => Expr::Int(n as int),
        AstNode::Prim { op, args } => Expr::Prim {
            op: op@,
            args: Seq::new(
                args.len() as nat,
                |i: int| if 0 <= i < args.len() { expr_of(args[i]) } else { Expr::Int(0) },
            ),
        },
        AstNode::Let { bindings, body } => Expr::Let {
            bindings: Seq::new(
                bindings.len() as nat,
                |i: int| if 0 <= i < bindings.len() {
                    (bindings[i].0@, expr_of(bindings[i].1))
                } else {
                    (Seq::empty(), Expr::Int(0))
                },
            ),
            body: Box::new(expr_of(*body)),
        },
        AstNode::Var { name } => Expr::Var { name: name@ },
        AstNode::Error { msg, token } => Expr::Error { msg: msg@, token: token.text@ },
    }
}

impl View for AstNode {
    type V = Expr;

    open spec fn view(&self) -> Expr {
        expr_of(*self)
    }
}

/// The values of a vector of trees, in order.
pub open spec fn exprs_of(nodes: Seq<AstNode>) -> Seq<Expr> {
    Seq::new(nodes.len(), |i: int| nodes[i]@)
}

/// The values of a vector of bindings, in order.
pub open spec fn pairs_of(bindings: Seq<(Rc<String>, AstNode)>) -> Seq<(Seq<char>, Expr)> {
    Seq::new(bindings.len(), |i: int| (bindings[i].0@, bindings[i].1@))
}

/// The value of a primitive node is its operator and the values of its operands.
pub proof fn lemma_prim_view(op: Rc<String>, args: Vec<AstNode>)
    ensures
        (AstNode::Prim { op, args })@ == (Expr::Prim { op: op@, args: exprs_of(args@) }),
{
    let node = AstNode::Prim { op, args };
    assert(node@->Prim_args =~= exprs_of(args@));
}

/// The value of a binding node is its pairs, by value, and the value of its body.
pub proof fn lemma_let_view(bindings: Vec<(Rc<String>, AstNode)>, body: Box<AstNode>)
    ensures
        (AstNode::Let { bindings, body })@ == (Expr::Let {
            bindings: pairs_of(bindings@),
            body: Box::new((*body)@),
        }),
{
    let node = AstNode::Let { bindings, body };
    assert(node@->Let_bindings =~= pairs_of(bindings@));
}

impl Token {
    /// A copy with the same text.
    pub fn copy(&self) -> (res: Token)
        ensures
            res.text@ == self.text@,
    {
        Token { text: self.text.clone() }
    }
}

impl AstNode {
    /// A deep copy: a tree of its own with the same value.
    #[verifier::loop_isolation(false)]
    pub fn copy(&self) -> (res: AstNode)
        ensures
            res@ == self@,
        decreases self,
    {
        match self {
            AstNode::Int(n) => AstNode::Int(*n),
            AstNode::Prim { op, args } => {
                let mut out: Vec<AstNode> = Vec::new();
                let mut i: usize = 0;
                while i < args.len()
                    invariant
                        i <= args.len(),
                        out.len() == i,
                        forall|j: int| 0 <= j < i ==> out[j]@ == args[j]@,
                    decreases args.len() - i,
                {
                    let item = args[i].copy();
                    out.push(item);
                    i += 1;
                }
                proof {
                    lemma_prim_view(*op, *args);
                    lemma_prim_view(*op, out);
                    assert(exprs_of(out@) =~= exprs_of(args@));
                }
                AstNode::Prim { op: op.clone(), args: out }
            },
            AstNode::Let { bindings, body } => {
                let mut out: Vec<(Rc<String>, AstNode)> = Vec::new();
                let mut i: usize = 0;
                while i < bindings.len()
                    invariant
                        i <= bindings.len(),
                        out.len() == i,
                        forall|j: int|
                            0 <= j < i ==> out[j].0@ == bindings[j].0@ && out[j].1@
                                == bindings[j].1@,
                    decreases bindings.len() - i,
                {
                    let value = bindings[i].1.copy();
                    out.push((bindings[i].0.clone(), value));
                    i += 1;
                }
                let inner = body.copy();
                let boxed = Box::new(inner);
                proof {
                    lemma_let_view(*bindings, *body);
                    lemma_let_view(out, boxed);
                    assert(pairs_of(out@) =~= pairs_of(bindings@));
                }
                AstNode::Let { bindings: out, body: boxed }
            },
            AstNode::Var { name } => AstNode::Var { name: name.clone() },
            AstNode::Error { msg, token } => AstNode::Error {
                msg: msg.clone(),
                token: token.copy(),
            },
        }
    }
}

impl Clone for Token {
    fn clone(&self) -> (res: Token)
        ensures
            res.text@ == self.text@,
    {
        self.copy()
    }
}

impl Clone for AstNode {
    fn clone(&self) -> (res: AstNode)
        ensures
            res@ == self@,
    {
        self.copy()
    }
}

impl Clone for Program {
    fn clone(&self) -> (res: Program)
        ensures
            res.exp@ == self.exp@,
    {
        Program { info: (), exp: self.exp.copy() }
    }
}

} // verus!
