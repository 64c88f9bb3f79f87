//! The expression tree, and the mathematical terms that it stands for.

use crate::bigint::BigInt;
use std::rc::Rc;
use vstd::prelude::*;

verus! {

/// What a [`Value`] stands for.
pub enum Literal {
    Str(Seq<char>),
    Int(int),
    Bool(bool),
}

/// What a [`Node`] stands for: an expression over unbounded integers, texts
/// and booleans, with variables named by natural numbers.
#[allow(inconsistent_fields)]
pub enum Term {
    Value(Literal),
    Lambda { var: u64, body: Box<Term> },
    Variable(u64),
    Apply { f: Box<Term>, value: Box<Term> },
    BinaryOp { op: BinaryOp, left: Box<Term>, right: Box<Term> },
    UnuaryOp { op: UnuaryOp, body: Box<Term> },
    If { cond: Box<Term>, then_do: Box<Term>, else_do: Box<Term> },
}

/// A value of the language.
#[derive(Debug, PartialEq, Eq)]
pub enum Value {
    Str(String),
    Int(BigInt),
    Bool(bool),
}

impl View for Value {
    type V = Literal;

    open spec fn view(&self) -> Literal {
        match self {
            Value::Str(s) => Literal::Str(s@),
            Value::Int(i) => Literal::Int(i@),
            Value::Bool(b) => Literal::Bool(*b),
        }
    }
}

impl Clone for Value {
    fn clone(&self) -> (r: Self)
        ensures
            r@ == self@,
    {
        match self {
            Value::Str(s) => Value::Str(s.clone()),
            Value::Int(i) => Value::Int(i.clone()),
            Value::Bool(b) => Value::Bool(*b),
        }
    }
}

impl Value {
    /// The text of a text value.
    pub fn as_str(&self) -> (r: &str)
        requires
            self is Str,
        ensures
            self@ == Literal::Str(r@),
    {
        match self {
            Value::Str(s) => s.as_str(),
            _ => vstd::pervasive::unreached(),
        }
    }

    /// The integer of an integer value.
    pub fn as_int(&self) -> (r: &BigInt)
        requires
            self is Int,
        ensures
            self@ == Literal::Int(r@),
    {
        match self {
            Value::Int(i) => i,
            _ => vstd::pervasive::unreached(),
        }
    }

    /// The boolean of a boolean value.
    pub fn as_bool(&self) -> (r: bool)
        requires
            self is Bool,
        ensures
            self@ == Literal::Bool(r),
    {
        match self {
            Value::Bool(b) => *b,
            _ => vstd::pervasive::unreached(),
        }
    }
}

/// The name of a variable.
#[derive(Copy, Clone, Debug, PartialEq, Eq, Hash, Structural)]
pub struct VarId(pub u64);

impl VarId {
    pub fn new(id: u64) -> (r: Self)
        ensures
            r.0 == id,
    {
        VarId(id)
    }

    pub fn id(&self) -> (r: u64)
        ensures
            r == self.0,
    {
        self.0
    }
}

/// A shared, immutable expression.
pub type NodeRef = Rc<Node>;

#[derive(Copy, Clone, Debug, PartialEq, Eq, Structural)]
pub enum BinaryOp {
    IntAdd,
    IntSub,
    IntMul,
    IntDiv,
    IntMod,
    IntLt,
    IntGt,
    BoolOr,
    BoolAnd,
    StrConcat,
    StrTake,
    StrDrop,
    Eq,
}

#[derive(Copy, Clone, Debug, PartialEq, Eq, Structural)]
pub enum UnuaryOp {
    IntNeg,
    BoolNot,
    StrToInt,
    IntToStr,
}

/// How an application wants its argument evaluated. The evaluator treats
/// every application as call-by-name; the tag is carried along and otherwise
/// ignored.
#[derive(Clone, Copy, Debug, PartialEq, Eq, Structural)]
pub enum EvalStrat {
    Name,
    Value,
    Lazy,
}

/// An expression.
#[derive(Debug, PartialEq, Eq)]
#[allow(inconsistent_fields)]
pub enum Node {
    Value(Value),
    Lambda { var: VarId, body: NodeRef },
    Variable(VarId),
    Apply { strat: EvalStrat, f: NodeRef, value: NodeRef },
    BinaryOp { op: BinaryOp, left: NodeRef, right: NodeRef },
    UnuaryOp { op: UnuaryOp, body: NodeRef },
    If { cond: NodeRef, then_do: NodeRef, else_do: NodeRef },
}

impl Node {
    /// The term that the expression stands for.
    pub open spec fn term(&self) -> Term
        decreases self,
    {
        match self {
            Node::Value(v) => Term::Value(v@),
            Node::Lambda { var, body } => Term::Lambda { var: var.0, body: Box::new(body.term()) },
            Node::Variable(v) => Term::Variable(v.0),
            Node::Apply { strat, f, value } => Term::Apply {
                f: Box::new(f.term()),
                value: Box::new(value.term()),
            },
            Node::BinaryOp { op, left, right } => Term::BinaryOp {
                op: *op,
                left: Box::new(left.term()),
                right: Box::new(right.term()),
            },
            Node::UnuaryOp { op, body } => Term::UnuaryOp { op: *op, body: Box::new(body.term()) },
            Node::If { cond, then_do, else_do } => Term::If {
                cond: Box::new(cond.term()),
                then_do: Box::new(then_do.term()),
                else_do: Box::new(else_do.term()),
            },
        }
    }
}

/// The terms of a node's children are smaller than the node's own term.
pub proof fn lemma_children_decrease(node: &Node)
    ensures
        match node {
            Node::Value(_) => true,
            Node::Variable(_) => true,
            Node::Lambda { var, body } => decreases_to!(node.term() => body.term()),
            Node::UnuaryOp { op, body } => decreases_to!(node.term() => body.term()),
            Node::Apply { strat, f, value } => decreases_to!(node.term() => f.term())
                && decreases_to!(node.term() => value.term()),
            Node::BinaryOp { op, left, right } => decreases_to!(node.term() => left.term())
                && decreases_to!(node.term() => right.term()),
            Node::If { cond, then_do, else_do } => decreases_to!(node.term() => cond.term())
                && decreases_to!(node.term() => then_do.term())
                && decreases_to!(node.term() => else_do.term()),
        },
{
    let t = node.term();
    match node {
        Node::Value(_) => {},
        Node::Variable(_) => {},
        Node::Lambda { var, body } => {
            assert(t matches Term::Lambda { var: _, body: b } && *b == body.term());
        },
        Node::UnuaryOp { op, body } => {
            assert(t matches Term::UnuaryOp { op: _, body: b } && *b == body.term());
        },
        Node::Apply { strat, f, value } => {
            assert(t matches Term::Apply { f: a, value: b } && *a == f.term() && *b
                == value.term());
        },
        Node::BinaryOp { op, left, right } => {
            assert(t matches Term::BinaryOp { op: _, left: a, right: b } && *a == left.term()
                && *b == right.term());
        },
        Node::If { cond, then_do, else_do } => {
            assert(t matches Term::If { cond: a, then_do: b, else_do: c } && *a == cond.term()
                && *b == then_do.term() && *c == else_do.term());
        },
    }
}

impl View for Node {
    type V = Term;

    open spec fn view(&self) -> Term {
        self.term()
    }
}

/// `Rc::clone`: another handle to the same expression.
#[verifier::external_body]
pub(crate) fn share(node: &NodeRef) -> (r: NodeRef)
    ensures
        r == *node,
{
    Rc::clone(node)
}

impl Node {
    /// A reference to a variable.
    pub fn var(id: VarId) -> (r: NodeRef)
        ensures
            r@ == Term::Variable(id.0),
    {
        Rc::new(Node::Variable(id))
    }

    /// An application.
    pub fn apply(strat: EvalStrat, f: NodeRef, value: NodeRef) -> (r: NodeRef)
        ensures
            r@ == (Term::Apply { f: Box::new(f@), value: Box::new(value@) }),
            *r == (Node::Apply { strat, f, value }),
    {
        Rc::new(Node::Apply { strat, f, value })
    }

    /// A function of one variable.
    pub fn lambda(var: VarId, body: NodeRef) -> (r: NodeRef)
        ensures
            r@ == (Term::Lambda { var: var.0, body: Box::new(body@) }),
    {
        Rc::new(Node::Lambda { var, body })
    }

    /// The body with the variable bound to the value: the application of the
    /// function of that variable to the value.
    pub fn bind(var: VarId, value: NodeRef, body: NodeRef) -> (r: NodeRef)
        ensures
            r@ == (Term::Apply {
                f: Box::new(Term::Lambda { var: var.0, body: Box::new(body@) }),
                value: Box::new(value@),
            }),
    {
        Self::apply(EvalStrat::Value, Self::lambda(var, body), value)
    }
}

} // verus!
