//! The tree of the surface language, and the terms that it stands for.

use crate::icfp::ast::BinaryOp;
use crate::icfp::ast::Literal;
use crate::icfp::ast::UnuaryOp;
use crate::icfp::ast::Value;
use std::rc::Rc;
use vstd::prelude::*;

verus! {

/// What an [`LNode`] stands for.
#[allow(inconsistent_fields)]
pub enum LTerm {
    Litteral(Literal),
    Let { bindings: Seq<LBinding>, body: Box<LTerm> },
    Variable(Seq<char>),
    Apply { func: Box<LTerm>, param: Box<LTerm> },
    BinaryOp { op: BinaryOp, left: Box<LTerm>, right: Box<LTerm> },
    UnuaryOp { op: UnuaryOp, body: Box<LTerm> },
    If { cond: Box<LTerm>, then_do: Box<LTerm>, else_do: Box<LTerm> },
}

/// What a [`Binding`] stands for.
pub struct LBinding {
    pub rec: bool,
    pub name: Seq<char>,
    pub params: Seq<Seq<char>>,
    pub value: Box<LTerm>,
}

/// A name of the source text.
#[derive(Debug, PartialEq, Eq, Hash)]
pub struct Iden(pub String);

impl Iden {
    pub fn new(name: String) -> (r: Self)
        ensures
            r@ == name@,
    {
        Iden(name)
    }
}

impl View for Iden {
    type V = Seq<char>;

    open spec fn view(&self) -> Seq<char> {
        self.0@
    }
}

impl Clone for Iden {
    fn clone(&self) -> (r: Self)
        ensures
            r@ == self@,
    {
        Iden(self.0.clone())
    }
}

/// A shared, immutable node of the tree.
pub type LNodeRef = Rc<LNode>;

/// One definition of a `let`: a name, the parameters where it defines a
/// function, and the value. A recursive definition may use its own name in
/// its value.
#[derive(Debug, PartialEq, Eq)]
pub struct Binding {
    pub rec: bool,
    pub name: Iden,
    pub params: Vec<Iden>,
    pub value: LNodeRef,
}

/// A node of the tree.
#[derive(Debug, PartialEq, Eq)]
#[allow(inconsistent_fields)]
pub enum LNode {
    Litteral(Value),
    Let { bindings: Vec<Binding>, body: LNodeRef },
    Variable(Iden),
    Apply { func: LNodeRef, param: LNodeRef },
    BinaryOp { op: BinaryOp, left: LNodeRef, right: LNodeRef },
    UnuaryOp { op: UnuaryOp, body: LNodeRef },
    If { cond: LNodeRef, then_do: LNodeRef, else_do: LNodeRef },
}

/// The names that identifiers stand for.
pub open spec fn names_of(idens: Seq<Iden>) -> Seq<Seq<char>> {
    Seq::new(idens.len(), |i: int| idens[i]@)
}

impl Binding {
    /// The definition that the binding stands for.
    pub open spec fn model(&self) -> LBinding
        decreases self, 0int,
    {
        LBinding {
            rec: self.rec,
            name: self.name@,
            params: names_of(self.params@),
            value: Box::new(self.value.term()),
        }
    }
}

/// What the first `n` bindings stand for.
pub open spec fn models_of(bindings: Seq<Binding>, n: int) -> Seq<LBinding>
    decreases bindings, n,
{
    if n <= 0 || n > bindings.len() {
        Seq::empty()
    } else {
        models_of(bindings, n - 1).push(bindings[n - 1].model())
    }
}

impl LNode {
    /// The term that the node stands for.
    pub open spec fn term(&self) -> LTerm
        decreases self, 0int,
    {
        match self {
            LNode::Litteral(v) => LTerm::Litteral(v@),
            LNode::Let { bindings, body } => LTerm::Let {
                bindings: models_of(bindings@, bindings@.len() as int),
                body: Box::new(body.term()),
            },
            LNode::Variable(name) => LTerm::Variable(name@),
            LNode::Apply { func, param } => LTerm::Apply {
                func: Box::new(func.term()),
                param: Box::new(param.term()),
            },
            LNode::BinaryOp { op, left, right } => LTerm::BinaryOp {
                op: *op,
                left: Box::new(left.term()),
                right: Box::new(right.term()),
            },
            LNode::UnuaryOp { op, body } => LTerm::UnuaryOp { op: *op, body: Box::new(body.term()) },
            LNode::If { cond, then_do, else_do } => LTerm::If {
                cond: Box::new(cond.term()),
                then_do: Box::new(then_do.term()),
                else_do: Box::new(else_do.term()),
            },
        }
    }
}

impl View for LNode {
    type V = LTerm;

    open spec fn view(&self) -> LTerm {
        self.term()
    }
}

impl View for Binding {
    type V = LBinding;

    open spec fn view(&self) -> LBinding {
        self.model()
    }
}


impl Binding {
    pub fn new(rec: bool, name: Iden, params: Vec<Iden>, value: LNodeRef) -> (r: Self)
        ensures
            r.rec == rec,
            r.name == name,
            r.params == params,
            r.value == value,
    {
        Binding { rec, name, params, value }
    }
}

impl LNode {
    /// A conditional.
    pub fn cond(cond: LNodeRef, then_do: LNodeRef, else_do: LNodeRef) -> (r: LNodeRef)
        ensures
            r@ == (LTerm::If {
                cond: Box::new(cond@),
                then_do: Box::new(then_do@),
                else_do: Box::new(else_do@),
            }),
    {
        Rc::new(Self::If { cond, then_do, else_do })
    }

    /// A binary operation.
    pub fn binary_op(op: BinaryOp, left: LNodeRef, right: LNodeRef) -> (r: LNodeRef)
        ensures
            r@ == (LTerm::BinaryOp { op, left: Box::new(left@), right: Box::new(right@) }),
    {
        Rc::new(Self::BinaryOp { op, left, right })
    }

    /// A unary operation.
    pub fn unuary_op(op: UnuaryOp, body: LNodeRef) -> (r: LNodeRef)
        ensures
            r@ == (LTerm::UnuaryOp { op, body: Box::new(body@) }),
    {
        Rc::new(Self::UnuaryOp { op, body })
    }

    /// An application.
    pub fn apply(func: LNodeRef, param: LNodeRef) -> (r: LNodeRef)
        ensures
            r@ == (LTerm::Apply { func: Box::new(func@), param: Box::new(param@) }),
    {
        Rc::new(Self::Apply { func, param })
    }

    /// A reference to a name.
    pub fn var(name: Iden) -> (r: LNodeRef)
        ensures
            r@ == LTerm::Variable(name@),
    {
        Rc::new(Self::Variable(name))
    }

    /// A literal.
    pub fn value(val: Value) -> (r: LNodeRef)
        ensures
            r@ == LTerm::Litteral(val@),
    {
        Rc::new(Self::Litteral(val))
    }

    /// An integer literal.
    pub fn integer(val: i64) -> (r: LNodeRef)
        ensures
            r@ == LTerm::Litteral(Literal::Int(val as int)),
    {
        Self::value(Value::Int(crate::bigint::BigInt::from_i64(val)))
    }

    /// A boolean literal.
    pub fn boolean(val: bool) -> (r: LNodeRef)
        ensures
            r@ == LTerm::Litteral(Literal::Bool(val)),
    {
        Self::value(Value::Bool(val))
    }

    /// A text literal.
    pub fn string(val: String) -> (r: LNodeRef)
        ensures
            r@ == LTerm::Litteral(Literal::Str(val@)),
    {
        Self::value(Value::Str(val))
    }
}


/// What the bindings stand for, one by one.
pub proof fn lemma_models_of(bindings: Seq<Binding>, n: int)
    requires
        0 <= n <= bindings.len(),
    ensures
        models_of(bindings, n).len() == n,
        forall|k: int| 0 <= k < n ==> #[trigger] models_of(bindings, n)[k] == bindings[k].model(),
    decreases n,
{
    if n > 0 {
        lemma_models_of(bindings, n - 1);
    }
}


/// What the bindings stand for, with one more binding.
pub proof fn lemma_models_push(bindings: Seq<Binding>, b: Binding)
    ensures
        models_of(bindings.push(b), bindings.len() as int + 1) == models_of(
            bindings,
            bindings.len() as int,
        ).push(b.model()),
{
    let more = bindings.push(b);
    lemma_models_of(more, more.len() as int);
    lemma_models_of(bindings, bindings.len() as int);
    let left = models_of(more, more.len() as int);
    let right = models_of(bindings, bindings.len() as int).push(b.model());
    assert forall|k: int| 0 <= k < left.len() implies left[k] == right[k] by {
        if k < bindings.len() {
            assert(more[k] == bindings[k]);
        }
    }
    assert(left =~= right);
}

} // verus!
