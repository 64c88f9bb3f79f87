//! The compiler from the surface language to the expression language.
//!
//! Every name of the source gets one variable. A `let` becomes nested
//! applications of lambdas, a function definition a chain of lambdas over its
//! parameters, and a recursive function an application of a fixed-point
//! combinator that is defined once, at the top of the program.

use crate::icfp::ast::Node;
use crate::icfp::ast::NodeRef;
use crate::icfp::ast::Term;
use crate::icfp::ast::VarId;
use crate::icfp::EvalStrat;
use crate::lasm::ast::Binding;
use crate::lasm::ast::Iden;
use crate::lasm::ast::LBinding;
use crate::lasm::ast::LNode;
use crate::lasm::ast::LNodeRef;
use crate::lasm::ast::LTerm;
use std::rc::Rc;
use vstd::prelude::*;

verus! {

/// Why a program cannot be compiled.
#[derive(Debug, Clone, Copy, PartialEq, Eq, Structural)]
pub enum CompileError {
    /// A name is used that no definition and no parameter of the program
    /// introduces.
    UnresolvedName,
    /// A definition is marked recursive and has no parameter.
    RecursionWithoutParams,
    /// The program needs more variables than there are.
    TooManyNames,
}

/// What a [`Compiler`] stands for: the variable of each name met so far, the
/// next variable that is free, and the variable of the fixed-point combinator
/// once a recursive function has asked for it.
pub struct Names {
    pub table: Seq<(Seq<char>, u64)>,
    pub next: u64,
    pub y: Option<u64>,
}

/// No name, and every variable free.
pub open spec fn no_names() -> Names {
    Names { table: Seq::empty(), next: 0, y: None }
}

/// The variable of a name among the first `n` entries of the table.
pub open spec fn find_name(table: Seq<(Seq<char>, u64)>, name: Seq<char>, n: int) -> Option<u64>
    decreases n,
{
    if n <= 0 || n > table.len() {
        None
    } else {
        match find_name(table, name, n - 1) {
            Some(id) => Some(id),
            None => if table[n - 1].0 == name {
                Some(table[n - 1].1)
            } else {
                None
            },
        }
    }
}

/// The variable of a name.
pub open spec fn resolve(names: Names, name: Seq<char>) -> Option<u64> {
    find_name(names.table, name, names.table.len() as int)
}

/// The names with a variable for the name: the one it has, or the next free
/// one.
pub open spec fn declare(names: Names, name: Seq<char>) -> Result<Names, CompileError> {
    if resolve(names, name).is_some() {
        Ok(names)
    } else if names.next == u64::MAX {
        Err(CompileError::TooManyNames)
    } else {
        Ok(Names { table: names.table.push((name, names.next)), next: (names.next + 1) as u64, ..names })
    }
}

/// The names with a variable for each of the first `n` parameters.
pub open spec fn declare_params(names: Names, params: Seq<Seq<char>>, n: int) -> Result<
    Names,
    CompileError,
>
    decreases n,
{
    if n <= 0 || n > params.len() {
        Ok(names)
    } else {
        match declare_params(names, params, n - 1) {
            Err(e) => Err(e),
            Ok(names) => declare(names, params[n - 1]),
        }
    }
}

/// The names with a variable for every name that the first `n` definitions
/// introduce: of each, its own name, its parameters, then the names in its
/// value.
pub open spec fn declare_bindings(names: Names, bindings: Seq<LBinding>, n: int) -> Result<
    Names,
    CompileError,
>
    decreases bindings, n,
{
    if n <= 0 || n > bindings.len() {
        Ok(names)
    } else {
        match declare_bindings(names, bindings, n - 1) {
            Err(e) => Err(e),
            Ok(names) => {
                let b = bindings[n - 1];
                match declare(names, b.name) {
                    Err(e) => Err(e),
                    Ok(names) => match declare_params(names, b.params, b.params.len() as int) {
                        Err(e) => Err(e),
                        Ok(names) => declare_all(names, *b.value),
                    },
                }
            },
        }
    }
}

/// The names with a variable for every name that a definition or a parameter
/// of the term introduces, in the order of the text.
pub open spec fn declare_all(names: Names, t: LTerm) -> Result<Names, CompileError>
    decreases t, 0int,
{
    match t {
        LTerm::Litteral(_) => Ok(names),
        LTerm::Variable(_) => Ok(names),
        LTerm::Let { bindings, body } => match declare_bindings(
            names,
            bindings,
            bindings.len() as int,
        ) {
            Err(e) => Err(e),
            Ok(names) => declare_all(names, *body),
        },
        LTerm::Apply { func, param } => match declare_all(names, *func) {
            Err(e) => Err(e),
            Ok(names) => declare_all(names, *param),
        },
        LTerm::BinaryOp { op, left, right } => match declare_all(names, *left) {
            Err(e) => Err(e),
            Ok(names) => declare_all(names, *right),
        },
        LTerm::UnuaryOp { op, body } => declare_all(names, *body),
        LTerm::If { cond, then_do, else_do } => match declare_all(names, *cond) {
            Err(e) => Err(e),
            Ok(names) => match declare_all(names, *then_do) {
                Err(e) => Err(e),
                Ok(names) => declare_all(names, *else_do),
            },
        },
    }
}

/// The application of the function of `var` with the given body to `value`.
pub open spec fn bind(var: u64, value: Term, body: Term) -> Term {
    Term::Apply {
        f: Box::new(Term::Lambda { var, body: Box::new(body) }),
        value: Box::new(value),
    }
}

/// The function of `var` with the given body.
pub open spec fn lambda(var: u64, body: Term) -> Term {
    Term::Lambda { var, body: Box::new(body) }
}

/// The application of `f` to `value`.
pub open spec fn apply(f: Term, value: Term) -> Term {
    Term::Apply { f: Box::new(f), value: Box::new(value) }
}

/// The fixed-point combinator `λf.(λx.f (x x)) (λx.f (x x))`.
pub open spec fn y_combinator(f: u64, x: u64) -> Term {
    let half = lambda(
        x,
        apply(Term::Variable(f), apply(Term::Variable(x), Term::Variable(x))),
    );
    lambda(f, apply(half, half))
}

/// The names once the fixed-point combinator is asked for: the first time it
/// takes three free variables, two for its definition and one for itself.
pub open spec fn with_y(names: Names) -> Result<Names, CompileError> {
    if names.y.is_some() {
        Ok(names)
    } else if names.next > u64::MAX - 3 {
        Err(CompileError::TooManyNames)
    } else {
        Ok(Names { next: (names.next + 3) as u64, y: Some((names.next + 2) as u64), ..names })
    }
}

/// The body under lambdas for the first `n` parameters, the first outermost.
pub open spec fn under_params(names: Names, params: Seq<Seq<char>>, n: int, body: Term) -> Result<
    Term,
    CompileError,
>
    decreases params.len() - n,
{
    if n < 0 || n >= params.len() {
        Ok(body)
    } else {
        match under_params(names, params, n + 1, body) {
            Err(e) => Err(e),
            Ok(inner) => match resolve(names, params[n]) {
                None => Err(CompileError::UnresolvedName),
                Some(id) => Ok(lambda(id, inner)),
            },
        }
    }
}

/// The body with the definitions from the `n`th on bound around it, the
/// `n`th outermost.
pub open spec fn wrapped(bound: Seq<(u64, Term)>, n: int, body: Term) -> Term
    decreases bound.len() - n,
{
    if n < 0 || n >= bound.len() {
        body
    } else {
        bind(bound[n].0, bound[n].1, wrapped(bound, n + 1, body))
    }
}

/// The variable and the value of a definition.
///
/// The value of a function is a chain of lambdas over its parameters. The
/// value of a recursive function is the fixed-point combinator applied to the
/// function of the definition's own name.
pub open spec fn lower_binding(names: Names, b: LBinding) -> Result<
    ((u64, Term), Names),
    CompileError,
>
    decreases b, 0int,
{
    match resolve(names, b.name) {
        None => Err(CompileError::UnresolvedName),
        Some(id) => match lower(names, *b.value) {
            Err(e) => Err(e),
            Ok((value, names)) => if b.params.len() == 0 {
                if b.rec {
                    Err(CompileError::RecursionWithoutParams)
                } else {
                    Ok(((id, value), names))
                }
            } else {
                match under_params(names, b.params, 0, value) {
                    Err(e) => Err(e),
                    Ok(function) => if b.rec {
                        match with_y(names) {
                            Err(e) => Err(e),
                            Ok(names) => Ok(
                                (
                                    (
                                        id,
                                        apply(
                                            Term::Variable(names.y.unwrap()),
                                            lambda(id, function),
                                        ),
                                    ),
                                    names,
                                ),
                            ),
                        }
                    } else {
                        Ok(((id, function), names))
                    },
                }
            },
        },
    }
}

/// The variables and the values of the first `n` definitions, in order.
pub open spec fn lower_bindings(names: Names, bindings: Seq<LBinding>, n: int) -> Result<
    (Seq<(u64, Term)>, Names),
    CompileError,
>
    decreases bindings, n,
{
    if n <= 0 || n > bindings.len() {
        Ok((Seq::empty(), names))
    } else {
        match lower_bindings(names, bindings, n - 1) {
            Err(e) => Err(e),
            Ok((bound, names)) => match lower_binding(names, bindings[n - 1]) {
                Err(e) => Err(e),
                Ok((pair, names)) => Ok((bound.push(pair), names)),
            },
        }
    }
}

/// The expression of a term: literals, operators, conditionals and
/// applications as they are, a name as its variable, and a `let` as its body
/// with the definitions bound around it, the first outermost.
pub open spec fn lower(names: Names, t: LTerm) -> Result<(Term, Names), CompileError>
    decreases t, 0int,
{
    match t {
        LTerm::Litteral(v) => Ok((Term::Value(v), names)),
        LTerm::Variable(name) => match resolve(names, name) {
            Some(id) => Ok((Term::Variable(id), names)),
            None => Err(CompileError::UnresolvedName),
        },
        LTerm::Apply { func, param } => match lower(names, *func) {
            Err(e) => Err(e),
            Ok((f, names)) => match lower(names, *param) {
                Err(e) => Err(e),
                Ok((value, names)) => Ok((apply(f, value), names)),
            },
        },
        LTerm::UnuaryOp { op, body } => match lower(names, *body) {
            Err(e) => Err(e),
            Ok((body, names)) => Ok((Term::UnuaryOp { op, body: Box::new(body) }, names)),
        },
        LTerm::BinaryOp { op, left, right } => match lower(names, *left) {
            Err(e) => Err(e),
            Ok((left, names)) => match lower(names, *right) {
                Err(e) => Err(e),
                Ok((right, names)) => Ok(
                    (Term::BinaryOp { op, left: Box::new(left), right: Box::new(right) }, names),
                ),
            },
        },
        LTerm::If { cond, then_do, else_do } => match lower(names, *cond) {
            Err(e) => Err(e),
            Ok((cond, names)) => match lower(names, *then_do) {
                Err(e) => Err(e),
                Ok((then_do, names)) => match lower(names, *else_do) {
                    Err(e) => Err(e),
                    Ok((else_do, names)) => Ok(
                        (
                            Term::If {
                                cond: Box::new(cond),
                                then_do: Box::new(then_do),
                                else_do: Box::new(else_do),
                            },
                            names,
                        ),
                    ),
                },
            },
        },
        LTerm::Let { bindings, body } => match lower_bindings(
            names,
            bindings,
            bindings.len() as int,
        ) {
            Err(e) => Err(e),
            Ok((bound, names)) => match lower(names, *body) {
                Err(e) => Err(e),
                Ok((body, names)) => Ok((wrapped(bound, 0, body), names)),
            },
        },
    }
}

/// The compiled program: the expression of the term, and around it the one
/// definition of the fixed-point combinator where a recursive function has
/// asked for it.
pub open spec fn compiled_from(names: Names, t: LTerm) -> Result<(Term, Names), CompileError> {
    match declare_all(names, t) {
        Err(e) => Err(e),
        Ok(names) => match lower(names, t) {
            Err(e) => Err(e),
            Ok((body, names)) => match names.y {
                Some(y) => Ok(
                    (bind(y, y_combinator((y - 2) as u64, (y - 1) as u64), body), names),
                ),
                None => Ok((body, names)),
            },
        },
    }
}

/// The compiled program of a term.
pub open spec fn compiled(t: LTerm) -> Result<Term, CompileError> {
    match compiled_from(no_names(), t) {
        Ok((term, _)) => Ok(term),
        Err(e) => Err(e),
    }
}


/// The exec result stands for the spec result.
pub open spec fn node_matches(
    r: Result<NodeRef, CompileError>,
    after: Names,
    s: Result<(Term, Names), CompileError>,
) -> bool {
    match s {
        Ok((t, names)) => r.is_ok() && r.unwrap()@ == t && after == names,
        Err(e) => r == Err::<NodeRef, CompileError>(e),
    }
}

/// The exec result stands for the spec result.
pub open spec fn names_match(
    r: Result<(), CompileError>,
    after: Names,
    s: Result<Names, CompileError>,
) -> bool {
    match s {
        Ok(names) => r.is_ok() && after == names,
        Err(e) => r == Err::<(), CompileError>(e),
    }
}

/// What the entries of the table stand for.
pub open spec fn table_of(idens: Seq<(Iden, VarId)>) -> Seq<(Seq<char>, u64)> {
    Seq::new(idens.len(), |i: int| (idens[i].0@, idens[i].1.0))
}

/// A compilation in progress.
pub struct Compiler {
    iden_count: u64,
    idens: Vec<(Iden, VarId)>,
    y_combinator: Option<(VarId, NodeRef)>,
}

impl View for Compiler {
    type V = Names;

    closed spec fn view(&self) -> Names {
        Names {
            table: table_of(self.idens@),
            next: self.iden_count,
            y: match self.y_combinator {
                Some((id, _)) => Some(id.0),
                None => None,
            },
        }
    }
}

impl Compiler {
    /// The definition that the compiler holds of the fixed-point combinator
    /// is the combinator, over the two variables before its own.
    pub closed spec fn wf(&self) -> bool {
        match self.y_combinator {
            Some((id, node)) => id.0 >= 2 && node@ == y_combinator(
                (id.0 - 2) as u64,
                (id.0 - 1) as u64,
            ),
            None => true,
        }
    }

    /// A compiler that has met no name.
    pub fn new() -> (r: Self)
        ensures
            r.wf(),
            r@ == no_names(),
    {
        let r = Self { iden_count: 0, idens: Vec::new(), y_combinator: None };
        assert(table_of(r.idens@) =~= Seq::<(Seq<char>, u64)>::empty());
        r
    }

    /// The variable of a name.
    fn resolve(&self, iden: &Iden) -> (r: Option<VarId>)
        ensures
            match resolve(self@, iden@) {
                Some(id) => r == Some(VarId(id)),
                None => r.is_none(),
            },
    {
        let n = self.idens.len();
        let mut i: usize = 0;
        while i < n
            invariant
                i <= n,
                n == self.idens@.len(),
                find_name(table_of(self.idens@), iden@, i as int).is_none(),
            decreases n - i,
        {
            assert(table_of(self.idens@)[i as int] == (self.idens@[i as int].0@, self.idens@[i as int].1.0));
            if self.idens[i].0.0 == iden.0 {
                proof {
                    lemma_find_name_kept(table_of(self.idens@), iden@, i + 1, n as int);
                }
                return Some(self.idens[i].1);
            }
            i += 1;
        }
        None
    }

    /// Gives the name a variable, where it has none.
    fn declare(&mut self, iden: &Iden) -> (r: Result<(), CompileError>)
        requires
            old(self).wf(),
        ensures
            final(self).wf(),
            names_match(r, final(self)@, declare(old(self)@, iden@)),
    {
        if self.resolve(iden).is_some() {
            return Ok(());
        }
        if self.iden_count == u64::MAX {
            return Err(CompileError::TooManyNames);
        }
        let id = VarId::new(self.iden_count);
        self.iden_count += 1;
        let ghost before = table_of(self.idens@);
        self.idens.push((iden.clone(), id));
        assert(table_of(self.idens@) =~= before.push((iden@, id.0)));
        Ok(())
    }

    /// Gives every name that a definition or a parameter of the node
    /// introduces a variable.
    fn declare_all(&mut self, node: &LNode) -> (r: Result<(), CompileError>)
        requires
            old(self).wf(),
        ensures
            final(self).wf(),
            names_match(r, final(self)@, declare_all(old(self)@, node@)),
        decreases node,
    {
        match node {
            LNode::Litteral(_) => Ok(()),
            LNode::Variable(_) => Ok(()),
            LNode::Let { bindings, body } => {
                let n = bindings.len();
                let mut i: usize = 0;
                let ghost models = crate::lasm::ast::models_of(bindings@, n as int);
                proof {
                    crate::lasm::ast::lemma_models_of(bindings@, n as int);
                }
                while i < n
                    invariant
                        i <= n,
                        n == bindings@.len(),
                        self.wf(),
                        models == crate::lasm::ast::models_of(bindings@, n as int),
                        models.len() == n,
                        forall|k: int| 0 <= k < n ==> #[trigger] models[k] == bindings@[k].model(),
                        declare_bindings(old(self)@, models, i as int) == Ok::<
                            Names,
                            CompileError,
                        >(self@),
                        node == (LNode::Let { bindings: *bindings, body: *body }),
                    decreases n - i,
                {
                    let b = &bindings[i];
                    assert(models[i as int] == b.model());
                    proof {
                        lemma_declare_bindings_fails(old(self)@, models, i + 1, n as int);
                    }
                    match self.declare(&b.name) {
                        Ok(()) => {},
                        Err(e) => {
                            return Err(e);
                        },
                    }
                    match self.declare_params(&b.params) {
                        Ok(()) => {},
                        Err(e) => {
                            return Err(e);
                        },
                    }
                    match self.declare_all(&*b.value) {
                        Ok(()) => {},
                        Err(e) => {
                            return Err(e);
                        },
                    }
                    i += 1;
                }
                self.declare_all(&**body)
            },
            LNode::Apply { func, param } => {
                match self.declare_all(&**func) {
                    Ok(()) => {},
                    Err(e) => {
                        return Err(e);
                    },
                }
                self.declare_all(&**param)
            },
            LNode::BinaryOp { op, left, right } => {
                match self.declare_all(&**left) {
                    Ok(()) => {},
                    Err(e) => {
                        return Err(e);
                    },
                }
                self.declare_all(&**right)
            },
            LNode::UnuaryOp { op, body } => self.declare_all(&**body),
            LNode::If { cond, then_do, else_do } => {
                match self.declare_all(&**cond) {
                    Ok(()) => {},
                    Err(e) => {
                        return Err(e);
                    },
                }
                match self.declare_all(&**then_do) {
                    Ok(()) => {},
                    Err(e) => {
                        return Err(e);
                    },
                }
                self.declare_all(&**else_do)
            },
        }
    }

    /// Gives every parameter a variable.
    fn declare_params(&mut self, params: &Vec<Iden>) -> (r: Result<(), CompileError>)
        requires
            old(self).wf(),
        ensures
            final(self).wf(),
            names_match(
                r,
                final(self)@,
                declare_params(
                    old(self)@,
                    crate::lasm::ast::names_of(params@),
                    params@.len() as int,
                ),
            ),
    {
        let n = params.len();
        let mut i: usize = 0;
        let ghost names = crate::lasm::ast::names_of(params@);
        while i < n
            invariant
                i <= n,
                n == params@.len(),
                self.wf(),
                names == crate::lasm::ast::names_of(params@),
                declare_params(old(self)@, names, i as int) == Ok::<Names, CompileError>(self@),
            decreases n - i,
        {
            proof {
                lemma_declare_params_fails(old(self)@, names, i + 1, n as int);
            }
            match self.declare(&params[i]) {
                Ok(()) => {},
                Err(e) => {
                    return Err(e);
                },
            }
            i += 1;
        }
        Ok(())
    }
}

/// A name found among some entries of the table is found among more.
pub proof fn lemma_find_name_kept(table: Seq<(Seq<char>, u64)>, name: Seq<char>, i: int, n: int)
    requires
        0 <= i <= n <= table.len(),
        find_name(table, name, i).is_some(),
    ensures
        find_name(table, name, n) == find_name(table, name, i),
    decreases n - i,
{
    if i < n {
        lemma_find_name_kept(table, name, i, n - 1);
    }
}

proof fn lemma_declare_params_fails(names: Names, params: Seq<Seq<char>>, i: int, n: int)
    requires
        0 <= i <= n <= params.len(),
    ensures
        declare_params(names, params, i).is_err() ==> declare_params(names, params, n)
            == declare_params(names, params, i),
    decreases n - i,
{
    if i < n {
        lemma_declare_params_fails(names, params, i, n - 1);
    }
}

proof fn lemma_declare_bindings_fails(names: Names, bindings: Seq<LBinding>, i: int, n: int)
    requires
        0 <= i <= n <= bindings.len(),
    ensures
        declare_bindings(names, bindings, i).is_err() ==> declare_bindings(names, bindings, n)
            == declare_bindings(names, bindings, i),
    decreases n - i,
{
    if i < n {
        lemma_declare_bindings_fails(names, bindings, i, n - 1);
    }
}


/// What the bound definitions stand for.
pub open spec fn bound_view(bound: Seq<(VarId, NodeRef)>) -> Seq<(u64, Term)> {
    Seq::new(bound.len(), |i: int| (bound[i].0.0, bound[i].1@))
}

impl Compiler {
    /// A reference to the fixed-point combinator. The combinator is built at
    /// the first call, and kept for the top of the program.
    fn get_y_combinator(&mut self) -> (r: Result<NodeRef, CompileError>)
        requires
            old(self).wf(),
        ensures
            final(self).wf(),
            match with_y(old(self)@) {
                Ok(names) => r.is_ok() && final(self)@ == names && r.unwrap()@ == Term::Variable(
                    names.y.unwrap(),
                ),
                Err(e) => r == Err::<NodeRef, CompileError>(e),
            },
    {
        match &self.y_combinator {
            Some((id, _)) => {
                return Ok(Node::var(*id));
            },
            None => {},
        }
        if self.iden_count > u64::MAX - 3 {
            return Err(CompileError::TooManyNames);
        }
        let v1 = VarId::new(self.iden_count);
        let v2 = VarId::new(self.iden_count + 1);
        let id = VarId::new(self.iden_count + 2);
        self.iden_count += 3;
        let half_a = Self::half_combinator(v1, v2);
        let half_b = Self::half_combinator(v1, v2);
        let node = Node::lambda(v1, Node::apply(EvalStrat::Name, half_a, half_b));
        self.y_combinator = Some((id, node));
        Ok(Node::var(id))
    }

    /// `λx.f (x x)`.
    fn half_combinator(f: VarId, x: VarId) -> (r: NodeRef)
        ensures
            r@ == lambda(
                x.0,
                apply(Term::Variable(f.0), apply(Term::Variable(x.0), Term::Variable(x.0))),
            ),
    {
        let inner = Node::apply(EvalStrat::Name, Node::var(x), Node::var(x));
        let body = Node::apply(EvalStrat::Name, Node::var(f), inner);
        Node::lambda(x, body)
    }

    /// The body under lambdas for the parameters.
    fn bind_params(&self, params: &Vec<Iden>, body: NodeRef) -> (r: Result<NodeRef, CompileError>)
        ensures
            match under_params(self@, crate::lasm::ast::names_of(params@), 0, body@) {
                Ok(t) => r.is_ok() && r.unwrap()@ == t,
                Err(e) => r == Err::<NodeRef, CompileError>(e),
            },
    {
        let ghost names = crate::lasm::ast::names_of(params@);
        let mut acc = body;
        let mut i: usize = params.len();
        while i > 0
            invariant
                i <= params@.len(),
                names == crate::lasm::ast::names_of(params@),
                under_params(self@, names, i as int, body@) == Ok::<Term, CompileError>(acc@),
            decreases i,
        {
            i -= 1;
            match self.resolve(&params[i]) {
                Some(id) => {
                    acc = Node::lambda(id, acc);
                },
                None => {
                    proof {
                        lemma_under_params_fails(self@, names, 0, i as int, body@);
                    }
                    return Err(CompileError::UnresolvedName);
                },
            }
        }
        Ok(acc)
    }

    /// The variable and the value of a definition.
    fn compile_binding(&mut self, binding: &Binding) -> (r: Result<(VarId, NodeRef), CompileError>)
        requires
            old(self).wf(),
        ensures
            final(self).wf(),
            match lower_binding(old(self)@, binding@) {
                Ok(((id, value), names)) => r.is_ok() && r.unwrap().0.0 == id && r.unwrap().1@
                    == value && final(self)@ == names,
                Err(e) => r == Err::<(VarId, NodeRef), CompileError>(e),
            },
        decreases binding, 1int,
    {
        let var_id = match self.resolve(&binding.name) {
            Some(id) => id,
            None => {
                return Err(CompileError::UnresolvedName);
            },
        };
        let body = match self.compile_node(&*binding.value) {
            Ok(node) => node,
            Err(e) => {
                return Err(e);
            },
        };
        if binding.params.len() == 0 {
            if binding.rec {
                return Err(CompileError::RecursionWithoutParams);
            }
            return Ok((var_id, body));
        }
        let function = match self.bind_params(&binding.params, body) {
            Ok(node) => node,
            Err(e) => {
                return Err(e);
            },
        };
        if !binding.rec {
            return Ok((var_id, function));
        }
        let f = match self.get_y_combinator() {
            Ok(node) => node,
            Err(e) => {
                return Err(e);
            },
        };
        let value = Node::lambda(var_id, function);
        Ok((var_id, Node::apply(EvalStrat::Value, f, value)))
    }

    /// The expression of a node.
    fn compile_node(&mut self, source: &LNode) -> (r: Result<NodeRef, CompileError>)
        requires
            old(self).wf(),
        ensures
            final(self).wf(),
            node_matches(r, final(self)@, lower(old(self)@, source@)),
        decreases source, 1int,
    {
        match source {
            LNode::Litteral(val) => Ok(Rc::new(Node::Value(val.clone()))),
            LNode::Variable(var) => match self.resolve(var) {
                Some(id) => Ok(Rc::new(Node::Variable(id))),
                None => Err(CompileError::UnresolvedName),
            },
            LNode::Apply { func, param } => {
                let f = match self.compile_node(&**func) {
                    Ok(node) => node,
                    Err(e) => {
                        return Err(e);
                    },
                };
                let value = match self.compile_node(&**param) {
                    Ok(node) => node,
                    Err(e) => {
                        return Err(e);
                    },
                };
                Ok(Rc::new(Node::Apply { strat: EvalStrat::Name, f, value }))
            },
            LNode::UnuaryOp { op, body } => {
                let body = match self.compile_node(&**body) {
                    Ok(node) => node,
                    Err(e) => {
                        return Err(e);
                    },
                };
                Ok(Rc::new(Node::UnuaryOp { op: *op, body }))
            },
            LNode::BinaryOp { op, left, right } => {
                let left = match self.compile_node(&**left) {
                    Ok(node) => node,
                    Err(e) => {
                        return Err(e);
                    },
                };
                let right = match self.compile_node(&**right) {
                    Ok(node) => node,
                    Err(e) => {
                        return Err(e);
                    },
                };
                Ok(Rc::new(Node::BinaryOp { op: *op, left, right }))
            },
            LNode::If { cond, then_do, else_do } => {
                let cond = match self.compile_node(&**cond) {
                    Ok(node) => node,
                    Err(e) => {
                        return Err(e);
                    },
                };
                let then_do = match self.compile_node(&**then_do) {
                    Ok(node) => node,
                    Err(e) => {
                        return Err(e);
                    },
                };
                let else_do = match self.compile_node(&**else_do) {
                    Ok(node) => node,
                    Err(e) => {
                        return Err(e);
                    },
                };
                Ok(Rc::new(Node::If { cond, then_do, else_do }))
            },
            LNode::Let { bindings, body } => self.compile_let(source, bindings, body),
        }
    }

    /// The expression of a `let`: its body with the definitions bound around
    /// it, the first outermost.
    fn compile_let(&mut self, source: &LNode, bindings: &Vec<Binding>, body: &LNodeRef) -> (r:
        Result<NodeRef, CompileError>)
        requires
            old(self).wf(),
            source == (LNode::Let { bindings: *bindings, body: *body }),
        ensures
            final(self).wf(),
            node_matches(r, final(self)@, lower(old(self)@, source@)),
        decreases source, 0int,
    {
        let n = bindings.len();
        let ghost models = crate::lasm::ast::models_of(bindings@, n as int);
        proof {
            crate::lasm::ast::lemma_models_of(bindings@, n as int);
        }
        let mut bound: Vec<(VarId, NodeRef)> = Vec::new();
        let mut i: usize = 0;
        assert(bound_view(bound@) =~= Seq::<(u64, Term)>::empty());
        while i < n
            invariant
                i <= n,
                n == bindings@.len(),
                self.wf(),
                models == crate::lasm::ast::models_of(bindings@, n as int),
                models.len() == n,
                forall|k: int| 0 <= k < n ==> #[trigger] models[k] == bindings@[k].model(),
                lower_bindings(old(self)@, models, i as int) == Ok::<
                    (Seq<(u64, Term)>, Names),
                    CompileError,
                >((bound_view(bound@), self@)),
                source == (LNode::Let { bindings: *bindings, body: *body }),
            decreases n - i,
        {
            assert(models[i as int] == bindings@[i as int].model());
            proof {
                lemma_lower_bindings_fails(old(self)@, models, i + 1, n as int);
            }
            let pair = match self.compile_binding(&bindings[i]) {
                Ok(pair) => pair,
                Err(e) => {
                    return Err(e);
                },
            };
            let ghost before = bound_view(bound@);
            let ghost id = pair.0.0;
            let ghost value = pair.1@;
            bound.push(pair);
            assert(bound_view(bound@) =~= before.push((id, value)));
            i += 1;
        }
        let inner = match self.compile_node(&**body) {
            Ok(node) => node,
            Err(e) => {
                return Err(e);
            },
        };
        let ghost bound_terms = bound_view(bound@);
        let mut acc = inner;
        let mut k: usize = bound.len();
        while k > 0
            invariant
                k <= bound@.len(),
                bound_terms == bound_view(bound@),
                acc@ == wrapped(bound_terms, k as int, inner@),
            decreases k,
        {
            k -= 1;
            let var = bound[k].0;
            let value = crate::icfp::ast::share(&bound[k].1);
            assert(bound_terms[k as int] == (var.0, value@));
            acc = Node::bind(var, value, acc);
        }
        Ok(acc)
    }

    /// The compiled program of a tree.
    pub fn compile(&mut self, source: LNodeRef) -> (r: Result<NodeRef, CompileError>)
        requires
            old(self).wf(),
        ensures
            final(self).wf(),
            node_matches(r, final(self)@, compiled_from(old(self)@, source@)),
    {
        match self.declare_all(&*source) {
            Ok(()) => {},
            Err(e) => {
                return Err(e);
            },
        }
        let res = match self.compile_node(&*source) {
            Ok(node) => node,
            Err(e) => {
                return Err(e);
            },
        };
        match &self.y_combinator {
            Some((id, node)) => Ok(Node::bind(*id, crate::icfp::ast::share(node), res)),
            None => Ok(res),
        }
    }
}

proof fn lemma_under_params_fails(
    names: Names,
    params: Seq<Seq<char>>,
    lo: int,
    i: int,
    body: Term,
)
    requires
        0 <= lo <= i < params.len(),
        under_params(names, params, i + 1, body).is_ok(),
        resolve(names, params[i]).is_none(),
    ensures
        under_params(names, params, lo, body) == Err::<Term, CompileError>(
            CompileError::UnresolvedName,
        ),
    decreases i - lo,
{
    if lo < i {
        lemma_under_params_fails(names, params, lo + 1, i, body);
    }
}

proof fn lemma_lower_bindings_fails(names: Names, bindings: Seq<LBinding>, i: int, n: int)
    requires
        0 <= i <= n <= bindings.len(),
    ensures
        lower_bindings(names, bindings, i).is_err() ==> lower_bindings(names, bindings, n)
            == lower_bindings(names, bindings, i),
    decreases n - i,
{
    if i < n {
        lemma_lower_bindings_fails(names, bindings, i, n - 1);
    }
}

/// The compiled program of a tree.
pub fn compile(source: LNodeRef) -> (r: Result<NodeRef, CompileError>)
    ensures
        match compiled(source@) {
            Ok(t) => r.is_ok() && r.unwrap()@ == t,
            Err(e) => r == Err::<NodeRef, CompileError>(e),
        },
{
    Compiler::new().compile(source)
}


/// The fixed-point combinator has one variable: once a recursive function
/// has asked for it, every later request gets the same variable, whatever is
/// compiled in between.
pub proof fn lemma_one_combinator(names: Names, t: LTerm)
    requires
        names.y.is_some(),
    ensures
        with_y(names) == Ok::<Names, CompileError>(names),
        lower(names, t) matches Ok((_, after)) ==> after == names,
    decreases t, 0int,
{
    match t {
        LTerm::Litteral(_) => {},
        LTerm::Variable(_) => {},
        LTerm::Apply { func, param } => {
            lemma_one_combinator(names, *func);
            lemma_one_combinator(names, *param);
        },
        LTerm::UnuaryOp { op, body } => {
            lemma_one_combinator(names, *body);
        },
        LTerm::BinaryOp { op, left, right } => {
            lemma_one_combinator(names, *left);
            lemma_one_combinator(names, *right);
        },
        LTerm::If { cond, then_do, else_do } => {
            lemma_one_combinator(names, *cond);
            lemma_one_combinator(names, *then_do);
            lemma_one_combinator(names, *else_do);
        },
        LTerm::Let { bindings, body } => {
            lemma_one_combinator_bindings(names, bindings, bindings.len() as int);
            lemma_one_combinator(names, *body);
        },
    }
}

/// The same, of the definitions of a `let`.
pub proof fn lemma_one_combinator_bindings(names: Names, bindings: Seq<LBinding>, n: int)
    requires
        names.y.is_some(),
    ensures
        lower_bindings(names, bindings, n) matches Ok((_, after)) ==> after == names,
    decreases bindings, n,
{
    if 0 < n <= bindings.len() {
        lemma_one_combinator_bindings(names, bindings, n - 1);
        let b = bindings[n - 1];
        lemma_one_combinator(names, *b.value);
        assert(with_y(names) == Ok::<Names, CompileError>(names));
        assert(lower_binding(names, b) matches Ok((_, after)) ==> after == names);
    }
}

/// Some lambda of the term binds the variable.
pub open spec fn binds(t: Term, v: u64) -> bool
    decreases t,
{
    match t {
        Term::Value(_) => false,
        Term::Variable(_) => false,
        Term::Lambda { var, body } => var == v || binds(*body, v),
        Term::Apply { f, value } => binds(*f, v) || binds(*value, v),
        Term::BinaryOp { op, left, right } => binds(*left, v) || binds(*right, v),
        Term::UnuaryOp { op, body } => binds(*body, v),
        Term::If { cond, then_do, else_do } => binds(*cond, v) || binds(*then_do, v) || binds(
            *else_do,
            v,
        ),
    }
}

/// The variable is the variable of a name of the table.
pub open spec fn in_table(table: Seq<(Seq<char>, u64)>, v: u64) -> bool {
    exists|i: int| 0 <= i < table.len() && (#[trigger] table[i]).1 == v
}

/// Every lambda of the term binds the variable of a name of the table.
pub open spec fn binders_in(t: Term, table: Seq<(Seq<char>, u64)>) -> bool
    decreases t,
{
    match t {
        Term::Value(_) => true,
        Term::Variable(_) => true,
        Term::Lambda { var, body } => in_table(table, var) && binders_in(*body, table),
        Term::Apply { f, value } => binders_in(*f, table) && binders_in(*value, table),
        Term::BinaryOp { op, left, right } => binders_in(*left, table) && binders_in(
            *right,
            table,
        ),
        Term::UnuaryOp { op, body } => binders_in(*body, table),
        Term::If { cond, then_do, else_do } => binders_in(*cond, table) && binders_in(
            *then_do,
            table,
        ) && binders_in(*else_do, table),
    }
}

/// Every definition binds the variable of a name of the table, to a value
/// whose lambdas do.
pub open spec fn bound_in(bound: Seq<(u64, Term)>, table: Seq<(Seq<char>, u64)>) -> bool {
    forall|k: int|
        0 <= k < bound.len() ==> in_table(table, (#[trigger] bound[k]).0) && binders_in(
            bound[k].1,
            table,
        )
}

/// The variables in use are apart: the variable of every name is below the
/// next free variable, and so is the variable of the fixed-point combinator;
/// no name has the combinator's variable or one of the two variables of its
/// definition.
pub open spec fn names_sound(names: Names) -> bool {
    &&& forall|i: int| 0 <= i < names.table.len() ==> (#[trigger] names.table[i]).1 < names.next
    &&& names.y matches Some(y) ==> 2 <= y < names.next && forall|i: int|
        0 <= i < names.table.len() ==> (#[trigger] names.table[i]).1 != y && names.table[i].1 != y
            - 1 && names.table[i].1 != y - 2
}

/// A term whose lambdas bind variables of the table binds no variable that
/// is not of the table.
pub proof fn lemma_binds_table(t: Term, table: Seq<(Seq<char>, u64)>, v: u64)
    requires
        binders_in(t, table),
        !in_table(table, v),
    ensures
        !binds(t, v),
    decreases t,
{
    match t {
        Term::Lambda { var, body } => {
            lemma_binds_table(*body, table, v);
        },
        Term::Apply { f, value } => {
            lemma_binds_table(*f, table, v);
            lemma_binds_table(*value, table, v);
        },
        Term::BinaryOp { op, left, right } => {
            lemma_binds_table(*left, table, v);
            lemma_binds_table(*right, table, v);
        },
        Term::UnuaryOp { op, body } => {
            lemma_binds_table(*body, table, v);
        },
        Term::If { cond, then_do, else_do } => {
            lemma_binds_table(*cond, table, v);
            lemma_binds_table(*then_do, table, v);
            lemma_binds_table(*else_do, table, v);
        },
        _ => {},
    }
}

/// The variable of a name is a variable of the table.
pub proof fn lemma_resolved_in_table(table: Seq<(Seq<char>, u64)>, name: Seq<char>, n: int)
    ensures
        find_name(table, name, n) matches Some(id) ==> in_table(table, id),
    decreases n,
{
    if 0 < n <= table.len() {
        lemma_resolved_in_table(table, name, n - 1);
        if find_name(table, name, n - 1).is_none() && table[n - 1].0 == name {
            assert(table[n - 1].1 == table[n - 1].1);
        }
    }
}

/// Giving a name a variable keeps the variables apart.
pub proof fn lemma_declare_sound(names: Names, name: Seq<char>)
    requires
        names_sound(names),
    ensures
        declare(names, name) matches Ok(after) ==> names_sound(after),
{
    if let Ok(after) = declare(names, name) {
        if resolve(names, name).is_none() {
            assert forall|i: int| 0 <= i < after.table.len() implies (#[trigger] after.table[i]).1
                < after.next by {
                if i < names.table.len() {
                    assert(after.table[i] == names.table[i]);
                }
            }
            if let Some(y) = after.y {
                assert forall|i: int| 0 <= i < after.table.len() implies (
                #[trigger] after.table[i]).1 != y && after.table[i].1 != y - 1
                    && after.table[i].1 != y - 2 by {
                    if i < names.table.len() {
                        assert(after.table[i] == names.table[i]);
                    }
                }
            }
        }
    }
}

/// Giving the parameters variables keeps the variables apart.
pub proof fn lemma_declare_params_sound(names: Names, params: Seq<Seq<char>>, n: int)
    requires
        names_sound(names),
    ensures
        declare_params(names, params, n) matches Ok(after) ==> names_sound(after),
    decreases n,
{
    if 0 < n <= params.len() {
        lemma_declare_params_sound(names, params, n - 1);
        if let Ok(before) = declare_params(names, params, n - 1) {
            lemma_declare_sound(before, params[n - 1]);
        }
    }
}

/// Giving the names of definitions variables keeps the variables apart.
pub proof fn lemma_declare_bindings_sound(names: Names, bindings: Seq<LBinding>, n: int)
    requires
        names_sound(names),
    ensures
        declare_bindings(names, bindings, n) matches Ok(after) ==> names_sound(after),
    decreases bindings, n,
{
    if 0 < n <= bindings.len() {
        lemma_declare_bindings_sound(names, bindings, n - 1);
        if let Ok(n1) = declare_bindings(names, bindings, n - 1) {
            let b = bindings[n - 1];
            lemma_declare_sound(n1, b.name);
            if let Ok(n2) = declare(n1, b.name) {
                lemma_declare_params_sound(n2, b.params, b.params.len() as int);
                if let Ok(n3) = declare_params(n2, b.params, b.params.len() as int) {
                    lemma_declare_all_sound(n3, *b.value);
                }
            }
        }
    }
}

/// Giving the names of a term variables keeps the variables apart.
pub proof fn lemma_declare_all_sound(names: Names, t: LTerm)
    requires
        names_sound(names),
    ensures
        declare_all(names, t) matches Ok(after) ==> names_sound(after),
    decreases t, 0int,
{
    match t {
        LTerm::Litteral(_) => {},
        LTerm::Variable(_) => {},
        LTerm::Let { bindings, body } => {
            lemma_declare_bindings_sound(names, bindings, bindings.len() as int);
            if let Ok(n1) = declare_bindings(names, bindings, bindings.len() as int) {
                lemma_declare_all_sound(n1, *body);
            }
        },
        LTerm::Apply { func, param } => {
            lemma_declare_all_sound(names, *func);
            if let Ok(n1) = declare_all(names, *func) {
                lemma_declare_all_sound(n1, *param);
            }
        },
        LTerm::BinaryOp { op, left, right } => {
            lemma_declare_all_sound(names, *left);
            if let Ok(n1) = declare_all(names, *left) {
                lemma_declare_all_sound(n1, *right);
            }
        },
        LTerm::UnuaryOp { op, body } => {
            lemma_declare_all_sound(names, *body);
        },
        LTerm::If { cond, then_do, else_do } => {
            lemma_declare_all_sound(names, *cond);
            if let Ok(n1) = declare_all(names, *cond) {
                lemma_declare_all_sound(n1, *then_do);
                if let Ok(n2) = declare_all(n1, *then_do) {
                    lemma_declare_all_sound(n2, *else_do);
                }
            }
        },
    }
}

/// The lambdas over the parameters bind variables of the table.
pub proof fn lemma_under_params_binders(names: Names, params: Seq<Seq<char>>, n: int, body: Term)
    requires
        binders_in(body, names.table),
    ensures
        under_params(names, params, n, body) matches Ok(t) ==> binders_in(t, names.table),
    decreases params.len() - n,
{
    if 0 <= n < params.len() {
        lemma_under_params_binders(names, params, n + 1, body);
        lemma_resolved_in_table(names.table, params[n], names.table.len() as int);
    }
}

/// The lambdas that bind definitions around a body bind variables of the
/// table.
pub proof fn lemma_wrapped_binders(
    bound: Seq<(u64, Term)>,
    n: int,
    body: Term,
    table: Seq<(Seq<char>, u64)>,
)
    requires
        bound_in(bound, table),
        binders_in(body, table),
    ensures
        binders_in(wrapped(bound, n, body), table),
    decreases bound.len() - n,
{
    if 0 <= n < bound.len() {
        lemma_wrapped_binders(bound, n + 1, body, table);
        assert(in_table(table, bound[n].0) && binders_in(bound[n].1, table));
        let inner = wrapped(bound, n + 1, body);
        assert(binders_in(lambda(bound[n].0, inner), table));
        assert(binders_in(bind(bound[n].0, bound[n].1, inner), table));
    }
}

/// Lowering keeps the table and keeps the variables apart, and every lambda
/// of the expression that it makes binds the variable of a name of the table:
/// so none binds the variable of the fixed-point combinator or a variable of
/// its definition.
pub proof fn lemma_lower_binders(names: Names, t: LTerm)
    requires
        names_sound(names),
    ensures
        lower(names, t) matches Ok((body, after)) ==> after.table == names.table && names_sound(
            after,
        ) && binders_in(body, names.table),
    decreases t, 0int,
{
    match t {
        LTerm::Litteral(_) => {},
        LTerm::Variable(_) => {},
        LTerm::Apply { func, param } => {
            lemma_lower_binders(names, *func);
            if let Ok((_, n1)) = lower(names, *func) {
                lemma_lower_binders(n1, *param);
            }
        },
        LTerm::UnuaryOp { op, body } => {
            lemma_lower_binders(names, *body);
        },
        LTerm::BinaryOp { op, left, right } => {
            lemma_lower_binders(names, *left);
            if let Ok((_, n1)) = lower(names, *left) {
                lemma_lower_binders(n1, *right);
            }
        },
        LTerm::If { cond, then_do, else_do } => {
            lemma_lower_binders(names, *cond);
            if let Ok((_, n1)) = lower(names, *cond) {
                lemma_lower_binders(n1, *then_do);
                if let Ok((_, n2)) = lower(n1, *then_do) {
                    lemma_lower_binders(n2, *else_do);
                }
            }
        },
        LTerm::Let { bindings, body } => {
            lemma_lower_bindings_binders(names, bindings, bindings.len() as int);
            if let Ok((bound, n1)) = lower_bindings(names, bindings, bindings.len() as int) {
                lemma_lower_binders(n1, *body);
                if let Ok((inner, n2)) = lower(n1, *body) {
                    lemma_wrapped_binders(bound, 0, inner, names.table);
                }
            }
        },
    }
}

/// The same, of the definitions of a `let`.
pub proof fn lemma_lower_bindings_binders(names: Names, bindings: Seq<LBinding>, n: int)
    requires
        names_sound(names),
    ensures
        lower_bindings(names, bindings, n) matches Ok((bound, after)) ==> after.table
            == names.table && names_sound(after) && bound_in(bound, names.table),
    decreases bindings, n,
{
    if 0 < n <= bindings.len() {
        lemma_lower_bindings_binders(names, bindings, n - 1);
        if let Ok((before, n1)) = lower_bindings(names, bindings, n - 1) {
            lemma_lower_binding_binders(n1, bindings[n - 1]);
            if let Ok((pair, n2)) = lower_binding(n1, bindings[n - 1]) {
                let bound = before.push(pair);
                assert forall|k: int| 0 <= k < bound.len() implies in_table(
                    names.table,
                    (#[trigger] bound[k]).0,
                ) && binders_in(bound[k].1, names.table) by {
                    if k < before.len() {
                        assert(bound[k] == before[k]);
                    }
                }
            }
        }
    }
}

/// The same, of one definition. The value of a recursive function is the
/// combinator's variable applied to the function of the definition's own
/// variable.
pub proof fn lemma_lower_binding_binders(names: Names, b: LBinding)
    requires
        names_sound(names),
    ensures
        lower_binding(names, b) matches Ok(((id, value), after)) ==> after.table == names.table
            && names_sound(after) && in_table(names.table, id) && binders_in(value, names.table)
            && (b.rec ==> after.y.is_some() && (value matches Term::Apply { f, value: function }
            && *f == Term::Variable(after.y.unwrap()) && (*function matches Term::Lambda {
            var,
            ..
        } && var == id))),
    decreases b, 0int,
{
    lemma_resolved_in_table(names.table, b.name, names.table.len() as int);
    if let Some(id) = resolve(names, b.name) {
        lemma_lower_binders(names, *b.value);
        if let Ok((value, n1)) = lower(names, *b.value) {
            lemma_under_params_binders(n1, b.params, 0, value);
            if let Ok(function) = under_params(n1, b.params, 0, value) {
                if let Ok(n2) = with_y(n1) {
                    assert(names_sound(n2));
                    let y = n2.y.unwrap();
                    assert(binders_in(lambda(id, function), names.table));
                    assert(binders_in(Term::Variable(y), names.table));
                    assert(binders_in(
                        apply(Term::Variable(y), lambda(id, function)),
                        names.table,
                    ));
                }
            }
        }
    }
}

/// A compiled program defines the fixed-point combinator once: at its top
/// when a recursive function has asked for it, and nowhere when none has.
/// Below the top no lambda binds the combinator's variable or a variable of
/// its definition, so every reference to the combinator's variable refers to
/// that one definition.
pub proof fn lemma_single_combinator(t: LTerm)
    ensures
        match declare_all(no_names(), t) {
            Ok(declared) => match lower(declared, t) {
                Ok((body, names)) => match names.y {
                    Some(y) => y >= 2 && compiled(t) == Ok::<Term, CompileError>(
                        bind(y, y_combinator((y - 2) as u64, (y - 1) as u64), body),
                    ) && !binds(body, y) && !binds(body, (y - 1) as u64) && !binds(
                        body,
                        (y - 2) as u64,
                    ),
                    None => compiled(t) == Ok::<Term, CompileError>(body),
                },
                Err(e) => compiled(t) == Err::<Term, CompileError>(e),
            },
            Err(e) => compiled(t) == Err::<Term, CompileError>(e),
        },
{
    lemma_declare_all_sound(no_names(), t);
    if let Ok(declared) = declare_all(no_names(), t) {
        lemma_lower_binders(declared, t);
        if let Ok((body, names)) = lower(declared, t) {
            if let Some(y) = names.y {
                assert(!in_table(names.table, y));
                assert(!in_table(names.table, (y - 1) as u64));
                assert(!in_table(names.table, (y - 2) as u64));
                lemma_binds_table(body, names.table, y);
                lemma_binds_table(body, names.table, (y - 1) as u64);
                lemma_binds_table(body, names.table, (y - 2) as u64);
            }
        }
    }
}

} // verus!
