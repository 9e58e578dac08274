use crate::sequences::{
    add_new, distinct, lemma_merge_new_concat, lemma_merge_new_one, merge_new,
};
use std::rc::Rc;
use vstd::prelude::*;
use vstd::string::StringExecFns;

verus! {

/// A propositional formula as a mathematical value: the shape of the tree and
/// the names of its variables, nothing else.  Two formulas are equal when they
/// have the same shape and the same names; `A & B` and `B & A` differ.
pub enum Formula {
    And(Box<Formula>, Box<Formula>),
    Or(Box<Formula>, Box<Formula>),
    Implies(Box<Formula>, Box<Formula>),
    Not(Box<Formula>),
    Var(Seq<char>),
}

impl Formula {
    /// Every sub-formula, the formula itself first, each node before its
    /// children and the left child before the right one.  A sub-tree that
    /// occurs twice is listed twice.
    pub open spec fn subformulas(self) -> Seq<Formula>
        decreases self,
    {
        match self {
            Formula::And(l, r) => seq![self] + l.subformulas() + r.subformulas(),
            Formula::Or(l, r) => seq![self] + l.subformulas() + r.subformulas(),
            Formula::Implies(l, r) => seq![self] + l.subformulas() + r.subformulas(),
            Formula::Not(e) => seq![self] + e.subformulas(),
            Formula::Var(_) => seq![self],
        }
    }

    /// The canonical text of the formula.
    pub open spec fn text(self) -> Seq<char>
        decreases self,
    {
        match self {
            Formula::And(l, r) => seq!['('] + l.text() + seq![' ', '&', ' '] + r.text() + seq![')'],
            Formula::Or(l, r) => seq!['('] + l.text() + seq![' ', 'v', ' '] + r.text() + seq![')'],
            Formula::Implies(l, r) => seq!['('] + l.text() + seq![' ', '-', '>', ' '] + r.text()
                + seq![')'],
            Formula::Not(e) => seq!['~'] + e.text(),
            Formula::Var(name) => name,
        }
    }
}

/// A formula as a tree whose sub-trees are shared, never copied.
#[derive(Debug)]
pub enum Expression {
    /// Conjunction of the two children.
    And(Rc<Expression>, Rc<Expression>),
    /// Disjunction of the two children.
    Or(Rc<Expression>, Rc<Expression>),
    /// The left child implies the right one.
    Implies(Rc<Expression>, Rc<Expression>),
    /// Negation of the child.
    Not(Rc<Expression>),
    /// A variable, by name.
    Var(String),
}

impl Expression {
    /// The formula that this tree stands for.
    pub open spec fn formula(&self) -> Formula
        decreases self,
    {
        match self {
            Expression::And(l, r) => Formula::And(Box::new(l.formula()), Box::new(r.formula())),
            Expression::Or(l, r) => Formula::Or(Box::new(l.formula()), Box::new(r.formula())),
            Expression::Implies(l, r) => Formula::Implies(
                Box::new(l.formula()),
                Box::new(r.formula()),
            ),
            Expression::Not(e) => Formula::Not(Box::new(e.formula())),
            Expression::Var(name) => Formula::Var(name@),
        }
    }
}

impl View for Expression {
    type V = Formula;

    open spec fn view(&self) -> Formula {
        self.formula()
    }
}

/// The formulas of a run of expressions, in order.
pub open spec fn formulas(s: Seq<Expression>) -> Seq<Formula> {
    s.map_values(|e: Expression| e@)
}

/// `Rc::clone` on a shared sub-tree: a second pointer to the same allocation,
/// so what it points to is what `e` points to.
#[verifier::external_body]
fn share(e: &Rc<Expression>) -> (r: Rc<Expression>)
    ensures
        r == *e,
{
    Rc::clone(e)
}

impl Clone for Expression {
    fn clone(&self) -> (r: Self)
        ensures
            r == *self,
    {
        match self {
            Expression::And(a, b) => Expression::And(share(a), share(b)),
            Expression::Or(a, b) => Expression::Or(share(a), share(b)),
            Expression::Implies(a, b) => Expression::Implies(share(a), share(b)),
            Expression::Not(a) => Expression::Not(share(a)),
            Expression::Var(a) => Expression::Var(a.clone()),
        }
    }
}

impl PartialEq for Expression {
    fn eq(&self, other: &Expression) -> (r: bool) {
        self.same(other)
    }
}

impl vstd::std_specs::cmp::PartialEqSpecImpl for Expression {
    open spec fn obeys_eq_spec() -> bool {
        true
    }

    open spec fn eq_spec(&self, other: &Expression) -> bool {
        self@ == other@
    }
}

/// A copy of a run of expressions, which shares their sub-trees.
pub(crate) fn copy_expressions(list: &Vec<Expression>) -> (r: Vec<Expression>)
    ensures
        r@ == list@,
{
    let mut r: Vec<Expression> = Vec::new();
    let mut i: usize = 0;
    while i < list.len()
        invariant
            i <= list.len(),
            r@ == list@.take(i as int),
        decreases list.len() - i,
    {
        r.push(list[i].clone());
        assert(r@ =~= list@.take(i as int + 1));
        i += 1;
    }
    assert(list@.take(list.len() as int) =~= list@);
    r
}

/// Whether `list` holds an expression of the formula of `e`.
fn holds(list: &Vec<Expression>, e: &Expression) -> (r: bool)
    ensures
        r == formulas(list@).contains(e@),
{
    let mut i: usize = 0;
    while i < list.len()
        invariant
            i <= list.len(),
            forall|j: int| 0 <= j < i ==> formulas(list@)[j] != e@,
        decreases list.len() - i,
    {
        if list[i].same(e) {
            assert(formulas(list@)[i as int] == e@);
            return true;
        }
        i += 1;
    }
    false
}

impl Expression {
    /// Puts the expression behind a shared pointer.
    pub fn wrap(self) -> (r: Rc<Expression>)
        ensures
            *r == self,
    {
        Rc::new(self)
    }

    /// Structural equality: the same shape and the same names.
    pub fn same(&self, other: &Expression) -> (r: bool)
        ensures
            r == (self@ == other@),
        decreases self,
    {
        match self {
            Expression::And(a, b) => match other {
                Expression::And(c, d) => a.same(c) && b.same(d),
                _ => false,
            },
            Expression::Or(a, b) => match other {
                Expression::Or(c, d) => a.same(c) && b.same(d),
                _ => false,
            },
            Expression::Implies(a, b) => match other {
                Expression::Implies(c, d) => a.same(c) && b.same(d),
                _ => false,
            },
            Expression::Not(a) => match other {
                Expression::Not(c) => a.same(c),
                _ => false,
            },
            Expression::Var(a) => match other {
                Expression::Var(c) => *a == *c,
                _ => false,
            },
        }
    }

    /// Adds `self` to `found` unless an equal expression is there.
    fn note(&self, found: &mut Vec<Expression>)
        ensures
            formulas(final(found)@) == add_new(formulas(old(found)@), self@),
    {
        if !holds(found, self) {
            found.push(self.clone());
            assert(formulas(found@) =~= formulas(old(found)@).push(self@));
        }
    }

    /// Walks the tree in pre-order and adds to `found` what is new.
    fn gather(&self, found: &mut Vec<Expression>)
        ensures
            formulas(final(found)@) == merge_new(formulas(old(found)@), self@.subformulas()),
        decreases self,
    {
        let ghost base = formulas(found@);
        self.note(found);
        proof {
            lemma_merge_new_one(base, self@);
        }
        match self {
            Expression::And(l, r) | Expression::Or(l, r) | Expression::Implies(l, r) => {
                l.gather(found);
                r.gather(found);
                proof {
                    lemma_merge_new_concat(base, seq![self@], l@.subformulas());
                    lemma_merge_new_concat(base, seq![self@] + l@.subformulas(), r@.subformulas());
                }
            },
            Expression::Not(e) => {
                e.gather(found);
                proof {
                    lemma_merge_new_concat(base, seq![self@], e@.subformulas());
                }
            },
            Expression::Var(_) => {},
        }
    }

    /// Every distinct sub-expression, the expression itself included, in
    /// pre-order; of a sub-tree that occurs more than once the first
    /// occurrence stays.
    pub fn list_expressions(&self) -> (list: Vec<Expression>)
        ensures
            formulas(list@) == distinct(self@.subformulas()),
    {
        let mut list: Vec<Expression> = Vec::new();
        assert(formulas(list@) =~= Seq::<Formula>::empty());
        self.gather(&mut list);
        list
    }

    /// Writes the canonical text of the expression behind `out`.
    fn write(&self, out: &mut String)
        ensures
            final(out)@ == old(out)@ + self@.text(),
        decreases self,
    {
        proof {
            reveal_strlit("(");
            reveal_strlit(")");
            reveal_strlit(" & ");
            reveal_strlit(" v ");
            reveal_strlit(" -> ");
            reveal_strlit("~");
        }
        match self {
            Expression::And(l, r) => {
                out.append("(");
                l.write(out);
                out.append(" & ");
                r.write(out);
                out.append(")");
                assert(out@ =~= old(out)@ + self@.text());
            },
            Expression::Or(l, r) => {
                out.append("(");
                l.write(out);
                out.append(" v ");
                r.write(out);
                out.append(")");
                assert(out@ =~= old(out)@ + self@.text());
            },
            Expression::Implies(l, r) => {
                out.append("(");
                l.write(out);
                out.append(" -> ");
                r.write(out);
                out.append(")");
                assert(out@ =~= old(out)@ + self@.text());
            },
            Expression::Not(e) => {
                out.append("~");
                e.write(out);
                assert(out@ =~= old(out)@ + self@.text());
            },
            Expression::Var(name) => {
                out.append(name.as_str());
            },
        }
    }

    /// The canonical text: `(L & R)`, `(L v R)`, `(L -> R)`, `~E`, or the
    /// variable's name.
    pub fn render(&self) -> (s: String)
        ensures
            s@ == self@.text(),
    {
        let mut s = String::new();
        self.write(&mut s);
        assert(s@ =~= self@.text());
        s
    }
}

} // verus!
