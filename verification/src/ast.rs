//! The abstract syntax of a parsed rule body.
//!
//! [`Expression`] is the tree the rule parser builds; [`ExprView`] is its
//! mathematical model, with ghost sequences for the list-shaped nodes and
//! token models at the leaves.

use vstd::prelude::*;
use vstd::string::*;
use crate::parser::TokenType;
use crate::scanner::{Token, TokenView};

verus! {

/// One whole rule: `identifier := expression`.
#[derive(Debug, PartialEq, Eq)]
pub struct AssignNode {
    pub id: Token<TokenType>,
    pub value: Expression,
}

/// A parsed rule body: terminals, ordered concatenation, binary alternation
/// (an alternative list folds to the left), the three repetition forms, a
/// parenthesized group kept for re-serialization, and a whole rule.
#[derive(Debug, PartialEq, Eq)]
pub enum Expression {
    Or(Box<Expression>, Box<Expression>),
    Sequence(Vec<Expression>),
    Many(Vec<Expression>),
    ManyOne(Vec<Expression>),
    Optional(Box<Expression>),
    Group(Box<Expression>),
    Assign(Box<AssignNode>),
    Val(Token<TokenType>),
}

/// The mathematical model of an [`Expression`].
pub enum ExprView {
    Or(Box<ExprView>, Box<ExprView>),
    Sequence(Seq<ExprView>),
    Many(Seq<ExprView>),
    ManyOne(Seq<ExprView>),
    Optional(Box<ExprView>),
    Group(Box<ExprView>),
    Assign(TokenView<TokenType>, Box<ExprView>),
    Val(TokenView<TokenType>),
}

/// The models of a list of expressions, in order.
pub open spec fn exprs_view(s: Seq<Expression>) -> Seq<ExprView>
    decreases s,
{
    if s.len() == 0 {
        Seq::empty()
    } else {
        exprs_view(s.subrange(0, s.len() - 1)).push(s[s.len() - 1]@)
    }
}

impl View for Expression {
    type V = ExprView;

    open spec fn view(&self) -> ExprView
        decreases self,
    {
        match self {
            Expression::Or(l, r) => ExprView::Or(Box::new((**l)@), Box::new((**r)@)),
            Expression::Sequence(v) => ExprView::Sequence(exprs_view(v@)),
            Expression::Many(v) => ExprView::Many(exprs_view(v@)),
            Expression::ManyOne(v) => ExprView::ManyOne(exprs_view(v@)),
            Expression::Optional(e) => ExprView::Optional(Box::new((**e)@)),
            Expression::Group(e) => ExprView::Group(Box::new((**e)@)),
            Expression::Assign(n) => ExprView::Assign(n.id@, Box::new(n.value@)),
            Expression::Val(t) => ExprView::Val(t@),
        }
    }
}

/// The rule-language spelling of a tree: leaves print their token text,
/// sequence members are separated by spaces, alternatives by ` | `, the
/// repetition markers bind directly to their operand, a group keeps its
/// parentheses, and a whole rule prints `name := body`.
pub open spec fn source_of(e: ExprView) -> Seq<char>
    decreases e,
{
    match e {
        ExprView::Val(t) => t.value,
        ExprView::Sequence(es) => sources_of(es),
        ExprView::Or(l, r) => source_of(*l) + " | "@ + source_of(*r),
        ExprView::Many(es) => sources_of(es) + "*"@,
        ExprView::ManyOne(es) => sources_of(es) + "+"@,
        ExprView::Optional(e) => source_of(*e) + "?"@,
        ExprView::Group(e) => "("@ + source_of(*e) + ")"@,
        ExprView::Assign(id, body) => id.value + " := "@ + source_of(*body),
    }
}

/// The spelling of a list of trees, separated by spaces.
pub open spec fn sources_of(es: Seq<ExprView>) -> Seq<char>
    decreases es,
{
    if es.len() == 0 {
        Seq::empty()
    } else if es.len() == 1 {
        source_of(es[0])
    } else {
        source_of(es[0]) + " "@ + sources_of(es.subrange(1, es.len() as int))
    }
}

impl Expression {
    /// Re-serializes the tree to the rule language, exactly as
    /// [`source_of`] says.
    pub fn to_source(&self) -> (r: String)
        ensures
            r@ == source_of(self@),
        decreases self,
    {
        match self {
            Expression::Val(t) => t.value.clone(),
            Expression::Sequence(v) => Self::list_source(v),
            Expression::Or(l, r) => {
                let mut s = l.to_source();
                s.append(" | ");
                let rs = r.to_source();
                s.append(rs.as_str());
                proof {
                    assert(s@ =~= source_of(self@));
                }
                s
            },
            Expression::Many(v) => {
                let mut s = Self::list_source(v);
                s.append("*");
                s
            },
            Expression::ManyOne(v) => {
                let mut s = Self::list_source(v);
                s.append("+");
                s
            },
            Expression::Optional(e) => {
                let mut s = e.to_source();
                s.append("?");
                s
            },
            Expression::Group(e) => {
                let mut s = String::from_str("(");
                let es = e.to_source();
                s.append(es.as_str());
                s.append(")");
                proof {
                    assert(s@ =~= source_of(self@));
                }
                s
            },
            Expression::Assign(n) => {
                let mut s = n.id.value.clone();
                s.append(" := ");
                let bs = n.value.to_source();
                s.append(bs.as_str());
                proof {
                    assert(s@ =~= source_of(self@));
                }
                s
            },
        }
    }

    /// Re-serializes a list of trees, separated by spaces.
    fn list_source(v: &Vec<Expression>) -> (r: String)
        ensures
            r@ == sources_of(exprs_view(v@)),
        decreases v,
    {
        let ghost evs = exprs_view(v@);
        proof {
            lemma_exprs_view(v@);
        }
        let mut s = String::new();
        let n = v.len();
        let mut i: usize = 0;
        while i < n
            invariant
                i <= n,
                n == v@.len(),
                evs == exprs_view(v@),
                evs.len() == n,
                forall|j: int| 0 <= j < n ==> #[trigger] evs[j] == v@[j]@,
                sources_of(evs) == if i == 0 {
                    sources_of(evs)
                } else if i < n {
                    s@ + " "@ + sources_of(evs.subrange(i as int, n as int))
                } else {
                    s@
                },
                i == 0 ==> s@ == Seq::<char>::empty(),
            decreases n - i,
        {
            let ghost pre = s@;
            let ghost rem = evs.subrange(i as int, n as int);
            proof {
                assert(rem[0] == evs[i as int]);
                assert(rem.subrange(1, rem.len() as int) =~= evs.subrange(i + 1, n as int));
                if i == 0 {
                    assert(rem =~= evs);
                }
            }
            if i > 0 {
                s.append(" ");
            }
            let piece = v[i].to_source();
            s.append(piece.as_str());
            proof {
                let tail = sources_of(evs.subrange(i + 1, n as int));
                if i == 0 {
                    assert(s@ =~= source_of(evs[0]));
                    if i + 1 < n {
                        assert(sources_of(evs) == source_of(evs[0]) + " "@ + tail);
                        assert(source_of(evs[0]) + " "@ + tail =~= s@ + " "@ + tail);
                    }
                } else {
                    assert(s@ =~= pre + " "@ + source_of(evs[i as int]));
                    if i + 1 < n {
                        assert(sources_of(rem) == source_of(evs[i as int]) + " "@ + tail);
                        assert(pre + " "@ + (source_of(evs[i as int]) + " "@ + tail) =~= s@ + " "@
                            + tail);
                    } else {
                        assert(sources_of(rem) == source_of(evs[i as int]));
                        assert(pre + " "@ + source_of(evs[i as int]) =~= s@);
                    }
                }
            }
            i = i + 1;
        }
        s
    }
}

/// `exprs_view` is the pointwise model of its argument.
pub proof fn lemma_exprs_view(s: Seq<Expression>)
    ensures
        exprs_view(s).len() == s.len(),
        forall|i: int| 0 <= i < s.len() ==> exprs_view(s)[i] == s[i]@,
    decreases s.len(),
{
    if s.len() > 0 {
        let sub = s.subrange(0, s.len() - 1);
        lemma_exprs_view(sub);
        assert(exprs_view(s) == exprs_view(sub).push(s[s.len() - 1]@));
        assert forall|i: int| 0 <= i < s.len() implies exprs_view(s)[i] == s[i]@ by {
            if i < s.len() - 1 {
                assert(sub[i] == s[i]);
                assert(exprs_view(s)[i] == exprs_view(sub)[i]);
            } else {
                assert(exprs_view(s)[i] == s[s.len() - 1]@);
            }
        }
    }
}

/// Appending one expression appends its model.
pub proof fn lemma_exprs_view_push(s: Seq<Expression>, e: Expression)
    ensures
        exprs_view(s.push(e)) == exprs_view(s).push(e@),
{
    assert(s.push(e).subrange(0, s.push(e).len() - 1) =~= s);
    assert(s.push(e)[s.push(e).len() - 1] == e);
}

} // verus!
