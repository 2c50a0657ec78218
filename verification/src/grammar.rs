//! The rule-body recognizer: a recursive-descent parser from the token
//! stream to [`Expression`] trees, with its full functional model.
//!
//! The grammar it accepts, per rule:
//!
//! ```text
//! rule : Identifier Assign body
//! body : seq (Or seq)*                      (alternation folds to the left)
//! seq  : term term*                         (one term is returned bare)
//! term : (Var | Identifier | group) postfix?
//! group: LeftParen body RightParen
//! postfix: Star | Plus | Question           (bound tightly, no space before)
//! ```
//!
//! Whitespace and inline comments are ordinary tokens of the stream and are
//! skipped explicitly between the pieces above; a newline ends a rule and is
//! skipped only between rules. Every `spec_*` function below is the exact
//! model that the matching `parse_*` function is proved to implement.
//!
//! A successful sub-parse always moves the cursor forward (each `parse_*`
//! contract states it); the [`advanced`] guard makes that progress visible
//! to the termination measure of the recursion before it is proved.

use vstd::prelude::*;
use crate::ast::{AssignNode, ExprView, Expression, exprs_view, lemma_exprs_view,
    lemma_exprs_view_push};
use crate::parser::{ParseError, ParseErrorView, Parser, TokenType, spec_consume};
use crate::scanner::{Token, TokenView, token_views};

verus! {

/// The kinds that are skipped inside a rule body.
pub open spec fn is_line_trivia(k: TokenType) -> bool {
    k is WS || k is InlineComment
}

/// The kinds that are skipped between rules.
pub open spec fn is_trivia(k: TokenType) -> bool {
    is_line_trivia(k) || k is NL
}

/// The kinds a term can start with.
pub open spec fn starts_term(k: TokenType) -> bool {
    k is Var || k is Identifier || k is LeftParen
}

/// The number of tokens at or after `c`, the measure the recursion below
/// decreases: clipped at zero so that it is defined for every cursor.
pub open spec fn remaining(t: Seq<TokenView<TokenType>>, c: int) -> int {
    if c <= t.len() {
        t.len() - c
    } else {
        0
    }
}

/// How many consecutive in-rule trivia tokens stand at `c`.
pub open spec fn line_trivia_run(t: Seq<TokenView<TokenType>>, c: int) -> nat
    decreases t.len() - c,
{
    if c < 0 || c >= t.len() || !is_line_trivia(t[c].kind) {
        0
    } else {
        1 + line_trivia_run(t, c + 1)
    }
}

/// How many consecutive trivia tokens (newlines included) stand at `c`.
pub open spec fn trivia_run(t: Seq<TokenView<TokenType>>, c: int) -> nat
    decreases t.len() - c,
{
    if c < 0 || c >= t.len() || !is_trivia(t[c].kind) {
        0
    } else {
        1 + trivia_run(t, c + 1)
    }
}

/// The cursor a successful sub-parse hands on. Sub-parses always move the
/// cursor forward, but the termination checker reads this definition before
/// that fact is proved, so the fallback `c + 1` keeps the measure visibly
/// decreasing; the `parse_*` contracts show the fallback is never taken.
pub open spec fn advanced(c: int, c1: int) -> int {
    if c1 > c {
        c1
    } else {
        c + 1
    }
}

/// A postfix repetition marker directly after a term at `c`, applied to the
/// term: `*` wraps it in `Many`, `+` in `ManyOne`, `?` in `Optional`.
pub open spec fn spec_postfix(t: Seq<TokenView<TokenType>>, base: ExprView, c: int) -> (
    ExprView,
    int,
) {
    if 0 <= c < t.len() && t[c].kind is Star {
        (ExprView::Many(seq![base]), c + 1)
    } else if 0 <= c < t.len() && t[c].kind is Plus {
        (ExprView::ManyOne(seq![base]), c + 1)
    } else if 0 <= c < t.len() && t[c].kind is Question {
        (ExprView::Optional(Box::new(base)), c + 1)
    } else {
        (base, c)
    }
}

/// One term at `c`: a variable or identifier leaf, or a parenthesized body,
/// either with an optional postfix marker.
pub open spec fn spec_term(t: Seq<TokenView<TokenType>>, c: int) -> Result<
    (ExprView, int),
    ParseErrorView,
>
    decreases remaining(t, c), 0int,
{
    if c < 0 || c >= t.len() {
        Err(ParseErrorView::UnexpectedEof)
    } else if t[c].kind is Var || t[c].kind is Identifier {
        Ok(spec_postfix(t, ExprView::Val(t[c]), c + 1))
    } else if t[c].kind is LeftParen {
        match spec_expr(t, c + 1) {
            Err(e) => Err(e),
            Ok((inner, c1)) => {
                let c3 = c1 + line_trivia_run(t, c1);
                match spec_consume(TokenType::RightParen, t, c3) {
                    Err(e) => Err(e),
                    Ok(_) => Ok(spec_postfix(t, ExprView::Group(Box::new(inner)), c3 + 1)),
                }
            },
        }
    } else {
        Err(
            ParseErrorView::NoAlternative {
                expected: seq![TokenType::Var, TokenType::Identifier, TokenType::LeftParen],
                found: t[c].kind,
            },
        )
    }
}

/// The terms after the first one: as long as, past in-rule trivia, a token
/// that can start a term stands at the cursor, another term is read. One
/// collected term is returned bare, several become a `Sequence`.
pub open spec fn spec_seq_tail(
    t: Seq<TokenView<TokenType>>,
    c: int,
    acc: Seq<ExprView>,
) -> Result<(ExprView, int), ParseErrorView>
    decreases remaining(t, c), 1int,
{
    let c2 = c + line_trivia_run(t, c);
    if 0 <= c2 < t.len() && starts_term(t[c2].kind) {
        match spec_term(t, c2) {
            Err(e) => Err(e),
            Ok((e2, c3)) => spec_seq_tail(t, advanced(c2, c3), acc.push(e2)),
        }
    } else {
        Ok(
            (
                if acc.len() == 1 {
                    acc[0]
                } else {
                    ExprView::Sequence(acc)
                },
                c,
            ),
        )
    }
}

/// A sequence of one or more terms at `c`, past leading in-rule trivia.
pub open spec fn spec_seq(t: Seq<TokenView<TokenType>>, c: int) -> Result<
    (ExprView, int),
    ParseErrorView,
>
    decreases remaining(t, c), 2int,
{
    let c0 = c + line_trivia_run(t, c);
    match spec_term(t, c0) {
        Err(e) => Err(e),
        Ok((e1, c1)) => spec_seq_tail(t, advanced(c0, c1), seq![e1]),
    }
}

/// The alternatives after the first one: each `|` reads one more sequence,
/// and the alternation folds to the left onto `acc`.
pub open spec fn spec_or_tail(t: Seq<TokenView<TokenType>>, c: int, acc: ExprView) -> Result<
    (ExprView, int),
    ParseErrorView,
>
    decreases remaining(t, c), 0int,
{
    let c2 = c + line_trivia_run(t, c);
    if 0 <= c2 < t.len() && t[c2].kind is Or {
        match spec_seq(t, c2 + 1) {
            Err(e) => Err(e),
            Ok((e2, c3)) => spec_or_tail(
                t,
                advanced(c2 + 1, c3),
                ExprView::Or(Box::new(acc), Box::new(e2)),
            ),
        }
    } else {
        Ok((acc, c))
    }
}

/// A whole rule body at `c`: one or more sequences separated by `|`.
pub open spec fn spec_expr(t: Seq<TokenView<TokenType>>, c: int) -> Result<
    (ExprView, int),
    ParseErrorView,
>
    decreases remaining(t, c), 3int,
{
    match spec_seq(t, c) {
        Err(e) => Err(e),
        Ok((e1, c1)) => spec_or_tail(t, advanced(c, c1), e1),
    }
}

/// One whole rule at `c`: `Identifier := body`, with in-rule trivia allowed
/// around the `:=`.
pub open spec fn spec_rule(t: Seq<TokenView<TokenType>>, c: int) -> Result<
    (ExprView, int),
    ParseErrorView,
> {
    match spec_consume(TokenType::Identifier, t, c) {
        Err(e) => Err(e),
        Ok(id) => {
            let c1 = c + 1 + line_trivia_run(t, c + 1);
            match spec_consume(TokenType::Assign, t, c1) {
                Err(e) => Err(e),
                Ok(_) => match spec_expr(t, c1 + 1) {
                    Err(e) => Err(e),
                    Ok((body, c2)) => Ok((ExprView::Assign(id, Box::new(body)), c2)),
                },
            }
        },
    }
}

/// Every rule in the stream, from `c` on: trivia (newlines included) is
/// skipped between rules, and parsing stops at the end-of-input token.
pub open spec fn spec_rules(t: Seq<TokenView<TokenType>>, c: int, acc: Seq<ExprView>) -> Result<
    (Seq<ExprView>, int),
    ParseErrorView,
>
    decreases remaining(t, c), 5int,
{
    let c0 = c + trivia_run(t, c);
    if c0 >= t.len() || t[c0].kind is EOF {
        Ok((acc, c0))
    } else {
        match spec_rule(t, c0) {
            Err(e) => Err(e),
            Ok((e, c1)) => spec_rules(t, advanced(c0, c1), acc.push(e)),
        }
    }
}

/// Skips in-rule trivia: the first position at or after `c` that does not
/// hold a whitespace or inline-comment token.
pub fn skip_line_trivia(tokens: &Vec<Token<TokenType>>, c: usize) -> (r: usize)
    ensures
        r as int == c + line_trivia_run(token_views(tokens@), c as int),
        line_trivia_run(token_views(tokens@), r as int) == 0,
        c <= r,
        r <= tokens@.len() || r == c,
{
    let ghost t = token_views(tokens@);
    let mut r = c;
    loop
        invariant
            c <= r,
            r <= tokens@.len() || r == c,
            t == token_views(tokens@),
            c + line_trivia_run(t, c as int) == r + line_trivia_run(t, r as int),
        ensures
            line_trivia_run(t, r as int) == 0,
        decreases tokens@.len() - r,
    {
        if r >= tokens.len() {
            break;
        }
        assert(t[r as int] == tokens@[r as int]@);
        let k = tokens[r].token_type;
        if !(k == TokenType::WS || k == TokenType::InlineComment) {
            break;
        }
        r = r + 1;
    }
    r
}

/// Skips between-rule trivia: the first position at or after `c` that does
/// not hold a whitespace, inline-comment or newline token.
pub fn skip_trivia(tokens: &Vec<Token<TokenType>>, c: usize) -> (r: usize)
    ensures
        r as int == c + trivia_run(token_views(tokens@), c as int),
        trivia_run(token_views(tokens@), r as int) == 0,
        c <= r,
        r <= tokens@.len() || r == c,
{
    let ghost t = token_views(tokens@);
    let mut r = c;
    loop
        invariant
            c <= r,
            r <= tokens@.len() || r == c,
            t == token_views(tokens@),
            c + trivia_run(t, c as int) == r + trivia_run(t, r as int),
        ensures
            trivia_run(t, r as int) == 0,
        decreases tokens@.len() - r,
    {
        if r >= tokens.len() {
            break;
        }
        assert(t[r as int] == tokens@[r as int]@);
        let k = tokens[r].token_type;
        if !(k == TokenType::WS || k == TokenType::InlineComment || k == TokenType::NL) {
            break;
        }
        r = r + 1;
    }
    r
}

/// Applies a postfix repetition marker standing directly at `c` to `base`,
/// exactly as [`spec_postfix`] says.
fn apply_postfix(tokens: &Vec<Token<TokenType>>, base: Expression, c: usize) -> (r: (
    Expression,
    usize,
))
    requires
        c <= tokens@.len(),
        tokens@.len() < usize::MAX,
    ensures
        ({
            let (se, sc) = spec_postfix(token_views(tokens@), base@, c as int);
            &&& r.0@ == se
            &&& r.1 as int == sc
            &&& c <= r.1 <= tokens@.len()
        }),
{
    let ghost bv = base@;
    if c < tokens.len() {
        assert(token_views(tokens@)[c as int] == tokens@[c as int]@);
        let k = tokens[c].token_type;
        if k == TokenType::Star {
            let mut items: Vec<Expression> = Vec::new();
            items.push(base);
            proof {
                assert(items@.subrange(0, 0) =~= Seq::<Expression>::empty());
                assert(exprs_view(Seq::<Expression>::empty()) == Seq::<ExprView>::empty());
                assert(exprs_view(items@) =~= seq![bv]);
            }
            return (Expression::Many(items), c + 1);
        }
        if k == TokenType::Plus {
            let mut items: Vec<Expression> = Vec::new();
            items.push(base);
            proof {
                assert(items@.subrange(0, 0) =~= Seq::<Expression>::empty());
                assert(exprs_view(Seq::<Expression>::empty()) == Seq::<ExprView>::empty());
                assert(exprs_view(items@) =~= seq![bv]);
            }
            return (Expression::ManyOne(items), c + 1);
        }
        if k == TokenType::Question {
            return (Expression::Optional(Box::new(base)), c + 1);
        }
        return (base, c);
    }
    (base, c)
}

/// One term, exactly as [`spec_term`] says; a success moves the cursor
/// forward and never past the end of the stream.
pub fn parse_term(tokens: &Vec<Token<TokenType>>, c: usize) -> (r: Result<
    (Expression, usize),
    ParseError,
>)
    requires
        c <= tokens@.len() + 1,
        tokens@.len() < usize::MAX - 1,
    ensures
        match r {
            Ok((e, c2)) => spec_term(token_views(tokens@), c as int) == Ok::<_, ParseErrorView>(
                (e@, c2 as int),
            ) && c < c2 <= tokens@.len(),
            Err(er) => spec_term(token_views(tokens@), c as int) == Err::<(ExprView, int), _>(er@),
        },
    decreases tokens@.len() - c, 0int,
{
    let ghost t = token_views(tokens@);
    if c >= tokens.len() {
        return Err(ParseError::UnexpectedEof);
    }
    assert(t[c as int] == tokens@[c as int]@);
    let k = tokens[c].token_type;
    if k == TokenType::Var || k == TokenType::Identifier {
        let tok = tokens[c].clone();
        let (e, c2) = apply_postfix(tokens, Expression::Val(tok), c + 1);
        Ok((e, c2))
    } else if k == TokenType::LeftParen {
        match parse_expr(tokens, c + 1) {
            Err(e) => Err(e),
            Ok((inner, c1)) => {
                let c3 = skip_line_trivia(tokens, c1);
                match Parser::consume(TokenType::RightParen, tokens, c3) {
                    Err(e) => Err(e),
                    Ok(_) => {
                        let (e, c2) = apply_postfix(
                            tokens,
                            Expression::Group(Box::new(inner)),
                            c3 + 1,
                        );
                        Ok((e, c2))
                    },
                }
            },
        }
    } else {
        let mut expected: Vec<TokenType> = Vec::new();
        expected.push(TokenType::Var);
        expected.push(TokenType::Identifier);
        expected.push(TokenType::LeftParen);
        assert(expected@ =~= seq![TokenType::Var, TokenType::Identifier, TokenType::LeftParen]);
        Err(ParseError::NoAlternative { expected, found: k })
    }
}

/// A sequence of one or more terms, exactly as [`spec_seq`] says; a success
/// moves the cursor forward and never past the end of the stream.
pub fn parse_seq(tokens: &Vec<Token<TokenType>>, c: usize) -> (r: Result<
    (Expression, usize),
    ParseError,
>)
    requires
        c <= tokens@.len() + 1,
        tokens@.len() < usize::MAX - 1,
    ensures
        match r {
            Ok((e, c2)) => spec_seq(token_views(tokens@), c as int) == Ok::<_, ParseErrorView>(
                (e@, c2 as int),
            ) && c < c2 <= tokens@.len(),
            Err(er) => spec_seq(token_views(tokens@), c as int) == Err::<(ExprView, int), _>(er@),
        },
    decreases tokens@.len() - c, 2int,
{
    let ghost t = token_views(tokens@);
    let c0 = skip_line_trivia(tokens, c);
    match parse_term(tokens, c0) {
        Err(e) => Err(e),
        Ok((e1, c1)) => {
            let ghost e1v = e1@;
            let mut items: Vec<Expression> = Vec::new();
            items.push(e1);
            proof {
                assert(items@.subrange(0, 0) =~= Seq::<Expression>::empty());
                assert(exprs_view(Seq::<Expression>::empty()) == Seq::<ExprView>::empty());
                assert(exprs_view(items@) =~= seq![e1v]);
            }
            let mut cur = c1;
            loop
                invariant
                    c < cur <= tokens@.len(),
                    tokens@.len() < usize::MAX - 1,
                    t == token_views(tokens@),
                    items@.len() >= 1,
                    spec_seq(t, c as int) == spec_seq_tail(t, cur as int, exprs_view(items@)),
                ensures
                    ({
                        let c2 = cur + line_trivia_run(t, cur as int);
                        !(0 <= c2 < t.len() && starts_term(t[c2].kind))
                    }),
                    c < cur <= tokens@.len(),
                    items@.len() >= 1,
                    spec_seq(t, c as int) == spec_seq_tail(t, cur as int, exprs_view(items@)),
                decreases tokens@.len() - cur,
            {
                let c2 = skip_line_trivia(tokens, cur);
                if c2 >= tokens.len() {
                    break;
                }
                assert(t[c2 as int] == tokens@[c2 as int]@);
                let k = tokens[c2].token_type;
                if !(k == TokenType::Var || k == TokenType::Identifier || k
                    == TokenType::LeftParen) {
                    break;
                }
                match parse_term(tokens, c2) {
                    Err(e) => {
                        return Err(e);
                    },
                    Ok((e2, c3)) => {
                        let ghost prev = items@;
                        let ghost e2g = e2;
                        items.push(e2);
                        proof {
                            lemma_exprs_view_push(prev, e2g);
                        }
                        cur = c3;
                    },
                }
            }
            proof {
                lemma_exprs_view(items@);
            }
            if items.len() == 1 {
                let e = items.remove(0);
                Ok((e, cur))
            } else {
                Ok((Expression::Sequence(items), cur))
            }
        },
    }
}

/// A whole rule body (alternation of sequences), exactly as [`spec_expr`]
/// says; a success moves the cursor forward and never past the end of the
/// stream.
pub fn parse_expr(tokens: &Vec<Token<TokenType>>, c: usize) -> (r: Result<
    (Expression, usize),
    ParseError,
>)
    requires
        c <= tokens@.len() + 1,
        tokens@.len() < usize::MAX - 1,
    ensures
        match r {
            Ok((e, c2)) => spec_expr(token_views(tokens@), c as int) == Ok::<_, ParseErrorView>(
                (e@, c2 as int),
            ) && c < c2 <= tokens@.len(),
            Err(er) => spec_expr(token_views(tokens@), c as int) == Err::<(ExprView, int), _>(er@),
        },
    decreases tokens@.len() - c, 3int,
{
    let ghost t = token_views(tokens@);
    match parse_seq(tokens, c) {
        Err(e) => Err(e),
        Ok((e1, c1)) => {
            let mut acc = e1;
            let mut cur = c1;
            loop
                invariant
                    c < cur <= tokens@.len(),
                    tokens@.len() < usize::MAX - 1,
                    t == token_views(tokens@),
                    spec_expr(t, c as int) == spec_or_tail(t, cur as int, acc@),
                ensures
                    ({
                        let c2 = cur + line_trivia_run(t, cur as int);
                        !(0 <= c2 < t.len() && t[c2].kind is Or)
                    }),
                    c < cur <= tokens@.len(),
                    spec_expr(t, c as int) == spec_or_tail(t, cur as int, acc@),
                decreases tokens@.len() - cur,
            {
                let c2 = skip_line_trivia(tokens, cur);
                if c2 >= tokens.len() {
                    break;
                }
                assert(t[c2 as int] == tokens@[c2 as int]@);
                let k = tokens[c2].token_type;
                if !(k == TokenType::Or) {
                    break;
                }
                match parse_seq(tokens, c2 + 1) {
                    Err(e) => {
                        return Err(e);
                    },
                    Ok((e2, c3)) => {
                        acc = Expression::Or(Box::new(acc), Box::new(e2));
                        cur = c3;
                    },
                }
            }
            Ok((acc, cur))
        },
    }
}

/// One whole rule, exactly as [`spec_rule`] says; a success moves the cursor
/// forward and never past the end of the stream.
pub fn parse_rule(tokens: &Vec<Token<TokenType>>, c: usize) -> (r: Result<
    (Expression, usize),
    ParseError,
>)
    requires
        c <= tokens@.len() + 1,
        tokens@.len() < usize::MAX - 1,
    ensures
        match r {
            Ok((e, c2)) => spec_rule(token_views(tokens@), c as int) == Ok::<_, ParseErrorView>(
                (e@, c2 as int),
            ) && c < c2 <= tokens@.len(),
            Err(er) => spec_rule(token_views(tokens@), c as int) == Err::<(ExprView, int), _>(er@),
        },
{
    match Parser::consume(TokenType::Identifier, tokens, c) {
        Err(e) => Err(e),
        Ok(id) => {
            let c1 = skip_line_trivia(tokens, c + 1);
            match Parser::consume(TokenType::Assign, tokens, c1) {
                Err(e) => Err(e),
                Ok(_) => match parse_expr(tokens, c1 + 1) {
                    Err(e) => Err(e),
                    Ok((body, c2)) => Ok(
                        (Expression::Assign(Box::new(AssignNode { id, value: body })), c2),
                    ),
                },
            }
        },
    }
}

} // verus!
