//! Crate-level laws, stated and proved once over the models.
//!
//! The main law here is the round trip: an expression tree built from `Val`,
//! `Sequence` and `Or` nodes in the shape the parser itself produces
//! ([`canon_alt`]) re-parses, from its own token spelling ([`tokens_of`]),
//! to the same tree. Left-folded alternation is part of that shape: a tree
//! whose right `Or` child is itself an `Or` spells the same as its left
//! rotation and cannot come back unchanged.

use vstd::prelude::*;
use crate::ast::ExprView;
use crate::grammar::{advanced, line_trivia_run, spec_expr, spec_or_tail, spec_seq, spec_seq_tail,
    spec_term};
use crate::matching::anchored_match_len;
use crate::parser::{ParseErrorView, TokenType};
use crate::scanner::{PatternView, TokenView, first_match, first_match_from, next_col, next_line,
    scan_from, stored_value};

verus! {

/// A terminal leaf: a `Val` of a variable or identifier token.
pub open spec fn is_term_val(e: ExprView) -> bool {
    match e {
        ExprView::Val(t) => t.kind is Var || t.kind is Identifier,
        _ => false,
    }
}

/// The token under a terminal leaf.
pub open spec fn val_of(e: ExprView) -> TokenView<TokenType>
    recommends
        is_term_val(e),
{
    match e {
        ExprView::Val(t) => t,
        _ => TokenView { kind: TokenType::EOF, value: Seq::empty(), line: 0u64, col: 0u64 },
    }
}

/// A sequence-level canonical tree: a terminal leaf, or a `Sequence` of at
/// least two terminal leaves — exactly the sequence shapes the parser builds.
pub open spec fn canon_seq(e: ExprView) -> bool {
    match e {
        ExprView::Val(_) => is_term_val(e),
        ExprView::Sequence(es) => es.len() >= 2 && forall|i: int|
            0 <= i < es.len() ==> is_term_val(#[trigger] es[i]),
        _ => false,
    }
}

/// An alternation-level canonical tree: sequence levels joined by `Or` nodes
/// that fold to the left, as the parser folds them.
pub open spec fn canon_alt(e: ExprView) -> bool
    decreases e,
{
    match e {
        ExprView::Or(l, r) => canon_alt(*l) && canon_seq(*r),
        _ => canon_seq(e),
    }
}

/// The alternation token in a re-spelled stream.
pub open spec fn or_token() -> TokenView<TokenType> {
    TokenView { kind: TokenType::Or, value: seq!['|'], line: 1u64, col: 1u64 }
}

/// The token spelling of a canonical tree: each leaf is its own token, and
/// alternatives are joined by an alternation token.
pub open spec fn tokens_of(e: ExprView) -> Seq<TokenView<TokenType>>
    decreases e,
{
    match e {
        ExprView::Val(t) => seq![t],
        ExprView::Sequence(es) => tokens_of_list(es),
        ExprView::Or(l, r) => tokens_of(*l) + seq![or_token()] + tokens_of(*r),
        _ => Seq::empty(),
    }
}

/// The token spelling of a list of trees, concatenated.
pub open spec fn tokens_of_list(es: Seq<ExprView>) -> Seq<TokenView<TokenType>>
    decreases es,
{
    if es.len() == 0 {
        Seq::empty()
    } else {
        tokens_of(es[0]) + tokens_of_list(es.subrange(1, es.len() as int))
    }
}

/// The token spelling of the alternatives after the first: each one behind
/// one alternation token.
pub open spec fn chain_tokens(vs: Seq<ExprView>) -> Seq<TokenView<TokenType>>
    decreases vs,
{
    if vs.len() == 0 {
        Seq::empty()
    } else {
        seq![or_token()] + tokens_of(vs[0]) + chain_tokens(vs.subrange(1, vs.len() as int))
    }
}

/// Left-folds alternatives onto `acc`, exactly as the parser folds them.
pub open spec fn fold_or(acc: ExprView, vs: Seq<ExprView>) -> ExprView
    decreases vs,
{
    if vs.len() == 0 {
        acc
    } else {
        fold_or(ExprView::Or(Box::new(acc), Box::new(vs[0])), vs.subrange(1, vs.len() as int))
    }
}

/// The alternatives of a canonical tree, left to right.
pub open spec fn alts_of(e: ExprView) -> Seq<ExprView>
    decreases e,
{
    match e {
        ExprView::Or(l, r) => alts_of(*l).push(*r),
        _ => seq![e],
    }
}

/// A list of terminal leaves spells one token per leaf.
proof fn lemma_tokens_of_vals(es: Seq<ExprView>)
    requires
        forall|i: int| 0 <= i < es.len() ==> is_term_val(#[trigger] es[i]),
    ensures
        tokens_of_list(es).len() == es.len(),
        forall|i: int| 0 <= i < es.len() ==> tokens_of_list(es)[i] == val_of(#[trigger] es[i]),
    decreases es.len(),
{
    if es.len() > 0 {
        let rest = es.subrange(1, es.len() as int);
        lemma_tokens_of_vals(rest);
        assert(tokens_of(es[0]) =~= seq![val_of(es[0])]);
        assert forall|i: int| 0 <= i < es.len() implies tokens_of_list(es)[i] == val_of(
            #[trigger] es[i],
        ) by {
            if i > 0 {
                assert(rest[i - 1] == es[i]);
                assert(tokens_of_list(es)[i] == tokens_of_list(rest)[i - 1]);
            }
        }
    }
}

/// A sequence-level canonical tree spells at least one token, all of them
/// terminal leaves.
proof fn lemma_canon_seq_tokens(e: ExprView)
    requires
        canon_seq(e),
    ensures
        tokens_of(e).len() >= 1,
        forall|i: int| 0 <= i < tokens_of(e).len() ==> (#[trigger] tokens_of(e)[i].kind is Var
            || tokens_of(e)[i].kind is Identifier),
{
    match e {
        ExprView::Val(t) => {},
        ExprView::Sequence(es) => {
            lemma_tokens_of_vals(es);
            assert forall|i: int|
                0 <= i < tokens_of(e).len() implies (#[trigger] tokens_of(e)[i].kind is Var
                || tokens_of(e)[i].kind is Identifier) by {
                assert(tokens_of(e)[i] == val_of(es[i]));
            }
        },
        _ => {},
    }
}

/// A terminal token with no postfix marker after it parses as a bare leaf.
proof fn lemma_term_val(s: Seq<TokenView<TokenType>>, c: int)
    requires
        0 <= c < s.len(),
        s[c].kind is Var || s[c].kind is Identifier,
        c + 1 >= s.len() || !(s[c + 1].kind is Star || s[c + 1].kind is Plus || s[c + 1].kind
            is Question),
    ensures
        spec_term(s, c) == Ok::<_, ParseErrorView>((ExprView::Val(s[c]), c + 1)),
{
}

/// Consecutive terminal tokens extend the accumulated sequence one leaf at a
/// time, and an `Or` or `EOF` token (or the end of the stream) ends it.
proof fn lemma_seq_tail_vals(
    s: Seq<TokenView<TokenType>>,
    c: int,
    acc: Seq<ExprView>,
    vs: Seq<ExprView>,
)
    requires
        0 <= c,
        c + vs.len() <= s.len(),
        acc.len() >= 1,
        forall|i: int| 0 <= i < vs.len() ==> is_term_val(#[trigger] vs[i]),
        forall|i: int| c <= i < c + vs.len() ==> #[trigger] s[i] == val_of(vs[i - c]),
        c + vs.len() >= s.len() || s[c + vs.len()].kind is Or || s[c + vs.len()].kind is EOF,
    ensures
        spec_seq_tail(s, c, acc) == Ok::<_, ParseErrorView>(
            (
                if acc.len() + vs.len() == 1 {
                    acc[0]
                } else {
                    ExprView::Sequence(acc + vs)
                },
                c + vs.len(),
            ),
        ),
    decreases vs.len(),
{
    if vs.len() == 0 {
        assert(line_trivia_run(s, c) == 0);
        assert(acc + vs =~= acc);
    } else {
        assert(s[c] == val_of(vs[0]));
        assert(line_trivia_run(s, c) == 0);
        if vs.len() >= 2 {
            assert(s[c + 1] == val_of(vs[1]));
        }
        lemma_term_val(s, c);
        let rest = vs.subrange(1, vs.len() as int);
        assert forall|i: int| c + 1 <= i < c + 1 + rest.len() implies #[trigger] s[i] == val_of(
            rest[i - (c + 1)],
        ) by {
            assert(rest[i - (c + 1)] == vs[i - c]);
        }
        lemma_seq_tail_vals(s, c + 1, acc.push(vs[0]), rest);
        assert(advanced(c, c + 1) == c + 1);
        assert(acc.push(vs[0]) + rest =~= acc + vs);
        assert(spec_seq_tail(s, c, acc) == spec_seq_tail(s, c + 1, acc.push(ExprView::Val(s[c]))));
        assert(acc.push(ExprView::Val(s[c])) == acc.push(vs[0]));
    }
}

/// A sequence-level canonical tree parses back from its own spelling, up to
/// an `Or` or `EOF` token or the end of the stream.
proof fn lemma_seq_canon(s: Seq<TokenView<TokenType>>, c: int, e: ExprView)
    requires
        canon_seq(e),
        0 <= c,
        c + tokens_of(e).len() <= s.len(),
        forall|i: int| c <= i < c + tokens_of(e).len() ==> #[trigger] s[i] == tokens_of(e)[i - c],
        c + tokens_of(e).len() >= s.len() || s[c + tokens_of(e).len()].kind is Or || s[c
            + tokens_of(e).len()].kind is EOF,
    ensures
        spec_seq(s, c) == Ok::<_, ParseErrorView>((e, c + tokens_of(e).len())),
{
    let n = tokens_of(e).len() as int;
    lemma_canon_seq_tokens(e);
    assert(s[c] == tokens_of(e)[0]);
    assert(line_trivia_run(s, c) == 0);
    match e {
        ExprView::Val(t) => {
            assert(tokens_of(e) =~= seq![t]);
            assert(s[c] == t);
            lemma_term_val(s, c);
            assert(advanced(c, c + 1) == c + 1);
            lemma_seq_tail_vals(s, c + 1, seq![ExprView::Val(s[c])], Seq::empty());
        },
        ExprView::Sequence(es) => {
            lemma_tokens_of_vals(es);
            assert(s[c] == val_of(es[0]));
            assert(s[c + 1] == tokens_of(e)[1]);
            assert(s[c + 1] == val_of(es[1]));
            lemma_term_val(s, c);
            assert(advanced(c, c + 1) == c + 1);
            let rest = es.subrange(1, es.len() as int);
            assert forall|i: int| c + 1 <= i < c + 1 + rest.len() implies #[trigger] s[i] == val_of(
                rest[i - (c + 1)],
            ) by {
                assert(rest[i - (c + 1)] == es[i - c]);
                assert(s[i] == tokens_of(e)[i - c]);
                assert(tokens_of(e)[i - c] == val_of(es[i - c]));
            }
            lemma_seq_tail_vals(s, c + 1, seq![ExprView::Val(s[c])], rest);
            assert(seq![ExprView::Val(s[c])] + rest =~= es);
            assert(spec_seq_tail(s, c + 1, seq![ExprView::Val(s[c])]) == Ok::<_, ParseErrorView>(
                (ExprView::Sequence(seq![ExprView::Val(s[c])] + rest), c + 1 + rest.len()),
            ));
        },
        _ => {},
    }
}

/// Each further alternative extends the left fold by one `Or` node, and an
/// `EOF` token (or the end of the stream) ends the alternation.
proof fn lemma_or_tail_chain(
    s: Seq<TokenView<TokenType>>,
    c: int,
    acc: ExprView,
    vs: Seq<ExprView>,
)
    requires
        0 <= c,
        c + chain_tokens(vs).len() <= s.len(),
        forall|i: int| 0 <= i < vs.len() ==> canon_seq(#[trigger] vs[i]),
        forall|i: int| c <= i < c + chain_tokens(vs).len() ==> #[trigger] s[i] == chain_tokens(
            vs,
        )[i - c],
        c + chain_tokens(vs).len() >= s.len() || s[c + chain_tokens(vs).len()].kind is EOF,
    ensures
        spec_or_tail(s, c, acc) == Ok::<_, ParseErrorView>(
            (fold_or(acc, vs), c + chain_tokens(vs).len()),
        ),
    decreases vs.len(),
{
    let n = chain_tokens(vs).len() as int;
    if vs.len() == 0 {
        assert(line_trivia_run(s, c) == 0);
    } else {
        let e0 = vs[0];
        let n0 = tokens_of(e0).len() as int;
        lemma_canon_seq_tokens(e0);
        let rest = vs.subrange(1, vs.len() as int);
        let nc = chain_tokens(rest).len() as int;
        assert(n == 1 + n0 + nc);
        assert(s[c] == chain_tokens(vs)[0]);
        assert(chain_tokens(vs)[0] == or_token());
        assert(line_trivia_run(s, c) == 0);
        assert forall|i: int| c + 1 <= i < c + 1 + n0 implies #[trigger] s[i] == tokens_of(
            e0,
        )[i - (c + 1)] by {
            assert(s[i] == chain_tokens(vs)[i - c]);
            assert(chain_tokens(vs)[i - c] == tokens_of(e0)[i - c - 1]);
        }
        // the token after this alternative is another `|` or the end marker
        if nc > 0 {
            assert(s[c + 1 + n0] == chain_tokens(vs)[1 + n0]);
            assert(chain_tokens(vs)[1 + n0] == chain_tokens(rest)[0]);
            assert(chain_tokens(rest)[0] == or_token());
        }
        lemma_seq_canon(s, c + 1, e0);
        assert(advanced(c + 1, c + 1 + n0) == c + 1 + n0);
        assert forall|i: int| 0 <= i < rest.len() implies canon_seq(#[trigger] rest[i]) by {
            assert(rest[i] == vs[i + 1]);
        }
        assert forall|i: int| c + 1 + n0 <= i < c + 1 + n0 + nc implies #[trigger] s[i]
            == chain_tokens(rest)[i - (c + 1 + n0)] by {
            assert(s[i] == chain_tokens(vs)[i - c]);
            assert(chain_tokens(vs)[i - c] == chain_tokens(rest)[i - c - 1 - n0]);
        }
        lemma_or_tail_chain(s, c + 1 + n0, ExprView::Or(Box::new(acc), Box::new(e0)), rest);
    }
}

/// Folding one more alternative wraps the fold so far in one `Or` node.
proof fn lemma_fold_or_push(acc: ExprView, vs: Seq<ExprView>, x: ExprView)
    ensures
        fold_or(acc, vs.push(x)) == ExprView::Or(Box::new(fold_or(acc, vs)), Box::new(x)),
    decreases vs.len(),
{
    if vs.len() == 0 {
        assert(vs.push(x)[0] == x);
        assert(vs.push(x).subrange(1, 1) =~= Seq::<ExprView>::empty());
        assert(fold_or(ExprView::Or(Box::new(acc), Box::new(x)), vs.push(x).subrange(1, 1))
            == ExprView::Or(Box::new(acc), Box::new(x)));
    } else {
        let sub = vs.subrange(1, vs.len() as int);
        assert(vs.push(x)[0] == vs[0]);
        assert(vs.push(x).subrange(1, vs.push(x).len() as int) =~= sub.push(x));
        lemma_fold_or_push(ExprView::Or(Box::new(acc), Box::new(vs[0])), sub, x);
        assert(fold_or(acc, vs.push(x)) == fold_or(
            ExprView::Or(Box::new(acc), Box::new(vs[0])),
            sub.push(x),
        ));
        assert(fold_or(acc, vs) == fold_or(ExprView::Or(Box::new(acc), Box::new(vs[0])), sub));
    }
}

/// One more alternative appends one `|` token and its own spelling.
proof fn lemma_chain_push(vs: Seq<ExprView>, x: ExprView)
    ensures
        chain_tokens(vs.push(x)) == chain_tokens(vs) + seq![or_token()] + tokens_of(x),
    decreases vs.len(),
{
    if vs.len() == 0 {
        assert(vs.push(x)[0] == x);
        assert(vs.push(x).subrange(1, 1) =~= Seq::<ExprView>::empty());
        assert(chain_tokens(vs.push(x).subrange(1, 1)) =~= Seq::<TokenView<TokenType>>::empty());
        assert(chain_tokens(vs.push(x)) =~= chain_tokens(vs) + seq![or_token()] + tokens_of(x));
    } else {
        let sub = vs.subrange(1, vs.len() as int);
        assert(vs.push(x)[0] == vs[0]);
        assert(vs.push(x).subrange(1, vs.push(x).len() as int) =~= sub.push(x));
        lemma_chain_push(sub, x);
        assert(chain_tokens(vs.push(x)) == seq![or_token()] + tokens_of(vs[0]) + chain_tokens(
            sub.push(x),
        ));
        assert(chain_tokens(vs) == seq![or_token()] + tokens_of(vs[0]) + chain_tokens(sub));
        assert(seq![or_token()] + tokens_of(vs[0]) + (chain_tokens(sub) + seq![or_token()]
            + tokens_of(x)) =~= (seq![or_token()] + tokens_of(vs[0]) + chain_tokens(sub)) + seq![
            or_token(),
        ] + tokens_of(x));
    }
}

/// The alternatives of a canonical tree: at least one, all sequence-level,
/// folding back to the tree, and spelling the tree's tokens.
proof fn lemma_alts(e: ExprView)
    requires
        canon_alt(e),
    ensures
        alts_of(e).len() >= 1,
        forall|i: int| 0 <= i < alts_of(e).len() ==> canon_seq(#[trigger] alts_of(e)[i]),
        fold_or(alts_of(e)[0], alts_of(e).subrange(1, alts_of(e).len() as int)) == e,
        tokens_of(e) == tokens_of(alts_of(e)[0]) + chain_tokens(
            alts_of(e).subrange(1, alts_of(e).len() as int),
        ),
    decreases e,
{
    match e {
        ExprView::Or(l, r) => {
            lemma_alts(*l);
            let la = alts_of(*l);
            let lrest = la.subrange(1, la.len() as int);
            assert(alts_of(e) == la.push(*r));
            assert forall|i: int| 0 <= i < alts_of(e).len() implies canon_seq(
                #[trigger] alts_of(e)[i],
            ) by {
                if i < la.len() {
                    assert(alts_of(e)[i] == la[i]);
                } else {
                    assert(alts_of(e)[i] == *r);
                }
            }
            assert(la.push(*r)[0] == la[0]);
            assert(la.push(*r).subrange(1, la.push(*r).len() as int) =~= lrest.push(*r));
            lemma_fold_or_push(la[0], lrest, *r);
            lemma_chain_push(lrest, *r);
            assert(tokens_of(e) =~= tokens_of(la[0]) + chain_tokens(lrest.push(*r)));
        },
        _ => {
            assert(alts_of(e) == seq![e]);
            assert(alts_of(e).subrange(1, 1) =~= Seq::<ExprView>::empty());
            assert(chain_tokens(Seq::<ExprView>::empty()) =~= Seq::<TokenView<TokenType>>::empty());
            assert(tokens_of(e) =~= tokens_of(e) + chain_tokens(Seq::<ExprView>::empty()));
        },
    }
}

/// Round trip: a tree of `Val`, `Sequence` and `Or` nodes in the shape the
/// parser produces re-parses, from its own token spelling followed by the
/// end-of-input token, to the very same tree, consuming exactly its tokens.
pub proof fn lemma_round_trip(e: ExprView, eof: TokenView<TokenType>)
    requires
        canon_alt(e),
        eof.kind is EOF,
    ensures
        spec_expr(tokens_of(e) + seq![eof], 0) == Ok::<_, ParseErrorView>(
            (e, tokens_of(e).len() as int),
        ),
{
    let s = tokens_of(e) + seq![eof];
    lemma_alts(e);
    let alts = alts_of(e);
    let a0 = alts[0];
    let rest = alts.subrange(1, alts.len() as int);
    let n0 = tokens_of(a0).len() as int;
    let nc = chain_tokens(rest).len() as int;
    assert(s.len() == n0 + nc + 1);
    lemma_canon_seq_tokens(a0);
    assert forall|i: int| 0 <= i < n0 implies #[trigger] s[i] == tokens_of(a0)[i - 0] by {
        assert(s[i] == tokens_of(e)[i]);
        assert(tokens_of(e)[i] == tokens_of(a0)[i]);
    }
    if nc > 0 {
        assert(chain_tokens(rest)[0] == or_token());
        assert(s[n0] == tokens_of(e)[n0]);
        assert(tokens_of(e)[n0] == chain_tokens(rest)[0]);
    } else {
        assert(s[n0] == eof);
    }
    lemma_seq_canon(s, 0, a0);
    assert(advanced(0, n0) == n0);
    assert forall|i: int| n0 <= i < n0 + nc implies #[trigger] s[i] == chain_tokens(
        rest,
    )[i - n0] by {
        assert(s[i] == tokens_of(e)[i]);
        assert(tokens_of(e)[i] == chain_tokens(rest)[i - n0]);
    }
    assert(s[n0 + nc] == eof);
    lemma_or_tail_chain(s, n0, a0, rest);
}


/// The match lengths of a successful scan, one per emitted token before the
/// end-of-input token.
pub open spec fn scan_lens<T>(dict: Seq<PatternView<T>>, text: Seq<char>, cursor: int) -> Seq<int>
    decreases text.len() - cursor,
{
    if cursor < 0 || cursor >= text.len() {
        Seq::empty()
    } else {
        match first_match(dict, text.subrange(cursor, text.len() as int)) {
            None => Seq::empty(),
            Some((k, l)) => if l < 1 || cursor + l > text.len() {
                Seq::empty()
            } else {
                seq![l as int] + scan_lens(dict, text, cursor + l)
            },
        }
    }
}

/// The sum of a sequence of integers.
pub open spec fn sum_of(s: Seq<int>) -> int
    decreases s.len(),
{
    if s.len() == 0 {
        0
    } else {
        s[0] + sum_of(s.subrange(1, s.len() as int))
    }
}

/// Where the `i`-th match of a scan started: the scan's starting point plus
/// the lengths of the matches before it.
pub open spec fn start_of(lens: Seq<int>, cursor: int, i: int) -> int
    decreases i,
{
    if i <= 0 {
        cursor
    } else {
        start_of(lens, cursor, i - 1) + lens[i - 1]
    }
}

proof fn lemma_start_shift(lens: Seq<int>, rest: Seq<int>, l: int, cursor: int, i: int)
    requires
        lens == seq![l] + rest,
        0 <= i <= rest.len(),
    ensures
        start_of(lens, cursor, i + 1) == start_of(rest, cursor + l, i),
    decreases i,
{
    if i == 0 {
        assert(lens[0] == l);
        assert(start_of(lens, cursor, 0) == cursor);
        assert(start_of(rest, cursor + l, 0) == cursor + l);
    } else {
        lemma_start_shift(lens, rest, l, cursor, i - 1);
        assert(lens[i] == rest[i - 1]);
        assert(start_of(lens, cursor, i + 1) == start_of(lens, cursor, i) + lens[i]);
        assert(start_of(rest, cursor + l, i) == start_of(rest, cursor + l, i - 1) + rest[i - 1]);
    }
}

/// The facts that hold of every successful scan, proved once by induction:
/// the token count, the end-of-input token, the accounting of the input, and
/// the line/column bookkeeping.
proof fn scan_ok_facts<T>(
    dict: Seq<PatternView<T>>,
    text: Seq<char>,
    cursor: int,
    line: u64,
    col: u64,
    eof_kind: T,
)
    requires
        0 <= cursor <= text.len(),
    ensures
        match scan_from(dict, text, cursor, line, col, eof_kind) {
            Ok(toks) => {
                let lens = scan_lens(dict, text, cursor);
                &&& toks.len() == lens.len() + 1
                &&& toks[toks.len() - 1].kind == eof_kind
                &&& toks[toks.len() - 1].value == Seq::<char>::empty()
                &&& sum_of(lens) == text.len() - cursor
                &&& toks[0].line == line && toks[0].col == col
                &&& forall|i: int| 0 <= i < lens.len() ==> 1 <= #[trigger] lens[i]
                &&& forall|i: int|
                    #![trigger start_of(lens, cursor, i)]
                    0 <= i < lens.len() ==> {
                        let piece = text.subrange(
                            start_of(lens, cursor, i),
                            start_of(lens, cursor, i) + lens[i],
                        );
                        &&& start_of(lens, cursor, i) + lens[i] <= text.len()
                        &&& toks[i].value == stored_value(piece)
                        &&& toks[i + 1].line == next_line(toks[i].line, piece) as u64
                        &&& toks[i + 1].col == next_col(toks[i].col, piece) as u64
                    }
            },
            Err(_) => true,
        },
    decreases text.len() - cursor,
{
    if cursor >= text.len() {
    } else {
        match first_match(dict, text.subrange(cursor, text.len() as int)) {
            None => {},
            Some((k, l)) => {
                if 1 <= l && cursor + l <= text.len() {
                    let value = text.subrange(cursor, cursor + l);
                    let line2 = next_line(line, value) as u64;
                    let col2 = next_col(col, value) as u64;
                    scan_ok_facts(dict, text, cursor + l, line2, col2, eof_kind);
                    match scan_from(dict, text, cursor + l, line2, col2, eof_kind) {
                        Ok(rest_toks) => {
                            let lens = scan_lens(dict, text, cursor);
                            let rest_lens = scan_lens(dict, text, cursor + l);
                            let tok = TokenView {
                                kind: dict[k].kind,
                                value: stored_value(value),
                                line,
                                col,
                            };
                            let toks = seq![tok] + rest_toks;
                            assert(scan_from(dict, text, cursor, line, col, eof_kind)
                                == Ok::<_, crate::scanner::LexError>(toks));
                            assert(lens == seq![l as int] + rest_lens);
                            assert(lens[0] == l as int);
                            assert(lens.subrange(1, lens.len() as int) =~= rest_lens);
                            assert(sum_of(lens) == l + sum_of(rest_lens));
                            assert(toks[toks.len() - 1] == rest_toks[rest_toks.len() - 1]);
                            assert forall|i: int| 0 <= i < lens.len() implies 1 <= #[trigger] lens[i] by {
                                if i > 0 {
                                    assert(lens[i] == rest_lens[i - 1]);
                                }
                            }
                            assert forall|i: int|
                                #![trigger start_of(lens, cursor, i)]
                                0 <= i < lens.len() implies {
                                    let piece = text.subrange(
                                        start_of(lens, cursor, i),
                                        start_of(lens, cursor, i) + lens[i],
                                    );
                                    &&& start_of(lens, cursor, i) + lens[i] <= text.len()
                                    &&& toks[i].value == stored_value(piece)
                                    &&& toks[i + 1].line == next_line(toks[i].line, piece) as u64
                                    &&& toks[i + 1].col == next_col(toks[i].col, piece) as u64
                                } by {
                                if i == 0 {
                                    assert(start_of(lens, cursor, 0) == cursor);
                                    assert(toks[0] == tok);
                                    assert(toks[1] == rest_toks[0]);
                                } else {
                                    lemma_start_shift(lens, rest_lens, l as int, cursor, i - 1);
                                    lemma_start_shift(lens, rest_lens, l as int, cursor, i);
                                    assert(lens[i] == rest_lens[i - 1]);
                                    assert(start_of(rest_lens, cursor + l, i - 1) + rest_lens[i - 1]
                                        <= text.len());
                                    assert(toks[i] == rest_toks[i - 1]);
                                    assert(toks[i + 1] == rest_toks[i]);
                                }
                            }
                        },
                        Err(_) => {},
                    }
                }
            },
        }
    }
}

/// Scanning accounts for the whole input: a successful scan ends in the
/// end-of-input token; every match consumed at least one character; the
/// match lengths sum to the input length; and a token that kept its text
/// kept exactly the characters its match consumed.
pub proof fn lemma_scan_accounts_for_input<T>(
    dict: Seq<PatternView<T>>,
    text: Seq<char>,
    eof_kind: T,
)
    ensures
        match scan_from(dict, text, 0, 1u64, 1u64, eof_kind) {
            Ok(toks) => {
                let lens = scan_lens(dict, text, 0);
                &&& toks.len() == lens.len() + 1
                &&& toks[toks.len() - 1].kind == eof_kind
                &&& sum_of(lens) == text.len()
                &&& forall|i: int| 0 <= i < lens.len() ==> 1 <= #[trigger] lens[i]
                &&& forall|i: int|
                    #![trigger start_of(lens, 0, i)]
                    0 <= i < lens.len() ==> toks[i].value == stored_value(
                        text.subrange(start_of(lens, 0, i), start_of(lens, 0, i) + lens[i]),
                    )
            },
            Err(_) => true,
        },
{
    scan_ok_facts(dict, text, 0, 1u64, 1u64, eof_kind);
}

/// The line/column bookkeeping: the first token carries position (1, 1), and
/// each later token carries exactly the position reached after the previous
/// token's match — the line grown by the line breaks inside it, the column
/// advanced by its length or reset to 1.
pub proof fn lemma_scan_positions<T>(dict: Seq<PatternView<T>>, text: Seq<char>, eof_kind: T)
    ensures
        match scan_from(dict, text, 0, 1u64, 1u64, eof_kind) {
            Ok(toks) => {
                let lens = scan_lens(dict, text, 0);
                &&& toks[0].line == 1 && toks[0].col == 1
                &&& forall|i: int|
                    #![trigger start_of(lens, 0, i)]
                    0 <= i < lens.len() ==> {
                        let piece = text.subrange(
                            start_of(lens, 0, i),
                            start_of(lens, 0, i) + lens[i],
                        );
                        &&& toks[i + 1].line == next_line(toks[i].line, piece) as u64
                        &&& toks[i + 1].col == next_col(toks[i].col, piece) as u64
                    }
            },
            Err(_) => true,
        },
{
    scan_ok_facts(dict, text, 0, 1u64, 1u64, eof_kind);
}

/// A scan over a table whose end-of-input patterns never consume a character
/// emits the end-of-input kind exactly once, as the final token.
pub proof fn lemma_scan_single_eof<T>(dict: Seq<PatternView<T>>, text: Seq<char>, eof_kind: T)
    requires
        forall|k: int, rest: Seq<char>|
            #![trigger anchored_match_len(dict[k].pattern, rest)]
            0 <= k < dict.len() && dict[k].kind == eof_kind ==> !(anchored_match_len(
                dict[k].pattern,
                rest,
            ) matches Some(l) && l >= 1),
    ensures
        match scan_from(dict, text, 0, 1u64, 1u64, eof_kind) {
            Ok(toks) => {
                &&& toks.len() >= 1
                &&& toks[toks.len() - 1].kind == eof_kind
                &&& forall|i: int| 0 <= i < toks.len() - 1 ==> #[trigger] toks[i].kind != eof_kind
            },
            Err(_) => true,
        },
{
    lemma_scan_no_eof_before_end(dict, text, 0, 1u64, 1u64, eof_kind);
}

proof fn lemma_first_match_found<T>(dict: Seq<PatternView<T>>, rest: Seq<char>, k: int)
    requires
        first_match_from(dict, rest, k) is Some,
        0 <= k,
    ensures
        ({
            let (j, l) = first_match_from(dict, rest, k)->Some_0;
            &&& k <= j < dict.len()
            &&& anchored_match_len(dict[j].pattern, rest) == Some(l)
        }),
    decreases dict.len() - k,
{
    if k < dict.len() {
        match anchored_match_len(dict[k].pattern, rest) {
            Some(l) => {},
            None => {
                lemma_first_match_found(dict, rest, k + 1);
            },
        }
    }
}

proof fn lemma_scan_no_eof_before_end<T>(
    dict: Seq<PatternView<T>>,
    text: Seq<char>,
    cursor: int,
    line: u64,
    col: u64,
    eof_kind: T,
)
    requires
        0 <= cursor,
        forall|k: int, rest: Seq<char>|
            #![trigger anchored_match_len(dict[k].pattern, rest)]
            0 <= k < dict.len() && dict[k].kind == eof_kind ==> !(anchored_match_len(
                dict[k].pattern,
                rest,
            ) matches Some(l) && l >= 1),
    ensures
        match scan_from(dict, text, cursor, line, col, eof_kind) {
            Ok(toks) => {
                &&& toks.len() >= 1
                &&& toks[toks.len() - 1].kind == eof_kind
                &&& forall|i: int| 0 <= i < toks.len() - 1 ==> #[trigger] toks[i].kind != eof_kind
            },
            Err(_) => true,
        },
    decreases text.len() - cursor,
{
    if cursor < text.len() {
        let rest = text.subrange(cursor, text.len() as int);
        match first_match(dict, rest) {
            None => {},
            Some((k, l)) => {
                if 1 <= l && cursor + l <= text.len() {
                    let value = text.subrange(cursor, cursor + l);
                    let line2 = next_line(line, value) as u64;
                    let col2 = next_col(col, value) as u64;
                    lemma_first_match_found(dict, rest, 0);
                    assert(dict[k].kind != eof_kind);
                    lemma_scan_no_eof_before_end(dict, text, cursor + l, line2, col2, eof_kind);
                    match scan_from(dict, text, cursor + l, line2, col2, eof_kind) {
                        Ok(rest_toks) => {
                            let tok = TokenView {
                                kind: dict[k].kind,
                                value: stored_value(value),
                                line,
                                col,
                            };
                            let toks = seq![tok] + rest_toks;
                            assert(toks[toks.len() - 1] == rest_toks[rest_toks.len() - 1]);
                            assert forall|i: int| 0 <= i < toks.len() - 1 implies #[trigger] toks[i].kind
                                != eof_kind by {
                                if i > 0 {
                                    assert(toks[i] == rest_toks[i - 1]);
                                }
                            }
                        },
                        Err(_) => {},
                    }
                }
            },
        }
    }
}


/// The success half of termination: when every position of the input is
/// covered — some table entry matches there, anchored and consuming at
/// least one character — the scan reaches the end and returns Ok.
pub proof fn lemma_scan_full_coverage_succeeds<T>(
    dict: Seq<PatternView<T>>,
    text: Seq<char>,
    cursor: int,
    line: u64,
    col: u64,
    eof_kind: T,
)
    requires
        0 <= cursor <= text.len(),
        forall|p: int|
            #![trigger text.subrange(p, text.len() as int)]
            0 <= p < text.len() ==> {
                let m = first_match(dict, text.subrange(p, text.len() as int));
                &&& m is Some
                &&& m->Some_0.1 >= 1
            },
    ensures
        scan_from(dict, text, cursor, line, col, eof_kind) is Ok,
    decreases text.len() - cursor,
{
    if cursor < text.len() {
        let rest = text.subrange(cursor, text.len() as int);
        let m = first_match(dict, rest);
        assert(m is Some && m->Some_0.1 >= 1);
        let (k, l) = m->Some_0;
        lemma_first_match_found(dict, rest, 0);
        assert(anchored_match_len(dict[k].pattern, rest) == Some(l));
        assert(l <= rest.len());
        let value = text.subrange(cursor, cursor + l);
        lemma_scan_full_coverage_succeeds(
            dict,
            text,
            cursor + l,
            next_line(line, value) as u64,
            next_col(col, value) as u64,
            eof_kind,
        );
    }
}

} // verus!
