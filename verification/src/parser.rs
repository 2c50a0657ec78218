//! The rule parser: token kinds of the rule language, the syntax-error type,
//! and the cursor-based combinator layer (`consume`, `or`, `and`, `choice`,
//! `sequence`) over a scanned token stream.
//!
//! The cursor discipline is commit-on-success: `consume` is a pure lookup and
//! never moves the cursor; the other combinators advance it only when they
//! accept. `or` is a deliberate one-slot lookahead, not a rewind-and-retry:
//! the second alternative is tried at `cursor + 1`, never back at `cursor`;
//! a successful `choice` commits exactly the one token its `or` committed.
//! Both behaviors are stated exactly in the contracts below.

use vstd::prelude::*;
use vstd::string::*;
use crate::ast::{ExprView, Expression, exprs_view, lemma_exprs_view_push};
use crate::grammar::{parse_rule, skip_trivia, spec_rules, trivia_run};
use crate::scanner::{LexError, Pattern, PatternView, Scanner, Token, TokenView, lemma_scan_from_len,
    pattern_views, scan_from, token_views};

verus! {

/// The lexical categories of the rule-definition language.
#[derive(Debug, Clone, Copy, PartialEq, Eq, Structural)]
pub enum TokenType {
    InlineComment,
    Identifier,
    WS,
    NL,
    Assign,
    Var,
    Or,
    LeftParen,
    RightParen,
    Star,
    Plus,
    Question,
    EOF,
}

impl TokenType {
    /// The human-readable label of this kind, equal to its variant name.
    pub open spec fn name_spec(self) -> Seq<char> {
        match self {
            TokenType::InlineComment => "InlineComment"@,
            TokenType::Identifier => "Identifier"@,
            TokenType::WS => "WS"@,
            TokenType::NL => "NL"@,
            TokenType::Assign => "Assign"@,
            TokenType::Var => "Var"@,
            TokenType::Or => "Or"@,
            TokenType::LeftParen => "LeftParen"@,
            TokenType::RightParen => "RightParen"@,
            TokenType::Star => "Star"@,
            TokenType::Plus => "Plus"@,
            TokenType::Question => "Question"@,
            TokenType::EOF => "EOF"@,
        }
    }

    /// Renders the label of this kind.
    pub fn name(&self) -> (r: String)
        ensures
            r@ == self.name_spec(),
    {
        match self {
            TokenType::InlineComment => String::from_str("InlineComment"),
            TokenType::Identifier => String::from_str("Identifier"),
            TokenType::WS => String::from_str("WS"),
            TokenType::NL => String::from_str("NL"),
            TokenType::Assign => String::from_str("Assign"),
            TokenType::Var => String::from_str("Var"),
            TokenType::Or => String::from_str("Or"),
            TokenType::LeftParen => String::from_str("LeftParen"),
            TokenType::RightParen => String::from_str("RightParen"),
            TokenType::Star => String::from_str("Star"),
            TokenType::Plus => String::from_str("Plus"),
            TokenType::Question => String::from_str("Question"),
            TokenType::EOF => String::from_str("EOF"),
        }
    }
}

impl crate::scanner::KindLabel for TokenType {
    open spec fn label_spec(&self) -> Seq<char> {
        self.name_spec()
    }

    fn label(&self) -> (r: String) {
        self.name()
    }
}

/// The combinator that refused an option list that was too short.
#[derive(Debug, Clone, Copy, PartialEq, Eq, Structural)]
pub enum CombinatorKind {
    Choice,
    Sequence,
}

impl CombinatorKind {
    /// The combinator's name, as diagnostics spell it.
    pub open spec fn name_spec(self) -> Seq<char> {
        match self {
            CombinatorKind::Choice => "choice"@,
            CombinatorKind::Sequence => "sequence"@,
        }
    }

    /// Renders the combinator's name.
    pub fn name(&self) -> (r: String)
        ensures
            r@ == self.name_spec(),
    {
        match self {
            CombinatorKind::Choice => String::from_str("choice"),
            CombinatorKind::Sequence => String::from_str("sequence"),
        }
    }
}

/// A failure of the combinator layer or of the rule recognizer.
#[derive(Debug, PartialEq, Eq)]
pub enum ParseError {
    /// A lookup past the end of the token stream.
    UnexpectedEof,
    /// One kind was required and another was found.
    Mismatch { expected: TokenType, found: TokenType },
    /// None of an ordered list of alternatives was accepted.
    NoAlternative { expected: Vec<TokenType>, found: TokenType },
    /// An ordered list of kinds was required in sequence and broke off.
    SequenceMismatch { expected: Vec<TokenType>, found: TokenType },
    /// `choice` needs at least one option and `sequence` at least two; the
    /// field says which of the two refused.
    NotEnoughOptions { combinator: CombinatorKind },
}

/// The mathematical model of a [`ParseError`].
pub enum ParseErrorView {
    UnexpectedEof,
    Mismatch { expected: TokenType, found: TokenType },
    NoAlternative { expected: Seq<TokenType>, found: TokenType },
    SequenceMismatch { expected: Seq<TokenType>, found: TokenType },
    NotEnoughOptions { combinator: CombinatorKind },
}

impl View for ParseError {
    type V = ParseErrorView;

    open spec fn view(&self) -> ParseErrorView {
        match self {
            ParseError::UnexpectedEof => ParseErrorView::UnexpectedEof,
            ParseError::Mismatch { expected, found } => ParseErrorView::Mismatch {
                expected: *expected,
                found: *found,
            },
            ParseError::NoAlternative { expected, found } => ParseErrorView::NoAlternative {
                expected: expected@,
                found: *found,
            },
            ParseError::SequenceMismatch { expected, found } => ParseErrorView::SequenceMismatch {
                expected: expected@,
                found: *found,
            },
            ParseError::NotEnoughOptions { combinator } => ParseErrorView::NotEnoughOptions {
                combinator: *combinator,
            },
        }
    }
}

impl ParseError {
    /// The rendered diagnostic line for this error: the expected kinds by
    /// their labels (alternatives joined by `or`, sequence members by
    /// `followed by`) and the kind actually found.
    pub open spec fn message_spec(self) -> Seq<char> {
        match self {
            ParseError::UnexpectedEof => "Unexpected EOF"@,
            ParseError::Mismatch { expected, found } => "Expected "@ + expected.name_spec()
                + ", got "@ + found.name_spec(),
            ParseError::NoAlternative { expected, found } => "Expecting: "@ + joined_labels(
                expected@,
                " or "@,
            ) + ", found: "@ + found.name_spec(),
            ParseError::SequenceMismatch { expected, found } => "Expecting: "@ + joined_labels(
                expected@,
                " followed by "@,
            ) + ", found: "@ + found.name_spec(),
            ParseError::NotEnoughOptions { combinator } => "ParserError ["@
                + combinator.name_spec() + "]: Not enough options"@,
        }
    }

    /// Renders the error, exactly as [`ParseError::message_spec`] says.
    pub fn message(&self) -> (r: String)
        ensures
            r@ == self.message_spec(),
    {
        match self {
            ParseError::UnexpectedEof => String::from_str("Unexpected EOF"),
            ParseError::Mismatch { expected, found } => {
                let mut s = String::from_str("Expected ");
                let e = expected.name();
                s.append(e.as_str());
                s.append(", got ");
                let f = found.name();
                s.append(f.as_str());
                proof {
                    assert(s@ =~= self.message_spec());
                }
                s
            },
            ParseError::NoAlternative { expected, found } => {
                let mut s = String::from_str("Expecting: ");
                let e = join_labels(expected, " or ");
                s.append(e.as_str());
                s.append(", found: ");
                let f = found.name();
                s.append(f.as_str());
                proof {
                    assert(s@ =~= self.message_spec());
                }
                s
            },
            ParseError::SequenceMismatch { expected, found } => {
                let mut s = String::from_str("Expecting: ");
                let e = join_labels(expected, " followed by ");
                s.append(e.as_str());
                s.append(", found: ");
                let f = found.name();
                s.append(f.as_str());
                proof {
                    assert(s@ =~= self.message_spec());
                }
                s
            },
            ParseError::NotEnoughOptions { combinator } => {
                let mut s = String::from_str("ParserError [");
                let n = combinator.name();
                s.append(n.as_str());
                s.append("]: Not enough options");
                proof {
                    assert(s@ =~= self.message_spec());
                }
                s
            },
        }
    }
}

/// The labels of `ks` joined by `sep`.
pub open spec fn joined_labels(ks: Seq<TokenType>, sep: Seq<char>) -> Seq<char>
    decreases ks.len(),
{
    if ks.len() == 0 {
        Seq::empty()
    } else if ks.len() == 1 {
        ks[0].name_spec()
    } else {
        ks[0].name_spec() + sep + joined_labels(ks.subrange(1, ks.len() as int), sep)
    }
}

/// Renders the labels of `ks` joined by `sep`.
pub fn join_labels(ks: &Vec<TokenType>, sep: &str) -> (r: String)
    ensures
        r@ == joined_labels(ks@, sep@),
{
    let mut s = String::new();
    let n = ks.len();
    let mut i: usize = 0;
    while i < n
        invariant
            i <= n,
            n == ks@.len(),
            joined_labels(ks@, sep@) == if i == 0 {
                joined_labels(ks@, sep@)
            } else if i < n {
                s@ + sep@ + joined_labels(ks@.subrange(i as int, n as int), sep@)
            } else {
                s@
            },
            i == 0 ==> s@ == Seq::<char>::empty(),
        decreases n - i,
    {
        let ghost pre = s@;
        let ghost rem = ks@.subrange(i as int, n as int);
        proof {
            assert(rem[0] == ks@[i as int]);
            assert(rem.subrange(1, rem.len() as int) =~= ks@.subrange(i + 1, n as int));
            if i == 0 {
                assert(rem =~= ks@);
            }
        }
        if i > 0 {
            s.append(sep);
        }
        let label = ks[i].name();
        s.append(label.as_str());
        proof {
            let tail = joined_labels(ks@.subrange(i + 1, n as int), sep@);
            if i == 0 {
                assert(s@ =~= ks@[0].name_spec());
                if i + 1 < n {
                    assert(joined_labels(ks@, sep@) == ks@[0].name_spec() + sep@ + tail);
                    assert(ks@[0].name_spec() + sep@ + tail =~= s@ + sep@ + tail);
                }
            } else {
                assert(s@ =~= pre + sep@ + ks@[i as int].name_spec());
                if i + 1 < n {
                    assert(joined_labels(rem, sep@) == ks@[i as int].name_spec() + sep@ + tail);
                    assert(pre + sep@ + (ks@[i as int].name_spec() + sep@ + tail) =~= s@ + sep@
                        + tail);
                } else {
                    assert(joined_labels(rem, sep@) == ks@[i as int].name_spec());
                    assert(pre + sep@ + ks@[i as int].name_spec() =~= s@);
                }
            }
        }
        i = i + 1;
    }
    s
}

/// The kind found at `c`, with the end of the stream reported as `EOF`.
pub open spec fn found_kind(toks: Seq<TokenView<TokenType>>, c: int) -> TokenType {
    if 0 <= c < toks.len() {
        toks[c].kind
    } else {
        TokenType::EOF
    }
}

/// What `consume` returns: the token at `c` when its kind is `kind`, and the
/// exact error otherwise. It never touches the cursor.
pub open spec fn spec_consume(
    kind: TokenType,
    toks: Seq<TokenView<TokenType>>,
    c: int,
) -> Result<TokenView<TokenType>, ParseErrorView> {
    if c < 0 || c >= toks.len() {
        Err(ParseErrorView::UnexpectedEof)
    } else if toks[c].kind == kind {
        Ok(toks[c])
    } else {
        Err(ParseErrorView::Mismatch { expected: kind, found: toks[c].kind })
    }
}

/// What `or` returns and where it leaves the cursor: kind `a` is tried at
/// `c`; on failure kind `b` is tried one slot further, at `c + 1`. Either
/// success commits the cursor to `c + 1`; failure of both leaves it at `c`
/// and propagates the second failure.
pub open spec fn spec_or(
    toks: Seq<TokenView<TokenType>>,
    c: int,
    a: TokenType,
    b: TokenType,
) -> (Result<TokenView<TokenType>, ParseErrorView>, int) {
    match spec_consume(a, toks, c) {
        Ok(t) => (Ok(t), c + 1),
        Err(_) => match spec_consume(b, toks, c + 1) {
            Ok(t) => (Ok(t), c + 1),
            Err(e) => (Err(e), c),
        },
    }
}

/// What `and` returns and where it leaves the cursor: kind `a` at `c` and
/// kind `b` at `c + 1` must both be present, after which the cursor stands at
/// `c + 2`; any failure leaves it at `c`.
pub open spec fn spec_and(
    toks: Seq<TokenView<TokenType>>,
    c: int,
    a: TokenType,
    b: TokenType,
) -> (Result<(TokenView<TokenType>, TokenView<TokenType>), ParseErrorView>, int) {
    match spec_consume(a, toks, c) {
        Err(e) => (Err(e), c),
        Ok(ta) => match spec_consume(b, toks, c + 1) {
            Err(e) => (Err(e), c),
            Ok(tb) => (Ok((ta, tb)), c + 2),
        },
    }
}

/// The sliding pairwise window of `choice`, from window position `i`: the
/// first adjacent pair whose `or` accepts decides, and the cursor stays
/// where that `or` committed it, one slot along; exhausting the windows
/// fails with every candidate named.
pub open spec fn spec_choice_from(
    toks: Seq<TokenView<TokenType>>,
    c: int,
    opts: Seq<TokenType>,
    i: int,
) -> (Result<TokenView<TokenType>, ParseErrorView>, int)
    decreases opts.len() - i,
{
    if i < 0 || i + 1 >= opts.len() {
        (Err(ParseErrorView::NoAlternative { expected: opts, found: found_kind(toks, c) }), c)
    } else {
        let (r, c2) = spec_or(toks, c, opts[i], opts[i + 1]);
        match r {
            Ok(t) => (Ok(t), c2),
            Err(_) => spec_choice_from(toks, c, opts, i + 1),
        }
    }
}

/// What `choice` returns and where it leaves the cursor. An empty option
/// list is refused; a single option is a direct `consume`, which does not
/// commit; two or more options go through the pairwise window.
pub open spec fn spec_choice(
    toks: Seq<TokenView<TokenType>>,
    c: int,
    opts: Seq<TokenType>,
) -> (Result<TokenView<TokenType>, ParseErrorView>, int) {
    if opts.len() == 0 {
        (Err(ParseErrorView::NotEnoughOptions { combinator: CombinatorKind::Choice }), c)
    } else if opts.len() == 1 {
        (spec_consume(opts[0], toks, c), c)
    } else {
        spec_choice_from(toks, c, opts, 0)
    }
}

/// The token that a failing pair of `sequence` reports: the one at the first
/// position whose kind broke the chain.
pub open spec fn seq_found(toks: Seq<TokenView<TokenType>>, p: int, a: TokenType) -> TokenType {
    if spec_consume(a, toks, p) is Err {
        found_kind(toks, p)
    } else {
        found_kind(toks, p + 1)
    }
}

/// The sliding pairwise window of `sequence`: every adjacent pair of kinds
/// must be accepted by `and` at overlapping positions `c + i`, so that a
/// list of `n` kinds consumes exactly the `n` tokens at `c .. c + n`. The
/// accumulated result holds each matched token once, in order.
pub open spec fn spec_sequence_from(
    toks: Seq<TokenView<TokenType>>,
    c: int,
    opts: Seq<TokenType>,
    i: int,
    acc: Seq<TokenView<TokenType>>,
) -> (Result<Seq<TokenView<TokenType>>, ParseErrorView>, int)
    decreases opts.len() - i,
{
    if i < 0 || i + 1 >= opts.len() {
        (Ok(acc), c + opts.len())
    } else {
        let (r, _) = spec_and(toks, c + i, opts[i], opts[i + 1]);
        match r {
            Ok((ta, tb)) => spec_sequence_from(
                toks,
                c,
                opts,
                i + 1,
                if i == 0 {
                    seq![ta, tb]
                } else {
                    acc.push(tb)
                },
            ),
            Err(_) => (
                Err(
                    ParseErrorView::SequenceMismatch {
                        expected: opts,
                        found: seq_found(toks, c + i, opts[i]),
                    },
                ),
                c,
            ),
        }
    }
}

/// What `sequence` returns and where it leaves the cursor: fewer than two
/// kinds are refused; otherwise all kinds must occur in order, the matched
/// tokens come back in order, and the cursor stands right after them.
pub open spec fn spec_sequence(
    toks: Seq<TokenView<TokenType>>,
    c: int,
    opts: Seq<TokenType>,
) -> (Result<Seq<TokenView<TokenType>>, ParseErrorView>, int) {
    if opts.len() < 2 {
        (Err(ParseErrorView::NotEnoughOptions { combinator: CombinatorKind::Sequence }), c)
    } else {
        spec_sequence_from(toks, c, opts, 0, Seq::empty())
    }
}

/// The pattern table of the rule language, in matching priority order. Every
/// kind appears exactly once; the end-of-input pattern matches only at the
/// exact end of the input.
pub open spec fn grammar_table() -> Seq<PatternView<TokenType>> {
    seq![
        PatternView {
            kind: TokenType::InlineComment,
            pattern: "^//.*"@,
            label: TokenType::InlineComment.name_spec(),
        },
        PatternView {
            kind: TokenType::Identifier,
            pattern: "^[a-z-A-Z_][a-zA-Z0-9_-]*"@,
            label: TokenType::Identifier.name_spec(),
        },
        PatternView { kind: TokenType::WS, pattern: "^[\\t ]+"@, label: TokenType::WS.name_spec() },
        PatternView {
            kind: TokenType::NL,
            pattern: "^(?:\\n|\\n\\r)+"@,
            label: TokenType::NL.name_spec(),
        },
        PatternView {
            kind: TokenType::Assign,
            pattern: "^:="@,
            label: TokenType::Assign.name_spec(),
        },
        PatternView {
            kind: TokenType::Var,
            pattern: "^\\$[a-z-A-Z][a-zA-Z0-9_-]*"@,
            label: TokenType::Var.name_spec(),
        },
        PatternView { kind: TokenType::Or, pattern: "^\\|"@, label: TokenType::Or.name_spec() },
        PatternView {
            kind: TokenType::LeftParen,
            pattern: "^\\("@,
            label: TokenType::LeftParen.name_spec(),
        },
        PatternView {
            kind: TokenType::RightParen,
            pattern: "^\\)"@,
            label: TokenType::RightParen.name_spec(),
        },
        PatternView { kind: TokenType::Star, pattern: "^\\*"@, label: TokenType::Star.name_spec() },
        PatternView { kind: TokenType::Plus, pattern: "^\\+"@, label: TokenType::Plus.name_spec() },
        PatternView {
            kind: TokenType::Question,
            pattern: "^\\?"@,
            label: TokenType::Question.name_spec(),
        },
        PatternView { kind: TokenType::EOF, pattern: "^\\z"@, label: TokenType::EOF.name_spec() },
    ]
}


/// Where a kind stands in [`grammar_table`].
pub open spec fn grammar_table_index(k: TokenType) -> int {
    match k {
        TokenType::InlineComment => 0,
        TokenType::Identifier => 1,
        TokenType::WS => 2,
        TokenType::NL => 3,
        TokenType::Assign => 4,
        TokenType::Var => 5,
        TokenType::Or => 6,
        TokenType::LeftParen => 7,
        TokenType::RightParen => 8,
        TokenType::Star => 9,
        TokenType::Plus => 10,
        TokenType::Question => 11,
        TokenType::EOF => 12,
    }
}

/// The pattern-table invariant: every token kind of the rule language
/// appears in [`grammar_table`] exactly once — at its index, and nowhere
/// else.
pub proof fn lemma_grammar_table_each_kind_once()
    ensures
        forall|k: TokenType|
            {
                let i = #[trigger] grammar_table_index(k);
                &&& 0 <= i < grammar_table().len()
                &&& grammar_table()[i].kind == k
            },
        forall|i: int|
            0 <= i < grammar_table().len() ==> grammar_table_index(
                #[trigger] grammar_table()[i].kind,
            ) == i,
{
    assert(grammar_table()[0].kind == TokenType::InlineComment);
    assert(grammar_table()[1].kind == TokenType::Identifier);
    assert(grammar_table()[2].kind == TokenType::WS);
    assert(grammar_table()[3].kind == TokenType::NL);
    assert(grammar_table()[4].kind == TokenType::Assign);
    assert(grammar_table()[5].kind == TokenType::Var);
    assert(grammar_table()[6].kind == TokenType::Or);
    assert(grammar_table()[7].kind == TokenType::LeftParen);
    assert(grammar_table()[8].kind == TokenType::RightParen);
    assert(grammar_table()[9].kind == TokenType::Star);
    assert(grammar_table()[10].kind == TokenType::Plus);
    assert(grammar_table()[11].kind == TokenType::Question);
    assert(grammar_table()[12].kind == TokenType::EOF);
}

/// Builds the pattern table of the rule language, exactly as
/// [`grammar_table`] lists it.
pub fn grammar_dictionary() -> (r: Vec<Pattern<TokenType>>)
    ensures
        pattern_views(r@) == grammar_table(),
{
    let mut v: Vec<Pattern<TokenType>> = Vec::new();
    v.push(Pattern {
        kind: TokenType::InlineComment,
        pattern: String::from_str("^//.*"),
        label: TokenType::InlineComment.name(),
    });
    v.push(Pattern {
        kind: TokenType::Identifier,
        pattern: String::from_str("^[a-z-A-Z_][a-zA-Z0-9_-]*"),
        label: TokenType::Identifier.name(),
    });
    v.push(Pattern {
        kind: TokenType::WS,
        pattern: String::from_str("^[\\t ]+"),
        label: TokenType::WS.name(),
    });
    v.push(Pattern {
        kind: TokenType::NL,
        pattern: String::from_str("^(?:\\n|\\n\\r)+"),
        label: TokenType::NL.name(),
    });
    v.push(Pattern {
        kind: TokenType::Assign,
        pattern: String::from_str("^:="),
        label: TokenType::Assign.name(),
    });
    v.push(Pattern {
        kind: TokenType::Var,
        pattern: String::from_str("^\\$[a-z-A-Z][a-zA-Z0-9_-]*"),
        label: TokenType::Var.name(),
    });
    v.push(Pattern {
        kind: TokenType::Or,
        pattern: String::from_str("^\\|"),
        label: TokenType::Or.name(),
    });
    v.push(Pattern {
        kind: TokenType::LeftParen,
        pattern: String::from_str("^\\("),
        label: TokenType::LeftParen.name(),
    });
    v.push(Pattern {
        kind: TokenType::RightParen,
        pattern: String::from_str("^\\)"),
        label: TokenType::RightParen.name(),
    });
    v.push(Pattern {
        kind: TokenType::Star,
        pattern: String::from_str("^\\*"),
        label: TokenType::Star.name(),
    });
    v.push(Pattern {
        kind: TokenType::Plus,
        pattern: String::from_str("^\\+"),
        label: TokenType::Plus.name(),
    });
    v.push(Pattern {
        kind: TokenType::Question,
        pattern: String::from_str("^\\?"),
        label: TokenType::Question.name(),
    });
    v.push(Pattern {
        kind: TokenType::EOF,
        pattern: String::from_str("^\\z"),
        label: TokenType::EOF.name(),
    });
    proof {
        assert(pattern_views(v@) =~= grammar_table());
    }
    v
}

/// The rule parser: one scanner configured for the rule language, the token
/// stream it produced, and the cursor of the combinator layer.
#[derive(Debug)]
pub struct Parser {
    scanner: Scanner<TokenType>,
    internal_tokens: Vec<Token<TokenType>>,
    cursor: usize,
}

impl Parser {
    /// The scanned token stream, as token models.
    pub closed spec fn toks(&self) -> Seq<TokenView<TokenType>> {
        token_views(self.internal_tokens@)
    }

    /// The cursor of the combinator layer.
    pub closed spec fn cur(&self) -> int {
        self.cursor as int
    }

    /// The parser's invariant: the cursor never leaves the stream
    /// (`0 <= cursor <= len`), and the stream is short enough for the
    /// cursor arithmetic.
    pub open spec fn wf(&self) -> bool {
        0 <= self.cur() <= self.toks().len() && self.toks().len() < usize::MAX - 1
    }

    /// Builds the rule parser for `rules`: configures a scanner with the
    /// rule-language pattern table, runs it once over the whole input, and
    /// places the cursor at the start of the token stream. A lexical error
    /// in the input is handed back unchanged.
    pub fn new(rules: String) -> (r: Result<Parser, LexError>)
        requires
            rules@.len() + 2 < usize::MAX,
            rules@.len() + 1 < u64::MAX,
        ensures
            match r {
                Ok(p) => p.wf() && p.cur() == 0 && scan_from(
                    grammar_table(),
                    rules@,
                    0,
                    1u64,
                    1u64,
                    TokenType::EOF,
                ) == Ok::<_, LexError>(p.toks()),
                Err(e) => scan_from(grammar_table(), rules@, 0, 1u64, 1u64, TokenType::EOF)
                    == Err::<Seq<TokenView<TokenType>>, _>(e),
            },
    {
        let map = grammar_dictionary();
        let scanner = Scanner::new(map);
        proof {
            lemma_scan_from_len(grammar_table(), rules@, 0, 1u64, 1u64, TokenType::EOF);
        }
        let tokens = scanner.scan(rules, TokenType::EOF);
        match tokens {
            Ok(tokens) => Ok(Parser { scanner, internal_tokens: tokens, cursor: 0 }),
            Err(err) => Err(err),
        }
    }

    /// Parses every rule in the stream: skips trivia between rules, reads one
    /// `identifier := body` per iteration, and stops at the end-of-input
    /// token. The result is exactly what [`spec_rules`] says it is, one
    /// expression tree per rule.
    pub fn parse(&mut self) -> (r: Result<Vec<Expression>, ParseError>)
        requires
            old(self).wf(),
        ensures
            final(self).wf(),
            final(self).toks() == old(self).toks(),
            match r {
                Ok(es) => spec_rules(old(self).toks(), old(self).cur(), Seq::empty())
                    == Ok::<_, ParseErrorView>((exprs_view(es@), final(self).cur())),
                Err(e) => spec_rules(old(self).toks(), old(self).cur(), Seq::empty())
                    == Err::<(Seq<ExprView>, int), _>(e@),
            },
    {
        let ghost t = self.toks();
        let mut rules: Vec<Expression> = Vec::new();
        loop
            invariant
                self.wf(),
                t == self.toks(),
                t == old(self).toks(),
                spec_rules(t, old(self).cur(), Seq::empty()) == spec_rules(
                    t,
                    self.cur(),
                    exprs_view(rules@),
                ),
            ensures
                self.wf(),
                t == self.toks(),
                spec_rules(t, old(self).cur(), Seq::empty()) == Ok::<_, ParseErrorView>(
                    (exprs_view(rules@), self.cur()),
                ),
            decreases self.toks().len() + 1 - self.cur(),
        {
            let ghost pre = self.cur();
            let c0 = skip_trivia(&self.internal_tokens, self.cursor);
            self.cursor = c0;
            proof {
                assert(trivia_run(t, c0 as int) == 0);
                assert(spec_rules(t, pre, exprs_view(rules@)) == spec_rules(
                    t,
                    c0 as int,
                    exprs_view(rules@),
                ));
            }
            if c0 >= self.internal_tokens.len() {
                break;
            }
            assert(t[c0 as int] == self.internal_tokens@[c0 as int]@);
            if self.internal_tokens[c0].token_type == TokenType::EOF {
                break;
            }
            match parse_rule(&self.internal_tokens, c0) {
                Err(e) => {
                    return Err(e);
                },
                Ok((e, c1)) => {
                    let ghost prev = rules@;
                    let ghost eg = e;
                    rules.push(e);
                    proof {
                        lemma_exprs_view_push(prev, eg);
                    }
                    self.cursor = c1;
                },
            }
        }
        Ok(rules)
    }

    /// Reads one terminal at the cursor through `choice([Var, Identifier])`
    /// and wraps the accepted token as a `Val` leaf; the cursor moves exactly
    /// as that `choice` moves it.
    pub fn parse_terminal(&mut self) -> (r: Result<Expression, ParseError>)
        requires
            old(self).wf(),
        ensures
            final(self).wf(),
            final(self).toks() == old(self).toks(),
            ({
                let (sr, sc) = spec_choice(
                    old(self).toks(),
                    old(self).cur(),
                    seq![TokenType::Var, TokenType::Identifier],
                );
                &&& final(self).cur() == sc
                &&& match r {
                    Ok(e) => sr matches Ok(tv) && e@ == ExprView::Val(tv),
                    Err(er) => sr == Err::<TokenView<TokenType>, _>(er@),
                }
            }),
    {
        let ghost toksv = old(self).toks();
        let ghost c = old(self).cur();
        let ghost o: Seq<TokenType> = seq![TokenType::Var, TokenType::Identifier];
        let mut opts: Vec<TokenType> = Vec::new();
        opts.push(TokenType::Var);
        opts.push(TokenType::Identifier);
        assert(opts@ =~= o);
        let token = self.choice(opts);
        match token {
            Err(e) => Err(e),
            Ok(token) => {
                proof {
                    assert(spec_choice_from(toksv, c, o, 1).0 is Err);
                    assert(spec_choice(toksv, c, o).0 == spec_or(toksv, c, o[0], o[1]).0);
                    assert(token@.kind is Var || token@.kind is Identifier);
                }
                match token.token_type {
                    TokenType::Identifier => Ok(Expression::Val(token)),
                    TokenType::Var => Ok(Expression::Val(token)),
                    _ => {
                        proof {
                            assert(false);
                        }
                        Err(ParseError::UnexpectedEof)
                    },
                }
            },
        }
    }

    /// Pure lookup: the token at `cursor` when it has kind `token_type`, the
    /// exact mismatch otherwise, and an end-of-input error past the end. The
    /// cursor is not touched; committing is the caller's business.
    pub fn consume(
        token_type: TokenType,
        tokens: &Vec<Token<TokenType>>,
        cursor: usize,
    ) -> (r: Result<Token<TokenType>, ParseError>)
        ensures
            match r {
                Ok(t) => spec_consume(token_type, token_views(tokens@), cursor as int)
                    == Ok::<_, ParseErrorView>(t@),
                Err(e) => spec_consume(token_type, token_views(tokens@), cursor as int)
                    == Err::<TokenView<TokenType>, _>(e@),
            },
    {
        if cursor >= tokens.len() {
            return Err(ParseError::UnexpectedEof);
        }
        assert(token_views(tokens@)[cursor as int] == tokens@[cursor as int]@);
        let token = &tokens[cursor];
        if token.token_type == token_type {
            Ok(token.clone())
        } else {
            Err(ParseError::Mismatch { expected: token_type, found: token.token_type })
        }
    }

    /// Binary ordered choice with the fixed one-slot lookahead: `a` at the
    /// cursor, else `b` at `cursor + 1`; a success commits the cursor by
    /// exactly one, a double failure leaves it alone.
    pub fn or(&mut self, a: TokenType, b: TokenType) -> (r: Result<Token<TokenType>, ParseError>)
        requires
            old(self).wf(),
        ensures
            final(self).wf(),
            final(self).toks() == old(self).toks(),
            ({
                let (sr, sc) = spec_or(old(self).toks(), old(self).cur(), a, b);
                &&& final(self).cur() == sc
                &&& match r {
                    Ok(t) => sr == Ok::<_, ParseErrorView>(t@),
                    Err(e) => sr == Err::<TokenView<TokenType>, _>(e@),
                }
            }),
    {
        let token_a = Self::consume(a, &self.internal_tokens, self.cursor);
        if token_a.is_ok() {
            self.cursor = self.cursor + 1;
            return token_a;
        }
        if self.cursor >= self.internal_tokens.len() {
            return Err(ParseError::UnexpectedEof);
        }
        let token_b = Self::consume(b, &self.internal_tokens, self.cursor + 1);
        if token_b.is_ok() {
            self.cursor = self.cursor + 1;
        }
        token_b
    }

    /// Strict pairing: `a` at the cursor then `b` right after it; both must
    /// be present, the cursor advances by exactly two, and any failure
    /// aborts with no partial commit.
    pub fn and(&mut self, a: TokenType, b: TokenType) -> (r: Result<
        (Token<TokenType>, Token<TokenType>),
        ParseError,
    >)
        requires
            old(self).wf(),
        ensures
            final(self).wf(),
            final(self).toks() == old(self).toks(),
            ({
                let (sr, sc) = spec_and(old(self).toks(), old(self).cur(), a, b);
                &&& final(self).cur() == sc
                &&& match r {
                    Ok(ts) => sr == Ok::<_, ParseErrorView>((ts.0@, ts.1@)),
                    Err(e) => sr == Err::<(TokenView<TokenType>, TokenView<TokenType>), _>(e@),
                }
            }),
    {
        let token_a = Self::consume(a, &self.internal_tokens, self.cursor);
        match token_a {
            Err(e) => Err(e),
            Ok(ta) => {
                let token_b = Self::consume(b, &self.internal_tokens, self.cursor + 1);
                match token_b {
                    Err(e) => Err(e),
                    Ok(tb) => {
                        self.cursor = self.cursor + 2;
                        Ok((ta, tb))
                    },
                }
            },
        }
    }

    /// Ordered choice over a list of kinds, via the sliding pairwise window
    /// of `or`. The first window that accepts decides, and the cursor stays
    /// where its `or` committed it — one token in total; if every window
    /// fails, the error names every candidate label and the kind actually
    /// found, and the cursor stays put.
    pub fn choice(&mut self, opts: Vec<TokenType>) -> (r: Result<Token<TokenType>, ParseError>)
        requires
            old(self).wf(),
        ensures
            final(self).wf(),
            final(self).toks() == old(self).toks(),
            ({
                let (sr, sc) = spec_choice(old(self).toks(), old(self).cur(), opts@);
                &&& final(self).cur() == sc
                &&& match r {
                    Ok(t) => sr == Ok::<_, ParseErrorView>(t@),
                    Err(e) => sr == Err::<TokenView<TokenType>, _>(e@),
                }
            }),
    {
        if opts.len() < 1 {
            return Err(ParseError::NotEnoughOptions { combinator: CombinatorKind::Choice });
        }
        if opts.len() == 1 {
            return Self::consume(opts[0], &self.internal_tokens, self.cursor);
        }
        let mut i: usize = 0;
        while i + 1 < opts.len()
            invariant
                old(self).wf(),
                self.wf(),
                i + 1 <= opts.len(),
                opts.len() >= 2,
                self.toks() == old(self).toks(),
                self.cur() == old(self).cur(),
                spec_choice_from(self.toks(), self.cur(), opts@, 0) == spec_choice_from(
                    self.toks(),
                    self.cur(),
                    opts@,
                    i as int,
                ),
            decreases opts.len() - i,
        {
            let t_a = opts[i];
            let t_b = opts[i + 1];
            let r = self.or(t_a, t_b);
            match r {
                Ok(token) => {
                    return Ok(token);
                },
                Err(_) => {
                    i = i + 1;
                },
            }
        }
        let found = if self.cursor < self.internal_tokens.len() {
            assert(token_views(self.internal_tokens@)[self.cursor as int]
                == self.internal_tokens@[self.cursor as int]@);
            self.internal_tokens[self.cursor].token_type
        } else {
            TokenType::EOF
        };
        Err(ParseError::NoAlternative { expected: opts, found })
    }

    /// Strict sequencing over a list of kinds, via the sliding pairwise
    /// window of `and` at overlapping positions: a list of `n` kinds must
    /// match the `n` tokens at the cursor, which then advances by exactly
    /// `n`; the first break aborts with every expected label named and the
    /// cursor restored.
    pub fn sequence(&mut self, opts: Vec<TokenType>) -> (r: Result<
        Vec<Token<TokenType>>,
        ParseError,
    >)
        requires
            old(self).wf(),
        ensures
            final(self).wf(),
            final(self).toks() == old(self).toks(),
            ({
                let (sr, sc) = spec_sequence(old(self).toks(), old(self).cur(), opts@);
                &&& final(self).cur() == sc
                &&& match r {
                    Ok(ts) => sr == Ok::<_, ParseErrorView>(token_views(ts@)),
                    Err(e) => sr == Err::<Seq<TokenView<TokenType>>, _>(e@),
                }
            }),
    {
        let mut tokens: Vec<Token<TokenType>> = Vec::new();
        if opts.len() < 2 {
            return Err(ParseError::NotEnoughOptions { combinator: CombinatorKind::Sequence });
        }
        let c = self.cursor;
        let mut i: usize = 0;
        while i + 1 < opts.len()
            invariant
                old(self).wf(),
                self.wf(),
                i + 1 <= opts.len(),
                opts.len() >= 2,
                self.toks() == old(self).toks(),
                c == old(self).cursor,
                i == 0 ==> tokens@.len() == 0,
                i > 0 ==> c + i <= self.toks().len(),
                self.cur() == if i == 0 {
                    c as int
                } else {
                    c + i + 1
                },
                spec_sequence_from(self.toks(), c as int, opts@, 0, Seq::empty())
                    == spec_sequence_from(self.toks(), c as int, opts@, i as int, token_views(tokens@)),
            decreases opts.len() - i,
        {
            self.cursor = c + i;
            let r = self.and(opts[i], opts[i + 1]);
            match r {
                Ok((ta, tb)) => {
                    let ghost prev = tokens@;
                    let ghost ta_v = ta@;
                    let ghost tb_v = tb@;
                    if i == 0 {
                        tokens.push(ta);
                        tokens.push(tb);
                        proof {
                            assert(token_views(tokens@) =~= seq![ta_v, tb_v]);
                        }
                    } else {
                        tokens.push(tb);
                        proof {
                            assert(token_views(tokens@) =~= token_views(prev).push(tb_v));
                        }
                    }
                    i = i + 1;
                },
                Err(_) => {
                    self.cursor = c;
                    let p = c + i;
                    let found = if p >= self.internal_tokens.len() {
                        TokenType::EOF
                    } else if self.internal_tokens[p].token_type == opts[i] {
                        if p + 1 >= self.internal_tokens.len() {
                            TokenType::EOF
                        } else {
                            assert(token_views(self.internal_tokens@)[p + 1]
                                == self.internal_tokens@[p + 1]@);
                            self.internal_tokens[p + 1].token_type
                        }
                    } else {
                        assert(token_views(self.internal_tokens@)[p as int]
                            == self.internal_tokens@[p as int]@);
                        self.internal_tokens[p].token_type
                    };
                    return Err(ParseError::SequenceMismatch { expected: opts, found });
                },
            }
        }
        Ok(tokens)
    }

    /// Whether the cursor has reached (or passed) the end of the stream.
    pub fn is_eof(&self) -> (r: bool)
        ensures
            r == (self.cur() >= self.toks().len()),
    {
        self.cursor >= self.internal_tokens.len()
    }

    /// The token under the cursor, if the cursor is within the stream.
    pub fn current(&self) -> (r: Option<&Token<TokenType>>)
        ensures
            match r {
                Some(t) => self.cur() < self.toks().len() && t@ == self.toks()[self.cur()],
                None => self.cur() >= self.toks().len(),
            },
    {
        if self.cursor < self.internal_tokens.len() {
            assert(token_views(self.internal_tokens@)[self.cursor as int]
                == self.internal_tokens@[self.cursor as int]@);
            Some(&self.internal_tokens[self.cursor])
        } else {
            None
        }
    }

    /// The display label of a token kind.
    pub fn find_token_label(&self, t_type: &TokenType) -> (r: String)
        ensures
            r@ == t_type.name_spec(),
    {
        t_type.name()
    }
}

} // verus!
