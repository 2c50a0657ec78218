//! Pattern-driven tokenizer, generic over the set of token kinds.
//!
//! A [`Scanner`] owns an ordered dictionary of [`Pattern`]s. [`Scanner::scan`]
//! walks the input text: at each position it tries the dictionary entries in
//! order, takes the first whose pattern matches at that exact position, emits
//! a [`Token`] carrying the matched text and the current line and column, and
//! advances. Matching is first-match, not longest-match.

use vstd::prelude::*;
use vstd::string::*;
use crate::matching::{anchored_len, anchored_match_len};
use crate::textops::{dec_digits, push_char, u64_string};

verus! {

/// A token kind that can say its own display label, the single source of
/// truth for the names that errors and renderings use.
pub trait KindLabel: Sized {
    /// The label, as a character sequence.
    spec fn label_spec(&self) -> Seq<char>;

    /// Renders the label.
    fn label(&self) -> (r: String)
        ensures
            r@ == self.label_spec(),
    ;
}

/// The escaped one- or two-character rendering of `c`: control characters
/// that would garble a diagnostic line are written with a backslash.
pub open spec fn safe_char_spec(c: char) -> Seq<char> {
    if c == '\0' {
        seq!['\\', '0']
    } else if c == '\n' {
        seq!['\\', 'n']
    } else if c == '\t' {
        seq!['\\', 't']
    } else if c == '\r' {
        seq!['\\', 'r']
    } else {
        seq![c]
    }
}

/// Renders `c` with control characters escaped, as [`safe_char_spec`] says.
pub fn safe_char(c: char) -> (r: String)
    ensures
        r@ == safe_char_spec(c),
{
    proof {
        reveal_strlit("\\0");
        reveal_strlit("\\n");
        reveal_strlit("\\t");
        reveal_strlit("\\r");
    }
    match c {
        '\0' => String::from_str("\\0"),
        '\n' => String::from_str("\\n"),
        '\t' => String::from_str("\\t"),
        '\r' => String::from_str("\\r"),
        _ => {
            let mut s = String::new();
            push_char(&mut s, c);
            proof {
                assert(s@ =~= seq![c]);
            }
            s
        },
    }
}

/// One lexical unit: its kind, the exact matched text (empty if the match
/// spanned a line break), and the 1-based line and column where it began.
#[derive(Debug, PartialEq, Eq)]
pub struct Token<T> {
    pub token_type: T,
    pub value: String,
    pub line: u64,
    pub col: u64,
}

/// The mathematical model of a [`Token`]: the same fields with the text as a
/// sequence of characters.
pub struct TokenView<T> {
    pub kind: T,
    pub value: Seq<char>,
    pub line: u64,
    pub col: u64,
}

impl<T> View for Token<T> {
    type V = TokenView<T>;

    open spec fn view(&self) -> TokenView<T> {
        TokenView { kind: self.token_type, value: self.value@, line: self.line, col: self.col }
    }
}

impl<T: Copy> Clone for Token<T> {
    fn clone(&self) -> (res: Self)
        ensures
            res == *self,
    {
        Token {
            token_type: self.token_type,
            value: self.value.clone(),
            line: self.line,
            col: self.col,
        }
    }
}

impl<T: KindLabel + Copy> Token<T> {
    /// Renders the token as `<kind label> <text> - <line>:<column>`.
    pub fn to_string(&self) -> (r: String)
        ensures
            r@ == self.token_type.label_spec() + " "@ + self.value@ + " - "@ + dec_digits(
                self.line as nat,
            ) + ":"@ + dec_digits(self.col as nat),
    {
        let mut s = self.token_type.label();
        s.append(" ");
        s.append(self.value.as_str());
        s.append(" - ");
        let ls = u64_string(self.line);
        s.append(ls.as_str());
        s.append(":");
        let cs = u64_string(self.col);
        s.append(cs.as_str());
        proof {
            assert(s@ =~= self.token_type.label_spec() + " "@ + self.value@ + " - "@ + dec_digits(
                self.line as nat,
            ) + ":"@ + dec_digits(self.col as nat));
        }
        s
    }
}

/// One dictionary entry: a token kind, the pattern that recognizes it, and a
/// human-readable label for error messages.
#[derive(Debug)]
pub struct Pattern<T> {
    pub kind: T,
    pub pattern: String,
    pub label: String,
}

/// The mathematical model of a [`Pattern`].
pub struct PatternView<T> {
    pub kind: T,
    pub pattern: Seq<char>,
    pub label: Seq<char>,
}

impl<T> View for Pattern<T> {
    type V = PatternView<T>;

    open spec fn view(&self) -> PatternView<T> {
        PatternView { kind: self.kind, pattern: self.pattern@, label: self.label@ }
    }
}

/// A failure of [`Scanner::scan`].
#[derive(Debug, Clone, Copy, PartialEq, Eq, Structural)]
pub enum LexError {
    /// No dictionary entry matched at this position; `ch` is the offending
    /// character.
    UnexpectedChar { ch: char, line: u64, col: u64 },
    /// A dictionary entry matched the empty string, so scanning could not
    /// advance. Pattern tables must guarantee progress; this reports the
    /// configuration error instead of looping forever.
    EmptyMatch { line: u64, col: u64 },
}

impl LexError {
    /// The rendered diagnostic line for this error.
    pub open spec fn message_spec(self) -> Seq<char> {
        match self {
            LexError::UnexpectedChar { ch, line, col } => "Unexpected character '"@
                + safe_char_spec(ch) + "' at line "@ + dec_digits(line as nat) + " col "@
                + dec_digits(col as nat),
            LexError::EmptyMatch { line, col } => "Empty match at line "@ + dec_digits(line as nat)
                + " col "@ + dec_digits(col as nat),
        }
    }

    /// Renders the error, exactly as [`LexError::message_spec`] says.
    pub fn message(&self) -> (r: String)
        ensures
            r@ == self.message_spec(),
    {
        match self {
            LexError::UnexpectedChar { ch, line, col } => {
                let mut s = String::from_str("Unexpected character '");
                let e = safe_char(*ch);
                s.append(e.as_str());
                s.append("' at line ");
                let ls = u64_string(*line);
                s.append(ls.as_str());
                s.append(" col ");
                let cs = u64_string(*col);
                s.append(cs.as_str());
                proof {
                    assert(s@ =~= self.message_spec());
                }
                s
            },
            LexError::EmptyMatch { line, col } => {
                let mut s = String::from_str("Empty match at line ");
                let ls = u64_string(*line);
                s.append(ls.as_str());
                s.append(" col ");
                let cs = u64_string(*col);
                s.append(cs.as_str());
                proof {
                    assert(s@ =~= self.message_spec());
                }
                s
            },
        }
    }
}

/// How many occurrences of `ch` the sequence `s` holds.
pub open spec fn count_char_in(s: Seq<char>, ch: char) -> int
    decreases s.len(),
{
    if s.len() == 0 {
        0
    } else {
        count_char_in(s.drop_last(), ch) + if s.last() == ch {
            1int
        } else {
            0int
        }
    }
}

pub proof fn lemma_count_char_in_bounds(s: Seq<char>, ch: char)
    ensures
        0 <= count_char_in(s, ch) <= s.len(),
    decreases s.len(),
{
    if s.len() > 0 {
        lemma_count_char_in_bounds(s.drop_last(), ch);
    }
}

/// The line number after consuming `value` from line `line`: it grows by one
/// per line-break character inside the match.
pub open spec fn next_line(line: u64, value: Seq<char>) -> int {
    line + count_char_in(value, '\n')
}

/// The column after consuming `value` from column `col`: it grows by the
/// match length, or resets to column 1 when the match held a line break.
pub open spec fn next_col(col: u64, value: Seq<char>) -> int {
    if count_char_in(value, '\n') > 0 {
        1
    } else {
        col + value.len()
    }
}

/// The text a token stores: the match itself, or nothing when the match
/// spanned a line break, so that multi-line payloads never propagate
/// downstream.
pub open spec fn stored_value(value: Seq<char>) -> Seq<char> {
    if count_char_in(value, '\n') > 0 {
        Seq::empty()
    } else {
        value
    }
}

/// The first dictionary entry at index `k` or later whose pattern matches at
/// the start of `rest`, with the match length.
pub open spec fn first_match_from<T>(
    dict: Seq<PatternView<T>>,
    rest: Seq<char>,
    k: int,
) -> Option<(int, usize)>
    decreases dict.len() - k,
{
    if k < 0 || k >= dict.len() {
        None
    } else {
        match anchored_match_len(dict[k].pattern, rest) {
            Some(l) => Some((k, l)),
            None => first_match_from(dict, rest, k + 1),
        }
    }
}

/// The first dictionary entry, in declared order, whose pattern matches at
/// the start of `rest`.
pub open spec fn first_match<T>(dict: Seq<PatternView<T>>, rest: Seq<char>) -> Option<(int, usize)> {
    first_match_from(dict, rest, 0)
}

/// What scanning `text` from character `cursor` at position (`line`, `col`)
/// yields: the remaining tokens, ending in exactly one end-of-input token, or
/// the first lexical error. This is the reference model that
/// [`Scanner::scan`] is proved to implement.
pub open spec fn scan_from<T>(
    dict: Seq<PatternView<T>>,
    text: Seq<char>,
    cursor: int,
    line: u64,
    col: u64,
    eof_kind: T,
) -> Result<Seq<TokenView<T>>, LexError>
    decreases text.len() - cursor,
{
    if cursor < 0 || cursor >= text.len() {
        Ok(seq![TokenView { kind: eof_kind, value: Seq::empty(), line, col }])
    } else {
        match first_match(dict, text.subrange(cursor, text.len() as int)) {
            None => Err(LexError::UnexpectedChar { ch: text[cursor], line, col }),
            Some((k, l)) => if l < 1 || cursor + l > text.len() {
                Err(LexError::EmptyMatch { line, col })
            } else {
                let value = text.subrange(cursor, cursor + l);
                let tok = TokenView { kind: dict[k].kind, value: stored_value(value), line, col };
                match scan_from(
                    dict,
                    text,
                    cursor + l,
                    next_line(line, value) as u64,
                    next_col(col, value) as u64,
                    eof_kind,
                ) {
                    Ok(toks) => Ok(seq![tok] + toks),
                    Err(e) => Err(e),
                }
            },
        }
    }
}

/// A successful scan emits at least the end-of-input token and at most one
/// token per input character besides it.
pub proof fn lemma_scan_from_len<T>(
    dict: Seq<PatternView<T>>,
    text: Seq<char>,
    cursor: int,
    line: u64,
    col: u64,
    eof_kind: T,
)
    requires
        0 <= cursor <= text.len(),
    ensures
        scan_from(dict, text, cursor, line, col, eof_kind) matches Ok(toks) ==> 1 <= toks.len()
            <= text.len() - cursor + 1,
    decreases text.len() - cursor,
{
    if cursor < text.len() {
        match first_match(dict, text.subrange(cursor, text.len() as int)) {
            Some((k, l)) => {
                if 1 <= l && cursor + l <= text.len() {
                    let value = text.subrange(cursor, cursor + l);
                    lemma_scan_from_len(
                        dict,
                        text,
                        cursor + l,
                        next_line(line, value) as u64,
                        next_col(col, value) as u64,
                        eof_kind,
                    );
                }
            },
            None => {},
        }
    }
}

/// The views of a vector of tokens.
pub open spec fn token_views<T>(s: Seq<Token<T>>) -> Seq<TokenView<T>> {
    s.map_values(|t: Token<T>| t@)
}

/// The views of a dictionary of patterns.
pub open spec fn pattern_views<T>(s: Seq<Pattern<T>>) -> Seq<PatternView<T>> {
    s.map_values(|p: Pattern<T>| p@)
}

/// A pattern-driven tokenizer: an ordered dictionary of patterns, tried
/// first-match at every input position.
#[derive(Debug)]
pub struct Scanner<T> {
    dictionary: Vec<Pattern<T>>,
}

impl<T> View for Scanner<T> {
    type V = Seq<PatternView<T>>;

    closed spec fn view(&self) -> Seq<PatternView<T>> {
        pattern_views(self.dictionary@)
    }
}

impl<T: Copy> Scanner<T> {
    /// Builds a tokenizer over the given ordered dictionary.
    pub fn new(dictionary: Vec<Pattern<T>>) -> (s: Scanner<T>)
        ensures
            s@ == pattern_views(dictionary@),
    {
        Scanner { dictionary }
    }

    /// Tries every dictionary entry in declared order against `rest` and
    /// reports the first whose pattern matches at its start, as the entry's
    /// index and the match length in characters.
    fn match_with_dic(&self, rest: &str) -> (r: Option<(usize, usize)>)
        ensures
            match r {
                Some((k, l)) => first_match(self@, rest@) == Some((k as int, l as usize))
                    && k < self.dictionary@.len() && l <= rest@.len(),
                None => first_match(self@, rest@) is None,
            },
    {
        let n = self.dictionary.len();
        let mut k: usize = 0;
        while k < n
            invariant
                k <= n,
                n == self.dictionary@.len(),
                first_match(self@, rest@) == first_match_from(self@, rest@, k as int),
            decreases n - k,
        {
            assert(self@[k as int] == self.dictionary@[k as int]@);
            let p = &self.dictionary[k];
            match anchored_len(p.pattern.as_str(), rest) {
                Some(l) => {
                    return Some((k, l));
                },
                None => {},
            }
            k = k + 1;
        }
        None
    }

    /// Runs the tokenizer over `contents`: emits one token per match, tracks
    /// lines and columns, and appends a final token of `default_type` at the
    /// position reached. Fails with the offending character and position as
    /// soon as no pattern matches, and never loops on a zero-length match.
    /// The result is exactly what [`scan_from`] says it is.
    pub fn scan(&self, contents: String, default_type: T) -> (r: Result<Vec<Token<T>>, LexError>)
        requires
            contents@.len() + 1 < usize::MAX,
            contents@.len() + 1 < u64::MAX,
        ensures
            match r {
                Ok(toks) => scan_from(self@, contents@, 0, 1u64, 1u64, default_type)
                    == Ok::<_, LexError>(token_views(toks@)),
                Err(e) => scan_from(self@, contents@, 0, 1u64, 1u64, default_type)
                    == Err::<Seq<TokenView<T>>, _>(e),
            },
    {
        let text = contents.as_str();
        let n = text.unicode_len();
        let mut tokens: Vec<Token<T>> = Vec::new();
        let mut line: u64 = 1;
        let mut col: u64 = 1;
        let mut cursor: usize = 0;
        while cursor < n
            invariant
                cursor <= n,
                n == text@.len(),
                text@ == contents@,
                n + 1 < usize::MAX,
                n + 1 < u64::MAX,
                1 <= line,
                line <= 1 + cursor,
                1 <= col,
                col <= 1 + cursor,
                scan_from(self@, text@, 0, 1u64, 1u64, default_type) == (
                match scan_from(self@, text@, cursor as int, line, col, default_type) {
                    Ok(rest) => Ok::<_, LexError>(token_views(tokens@) + rest),
                    Err(e) => Err::<Seq<TokenView<T>>, _>(e),
                }),
            decreases n - cursor,
        {
            let rest = text.substring_char(cursor, n);
            match self.match_with_dic(rest) {
                None => {
                    let e = LexError::UnexpectedChar { ch: text.get_char(cursor), line, col };
                    assert(scan_from(self@, text@, cursor as int, line, col, default_type)
                        == Err::<Seq<TokenView<T>>, _>(e));
                    return Err(e);
                },
                Some((k, l)) => {
                    if l == 0 {
                        let e = LexError::EmptyMatch { line, col };
                        assert(scan_from(self@, text@, cursor as int, line, col, default_type)
                            == Err::<Seq<TokenView<T>>, _>(e));
                        return Err(e);
                    }
                    let value = String::from_str(text.substring_char(cursor, cursor + l));
                    proof {
                        lemma_count_char_in_bounds(value@, '\n');
                    }
                    let ghost prev_tokens = tokens@;
                    let ghost prev_line = line;
                    let ghost prev_col = col;
                    Self::push_token(&mut tokens, self.dictionary[k].kind, value, &mut line, &mut col);
                    proof {
                        let tv = TokenView {
                            kind: self.dictionary@[k as int].kind,
                            value: stored_value(text@.subrange(cursor as int, cursor + l)),
                            line: prev_line,
                            col: prev_col,
                        };
                        assert(self@[k as int] == self.dictionary@[k as int]@);
                        assert(token_views(tokens@) =~= token_views(prev_tokens).push(tv));
                        assert(forall|rest2: Seq<TokenView<T>>|
                            token_views(prev_tokens).push(tv) + rest2 =~= token_views(prev_tokens)
                                + (seq![tv] + rest2));
                    }
                    cursor = cursor + l;
                },
            }
        }
        let eof = Token { token_type: default_type, value: String::new(), line, col };
        let ghost prev_tokens = tokens@;
        tokens.push(eof);
        proof {
            let tv = TokenView { kind: default_type, value: Seq::empty(), line, col };
            assert(token_views(tokens@) =~= token_views(prev_tokens).push(tv));
            assert(token_views(prev_tokens).push(tv) =~= token_views(prev_tokens) + seq![tv]);
        }
        Ok(tokens)
    }

    /// Appends a token for a match `value` read at (`line`, `col`) and moves
    /// the position past it: the stored text is cleared for a multi-line
    /// match, the line grows by the line breaks inside it, and the column
    /// advances or resets accordingly.
    fn push_token(
        tokens: &mut Vec<Token<T>>,
        t_type: T,
        value: String,
        line: &mut u64,
        col: &mut u64,
    )
        requires
            *old(line) + count_char_in(value@, '\n') <= u64::MAX,
            *old(col) + value@.len() <= u64::MAX,
            value@.len() <= usize::MAX,
        ensures
            token_views(final(tokens)@) == token_views(old(tokens)@).push(
                TokenView {
                    kind: t_type,
                    value: stored_value(value@),
                    line: *old(line),
                    col: *old(col),
                },
            ),
            *final(line) == next_line(*old(line), value@) as u64,
            *final(col) == next_col(*old(col), value@) as u64,
    {
        let l = value.as_str().unicode_len() as u64;
        let lines = Self::count_char(value.as_str(), '\n');
        let t = Token {
            token_type: t_type,
            value: if lines > 0 {
                String::new()
            } else {
                value
            },
            line: *line,
            col: *col,
        };
        tokens.push(t);
        *line = *line + lines;
        *col = if lines > 0 {
            1
        } else {
            *col + l
        };
    }

    /// Counts how often `ch` occurs in `s`.
    pub fn count_char(s: &str, ch: char) -> (r: u64)
        requires
            s@.len() <= u64::MAX,
        ensures
            r == count_char_in(s@, ch),
    {
        let n = s.unicode_len();
        let mut counter: u64 = 0;
        let mut i: usize = 0;
        while i < n
            invariant
                i <= n,
                n == s@.len(),
                n <= u64::MAX,
                counter == count_char_in(s@.subrange(0, i as int), ch),
                counter <= i,
            decreases n - i,
        {
            let c = s.get_char(i);
            proof {
                assert(s@.subrange(0, i + 1).drop_last() =~= s@.subrange(0, i as int));
                assert(s@.subrange(0, i + 1).last() == s@[i as int]);
            }
            if c == ch {
                counter = counter + 1;
            }
            i = i + 1;
        }
        proof {
            assert(s@.subrange(0, n as int) =~= s@);
        }
        counter
    }
}

} // verus!
