//! The Lucene-style query language of rule filters: a lexer that turns the
//! query into tokens and a recursive-descent parser that builds a
//! [`FilterExpressionInner`] from them.
use vstd::prelude::*;
use crate::field::{dotted_name, dotted_split, views};
use crate::filter::expression::{float_model, FilterExpressionInner, FloatModel, Expr};
use crate::filter::number::{finite_f64_text, parses_as_f64, seq_lt};
use crate::filter::pattern::{
    fancy_compile_error, normalized_regex, sigma_regex, std_regex_compile_error, wildcard_regex,
};
use crate::filter::range::i64_of;
use crate::value::FloatNum;
use crate::text::{chars_of, push_all, string_of};

verus! {

/// A query that could not be read, with the reason.
pub struct LuceneParseError(pub String);

/// A token of a query.
pub enum Token {
    Colon,
    LParen,
    RParen,
    LBracket,
    RBracket,
    LBrace,
    RBrace,
    To,
    And,
    Or,
    Not,
    Minus,
    Star,
    Pipe,
    Re,
    StringLit(String),
    RegexLit(String),
    /// A bare word: `value` with `\\` read as one backslash, `raw` as written.
    Word { value: String, raw: String },
    Eof,
}

/// Mathematical model of a [`Token`].
pub enum Tok {
    Colon,
    LParen,
    RParen,
    LBracket,
    RBracket,
    LBrace,
    RBrace,
    To,
    And,
    Or,
    Not,
    Minus,
    Star,
    Pipe,
    Re,
    StringLit(Seq<char>),
    RegexLit(Seq<char>),
    Word { value: Seq<char>, raw: Seq<char> },
    Eof,
}

impl Token {
    pub open spec fn model(self) -> Tok {
        match self {
            Token::Colon => Tok::Colon,
            Token::LParen => Tok::LParen,
            Token::RParen => Tok::RParen,
            Token::LBracket => Tok::LBracket,
            Token::RBracket => Tok::RBracket,
            Token::LBrace => Tok::LBrace,
            Token::RBrace => Tok::RBrace,
            Token::To => Tok::To,
            Token::And => Tok::And,
            Token::Or => Tok::Or,
            Token::Not => Tok::Not,
            Token::Minus => Tok::Minus,
            Token::Star => Tok::Star,
            Token::Pipe => Tok::Pipe,
            Token::Re => Tok::Re,
            Token::StringLit(s) => Tok::StringLit(s@),
            Token::RegexLit(s) => Tok::RegexLit(s@),
            Token::Word { value, raw } => Tok::Word { value: value@, raw: raw@ },
            Token::Eof => Tok::Eof,
        }
    }
}

pub open spec fn tok_models(ts: Seq<Token>) -> Seq<Tok> {
    Seq::new(ts.len(), |i: int| ts[i].model())
}

// ---------------------------------------------------------------------------
// Lexer
// ---------------------------------------------------------------------------

/// ASCII whitespace (`char::is_ascii_whitespace`).
pub open spec fn is_ws(c: char) -> bool {
    c == ' ' || c == '\t' || c == '\n' || c == '\x0C' || c == '\r'
}

/// A character that may continue a word.
pub open spec fn is_word_char(c: char) -> bool {
    !is_ws(c) && !(c == ':' || c == '(' || c == ')' || c == '[' || c == ']' || c == '{' || c == '}' || c == '/' || c == '|')
}

/// A character that may start a word.
pub open spec fn is_word_start(c: char) -> bool {
    !is_ws(c) && !(c == ':' || c == '(' || c == ')' || c == '[' || c == ']' || c == '{' || c == '}' || c == '/' || c == '"')
}

/// Reads a quoted string after its opening quote, from `p`: the text up to
/// the closing quote, with `\"`, `\\`, `\n`, `\t` and `\r` unescaped and any
/// other escape kept; and the position after the closing quote.
pub open spec fn string_lit_from(cs: Seq<char>, p: int, acc: Seq<char>) -> Result<(Seq<char>, int), Seq<char>>
    decreases cs.len() - p,
{
    if p < 0 || p >= cs.len() {
        Err(unterminated_string_msg())
    } else if cs[p] == '"' {
        Ok((acc, p + 1))
    } else if cs[p] == '\\' {
        if p + 1 >= cs.len() {
            Err(unterminated_escape_msg())
        } else {
            let d = cs[p + 1];
            let next = if d == '"' {
                acc.push('"')
            } else if d == '\\' {
                acc.push('\\')
            } else if d == 'n' {
                acc.push('\n')
            } else if d == 't' {
                acc.push('\t')
            } else if d == 'r' {
                acc.push('\r')
            } else {
                acc.push('\\').push(d)
            };
            string_lit_from(cs, p + 2, next)
        }
    } else {
        string_lit_from(cs, p + 1, acc.push(cs[p]))
    }
}

pub open spec fn unterminated_string_msg() -> Seq<char> {
    seq!['U','n','t','e','r','m','i','n','a','t','e','d',' ','q','u','o','t','e','d',' ','s','t','r','i','n','g']
}

pub open spec fn unterminated_escape_msg() -> Seq<char> {
    seq!['U','n','t','e','r','m','i','n','a','t','e','d',' ','e','s','c','a','p','e',' ','i','n',' ','q','u','o','t','e','d',' ','s','t','r','i','n','g']
}

pub open spec fn unterminated_regex_msg() -> Seq<char> {
    seq!['U','n','t','e','r','m','i','n','a','t','e','d',' ','r','e','g','e','x',' ','p','a','t','t','e','r','n']
}

/// Reads a regex literal after its opening slash, from `p`: the text up to
/// the closing slash (escapes kept as written) and the position after it.
pub open spec fn regex_lit_from(cs: Seq<char>, p: int, acc: Seq<char>) -> Result<(Seq<char>, int), Seq<char>>
    decreases cs.len() - p,
{
    if p < 0 || p >= cs.len() {
        Err(unterminated_regex_msg())
    } else if cs[p] == '/' {
        Ok((acc, p + 1))
    } else if cs[p] == '\\' {
        if p + 1 < cs.len() {
            regex_lit_from(cs, p + 2, acc.push('\\').push(cs[p + 1]))
        } else {
            regex_lit_from(cs, p + 1, acc.push('\\'))
        }
    } else {
        regex_lit_from(cs, p + 1, acc.push(cs[p]))
    }
}

/// Reads a word from `p`: its value (with `\\` read as one backslash), its
/// raw text, and the position after it. A backslash takes the next
/// character into the word whatever it is.
pub open spec fn word_from(cs: Seq<char>, p: int, value: Seq<char>, raw: Seq<char>) -> (Seq<char>, Seq<char>, int)
    decreases cs.len() - p,
{
    if p < 0 || p >= cs.len() {
        (value, raw, p)
    } else if cs[p] == '\\' {
        if p + 1 < cs.len() {
            let next = cs[p + 1];
            let v = if next != '\\' { value.push('\\').push(next) } else { value.push('\\') };
            word_from(cs, p + 2, v, raw.push('\\').push(next))
        } else {
            word_from(cs, p + 1, value, raw.push('\\'))
        }
    } else if is_word_char(cs[p]) {
        word_from(cs, p + 1, value.push(cs[p]), raw.push(cs[p]))
    } else {
        (value, raw, p)
    }
}

pub proof fn lemma_word_from(cs: Seq<char>, p: int, value: Seq<char>, raw: Seq<char>)
    requires
        0 <= p <= cs.len(),
    ensures
        p <= word_from(cs, p, value, raw).2 <= cs.len(),
        p < cs.len() && (cs[p] == '\\' || is_word_char(cs[p])) ==> word_from(cs, p, value, raw).2 > p,
    decreases cs.len() - p,
{
    if p < cs.len() {
        if cs[p] == '\\' {
            if p + 1 < cs.len() {
                let next = cs[p + 1];
                let v = if next != '\\' { value.push('\\').push(next) } else { value.push('\\') };
                lemma_word_from(cs, p + 2, v, raw.push('\\').push(next));
            } else {
                lemma_word_from(cs, p + 1, value, raw.push('\\'));
            }
        } else if is_word_char(cs[p]) {
            lemma_word_from(cs, p + 1, value.push(cs[p]), raw.push(cs[p]));
        }
    }
}

pub proof fn lemma_string_lit_from(cs: Seq<char>, p: int, acc: Seq<char>)
    requires
        0 <= p,
    ensures
        string_lit_from(cs, p, acc) matches Ok((_, e)) ==> p < e <= cs.len(),
    decreases cs.len() - p,
{
    if 0 <= p < cs.len() && cs[p] != '"' {
        if cs[p] == '\\' {
            if p + 1 < cs.len() {
                let d = cs[p + 1];
                let next = if d == '"' {
                    acc.push('"')
                } else if d == '\\' {
                    acc.push('\\')
                } else if d == 'n' {
                    acc.push('\n')
                } else if d == 't' {
                    acc.push('\t')
                } else if d == 'r' {
                    acc.push('\r')
                } else {
                    acc.push('\\').push(d)
                };
                lemma_string_lit_from(cs, p + 2, next);
            }
        } else {
            lemma_string_lit_from(cs, p + 1, acc.push(cs[p]));
        }
    }
}

pub proof fn lemma_regex_lit_from(cs: Seq<char>, p: int, acc: Seq<char>)
    requires
        0 <= p,
    ensures
        regex_lit_from(cs, p, acc) matches Ok((_, e)) ==> p < e <= cs.len(),
    decreases cs.len() - p,
{
    if 0 <= p < cs.len() && cs[p] != '/' {
        if cs[p] == '\\' {
            if p + 1 < cs.len() {
                lemma_regex_lit_from(cs, p + 2, acc.push('\\').push(cs[p + 1]));
            } else {
                lemma_regex_lit_from(cs, p + 1, acc.push('\\'));
            }
        } else {
            lemma_regex_lit_from(cs, p + 1, acc.push(cs[p]));
        }
    }
}

/// The first position at or after `p` that is not whitespace.
pub open spec fn skip_ws(cs: Seq<char>, p: int) -> int
    decreases cs.len() - p,
{
    if 0 <= p < cs.len() && is_ws(cs[p]) { skip_ws(cs, p + 1) } else { p }
}

pub proof fn lemma_skip_ws(cs: Seq<char>, p: int)
    requires
        0 <= p <= cs.len(),
    ensures
        p <= skip_ws(cs, p) <= cs.len(),
        skip_ws(cs, p) < cs.len() ==> !is_ws(cs[skip_ws(cs, p)]),
    decreases cs.len() - p,
{
    if p < cs.len() && is_ws(cs[p]) {
        lemma_skip_ws(cs, p + 1);
    }
}

/// The token a word stands for: a keyword or the word itself.
pub open spec fn word_token(value: Seq<char>, raw: Seq<char>) -> Tok {
    if value == seq!['A', 'N', 'D'] {
        Tok::And
    } else if value == seq!['O', 'R'] {
        Tok::Or
    } else if value == seq!['N', 'O', 'T'] {
        Tok::Not
    } else if value == seq!['T', 'O'] {
        Tok::To
    } else if value == seq!['*'] {
        Tok::Star
    } else if value == seq!['r', 'e'] {
        Tok::Re
    } else {
        Tok::Word { value, raw }
    }
}

/// The single-character token of `c`, if it is one.
pub open spec fn punct_token(c: char) -> Option<Tok> {
    if c == ':' {
        Some(Tok::Colon)
    } else if c == '(' {
        Some(Tok::LParen)
    } else if c == ')' {
        Some(Tok::RParen)
    } else if c == '[' {
        Some(Tok::LBracket)
    } else if c == ']' {
        Some(Tok::RBracket)
    } else if c == '{' {
        Some(Tok::LBrace)
    } else if c == '}' {
        Some(Tok::RBrace)
    } else if c == '-' {
        Some(Tok::Minus)
    } else if c == '|' {
        Some(Tok::Pipe)
    } else {
        None
    }
}

/// The tokens of `cs` from `p` on, appended to `toks`; the list ends with
/// `Eof`. Characters that start no token are skipped.
pub open spec fn lex_from(cs: Seq<char>, p: int, toks: Seq<Tok>) -> Result<Seq<Tok>, Seq<char>>
    decreases cs.len() - p,
{
    if p < 0 || p > cs.len() {
        Ok(toks.push(Tok::Eof))
    } else {
        let q = skip_ws(cs, p);
        proof { lemma_skip_ws(cs, p); }
        if q >= cs.len() {
            Ok(toks.push(Tok::Eof))
        } else {
            let c = cs[q];
            match punct_token(c) {
                Some(t) => lex_from(cs, q + 1, toks.push(t)),
                None => if c == '"' {
                    proof { lemma_string_lit_from(cs, q + 1, Seq::empty()); }
                    match string_lit_from(cs, q + 1, Seq::empty()) {
                        Ok((s, e)) => lex_from(cs, e, toks.push(Tok::StringLit(s))),
                        Err(m) => Err(m),
                    }
                } else if c == '/' {
                    proof { lemma_regex_lit_from(cs, q + 1, Seq::empty()); }
                    match regex_lit_from(cs, q + 1, Seq::empty()) {
                        Ok((s, e)) => lex_from(cs, e, toks.push(Tok::RegexLit(s))),
                        Err(m) => Err(m),
                    }
                } else if is_word_start(c) {
                    proof { lemma_word_from(cs, q, Seq::empty(), Seq::empty()); }
                    let (v, r, e) = word_from(cs, q, Seq::empty(), Seq::empty());
                    lex_from(cs, e, toks.push(word_token(v, r)))
                } else {
                    lex_from(cs, q + 1, toks)
                },
            }
        }
    }
}

/// The tokens of a query.
pub open spec fn lex(cs: Seq<char>) -> Result<Seq<Tok>, Seq<char>> {
    lex_from(cs, 0, Seq::empty())
}

proof fn lemma_string_lit_errors(cs: Seq<char>, p: int, acc: Seq<char>)
    ensures
        string_lit_from(cs, p, acc) matches Err(m) ==> m == unterminated_string_msg() || m == unterminated_escape_msg(),
    decreases cs.len() - p,
{
    if 0 <= p < cs.len() && cs[p] != '"' {
        if cs[p] == '\\' {
            if p + 1 < cs.len() {
                let d = cs[p + 1];
                let next = if d == '"' {
                    acc.push('"')
                } else if d == '\\' {
                    acc.push('\\')
                } else if d == 'n' {
                    acc.push('\n')
                } else if d == 't' {
                    acc.push('\t')
                } else if d == 'r' {
                    acc.push('\r')
                } else {
                    acc.push('\\').push(d)
                };
                lemma_string_lit_errors(cs, p + 2, next);
            }
        } else {
            lemma_string_lit_errors(cs, p + 1, acc.push(cs[p]));
        }
    }
}

proof fn lemma_regex_lit_errors(cs: Seq<char>, p: int, acc: Seq<char>)
    ensures
        regex_lit_from(cs, p, acc) matches Err(m) ==> m == unterminated_regex_msg(),
    decreases cs.len() - p,
{
    if 0 <= p < cs.len() && cs[p] != '/' {
        if cs[p] == '\\' {
            if p + 1 < cs.len() {
                lemma_regex_lit_errors(cs, p + 2, acc.push('\\').push(cs[p + 1]));
            } else {
                lemma_regex_lit_errors(cs, p + 1, acc.push('\\'));
            }
        } else {
            lemma_regex_lit_errors(cs, p + 1, acc.push(cs[p]));
        }
    }
}

/// No token of `ts` is `Eof`.
pub open spec fn no_eof(ts: Seq<Tok>) -> bool {
    forall|i: int| 0 <= i < ts.len() ==> #[trigger] ts[i] != Tok::Eof
}

proof fn lemma_no_eof_push(ts: Seq<Tok>, t: Tok)
    requires
        no_eof(ts),
        t != Tok::Eof,
    ensures
        no_eof(ts.push(t)),
{
    assert forall|i: int| 0 <= i < ts.push(t).len() implies #[trigger] ts.push(t)[i] != Tok::Eof by {
        if i < ts.len() {
            assert(ts.push(t)[i] == ts[i]);
        }
    }
}

proof fn lemma_lex_from_outcome(cs: Seq<char>, p: int, toks: Seq<Tok>)
    requires
        no_eof(toks),
    ensures
        match lex_from(cs, p, toks) {
            Ok(ts) => ts.len() > 0 && ts.last() == Tok::Eof && no_eof(ts.drop_last()),
            Err(m) => m == unterminated_string_msg() || m == unterminated_escape_msg() || m == unterminated_regex_msg(),
        },
    decreases cs.len() - p,
{
    if p < 0 || p > cs.len() {
        assert(toks.push(Tok::Eof).drop_last() =~= toks);
    } else {
        let q = skip_ws(cs, p);
        lemma_skip_ws(cs, p);
        if q >= cs.len() {
            assert(toks.push(Tok::Eof).drop_last() =~= toks);
        } else {
            let c = cs[q];
            match punct_token(c) {
                Some(t) => {
                    lemma_no_eof_push(toks, t);
                    lemma_lex_from_outcome(cs, q + 1, toks.push(t));
                },
                None => if c == '"' {
                    lemma_string_lit_from(cs, q + 1, Seq::empty());
                    lemma_string_lit_errors(cs, q + 1, Seq::empty());
                    match string_lit_from(cs, q + 1, Seq::empty()) {
                        Ok((s, e)) => {
                            lemma_no_eof_push(toks, Tok::StringLit(s));
                            lemma_lex_from_outcome(cs, e, toks.push(Tok::StringLit(s)));
                        },
                        Err(m) => {},
                    }
                } else if c == '/' {
                    lemma_regex_lit_from(cs, q + 1, Seq::empty());
                    lemma_regex_lit_errors(cs, q + 1, Seq::empty());
                    match regex_lit_from(cs, q + 1, Seq::empty()) {
                        Ok((s, e)) => {
                            lemma_no_eof_push(toks, Tok::RegexLit(s));
                            lemma_lex_from_outcome(cs, e, toks.push(Tok::RegexLit(s)));
                        },
                        Err(m) => {},
                    }
                } else if is_word_start(c) {
                    lemma_word_from(cs, q, Seq::empty(), Seq::empty());
                    let (v, r, e) = word_from(cs, q, Seq::empty(), Seq::empty());
                    lemma_no_eof_push(toks, word_token(v, r));
                    lemma_lex_from_outcome(cs, e, toks.push(word_token(v, r)));
                } else {
                    lemma_lex_from_outcome(cs, q + 1, toks);
                },
            }
        }
    }
}

/// Law: tokenizing gives a list that ends with its only `Eof`, or fails
/// only for a quoted string or a regex that is not closed (or a quoted
/// string that ends in a lone backslash).
pub proof fn lemma_lex_outcome(cs: Seq<char>)
    ensures
        match lex(cs) {
            Ok(ts) => ts.len() > 0 && ts.last() == Tok::Eof && no_eof(ts.drop_last()),
            Err(m) => m == unterminated_string_msg() || m == unterminated_escape_msg() || m == unterminated_regex_msg(),
        },
{
    lemma_lex_from_outcome(cs, 0, Seq::empty());
}

/// The literal whose text starts at `p` is never closed: every `delim`
/// from `p` on stands after an odd run of backslashes (counted from `p`),
/// which escapes it.
pub open spec fn unclosed(cs: Seq<char>, p: int, delim: char) -> bool {
    forall|k: int| p <= k < cs.len() && #[trigger] cs[k] == delim
        ==> crate::filter::pattern::trailing_backslashes(cs.subrange(p, k)) % 2 == 1
}

/// At `q` the query opens a quoted string or a regex that is never closed,
/// and `m` is the error that such a literal gives.
pub open spec fn unclosed_literal_at(cs: Seq<char>, q: int, m: Seq<char>) -> bool {
    0 <= q < cs.len() && (
        (cs[q] == '"' && unclosed(cs, q + 1, '"') && (m == unterminated_string_msg() || m == unterminated_escape_msg()))
        || (cs[q] == '/' && unclosed(cs, q + 1, '/') && m == unterminated_regex_msg()))
}

proof fn lemma_trailing_backslashes_concat(s: Seq<char>, t: Seq<char>)
    ensures
        crate::filter::pattern::trailing_backslashes(s + t) == if crate::filter::pattern::trailing_backslashes(t) == t.len() {
            t.len() + crate::filter::pattern::trailing_backslashes(s)
        } else {
            crate::filter::pattern::trailing_backslashes(t)
        },
    decreases t.len(),
{
    if t.len() == 0 {
        assert(s + t =~= s);
    } else {
        assert((s + t).drop_last() =~= s + t.drop_last());
        assert((s + t).last() == t.last());
        lemma_trailing_backslashes_concat(s, t.drop_last());
    }
}

/// Unclosed from `p` follows from unclosed after the character (or the
/// escape pair) at `p`.
proof fn lemma_unclosed_step(cs: Seq<char>, p: int, delim: char)
    requires
        0 <= p < cs.len(),
        cs[p] != delim,
        delim != '\\',
    ensures
        (cs[p] == '\\' && p + 1 < cs.len() && unclosed(cs, p + 2, delim)) ==> unclosed(cs, p, delim),
        (cs[p] == '\\' && p + 1 >= cs.len()) ==> unclosed(cs, p, delim),
        (cs[p] != '\\' && unclosed(cs, p + 1, delim)) ==> unclosed(cs, p, delim),
{
    let w = if cs[p] == '\\' && p + 1 < cs.len() { 2int } else { 1int };
    if (cs[p] == '\\' && p + 1 < cs.len() && unclosed(cs, p + 2, delim)) || (cs[p] == '\\' && p + 1 >= cs.len())
        || (cs[p] != '\\' && unclosed(cs, p + 1, delim)) {
        assert forall|k: int| p <= k < cs.len() && #[trigger] cs[k] == delim
            implies crate::filter::pattern::trailing_backslashes(cs.subrange(p, k)) % 2 == 1 by {
            if k == p + 1 && w == 2 {
                let u = cs.subrange(p, k);
                assert(u.drop_last() =~= Seq::<char>::empty());
                assert(crate::filter::pattern::trailing_backslashes(Seq::<char>::empty()) == 0);
                assert(u.last() == '\\');
                assert(crate::filter::pattern::trailing_backslashes(u) == 1);
            } else if k > p {
                let a = cs.subrange(p, p + w);
                let b = cs.subrange(p + w, k);
                assert(cs.subrange(p, k) =~= a + b);
                lemma_trailing_backslashes_concat(a, b);
                if w == 2 {
                    let one = seq![cs[p]];
                    assert(a.drop_last() =~= one);
                    assert(a.last() == cs[p + 1]);
                    assert(one.drop_last() =~= Seq::<char>::empty());
                    assert(crate::filter::pattern::trailing_backslashes(Seq::<char>::empty()) == 0);
                    assert(crate::filter::pattern::trailing_backslashes(one) == 1);
                    assert(crate::filter::pattern::trailing_backslashes(a) == if cs[p + 1] == '\\' { 2nat } else { 0nat });
                } else {
                    assert(a.last() == cs[p]);
                    assert(crate::filter::pattern::trailing_backslashes(a) == 0);
                }
                assert(crate::filter::pattern::trailing_backslashes(a) % 2 == 0);
                assert(crate::filter::pattern::trailing_backslashes(b) % 2 == 1);
                assert(crate::filter::pattern::trailing_backslashes(cs.subrange(p, k)) % 2 == 1);
            }
        }
    }
}

proof fn lemma_string_err_unclosed(cs: Seq<char>, p: int, acc: Seq<char>)
    requires
        0 <= p,
    ensures
        string_lit_from(cs, p, acc) is Err ==> unclosed(cs, p, '"'),
    decreases cs.len() - p,
{
    if p < cs.len() && cs[p] != '"' {
        lemma_unclosed_step(cs, p, '"');
        if cs[p] == '\\' {
            if p + 1 < cs.len() {
                let d = cs[p + 1];
                let next = if d == '"' {
                    acc.push('"')
                } else if d == '\\' {
                    acc.push('\\')
                } else if d == 'n' {
                    acc.push('\n')
                } else if d == 't' {
                    acc.push('\t')
                } else if d == 'r' {
                    acc.push('\r')
                } else {
                    acc.push('\\').push(d)
                };
                lemma_string_err_unclosed(cs, p + 2, next);
            }
        } else {
            lemma_string_err_unclosed(cs, p + 1, acc.push(cs[p]));
        }
    }
}

proof fn lemma_regex_err_unclosed(cs: Seq<char>, p: int, acc: Seq<char>)
    requires
        0 <= p,
    ensures
        regex_lit_from(cs, p, acc) is Err ==> unclosed(cs, p, '/'),
    decreases cs.len() - p,
{
    if p < cs.len() && cs[p] != '/' {
        lemma_unclosed_step(cs, p, '/');
        if cs[p] == '\\' {
            if p + 1 < cs.len() {
                lemma_regex_err_unclosed(cs, p + 2, acc.push('\\').push(cs[p + 1]));
            } else {
                lemma_regex_err_unclosed(cs, p + 1, acc.push('\\'));
            }
        } else {
            lemma_regex_err_unclosed(cs, p + 1, acc.push(cs[p]));
        }
    }
}

/// An error of lexing, if any, comes from an unclosed literal.
pub open spec fn lex_err_explained(cs: Seq<char>, r: Result<Seq<Tok>, Seq<char>>) -> bool {
    match r {
        Ok(_) => true,
        Err(m) => exists|q: int| #[trigger] unclosed_literal_at(cs, q, m),
    }
}

proof fn lemma_lex_from_errors(cs: Seq<char>, p: int, toks: Seq<Tok>)
    ensures
        lex_err_explained(cs, lex_from(cs, p, toks)),
    decreases cs.len() - p,
{
    if 0 <= p <= cs.len() {
        let q = skip_ws(cs, p);
        lemma_skip_ws(cs, p);
        if q < cs.len() {
            let c = cs[q];
            match punct_token(c) {
                Some(t) => {
                    lemma_lex_from_errors(cs, q + 1, toks.push(t));
                    assert(lex_from(cs, p, toks) == lex_from(cs, q + 1, toks.push(t)));
                },
                None => if c == '"' {
                    lemma_string_lit_from(cs, q + 1, Seq::empty());
                    lemma_string_lit_errors(cs, q + 1, Seq::empty());
                    lemma_string_err_unclosed(cs, q + 1, Seq::empty());
                    match string_lit_from(cs, q + 1, Seq::empty()) {
                        Ok((s, e)) => {
                            lemma_lex_from_errors(cs, e, toks.push(Tok::StringLit(s)));
                            assert(lex_from(cs, p, toks) == lex_from(cs, e, toks.push(Tok::StringLit(s))));
                        },
                        Err(m) => {
                            let r = Err::<Seq<Tok>, Seq<char>>(m);
                            assert(lex_from(cs, p, toks) == r);
                            assert(r->Err_0 == m);
                            assert(unclosed_literal_at(cs, q, m));
                        },
                    }
                } else if c == '/' {
                    lemma_regex_lit_from(cs, q + 1, Seq::empty());
                    lemma_regex_lit_errors(cs, q + 1, Seq::empty());
                    lemma_regex_err_unclosed(cs, q + 1, Seq::empty());
                    match regex_lit_from(cs, q + 1, Seq::empty()) {
                        Ok((s, e)) => {
                            lemma_lex_from_errors(cs, e, toks.push(Tok::RegexLit(s)));
                            assert(lex_from(cs, p, toks) == lex_from(cs, e, toks.push(Tok::RegexLit(s))));
                        },
                        Err(m) => {
                            let r = Err::<Seq<Tok>, Seq<char>>(m);
                            assert(lex_from(cs, p, toks) == r);
                            assert(r->Err_0 == m);
                            assert(unclosed_literal_at(cs, q, m));
                        },
                    }
                } else if is_word_start(c) {
                    lemma_word_from(cs, q, Seq::empty(), Seq::empty());
                    let (v, r, e) = word_from(cs, q, Seq::empty(), Seq::empty());
                    lemma_lex_from_errors(cs, e, toks.push(word_token(v, r)));
                    assert(lex_from(cs, p, toks) == lex_from(cs, e, toks.push(word_token(v, r))));
                } else {
                    lemma_lex_from_errors(cs, q + 1, toks);
                    assert(lex_from(cs, p, toks) == lex_from(cs, q + 1, toks));
                },
            }
        } else {
            assert(lex_from(cs, p, toks) is Ok);
        }
    } else {
        assert(lex_from(cs, p, toks) is Ok);
    }
}

/// Law: tokenizing a query fails only where the query opens a quoted
/// string or a regex that it never closes (every closing character after
/// it is escaped), and the error names that kind of literal.
pub proof fn lemma_lex_fails_only_on_unclosed_literal(cs: Seq<char>)
    ensures
        lex_err_explained(cs, lex(cs)),
{
    lemma_lex_from_errors(cs, 0, Seq::empty());
}

fn msg(text: &str) -> (r: LuceneParseError)
    ensures
        r.0@ == text@,
{
    LuceneParseError(string_of(chars_of(text).as_slice()))
}

fn read_string_lit(cs: &Vec<char>, start: usize) -> (r: Result<(Vec<char>, usize), LuceneParseError>)
    requires
        start <= cs@.len(),
    ensures
        match r {
            Ok((s, e)) => string_lit_from(cs@, start as int, Seq::empty()) == Ok::<(Seq<char>, int), Seq<char>>((s@, e as int)),
            Err(m) => string_lit_from(cs@, start as int, Seq::empty()) == Err::<(Seq<char>, int), Seq<char>>(m.0@),
        },
{
    let mut acc: Vec<char> = Vec::new();
    let mut p = start;
    let n = cs.len();
    while p < n && cs[p] != '"'
        invariant
            start <= p <= n,
            n == cs@.len(),
            string_lit_from(cs@, start as int, Seq::empty()) == string_lit_from(cs@, p as int, acc@),
        decreases n - p,
    {
        if cs[p] == '\\' {
            if p + 1 >= n {
                let ghost m = unterminated_escape_msg();
                let e = msg("Unterminated escape in quoted string");
                proof { reveal_strlit("Unterminated escape in quoted string"); }
                assert(e.0@ =~= m);
                return Err(e);
            }
            let d = cs[p + 1];
            if d == '"' {
                acc.push('"');
            } else if d == '\\' {
                acc.push('\\');
            } else if d == 'n' {
                acc.push('\n');
            } else if d == 't' {
                acc.push('\t');
            } else if d == 'r' {
                acc.push('\r');
            } else {
                acc.push('\\');
                acc.push(d);
            }
            p = p + 2;
        } else {
            acc.push(cs[p]);
            p = p + 1;
        }
    }
    if p >= n {
        let e = msg("Unterminated quoted string");
        proof { reveal_strlit("Unterminated quoted string"); }
        assert(e.0@ =~= unterminated_string_msg());
        return Err(e);
    }
    Ok((acc, p + 1))
}

fn read_regex_lit(cs: &Vec<char>, start: usize) -> (r: Result<(Vec<char>, usize), LuceneParseError>)
    requires
        start <= cs@.len(),
    ensures
        match r {
            Ok((s, e)) => regex_lit_from(cs@, start as int, Seq::empty()) == Ok::<(Seq<char>, int), Seq<char>>((s@, e as int)),
            Err(m) => regex_lit_from(cs@, start as int, Seq::empty()) == Err::<(Seq<char>, int), Seq<char>>(m.0@),
        },
{
    let mut acc: Vec<char> = Vec::new();
    let mut p = start;
    let n = cs.len();
    while p < n && cs[p] != '/'
        invariant
            start <= p <= n,
            n == cs@.len(),
            regex_lit_from(cs@, start as int, Seq::empty()) == regex_lit_from(cs@, p as int, acc@),
        decreases n - p,
    {
        if cs[p] == '\\' {
            acc.push('\\');
            if p + 1 < n {
                acc.push(cs[p + 1]);
                p = p + 2;
            } else {
                p = p + 1;
            }
        } else {
            acc.push(cs[p]);
            p = p + 1;
        }
    }
    if p >= n {
        let e = msg("Unterminated regex pattern");
        proof { reveal_strlit("Unterminated regex pattern"); }
        assert(e.0@ =~= unterminated_regex_msg());
        return Err(e);
    }
    Ok((acc, p + 1))
}

fn is_ws_char(c: char) -> (r: bool)
    ensures
        r == is_ws(c),
{
    c == ' ' || c == '\t' || c == '\n' || c == '\x0C' || c == '\r'
}

fn is_word_char_exec(c: char) -> (r: bool)
    ensures
        r == is_word_char(c),
{
    !is_ws_char(c) && !(c == ':' || c == '(' || c == ')' || c == '[' || c == ']' || c == '{' || c == '}' || c == '/' || c == '|')
}

fn is_word_start_exec(c: char) -> (r: bool)
    ensures
        r == is_word_start(c),
{
    !is_ws_char(c) && !(c == ':' || c == '(' || c == ')' || c == '[' || c == ']' || c == '{' || c == '}' || c == '/' || c == '"')
}

fn read_word(cs: &Vec<char>, start: usize) -> (r: (Vec<char>, Vec<char>, usize))
    requires
        start <= cs@.len(),
    ensures
        word_from(cs@, start as int, Seq::empty(), Seq::empty()) == (r.0@, r.1@, r.2 as int),
{
    let mut value: Vec<char> = Vec::new();
    let mut raw: Vec<char> = Vec::new();
    let mut p = start;
    let n = cs.len();
    loop
        invariant
            start <= p <= n,
            n == cs@.len(),
            word_from(cs@, start as int, Seq::empty(), Seq::empty()) == word_from(cs@, p as int, value@, raw@),
        ensures
            word_from(cs@, start as int, Seq::empty(), Seq::empty()) == (value@, raw@, p as int),
        decreases n - p,
    {
        if p >= n {
            break;
        }
        let c = cs[p];
        if c == '\\' {
            raw.push('\\');
            if p + 1 < n {
                let next = cs[p + 1];
                raw.push(next);
                value.push('\\');
                if next != '\\' {
                    value.push(next);
                }
                p = p + 2;
            } else {
                p = p + 1;
            }
        } else if is_word_char_exec(c) {
            raw.push(c);
            value.push(c);
            p = p + 1;
        } else {
            break;
        }
    }
    (value, raw, p)
}

fn same_chars(v: &[char], w: &[char]) -> (r: bool)
    ensures
        r == (v@ == w@),
{
    if v.len() != w.len() {
        return false;
    }
    let mut i: usize = 0;
    while i < v.len()
        invariant
            i <= v@.len(),
            v@.len() == w@.len(),
            forall|j: int| 0 <= j < i ==> v@[j] == w@[j],
        decreases v@.len() - i,
    {
        if v[i] != w[i] {
            assert(v@[i as int] != w@[i as int]);
            return false;
        }
        i = i + 1;
    }
    assert(v@ =~= w@);
    true
}

fn word_token_exec(value: Vec<char>, raw: Vec<char>) -> (r: Token)
    ensures
        r.model() == word_token(value@, raw@),
{
    let and_w: [char; 3] = ['A', 'N', 'D'];
    let or_w: [char; 2] = ['O', 'R'];
    let not_w: [char; 3] = ['N', 'O', 'T'];
    let to_w: [char; 2] = ['T', 'O'];
    let star_w: [char; 1] = ['*'];
    let re_w: [char; 2] = ['r', 'e'];
    assert(and_w@ =~= seq!['A', 'N', 'D']);
    assert(or_w@ =~= seq!['O', 'R']);
    assert(not_w@ =~= seq!['N', 'O', 'T']);
    assert(to_w@ =~= seq!['T', 'O']);
    assert(star_w@ =~= seq!['*']);
    assert(re_w@ =~= seq!['r', 'e']);
    if same_chars(value.as_slice(), &and_w) {
        Token::And
    } else if same_chars(value.as_slice(), &or_w) {
        Token::Or
    } else if same_chars(value.as_slice(), &not_w) {
        Token::Not
    } else if same_chars(value.as_slice(), &to_w) {
        Token::To
    } else if same_chars(value.as_slice(), &star_w) {
        Token::Star
    } else if same_chars(value.as_slice(), &re_w) {
        Token::Re
    } else {
        Token::Word { value: string_of(value.as_slice()), raw: string_of(raw.as_slice()) }
    }
}

fn punct_token_exec(c: char) -> (r: Option<Token>)
    ensures
        match r {
            Some(t) => punct_token(c) == Some(t.model()),
            None => punct_token(c) is None,
        },
{
    if c == ':' {
        Some(Token::Colon)
    } else if c == '(' {
        Some(Token::LParen)
    } else if c == ')' {
        Some(Token::RParen)
    } else if c == '[' {
        Some(Token::LBracket)
    } else if c == ']' {
        Some(Token::RBracket)
    } else if c == '{' {
        Some(Token::LBrace)
    } else if c == '}' {
        Some(Token::RBrace)
    } else if c == '-' {
        Some(Token::Minus)
    } else if c == '|' {
        Some(Token::Pipe)
    } else {
        None
    }
}

/// Splits a query into tokens, ending with [`Token::Eof`].
pub fn tokenize(query: &str) -> (r: Result<Vec<Token>, LuceneParseError>)
    ensures
        match r {
            Ok(ts) => lex(query@) == Ok::<Seq<Tok>, Seq<char>>(tok_models(ts@)),
            Err(m) => lex(query@) == Err::<Seq<Tok>, Seq<char>>(m.0@),
        },
{
    let cs = chars_of(query);
    let n = cs.len();
    let mut toks: Vec<Token> = Vec::new();
    let mut p: usize = 0;
    assert(tok_models(toks@) =~= Seq::<Tok>::empty());
    loop
        invariant
            p <= n,
            n == cs@.len(),
            cs@ == query@,
            lex(query@) == lex_from(cs@, p as int, tok_models(toks@)),
        decreases n - p,
    {
        let ghost p0 = p;
        let mut q = p;
        while q < n && is_ws_char(cs[q])
            invariant
                p0 <= q <= n,
                n == cs@.len(),
                skip_ws(cs@, p0 as int) == skip_ws(cs@, q as int),
            decreases n - q,
        {
            q = q + 1;
        }
        proof { lemma_skip_ws(cs@, p0 as int); }
        let ghost before = tok_models(toks@);
        if q >= n {
            toks.push(Token::Eof);
            assert(tok_models(toks@) =~= before.push(Tok::Eof));
            return Ok(toks);
        }
        let c = cs[q];
        match punct_token_exec(c) {
            Some(t) => {
                toks.push(t);
                assert(tok_models(toks@) =~= before.push(t.model()));
                p = q + 1;
            },
            None => {
                if c == '"' {
                    match read_string_lit(&cs, q + 1) {
                        Ok((s, e)) => {
                            proof { lemma_string_lit_from(cs@, q + 1, Seq::empty()); }
                            let t = Token::StringLit(string_of(s.as_slice()));
                            toks.push(t);
                            assert(tok_models(toks@) =~= before.push(Tok::StringLit(s@)));
                            p = e;
                        },
                        Err(m) => {
                            return Err(m);
                        },
                    }
                } else if c == '/' {
                    match read_regex_lit(&cs, q + 1) {
                        Ok((s, e)) => {
                            proof { lemma_regex_lit_from(cs@, q + 1, Seq::empty()); }
                            let t = Token::RegexLit(string_of(s.as_slice()));
                            toks.push(t);
                            assert(tok_models(toks@) =~= before.push(Tok::RegexLit(s@)));
                            p = e;
                        },
                        Err(m) => {
                            return Err(m);
                        },
                    }
                } else if is_word_start_exec(c) {
                    let (v, rw, e) = read_word(&cs, q);
                    proof { lemma_word_from(cs@, q as int, Seq::empty(), Seq::empty()); }
                    let t = word_token_exec(v, rw);
                    toks.push(t);
                    assert(tok_models(toks@) =~= before.push(t.model()));
                    p = e;
                } else {
                    p = q + 1;
                }
            },
        }
    }
}

// ---------------------------------------------------------------------------
// Parser: specification
// ---------------------------------------------------------------------------

/// Fields whose quoted values become regular-expression or sigma (case
/// insensitive wildcard) expressions; the `_all` flags select every field.
pub struct SpecialFields {
    pub regex_fields: Vec<String>,
    pub sigma_fields: Vec<String>,
    pub regex_all: bool,
    pub sigma_all: bool,
}

pub struct SpecialModel {
    pub regex_fields: Seq<Seq<char>>,
    pub sigma_fields: Seq<Seq<char>>,
    pub regex_all: bool,
    pub sigma_all: bool,
}

pub open spec fn special_model(sf: SpecialFields) -> SpecialModel {
    SpecialModel {
        regex_fields: views(sf.regex_fields@),
        sigma_fields: views(sf.sigma_fields@),
        regex_all: sf.regex_all,
        sigma_all: sf.sigma_all,
    }
}

/// What a parse needs besides the tokens: the special fields, and the
/// binary64 readings of range bounds (`text`, float) that read as numbers.
pub struct Ctx {
    pub sf: SpecialModel,
    pub floats: Seq<(Seq<char>, FloatModel)>,
}

/// The reading of a range bound text, from the first entry for it.
pub open spec fn float_reading(fl: Seq<(Seq<char>, FloatModel)>, t: Seq<char>) -> Option<FloatModel>
    decreases fl.len(),
{
    if fl.len() == 0 {
        None
    } else if fl[0].0 == t {
        Some(fl[0].1)
    } else {
        float_reading(fl.subrange(1, fl.len() as int), t)
    }
}

/// The debug text of a string (`format!("{:?}", s)`).
pub uninterp spec fn str_debug_text(s: Seq<char>) -> Seq<char>;

/// `format!("{:?}", s)`: the debug text of a string. Nothing is claimed of
/// the text but that it is a function of `s`.
#[verifier::external_body]
pub(crate) fn str_debug(s: &str) -> (r: String)
    ensures
        r@ == str_debug_text(s@),
{
    format!("{:?}", s)
}

/// A token as its derived `Debug` writes it.
pub open spec fn tok_debug(t: Tok) -> Seq<char> {
    match t {
        Tok::Colon => seq!['C','o','l','o','n'],
        Tok::LParen => seq!['L','P','a','r','e','n'],
        Tok::RParen => seq!['R','P','a','r','e','n'],
        Tok::LBracket => seq!['L','B','r','a','c','k','e','t'],
        Tok::RBracket => seq!['R','B','r','a','c','k','e','t'],
        Tok::LBrace => seq!['L','B','r','a','c','e'],
        Tok::RBrace => seq!['R','B','r','a','c','e'],
        Tok::To => seq!['T','o'],
        Tok::And => seq!['A','n','d'],
        Tok::Or => seq!['O','r'],
        Tok::Not => seq!['N','o','t'],
        Tok::Minus => seq!['M','i','n','u','s'],
        Tok::Star => seq!['S','t','a','r'],
        Tok::Pipe => seq!['P','i','p','e'],
        Tok::Re => seq!['R','e'],
        Tok::StringLit(x) => seq!['S','t','r','i','n','g','L','i','t','('] + str_debug_text(x) + seq![')'],
        Tok::RegexLit(x) => seq!['R','e','g','e','x','L','i','t','('] + str_debug_text(x) + seq![')'],
        Tok::Word { value, raw } => seq!['W','o','r','d',' ','{',' ','v','a','l','u','e',':',' '] + str_debug_text(value)
            + seq![',',' ','r','a','w',':',' '] + str_debug_text(raw) + seq![' ','}'],
        Tok::Eof => seq!['E','o','f'],
    }
}

pub open spec fn peek(ts: Seq<Tok>, p: int) -> Tok {
    if 0 <= p < ts.len() { ts[p] } else { Tok::Eof }
}

pub open spec fn adv(ts: Seq<Tok>, p: int) -> int {
    if 0 <= p < ts.len() { p + 1 } else { p }
}

/// Tokens left from `p` on.
pub open spec fn rem(ts: Seq<Tok>, p: int) -> int {
    if p <= ts.len() { ts.len() - p } else { 0 }
}

pub open spec fn clamp(q: int, p: int) -> int {
    if q < p { p } else { q }
}

pub open spec fn is_bracket(t: Tok) -> bool {
    t is LBracket || t is LBrace
}

/// `prefix` + `t`: error texts are built this way.
pub open spec fn text_of(s: &str) -> Seq<char> {
    s@
}

pub open spec fn expected_got(expected: Tok, got: Tok) -> Seq<char> {
    seq!['E','x','p','e','c','t','e','d',' '] + tok_debug(expected) + seq![',',' ','g','o','t',' '] + tok_debug(got)
}

pub open spec fn invalid_regex(e: Seq<char>) -> Seq<char> {
    seq!['I','n','v','a','l','i','d',' ','r','e','g','e','x',':',' '] + e
}

/// A regex expression on `key` from a user regex: anchored, and accepted
/// by the `regex` crate.
#[verifier::opaque]
pub open spec fn regex_expr(key: Seq<Seq<char>>, p: Seq<char>) -> Result<Expr, Seq<char>> {
    let norm = normalized_regex(p);
    match std_regex_compile_error(norm) {
        None => Ok(Expr::Regex { key, pattern: norm }),
        Some(e) => Err(invalid_regex(e)),
    }
}

/// The expression a value on `key` stands for: a regex or sigma expression
/// for quoted values of special fields (when the pattern compiles), a regex
/// for unquoted values of regex fields, `null`, a wildcard pattern for a
/// value holding `*` or `?`, and otherwise a string comparison.
#[verifier::opaque]
pub open spec fn string_expr(key: Seq<Seq<char>>, value: Seq<char>, raw: Seq<char>, quoted: bool, sf: SpecialModel) -> Expr {
    let dotted = dotted_name(key);
    let norm = normalized_regex(raw);
    let std_ok = std_regex_compile_error(norm) is None;
    let sigma_ok = fancy_compile_error(sigma_regex(value)) is None;
    if quoted && sf.regex_all && std_ok {
        Expr::Regex { key, pattern: norm }
    } else if quoted && sf.regex_fields.len() > 0 && sf.regex_fields.contains(dotted) && std_ok {
        Expr::Regex { key, pattern: norm }
    } else if quoted && sf.sigma_all && sigma_ok {
        Expr::Sigma { key, expected: value }
    } else if quoted && sf.sigma_fields.len() > 0 && sf.sigma_fields.contains(dotted) && sigma_ok {
        Expr::Sigma { key, expected: value }
    } else if !quoted && sf.regex_fields.len() > 0 && sf.regex_fields.contains(dotted) && std_ok {
        Expr::Regex { key, pattern: norm }
    } else if !quoted && value == seq!['n', 'u', 'l', 'l'] {
        Expr::Null { key }
    } else if !quoted && (value.contains('*') || value.contains('?')) && fancy_compile_error(wildcard_regex(value)) is None {
        Expr::Wildcard { key, expected: value }
    } else {
        Expr::Str { key, expected: value }
    }
}

/// Law: without regex or sigma fields, an unquoted `null` is a null test,
/// another unquoted value holding `*` or `?` is a wildcard test (where its
/// pattern compiles), and every other value is a string comparison.
pub proof fn lemma_plain_string_expr(key: Seq<Seq<char>>, value: Seq<char>, raw: Seq<char>, quoted: bool)
    ensures
        string_expr(key, value, raw, quoted, SpecialModel {
            regex_fields: Seq::empty(),
            sigma_fields: Seq::empty(),
            regex_all: false,
            sigma_all: false,
        }) == (if !quoted && value == seq!['n', 'u', 'l', 'l'] {
            Expr::Null { key }
        } else if !quoted && (value.contains('*') || value.contains('?'))
            && fancy_compile_error(wildcard_regex(value)) is None {
            Expr::Wildcard { key, expected: value }
        } else {
            Expr::Str { key, expected: value }
        }),
{
    reveal(string_expr);
}

/// Gives the leaves of a field group the group's key.
pub open spec fn fill_leaf_keys(e: Expr, key: Seq<Seq<char>>, sf: SpecialModel) -> Result<Expr, Seq<char>>
    decreases e, 0int,
{
    match e {
        Expr::Str { expected, .. } => Ok(string_expr(key, expected, expected, false, sf)),
        Expr::Wildcard { expected, .. } => match fancy_compile_error(wildcard_regex(expected)) {
            None => Ok(Expr::Wildcard { key, expected }),
            Some(err) => Err(invalid_regex(err)),
        },
        Expr::Sigma { expected, .. } => match fancy_compile_error(sigma_regex(expected)) {
            None => Ok(Expr::Sigma { key, expected }),
            Some(err) => Err(invalid_regex(err)),
        },
        Expr::Regex { pattern, .. } => regex_expr(key, pattern),
        Expr::Null { .. } => Ok(Expr::Null { key }),
        Expr::Not(c) => match fill_leaf_keys(*c, key, sf) {
            Ok(x) => Ok(Expr::Not(Box::new(x))),
            Err(m) => Err(m),
        },
        Expr::And(cs) => match fill_all(cs, key, sf) {
            Ok(xs) => Ok(Expr::And(xs)),
            Err(m) => Err(m),
        },
        Expr::Or(cs) => match fill_all(cs, key, sf) {
            Ok(xs) => Ok(Expr::Or(xs)),
            Err(m) => Err(m),
        },
        _ => Ok(e),
    }
}

/// [`fill_leaf_keys`] on each expression, failing at the first failure.
pub open spec fn fill_all(cs: Seq<Expr>, key: Seq<Seq<char>>, sf: SpecialModel) -> Result<Seq<Expr>, Seq<char>>
    decreases cs, 0int,
{
    if cs.len() == 0 {
        Ok(Seq::empty())
    } else {
        proof {
            assert(decreases_to!(cs => cs[cs.len() - 1]));
            assert(decreases_to!(cs => cs.subrange(0, cs.len() - 1)));
        }
        match fill_all(cs.subrange(0, cs.len() - 1), key, sf) {
            Err(m) => Err(m),
            Ok(xs) => match fill_leaf_keys(cs[cs.len() - 1], key, sf) {
                Ok(x) => Ok(xs.push(x)),
                Err(m) => Err(m),
            },
        }
    }
}

/// Applies a field group's key to what the group holds.
pub open spec fn apply_group(e: Expr, key: Seq<Seq<char>>, sf: SpecialModel) -> Result<Expr, Seq<char>> {
    match e {
        Expr::Or(cs) => match fill_all(cs, key, sf) {
            Ok(xs) => Ok(Expr::Or(xs)),
            Err(m) => Err(m),
        },
        Expr::And(cs) => match fill_all(cs, key, sf) {
            Ok(xs) => Ok(Expr::And(xs)),
            Err(m) => Err(m),
        },
        _ => fill_leaf_keys(e, key, sf),
    }
}

pub open spec fn range_msg(prefix: Seq<char>, lower: Seq<char>, upper: Seq<char>) -> Seq<char> {
    prefix + seq!['['] + lower + seq![' ', 'T', 'O', ' '] + upper + seq![']']
}

pub open spec fn exceed_prefix() -> Seq<char> {
    seq!['T','h','e',' ','l','o','w','e','r',' ','r','a','n','g','e',' ','b','o','u','n','d','a','r','y',' ',
        'm','u','s','t',' ','n','o','t',' ','e','x','c','e','e','d',' ','t','h','e',' ','u','p','p','e','r',' ',
        'r','a','n','g','e',' ','b','o','u','n','d','a','r','y',':',' ']
}

pub open spec fn open_prefix() -> Seq<char> {
    seq!['O','p','e','n',' ','r','a','n','g','e','s',' ','a','r','e',' ','n','o','t',' ',
        's','u','p','p','o','r','t','e','d',':',' ']
}

pub open spec fn mixed_prefix() -> Seq<char> {
    seq!['M','i','x','e','d',' ','n','u','m','e','r','i','c',' ','a','n','d',' ','s','t','r','i','n','g',' ',
        'r','a','n','g','e',' ','b','o','u','n','d','a','r','i','e','s',' ','a','r','e',' ','n','o','t',' ',
        's','u','p','p','o','r','t','e','d',':',' ']
}

pub open spec fn not_finite_msg() -> Seq<char> {
    seq!['R','a','n','g','e',' ','b','o','u','n','d','a','r','i','e','s',' ','m','u','s','t',' ','b','e',' ',
        'f','i','n','i','t','e',' ','n','u','m','b','e','r','s']
}

pub open spec fn no_reading_msg() -> Seq<char> {
    seq!['N','o',' ','b','i','n','a','r','y','6','4',' ','r','e','a','d','i','n','g',' ','f','o','r',' ',
        'a',' ','r','a','n','g','e',' ','b','o','u','n','d','a','r','y']
}

/// Reads a range bound: a word, a quoted string, `*`, or `-` and a word.
#[verifier::opaque]
pub open spec fn range_boundary(ts: Seq<Tok>, p: int) -> Result<(Seq<char>, int), Seq<char>> {
    match peek(ts, p) {
        Tok::Word { value, .. } => Ok((value, adv(ts, p))),
        Tok::StringLit(x) => Ok((x, adv(ts, p))),
        Tok::Star => Ok((seq!['*'], adv(ts, p))),
        Tok::Minus => match peek(ts, adv(ts, p)) {
            Tok::Word { value, .. } => Ok((seq!['-'] + value, adv(ts, adv(ts, p)))),
            _ => Err(seq!['E','x','p','e','c','t','e','d',' ','v','a','l','u','e',' ','a','f','t','e','r',' ',
                '\'','-','\'',' ','i','n',' ','r','a','n','g','e']),
        },
        t => Err(seq!['I','n','v','a','l','i','d',' ','r','a','n','g','e',' ','b','o','u','n','d','a','r','y',':',' '] + tok_debug(t)),
    }
}

/// The range expression for two bounds: integers when both read as `i64`,
/// floats when both read as finite binary64 numbers, strings when neither
/// reads as a number; the lower bound must not exceed the upper one.
#[verifier::opaque]
pub open spec fn range_expr(key: Seq<Seq<char>>, lower: Seq<char>, upper: Seq<char>, incl_low: bool, incl_high: bool,
    floats: Seq<(Seq<char>, FloatModel)>) -> Result<Expr, Seq<char>>
{
    if lower == seq!['*'] || upper == seq!['*'] {
        Err(range_msg(open_prefix(), lower, upper))
    } else if i64_of(lower) is Some && i64_of(upper) is Some {
        let lo = i64_of(lower)->0;
        let hi = i64_of(upper)->0;
        if lo > hi {
            Err(range_msg(exceed_prefix(), lower, upper))
        } else {
            Ok(Expr::IntegerRange { key, lower: lo, upper: hi, incl_low, incl_high })
        }
    } else if parses_as_f64(lower) && parses_as_f64(upper) {
        if !finite_f64_text(lower) || !finite_f64_text(upper) {
            Err(not_finite_msg())
        } else {
            match (float_reading(floats, lower), float_reading(floats, upper)) {
                (Some(a), Some(b)) => if crate::filter::number::f64_lt(b.bits, a.bits) {
                    Err(range_msg(exceed_prefix(), lower, upper))
                } else {
                    Ok(Expr::FloatRange { key, lower: a, upper: b, incl_low, incl_high })
                },
                _ => Err(no_reading_msg()),
            }
        }
    } else if parses_as_f64(lower) || parses_as_f64(upper) {
        Err(range_msg(mixed_prefix(), lower, upper))
    } else if seq_lt(upper, lower) {
        Err(range_msg(exceed_prefix(), lower, upper))
    } else {
        Ok(Expr::StringRange { key, lower: Some(lower), upper: Some(upper), incl_low, incl_high })
    }
}

/// Law: a range is rejected exactly when a bound is `*`; when both bounds
/// are integers and the lower exceeds the upper; when both read as numbers
/// (not both integers) and one is not finite, has no reading, or the lower
/// exceeds the upper; when exactly one bound reads as a number; or when
/// neither does and the lower text comes after the upper.
pub proof fn lemma_range_rejections(key: Seq<Seq<char>>, lower: Seq<char>, upper: Seq<char>, incl_low: bool,
    incl_high: bool, floats: Seq<(Seq<char>, FloatModel)>)
    ensures
        range_expr(key, lower, upper, incl_low, incl_high, floats) is Err <==> (
            lower == seq!['*'] || upper == seq!['*']
            || (i64_of(lower) is Some && i64_of(upper) is Some && i64_of(lower)->0 > i64_of(upper)->0)
            || (!(i64_of(lower) is Some && i64_of(upper) is Some) && parses_as_f64(lower) && parses_as_f64(upper)
                && (!finite_f64_text(lower) || !finite_f64_text(upper)
                    || float_reading(floats, lower) is None || float_reading(floats, upper) is None
                    || crate::filter::number::f64_lt(float_reading(floats, upper)->0.bits, float_reading(floats, lower)->0.bits)))
            || (parses_as_f64(lower) != parses_as_f64(upper) && !(i64_of(lower) is Some && i64_of(upper) is Some))
            || (!parses_as_f64(lower) && !parses_as_f64(upper) && !(i64_of(lower) is Some && i64_of(upper) is Some)
                && seq_lt(upper, lower))
        ),
{
    reveal(range_expr);
}

/// Reads a range at `p`. With `first` empty the opening bracket and the
/// lower bound are read here; otherwise `first` is the lower bound and the
/// token at `p` is taken as the opening bracket without being consumed.
#[verifier::opaque]
pub open spec fn parse_range(ts: Seq<Tok>, p: int, key: Seq<Seq<char>>, first: Seq<char>, ctx: Ctx) -> Result<(Expr, int), Seq<char>> {
    let bracket = peek(ts, p);
    let p1 = if first.len() == 0 { adv(ts, p) } else { p };
    let incl_low = bracket is LBracket;
    let low = if first.len() == 0 { range_boundary(ts, p1) } else { Ok((first, p1)) };
    match low {
        Err(m) => Err(m),
        Ok((lower, p2)) => {
            let to = peek(ts, p2);
            let p3 = adv(ts, p2);
            if !(to is To) {
                Err(seq!['E','x','p','e','c','t','e','d',' ','T','O',',',' ','g','o','t',' '] + tok_debug(to))
            } else {
                match range_boundary(ts, p3) {
                    Err(m) => Err(m),
                    Ok((upper, p4)) => {
                        let close = peek(ts, p4);
                        let p5 = adv(ts, p4);
                        let incl_high = close is RBracket;
                        if !incl_high && !(close is RBrace) {
                            Err(seq!['E','x','p','e','c','t','e','d',' ',']',' ','o','r',' ','}',',',' ','g','o','t',' '] + tok_debug(close))
                        } else {
                            match range_expr(key, lower, upper, incl_low, incl_high, ctx.floats) {
                                Ok(e) => Ok((e, p5)),
                                Err(m) => Err(m),
                            }
                        }
                    },
                }
            }
        },
    }
}

/// Law: a range written `[lo TO hi]` (either bracket may be a brace, which
/// excludes its bound) reads as the range expression of its two bounds,
/// and is rejected exactly where that expression is (see
/// [`lemma_range_rejections`]).
pub proof fn lemma_bracketed_range(ts: Seq<Tok>, p: int, key: Seq<Seq<char>>, ctx: Ctx)
    requires
        0 <= p,
        p + 5 <= ts.len(),
        ts[p] is LBracket || ts[p] is LBrace,
        ts[p + 1] is Word,
        ts[p + 2] is To,
        ts[p + 3] is Word,
        ts[p + 4] is RBracket || ts[p + 4] is RBrace,
    ensures
        parse_range(ts, p, key, Seq::empty(), ctx) == match range_expr(key, ts[p + 1]->value, ts[p + 3]->value,
            ts[p] is LBracket, ts[p + 4] is RBracket, ctx.floats) {
            Ok(e) => Ok::<(Expr, int), Seq<char>>((e, p + 5)),
            Err(m) => Err(m),
        },
{
    reveal(parse_range);
    reveal(range_boundary);
}

pub open spec fn join_or(left: Expr, right: Expr) -> Expr {
    match left {
        Expr::Or(cs) => Expr::Or(cs.push(right)),
        _ => Expr::Or(seq![left, right]),
    }
}

pub open spec fn join_and(left: Expr, right: Expr) -> Expr {
    match left {
        Expr::And(cs) => Expr::And(cs.push(right)),
        _ => Expr::And(seq![left, right]),
    }
}

/// `a OR b OR …`.
pub open spec fn parse_or(ts: Seq<Tok>, p: int, fg: Option<Seq<Seq<char>>>, ctx: Ctx) -> Result<(Expr, int), Seq<char>>
    decreases rem(ts, p), 9int,
{
    match parse_and(ts, p, fg, ctx) {
        Err(m) => Err(m),
        Ok((left, q)) => or_loop(ts, clamp(q, p), left, fg, ctx),
    }
}

pub open spec fn or_loop(ts: Seq<Tok>, p: int, left: Expr, fg: Option<Seq<Seq<char>>>, ctx: Ctx) -> Result<(Expr, int), Seq<char>>
    decreases rem(ts, p), 8int,
{
    if peek(ts, p) is Or && 0 <= p < ts.len() {
        match parse_and(ts, p + 1, fg, ctx) {
            Err(m) => Err(m),
            Ok((right, q)) => or_loop(ts, clamp(q, p + 1), join_or(left, right), fg, ctx),
        }
    } else {
        Ok((left, p))
    }
}

/// `a AND b AND …`.
pub open spec fn parse_and(ts: Seq<Tok>, p: int, fg: Option<Seq<Seq<char>>>, ctx: Ctx) -> Result<(Expr, int), Seq<char>>
    decreases rem(ts, p), 7int,
{
    match parse_not(ts, p, fg, ctx) {
        Err(m) => Err(m),
        Ok((left, q)) => and_loop(ts, clamp(q, p), left, fg, ctx),
    }
}

pub open spec fn and_loop(ts: Seq<Tok>, p: int, left: Expr, fg: Option<Seq<Seq<char>>>, ctx: Ctx) -> Result<(Expr, int), Seq<char>>
    decreases rem(ts, p), 6int,
{
    if peek(ts, p) is And && 0 <= p < ts.len() {
        match parse_not(ts, p + 1, fg, ctx) {
            Err(m) => Err(m),
            Ok((right, q)) => and_loop(ts, clamp(q, p + 1), join_and(left, right), fg, ctx),
        }
    } else {
        Ok((left, p))
    }
}

/// `NOT a`, or an atom.
pub open spec fn parse_not(ts: Seq<Tok>, p: int, fg: Option<Seq<Seq<char>>>, ctx: Ctx) -> Result<(Expr, int), Seq<char>>
    decreases rem(ts, p), 5int,
{
    if peek(ts, p) is Not && 0 <= p < ts.len() {
        match parse_not(ts, p + 1, fg, ctx) {
            Err(m) => Err(m),
            Ok((c, q)) => Ok((Expr::Not(Box::new(c)), q)),
        }
    } else {
        parse_atom(ts, p, fg, ctx)
    }
}

/// A parenthesised query, `*`, `-a`, a range inside a field group, or a
/// field or value.
pub open spec fn parse_atom(ts: Seq<Tok>, p: int, fg: Option<Seq<Seq<char>>>, ctx: Ctx) -> Result<(Expr, int), Seq<char>>
    decreases rem(ts, p), 4int,
{
    let t = peek(ts, p);
    if 0 <= p < ts.len() && t is LParen {
        match parse_or(ts, p + 1, fg, ctx) {
            Err(m) => Err(m),
            Ok((e, q)) => if peek(ts, q) is RParen { Ok((e, adv(ts, q))) } else { Err(expected_got(Tok::RParen, peek(ts, q))) },
        }
    } else if t is Star {
        Ok((Expr::Always(true), adv(ts, p)))
    } else if 0 <= p < ts.len() && t is Minus {
        match parse_not(ts, p + 1, fg, ctx) {
            Err(m) => Err(m),
            Ok((c, q)) => Ok((Expr::Not(Box::new(c)), q)),
        }
    } else if is_bracket(t) {
        match fg {
            Some(k) => parse_range(ts, p, k, Seq::empty(), ctx),
            None => Err(seq!['E','x','p','e','c','t','e','d',' ','f','i','e','l','d',' ','n','a','m','e',' ',
                'b','e','f','o','r','e',' ','\'','[','\'',' ','o','r',' ','\'','{','\'']),
        }
    } else if t is Word || t is RegexLit || t is StringLit {
        parse_field_or_value(ts, p, fg, ctx)
    } else {
        Err(seq!['U','n','e','x','p','e','c','t','e','d',' ','t','o','k','e','n',':',' '] + tok_debug(t))
    }
}

/// Law: a query part that starts with `-` or `NOT` reads exactly when the
/// rest does, ends where the rest ends, and matches exactly the documents
/// the rest does not match.
pub proof fn lemma_negation_prefix(
    ts: Seq<Tok>,
    p: int,
    fg: Option<Seq<Seq<char>>>,
    ctx: Ctx,
    d: crate::value::Json,
    facts: Seq<(Seq<char>, Option<u64>)>,
)
    requires
        0 <= p < ts.len(),
        ts[p] is Minus || ts[p] is Not,
    ensures
        parse_not(ts, p, fg, ctx) is Ok == parse_not(ts, p + 1, fg, ctx) is Ok,
        parse_not(ts, p, fg, ctx) matches Ok((e, q)) ==> (parse_not(ts, p + 1, fg, ctx) matches Ok((c, q2))
            && q == q2
            && crate::filter::expression::expr_matches(e, d, facts) == !crate::filter::expression::expr_matches(c, d, facts)),
{
    if ts[p] is Minus {
        assert(parse_not(ts, p, fg, ctx) == parse_atom(ts, p, fg, ctx));
    }
}

/// A field name part with its escapes resolved: `\c` stands for `c`.
pub open spec fn unescaped(s: Seq<char>) -> Seq<char>
    decreases s.len(),
{
    if s.len() == 0 {
        s
    } else if s[0] == '\\' && s.len() >= 2 {
        seq![s[1]] + unescaped(s.subrange(2, s.len() as int))
    } else {
        seq![s[0]] + unescaped(s.subrange(1, s.len() as int))
    }
}

/// The key a field name of a query stands for: split at dots that are not
/// escaped, each part with its escapes resolved.
pub open spec fn field_key(word: Seq<char>) -> Seq<Seq<char>> {
    let parts = dotted_split(word);
    Seq::new(parts.len(), |i: int| unescaped(parts[i]))
}

/// A word, regex or quoted string: a `field:value` pair, a `field|re:`
/// regex, a value inside a field group, or a field that must exist.
pub open spec fn parse_field_or_value(ts: Seq<Tok>, p: int, fg: Option<Seq<Seq<char>>>, ctx: Ctx) -> Result<(Expr, int), Seq<char>>
    decreases rem(ts, p), 3int,
{
    let q = adv(ts, p);
    match peek(ts, p) {
        Tok::Word { value, raw } => {
            let piped = peek(ts, q) is Pipe;
            let q1 = if piped { adv(ts, q) } else { q };
            let q2 = if piped && peek(ts, q1) is Re { adv(ts, q1) } else { q1 };
            if piped && peek(ts, q2) is Colon && 0 <= q2 < ts.len() && p < q2 {
                parse_regex_value(ts, q2 + 1, field_key(value), fg, ctx)
            } else if peek(ts, q2) is Colon && 0 <= q2 < ts.len() && p < q2 {
                parse_value_after_colon(ts, q2 + 1, field_key(value), fg, ctx)
            } else {
                match fg {
                    Some(k) => Ok((string_expr(k, value, raw, false, ctx.sf), q2)),
                    None => if value == seq!['*'] {
                        Ok((Expr::Always(true), q2))
                    } else {
                        Ok((Expr::Exists { key: field_key(value) }, q2))
                    },
                }
            }
        },
        Tok::RegexLit(x) => {
            if peek(ts, q) is Colon && 0 <= q < ts.len() && p < q {
                parse_regex_value(ts, q + 1, dotted_split(x), fg, ctx)
            } else {
                let key = match fg { Some(k) => k, None => Seq::empty() };
                match regex_expr(key, x) {
                    Ok(e) => Ok((e, q)),
                    Err(m) => Err(m),
                }
            }
        },
        Tok::StringLit(x) => {
            if peek(ts, q) is Colon && 0 <= q < ts.len() && p < q {
                parse_value_after_colon(ts, q + 1, dotted_split(x), fg, ctx)
            } else {
                match fg {
                    Some(k) => Ok((string_expr(k, x, x, true, ctx.sf), q)),
                    None => Ok((Expr::Str { key: Seq::empty(), expected: x }, q)),
                }
            }
        },
        t => Err(seq!['U','n','e','x','p','e','c','t','e','d',' ','t','o','k','e','n',' ','i','n',' ','a','t','o','m',':',' '] + tok_debug(t)),
    }
}

/// The value of a `field|re:` pair: a regex from a string, regex or word,
/// or a field group of regexes.
pub open spec fn parse_regex_value(ts: Seq<Tok>, p: int, key: Seq<Seq<char>>, fg: Option<Seq<Seq<char>>>, ctx: Ctx) -> Result<(Expr, int), Seq<char>>
    decreases rem(ts, p), 2int,
{
    match peek(ts, p) {
        Tok::StringLit(x) => match regex_expr(key, x) { Ok(e) => Ok((e, adv(ts, p))), Err(m) => Err(m) },
        Tok::RegexLit(x) => match regex_expr(key, x) { Ok(e) => Ok((e, adv(ts, p))), Err(m) => Err(m) },
        Tok::Word { raw, .. } => match regex_expr(key, raw) { Ok(e) => Ok((e, adv(ts, p))), Err(m) => Err(m) },
        Tok::LParen => if 0 <= p < ts.len() { parse_group(ts, p, key, ctx) } else { Err(Seq::empty()) },
        t => Err(seq!['U','n','e','x','p','e','c','t','e','d',' ','r','e','g','e','x',' ','v','a','l','u','e',' ','t','o','k','e','n',':',' '] + tok_debug(t)),
    }
}

/// The value of a `field:` pair.
pub open spec fn parse_value_after_colon(ts: Seq<Tok>, p: int, key: Seq<Seq<char>>, fg: Option<Seq<Seq<char>>>, ctx: Ctx) -> Result<(Expr, int), Seq<char>>
    decreases rem(ts, p), 2int,
{
    let q = adv(ts, p);
    match peek(ts, p) {
        Tok::LParen => if 0 <= p < ts.len() { parse_group(ts, p, key, ctx) } else { Err(Seq::empty()) },
        Tok::StringLit(x) => Ok((string_expr(key, x, x, true, ctx.sf), q)),
        Tok::RegexLit(x) => match regex_expr(key, x) { Ok(e) => Ok((e, q)), Err(m) => Err(m) },
        Tok::Word { value, raw } => if is_bracket(peek(ts, q)) {
            parse_range(ts, q, key, value, ctx)
        } else if value == seq!['n', 'u', 'l', 'l'] {
            Ok((Expr::Null { key }, q))
        } else {
            Ok((string_expr(key, value, raw, false, ctx.sf), q))
        },
        Tok::Minus => match peek(ts, q) {
            Tok::Word { value, raw } => {
                let q2 = adv(ts, q);
                if is_bracket(peek(ts, q2)) {
                    parse_range(ts, q2, key, seq!['-'] + value, ctx)
                } else {
                    Ok((string_expr(key, seq!['-'] + value, seq!['-'] + raw, false, ctx.sf), q2))
                }
            },
            _ => Err(seq!['E','x','p','e','c','t','e','d',' ','v','a','l','u','e',' ','a','f','t','e','r',' ','\'','-','\'']),
        },
        Tok::Star => Ok((Expr::Always(true), q)),
        Tok::LBracket => parse_range(ts, p, key, Seq::empty(), ctx),
        Tok::LBrace => parse_range(ts, p, key, Seq::empty(), ctx),
        t => Err(seq!['U','n','e','x','p','e','c','t','e','d',' ','v','a','l','u','e',' ','t','o','k','e','n',':',' '] + tok_debug(t)),
    }
}

/// A field group `(…)` at `p` whose leaves get `key`.
pub open spec fn parse_group(ts: Seq<Tok>, p: int, key: Seq<Seq<char>>, ctx: Ctx) -> Result<(Expr, int), Seq<char>>
    decreases rem(ts, p), 1int,
{
    if 0 <= p < ts.len() {
        match parse_or(ts, p + 1, Some(key), ctx) {
            Err(m) => Err(m),
            Ok((e, q)) => if peek(ts, q) is RParen {
                match apply_group(e, key, ctx.sf) {
                    Ok(x) => Ok((x, adv(ts, q))),
                    Err(m) => Err(m),
                }
            } else {
                Err(expected_got(Tok::RParen, peek(ts, q)))
            },
        }
    } else {
        Err(Seq::empty())
    }
}

/// The expression a query stands for.
pub open spec fn parse_query(q: Seq<char>, ctx: Ctx) -> Result<Expr, Seq<char>> {
    match lex(q) {
        Err(m) => Err(m),
        Ok(ts) => match parse_or(ts, 0, None, ctx) {
            Ok((e, _)) => Ok(e),
            Err(m) => Err(m),
        },
    }
}

// ---------------------------------------------------------------------------
// Parser: executable helpers
// ---------------------------------------------------------------------------

pub open spec fn floats_model(f: Seq<(String, FloatNum)>) -> Seq<(Seq<char>, FloatModel)> {
    Seq::new(f.len(), |i: int| (f[i].0@, float_model(f[i].1)))
}

pub open spec fn fg_model(fg: Option<Vec<String>>) -> Option<Seq<Seq<char>>> {
    match fg {
        Some(k) => Some(views(k@)),
        None => None,
    }
}

/// An exec parse result agrees with the specification's.
pub open spec fn agrees(r: Result<(FilterExpressionInner, usize), LuceneParseError>, s: Result<(Expr, int), Seq<char>>) -> bool {
    match r {
        Ok((e, q)) => s == Ok::<(Expr, int), Seq<char>>((e.model(), q as int)),
        Err(m) => s == Err::<(Expr, int), Seq<char>>(m.0@),
    }
}

pub open spec fn expr_agrees(r: Result<FilterExpressionInner, LuceneParseError>, s: Result<Expr, Seq<char>>) -> bool {
    match r {
        Ok(e) => s == Ok::<Expr, Seq<char>>(e.model()),
        Err(m) => s == Err::<Expr, Seq<char>>(m.0@),
    }
}

pub open spec fn pos_ok(r: Result<(FilterExpressionInner, usize), LuceneParseError>, p: int, n: int) -> bool {
    r matches Ok((_, q)) ==> p <= q <= n
}

fn chars_msg(v: Vec<char>) -> (r: LuceneParseError)
    ensures
        r.0@ == v@,
{
    LuceneParseError(string_of(v.as_slice()))
}

fn push_text(out: &mut Vec<char>, s: &str)
    ensures
        final(out)@ == old(out)@ + s@,
{
    let c = chars_of(s);
    push_all(out, c.as_slice());
}

/// A copy of a string list.
pub fn copy_strings(v: &Vec<String>) -> (r: Vec<String>)
    ensures
        views(r@) == views(v@),
{
    let mut out: Vec<String> = Vec::new();
    let mut i: usize = 0;
    while i < v.len()
        invariant
            i <= v@.len(),
            out@.len() == i,
            forall|j: int| 0 <= j < i ==> #[trigger] out@[j]@ == v@[j]@,
        decreases v@.len() - i,
    {
        out.push(v[i].clone());
        i = i + 1;
    }
    assert(views(out@) =~= views(v@));
    out
}

fn copy_token(t: &Token) -> (r: Token)
    ensures
        r.model() == t.model(),
{
    match t {
        Token::Colon => Token::Colon,
        Token::LParen => Token::LParen,
        Token::RParen => Token::RParen,
        Token::LBracket => Token::LBracket,
        Token::RBracket => Token::RBracket,
        Token::LBrace => Token::LBrace,
        Token::RBrace => Token::RBrace,
        Token::To => Token::To,
        Token::And => Token::And,
        Token::Or => Token::Or,
        Token::Not => Token::Not,
        Token::Minus => Token::Minus,
        Token::Star => Token::Star,
        Token::Pipe => Token::Pipe,
        Token::Re => Token::Re,
        Token::StringLit(x) => Token::StringLit(x.clone()),
        Token::RegexLit(x) => Token::RegexLit(x.clone()),
        Token::Word { value, raw } => Token::Word { value: value.clone(), raw: raw.clone() },
        Token::Eof => Token::Eof,
    }
}

/// The token's debug text (see [`tok_debug`]).
fn token_debug(t: &Token) -> (r: Vec<char>)
    ensures
        r@ == tok_debug(t.model()),
{
    let mut out: Vec<char> = Vec::new();
    match t {
        Token::Colon => push_text(&mut out, "Colon"),
        Token::LParen => push_text(&mut out, "LParen"),
        Token::RParen => push_text(&mut out, "RParen"),
        Token::LBracket => push_text(&mut out, "LBracket"),
        Token::RBracket => push_text(&mut out, "RBracket"),
        Token::LBrace => push_text(&mut out, "LBrace"),
        Token::RBrace => push_text(&mut out, "RBrace"),
        Token::To => push_text(&mut out, "To"),
        Token::And => push_text(&mut out, "And"),
        Token::Or => push_text(&mut out, "Or"),
        Token::Not => push_text(&mut out, "Not"),
        Token::Minus => push_text(&mut out, "Minus"),
        Token::Star => push_text(&mut out, "Star"),
        Token::Pipe => push_text(&mut out, "Pipe"),
        Token::Re => push_text(&mut out, "Re"),
        Token::StringLit(x) => {
            push_text(&mut out, "StringLit(");
            push_text(&mut out, str_debug(x.as_str()).as_str());
            push_text(&mut out, ")");
        },
        Token::RegexLit(x) => {
            push_text(&mut out, "RegexLit(");
            push_text(&mut out, str_debug(x.as_str()).as_str());
            push_text(&mut out, ")");
        },
        Token::Word { value, raw } => {
            push_text(&mut out, "Word { value: ");
            push_text(&mut out, str_debug(value.as_str()).as_str());
            push_text(&mut out, ", raw: ");
            push_text(&mut out, str_debug(raw.as_str()).as_str());
            push_text(&mut out, " }");
        },
        Token::Eof => push_text(&mut out, "Eof"),
    }
    proof {
        reveal_strlit("Colon"); reveal_strlit("LParen"); reveal_strlit("RParen");
        reveal_strlit("LBracket"); reveal_strlit("RBracket"); reveal_strlit("LBrace");
        reveal_strlit("RBrace"); reveal_strlit("To"); reveal_strlit("And"); reveal_strlit("Or");
        reveal_strlit("Not"); reveal_strlit("Minus"); reveal_strlit("Star"); reveal_strlit("Pipe");
        reveal_strlit("Re"); reveal_strlit("StringLit("); reveal_strlit(")"); reveal_strlit("RegexLit(");
        reveal_strlit("Word { value: "); reveal_strlit(", raw: "); reveal_strlit(" }"); reveal_strlit("Eof");
    }
    assert(out@ =~= tok_debug(t.model()));
    out
}

fn msg_with_token(prefix: &str, t: &Token) -> (r: LuceneParseError)
    ensures
        r.0@ == prefix@ + tok_debug(t.model()),
{
    let mut out: Vec<char> = Vec::new();
    push_text(&mut out, prefix);
    let d = token_debug(t);
    push_all(&mut out, d.as_slice());
    chars_msg(out)
}

fn expected_got_msg(expected: &Token, got: &Token) -> (r: LuceneParseError)
    ensures
        r.0@ == expected_got(expected.model(), got.model()),
{
    let mut out: Vec<char> = Vec::new();
    push_text(&mut out, "Expected ");
    let d = token_debug(expected);
    push_all(&mut out, d.as_slice());
    push_text(&mut out, ", got ");
    let g = token_debug(got);
    push_all(&mut out, g.as_slice());
    proof { reveal_strlit("Expected "); reveal_strlit(", got "); }
    assert(out@ =~= expected_got(expected.model(), got.model()));
    chars_msg(out)
}

fn range_message(prefix: &str, lower: &[char], upper: &[char]) -> (r: LuceneParseError)
    ensures
        r.0@ == range_msg(prefix@, lower@, upper@),
{
    let mut out: Vec<char> = Vec::new();
    push_text(&mut out, prefix);
    out.push('[');
    push_all(&mut out, lower);
    out.push(' ');
    out.push('T');
    out.push('O');
    out.push(' ');
    push_all(&mut out, upper);
    out.push(']');
    assert(out@ =~= range_msg(prefix@, lower@, upper@));
    chars_msg(out)
}

/// A regex expression on `key` from a user regex (see [`regex_expr`]).
fn regex_expr_exec(key: &Vec<String>, pattern: &str) -> (r: Result<FilterExpressionInner, LuceneParseError>)
    ensures
        expr_agrees(r, regex_expr(views(key@), pattern@)),
{
    reveal(regex_expr);
    let norm = crate::filter::pattern::normalize_regex(pattern);
    match crate::filter::pattern::std_regex_error(norm.as_str()) {
        None => Ok(FilterExpressionInner::Regex { key: copy_strings(key), pattern: norm }),
        Some(e) => {
            let mut out: Vec<char> = Vec::new();
            push_text(&mut out, "Invalid regex: ");
            push_text(&mut out, e.as_str());
            proof { reveal_strlit("Invalid regex: "); }
            assert(out@ =~= invalid_regex(e@));
            Err(chars_msg(out))
        },
    }
}

fn list_contains(list: &Vec<String>, s: &str) -> (r: bool)
    ensures
        r == views(list@).contains(s@),
{
    let mut i: usize = 0;
    while i < list.len()
        invariant
            i <= list@.len(),
            forall|j: int| 0 <= j < i ==> list@[j]@ != s@,
        decreases list@.len() - i,
    {
        if crate::value::str_eq(list[i].as_str(), s) {
            assert(views(list@)[i as int] == s@);
            return true;
        }
        i = i + 1;
    }
    assert(!views(list@).contains(s@)) by {
        if views(list@).contains(s@) {
            let k = choose|k: int| 0 <= k < views(list@).len() && views(list@)[k] == s@;
            assert(list@[k]@ == s@);
        }
    }
    false
}

fn std_compiles(p: &str) -> (r: bool)
    ensures
        r == (std_regex_compile_error(p@) is None),
{
    crate::filter::pattern::std_regex_error(p).is_none()
}

fn fancy_compiles(p: &str) -> (r: bool)
    ensures
        r == (fancy_compile_error(p@) is None),
{
    crate::filter::pattern::fancy_regex_error(p).is_none()
}

/// The expression a value stands for (see [`string_expr`]).
fn create_string_expr(key: &Vec<String>, value: &str, raw: &str, is_quoted: bool, sf: &SpecialFields) -> (r: FilterExpressionInner)
    ensures
        r.model() == string_expr(views(key@), value@, raw@, is_quoted, special_model(*sf)),
{
    reveal(string_expr);
    let dotted = crate::field::field_list_to_dotted_field(key.as_slice());
    let norm = crate::filter::pattern::normalize_regex(raw);
    let ghost std_ok = std_regex_compile_error(norm@) is None;
    let ghost sigma_ok = fancy_compile_error(sigma_regex(value@)) is None;
    if is_quoted && sf.regex_all && std_compiles(norm.as_str()) {
        return FilterExpressionInner::Regex { key: copy_strings(key), pattern: norm };
    }
    if is_quoted && sf.regex_fields.len() > 0 && list_contains(&sf.regex_fields, dotted.as_str())
        && std_compiles(norm.as_str()) {
        return FilterExpressionInner::Regex { key: copy_strings(key), pattern: norm };
    }
    if is_quoted && sf.sigma_all
        && fancy_compiles(crate::filter::pattern::sigma_compiled_pattern(value).as_str()) {
        return FilterExpressionInner::Sigma { key: copy_strings(key), expected: string_of(chars_of(value).as_slice()) };
    }
    if is_quoted && sf.sigma_fields.len() > 0 && list_contains(&sf.sigma_fields, dotted.as_str())
        && fancy_compiles(crate::filter::pattern::sigma_compiled_pattern(value).as_str()) {
        return FilterExpressionInner::Sigma { key: copy_strings(key), expected: string_of(chars_of(value).as_slice()) };
    }
    if !is_quoted && sf.regex_fields.len() > 0 && list_contains(&sf.regex_fields, dotted.as_str())
        && std_compiles(norm.as_str()) {
        return FilterExpressionInner::Regex { key: copy_strings(key), pattern: norm };
    }
    let vc = chars_of(value);
    let null_w: [char; 4] = ['n', 'u', 'l', 'l'];
    assert(null_w@ =~= seq!['n', 'u', 'l', 'l']);
    if !is_quoted && same_chars(vc.as_slice(), &null_w) {
        return FilterExpressionInner::Null { key: copy_strings(key) };
    }
    if !is_quoted && (crate::text::contains_char(vc.as_slice(), '*') || crate::text::contains_char(vc.as_slice(), '?'))
        && fancy_compiles(crate::filter::pattern::wildcard_pattern(value).as_str()) {
        return FilterExpressionInner::Wildcard { key: copy_strings(key), expected: string_of(vc.as_slice()) };
    }
    FilterExpressionInner::String { key: copy_strings(key), expected: string_of(vc.as_slice()) }
}

/// Gives the leaves of a field group the group's key (see [`fill_leaf_keys`]).
fn fill_leaf_keys_exec(e: &FilterExpressionInner, key: &Vec<String>, sf: &SpecialFields) -> (r: Result<FilterExpressionInner, LuceneParseError>)
    ensures
        expr_agrees(r, fill_leaf_keys(e.model(), views(key@), special_model(*sf))),
    decreases e, 0int,
{
    match e {
        FilterExpressionInner::String { expected, .. } =>
            Ok(create_string_expr(key, expected.as_str(), expected.as_str(), false, sf)),
        FilterExpressionInner::Wildcard { expected, .. } => {
            match crate::filter::pattern::fancy_regex_error(crate::filter::pattern::wildcard_pattern(expected.as_str()).as_str()) {
                None => Ok(FilterExpressionInner::Wildcard { key: copy_strings(key), expected: expected.clone() }),
                Some(err) => {
                    let mut out: Vec<char> = Vec::new();
                    push_text(&mut out, "Invalid regex: ");
                    push_text(&mut out, err.as_str());
                    proof { reveal_strlit("Invalid regex: "); }
                    assert(out@ =~= invalid_regex(err@));
                    Err(chars_msg(out))
                },
            }
        },
        FilterExpressionInner::Sigma { expected, .. } => {
            match crate::filter::pattern::fancy_regex_error(crate::filter::pattern::sigma_compiled_pattern(expected.as_str()).as_str()) {
                None => Ok(FilterExpressionInner::Sigma { key: copy_strings(key), expected: expected.clone() }),
                Some(err) => {
                    let mut out: Vec<char> = Vec::new();
                    push_text(&mut out, "Invalid regex: ");
                    push_text(&mut out, err.as_str());
                    proof { reveal_strlit("Invalid regex: "); }
                    assert(out@ =~= invalid_regex(err@));
                    Err(chars_msg(out))
                },
            }
        },
        FilterExpressionInner::Regex { pattern, .. } => regex_expr_exec(key, pattern.as_str()),
        FilterExpressionInner::Null { .. } => Ok(FilterExpressionInner::Null { key: copy_strings(key) }),
        FilterExpressionInner::Not { child } => match fill_leaf_keys_exec(child, key, sf) {
            Ok(x) => Ok(FilterExpressionInner::Not { child: Box::new(x) }),
            Err(m) => Err(m),
        },
        FilterExpressionInner::And { children } => match fill_all_exec(children, key, sf) {
            Ok(xs) => Ok(FilterExpressionInner::And { children: xs }),
            Err(m) => Err(m),
        },
        FilterExpressionInner::Or { children } => match fill_all_exec(children, key, sf) {
            Ok(xs) => Ok(FilterExpressionInner::Or { children: xs }),
            Err(m) => Err(m),
        },
        _ => Ok(copy_expr(e)),
    }
}

fn fill_all_exec(cs: &Vec<FilterExpressionInner>, key: &Vec<String>, sf: &SpecialFields) -> (r: Result<Vec<FilterExpressionInner>, LuceneParseError>)
    ensures
        match r {
            Ok(xs) => fill_all(crate::filter::expression::expr_models(cs@), views(key@), special_model(*sf))
                == Ok::<Seq<Expr>, Seq<char>>(crate::filter::expression::expr_models(xs@)),
            Err(m) => fill_all(crate::filter::expression::expr_models(cs@), views(key@), special_model(*sf))
                == Err::<Seq<Expr>, Seq<char>>(m.0@),
        },
    decreases cs, 0int,
{
    let ghost ms = crate::filter::expression::expr_models(cs@);
    proof { crate::filter::expression::lemma_expr_models(cs@); }
    let mut out: Vec<FilterExpressionInner> = Vec::new();
    let mut i: usize = 0;
    proof { crate::filter::expression::lemma_expr_models(out@); }
    assert(ms.subrange(0, 0) =~= Seq::<Expr>::empty());
    while i < cs.len()
        invariant
            i <= cs@.len(),
            ms == crate::filter::expression::expr_models(cs@),
            ms.len() == cs@.len(),
            forall|j: int| 0 <= j < cs@.len() ==> #[trigger] ms[j] == cs@[j].model(),
            fill_all(ms.subrange(0, i as int), views(key@), special_model(*sf))
                == Ok::<Seq<Expr>, Seq<char>>(crate::filter::expression::expr_models(out@)),
        decreases cs@.len() - i,
    {
        proof {
            vstd::std_specs::vec::axiom_vec_index_decreases(*cs, i as int);
            let t = ms.subrange(0, i + 1);
            assert(t.subrange(0, i as int) =~= ms.subrange(0, i as int));
            assert(t[i as int] == cs@[i as int].model());
        }
        match fill_leaf_keys_exec(&cs[i], key, sf) {
            Ok(x) => {
                let ghost before = out@;
                out.push(x);
                proof {
                    crate::filter::expression::lemma_expr_models(before);
                    crate::filter::expression::lemma_expr_models(out@);
                    assert(crate::filter::expression::expr_models(out@)
                        =~= crate::filter::expression::expr_models(before).push(x.model()));
                }
            },
            Err(m) => {
                proof {
                    lemma_fill_all_error(ms, i as int, views(key@), special_model(*sf));
                }
                return Err(m);
            },
        }
        i = i + 1;
    }
    assert(ms.subrange(0, cs@.len() as int) =~= ms);
    Ok(out)
}

/// A failure at position `i` (after a successful prefix) is the failure of
/// the whole list.
pub proof fn lemma_fill_all_error(cs: Seq<Expr>, i: int, key: Seq<Seq<char>>, sf: SpecialModel)
    requires
        0 <= i < cs.len(),
        fill_all(cs.subrange(0, i), key, sf) is Ok,
        fill_leaf_keys(cs[i], key, sf) is Err,
    ensures
        fill_all(cs, key, sf) == Err::<Seq<Expr>, Seq<char>>(fill_leaf_keys(cs[i], key, sf)->Err_0),
    decreases cs.len(),
{
    if i == cs.len() - 1 {
        assert(cs.subrange(0, cs.len() - 1) =~= cs.subrange(0, i));
    } else {
        let t = cs.subrange(0, cs.len() - 1);
        assert(t.subrange(0, i) =~= cs.subrange(0, i));
        assert(t[i] == cs[i]);
        lemma_fill_all_error(t, i, key, sf);
    }
}

/// A copy of an expression.
pub fn copy_expr(e: &FilterExpressionInner) -> (r: FilterExpressionInner)
    ensures
        r.model() == e.model(),
    decreases e, 0int,
{
    match e {
        FilterExpressionInner::Always { value } => FilterExpressionInner::Always { value: *value },
        FilterExpressionInner::Not { child } => FilterExpressionInner::Not { child: Box::new(copy_expr(child)) },
        FilterExpressionInner::And { children } => FilterExpressionInner::And { children: copy_exprs(children) },
        FilterExpressionInner::Or { children } => FilterExpressionInner::Or { children: copy_exprs(children) },
        FilterExpressionInner::String { key, expected } =>
            FilterExpressionInner::String { key: copy_strings(key), expected: expected.clone() },
        FilterExpressionInner::Wildcard { key, expected } =>
            FilterExpressionInner::Wildcard { key: copy_strings(key), expected: expected.clone() },
        FilterExpressionInner::Sigma { key, expected } =>
            FilterExpressionInner::Sigma { key: copy_strings(key), expected: expected.clone() },
        FilterExpressionInner::Integer { key, expected } =>
            FilterExpressionInner::Integer { key: copy_strings(key), expected: *expected },
        FilterExpressionInner::Float { key, expected, near_low, near_high } =>
            FilterExpressionInner::Float { key: copy_strings(key), expected: copy_float(expected), near_low: *near_low, near_high: *near_high },
        FilterExpressionInner::IntegerRange { key, lower, upper, incl_low, incl_high } =>
            FilterExpressionInner::IntegerRange { key: copy_strings(key), lower: *lower, upper: *upper, incl_low: *incl_low, incl_high: *incl_high },
        FilterExpressionInner::FloatRange { key, lower, upper, incl_low, incl_high } =>
            FilterExpressionInner::FloatRange { key: copy_strings(key), lower: copy_float(lower), upper: copy_float(upper), incl_low: *incl_low, incl_high: *incl_high },
        FilterExpressionInner::NumericRange { key, lower, upper, incl_low, incl_high } =>
            FilterExpressionInner::NumericRange { key: copy_strings(key), lower: copy_bound(lower), upper: copy_bound(upper), incl_low: *incl_low, incl_high: *incl_high },
        FilterExpressionInner::StringRange { key, lower, upper, incl_low, incl_high } =>
            FilterExpressionInner::StringRange { key: copy_strings(key), lower: copy_opt_string(lower), upper: copy_opt_string(upper), incl_low: *incl_low, incl_high: *incl_high },
        FilterExpressionInner::Regex { key, pattern } =>
            FilterExpressionInner::Regex { key: copy_strings(key), pattern: pattern.clone() },
        FilterExpressionInner::Exists { key } => FilterExpressionInner::Exists { key: copy_strings(key) },
        FilterExpressionInner::Null { key } => FilterExpressionInner::Null { key: copy_strings(key) },
    }
}

/// Copies of a list of expressions.
pub fn copy_exprs(cs: &Vec<FilterExpressionInner>) -> (r: Vec<FilterExpressionInner>)
    ensures
        crate::filter::expression::expr_models(r@) == crate::filter::expression::expr_models(cs@),
    decreases cs, 0int,
{
    proof { crate::filter::expression::lemma_expr_models(cs@); }
    let mut out: Vec<FilterExpressionInner> = Vec::new();
    let mut i: usize = 0;
    while i < cs.len()
        invariant
            i <= cs@.len(),
            out@.len() == i,
            crate::filter::expression::expr_models(cs@).len() == cs@.len(),
            forall|j: int| 0 <= j < i ==> #[trigger] out@[j].model() == cs@[j].model(),
        decreases cs@.len() - i,
    {
        proof { vstd::std_specs::vec::axiom_vec_index_decreases(*cs, i as int); }
        let x = copy_expr(&cs[i]);
        out.push(x);
        i = i + 1;
    }
    proof {
        crate::filter::expression::lemma_expr_models(out@);
        assert(crate::filter::expression::expr_models(out@) =~= crate::filter::expression::expr_models(cs@));
    }
    out
}

fn copy_float(f: &FloatNum) -> (r: FloatNum)
    ensures
        float_model(r) == float_model(*f),
{
    FloatNum { bits: f.bits, json: f.json.clone(), display: f.display.clone() }
}

fn copy_bound(b: &Option<crate::filter::expression::NumericBound>) -> (r: Option<crate::filter::expression::NumericBound>)
    ensures
        crate::filter::expression::opt_bound_model(r) == crate::filter::expression::opt_bound_model(*b),
{
    match b {
        None => None,
        Some(crate::filter::expression::NumericBound::Int { digits, approx }) =>
            Some(crate::filter::expression::NumericBound::Int { digits: digits.clone(), approx: *approx }),
        Some(crate::filter::expression::NumericBound::Float(f)) =>
            Some(crate::filter::expression::NumericBound::Float(copy_float(f))),
    }
}

fn copy_opt_string(s: &Option<String>) -> (r: Option<String>)
    ensures
        crate::filter::expression::opt_str_model(r) == crate::filter::expression::opt_str_model(*s),
{
    match s {
        None => None,
        Some(x) => Some(x.clone()),
    }
}

// ---------------------------------------------------------------------------
// Parser: executable
// ---------------------------------------------------------------------------

/// The state a parse reads: the tokens, the special fields, and the
/// readings of numeric range bounds.
pub struct Parser<'a> {
    pub tokens: &'a Vec<Token>,
    pub special_fields: &'a SpecialFields,
    pub floats: &'a Vec<(String, FloatNum)>,
}

impl<'a> Parser<'a> {
    pub open spec fn tm(&self) -> Seq<Tok> {
        tok_models(self.tokens@)
    }

    pub open spec fn ctx(&self) -> Ctx {
        Ctx { sf: special_model(*self.special_fields), floats: floats_model(self.floats@) }
    }

    fn n(&self) -> (r: usize)
        ensures
            r == self.tm().len(),
    {
        self.tokens.len()
    }

    fn peek_tok(&self, p: usize) -> (r: Token)
        ensures
            r.model() == peek(self.tm(), p as int),
    {
        if p < self.tokens.len() {
            copy_token(&self.tokens[p])
        } else {
            Token::Eof
        }
    }

    fn adv_pos(&self, p: usize) -> (r: usize)
        ensures
            r == adv(self.tm(), p as int),
    {
        if p < self.tokens.len() { p + 1 } else { p }
    }

    /// Looks up the reading of a range bound.
    fn reading(&self, t: &[char]) -> (r: Option<FloatNum>)
        ensures
            match r {
                Some(f) => float_reading(self.ctx().floats, t@) == Some(float_model(f)),
                None => float_reading(self.ctx().floats, t@) is None,
            },
    {
        let ghost fl = self.ctx().floats;
        let ts = string_of(t);
        let mut i: usize = 0;
        assert(fl.subrange(0, fl.len() as int) =~= fl);
        while i < self.floats.len()
            invariant
                i <= self.floats@.len(),
                ts@ == t@,
                fl == floats_model(self.floats@),
                float_reading(fl, t@) == float_reading(fl.subrange(i as int, fl.len() as int), t@),
            decreases self.floats@.len() - i,
        {
            let ghost rest = fl.subrange(i as int, fl.len() as int);
            assert(rest.subrange(1, rest.len() as int) =~= fl.subrange(i + 1, fl.len() as int));
            assert(rest[0] == (self.floats@[i as int].0@, float_model(self.floats@[i as int].1)));
            if crate::value::str_eq(self.floats[i].0.as_str(), ts.as_str()) {
                return Some(copy_float(&self.floats[i].1));
            }
            i = i + 1;
        }
        None
    }

    fn parse_range_boundary(&self, p: usize) -> (r: Result<(Vec<char>, usize), LuceneParseError>)
        requires
            p <= self.tm().len(),
        ensures
            match r {
                Ok((b, q)) => range_boundary(self.tm(), p as int) == Ok::<(Seq<char>, int), Seq<char>>((b@, q as int))
                    && p <= q <= self.tm().len(),
                Err(m) => range_boundary(self.tm(), p as int) == Err::<(Seq<char>, int), Seq<char>>(m.0@),
            },
    {
        reveal(range_boundary);
        let t = self.peek_tok(p);
        match t {
            Token::Word { value, .. } => Ok((chars_of(value.as_str()), self.adv_pos(p))),
            Token::StringLit(x) => Ok((chars_of(x.as_str()), self.adv_pos(p))),
            Token::Star => {
                let mut v: Vec<char> = Vec::new();
                v.push('*');
                assert(v@ =~= seq!['*']);
                Ok((v, self.adv_pos(p)))
            },
            Token::Minus => {
                let q = self.adv_pos(p);
                let t2 = self.peek_tok(q);
                match t2 {
                    Token::Word { value, .. } => {
                        let mut v: Vec<char> = Vec::new();
                        v.push('-');
                        push_text(&mut v, value.as_str());
                        assert(v@ =~= seq!['-'] + value@);
                        Ok((v, self.adv_pos(q)))
                    },
                    _ => {
                        let e = msg("Expected value after '-' in range");
                        proof { reveal_strlit("Expected value after '-' in range"); }
                        assert(e.0@ =~= seq!['E','x','p','e','c','t','e','d',' ','v','a','l','u','e',' ','a','f','t','e','r',' ',
                            '\'','-','\'',' ','i','n',' ','r','a','n','g','e']);
                        Err(e)
                    },
                }
            },
            _ => {
                let e = msg_with_token("Invalid range boundary: ", &t);
                proof { reveal_strlit("Invalid range boundary: "); }
                assert(e.0@ =~= seq!['I','n','v','a','l','i','d',' ','r','a','n','g','e',' ','b','o','u','n','d','a','r','y',':',' '] + tok_debug(t.model()));
                Err(e)
            },
        }
    }

    /// The range expression for two bounds (see [`range_expr`]).
    fn range_expression(&self, key: &Vec<String>, lower: &[char], upper: &[char], incl_low: bool, incl_high: bool)
        -> (r: Result<FilterExpressionInner, LuceneParseError>)
        ensures
            expr_agrees(r, range_expr(views(key@), lower@, upper@, incl_low, incl_high, self.ctx().floats)),
    {
        reveal(range_expr);
        let star: [char; 1] = ['*'];
        assert(star@ =~= seq!['*']);
        if same_chars(lower, &star) || same_chars(upper, &star) {
            proof { reveal_strlit("Open ranges are not supported: "); }
            let e = range_message("Open ranges are not supported: ", lower, upper);
            assert(e.0@ =~= range_msg(open_prefix(), lower@, upper@));
            return Err(e);
        }
        let ls = string_of(lower);
        let us = string_of(upper);
        let li = crate::filter::range::i64_from(ls.as_str());
        let ui = crate::filter::range::i64_from(us.as_str());
        if li.is_some() && ui.is_some() {
            let lo = li.unwrap();
            let hi = ui.unwrap();
            if lo > hi {
                proof { reveal_strlit("The lower range boundary must not exceed the upper range boundary: "); }
                let e = range_message("The lower range boundary must not exceed the upper range boundary: ", lower, upper);
                assert(e.0@ =~= range_msg(exceed_prefix(), lower@, upper@));
                return Err(e);
            }
            return Ok(FilterExpressionInner::IntegerRange { key: copy_strings(key), lower: lo, upper: hi, incl_low, incl_high });
        }
        let (lp, lf) = crate::filter::number::classify_float_text(lower);
        let (up, uf) = crate::filter::number::classify_float_text(upper);
        if lp && up {
            if !lf || !uf {
                let e = msg("Range boundaries must be finite numbers");
                proof { reveal_strlit("Range boundaries must be finite numbers"); }
                assert(e.0@ =~= not_finite_msg());
                return Err(e);
            }
            match (self.reading(lower), self.reading(upper)) {
                (Some(a), Some(b)) => {
                    if crate::filter::number::bits_lt(b.bits, a.bits) {
                        proof { reveal_strlit("The lower range boundary must not exceed the upper range boundary: "); }
                        let e = range_message("The lower range boundary must not exceed the upper range boundary: ", lower, upper);
                        assert(e.0@ =~= range_msg(exceed_prefix(), lower@, upper@));
                        return Err(e);
                    }
                    return Ok(FilterExpressionInner::FloatRange { key: copy_strings(key), lower: a, upper: b, incl_low, incl_high });
                },
                _ => {
                    let e = msg("No binary64 reading for a range boundary");
                    proof { reveal_strlit("No binary64 reading for a range boundary"); }
                    assert(e.0@ =~= no_reading_msg());
                    return Err(e);
                },
            }
        }
        if lp || up {
            proof { reveal_strlit("Mixed numeric and string range boundaries are not supported: "); }
            let e = range_message("Mixed numeric and string range boundaries are not supported: ", lower, upper);
            assert(e.0@ =~= range_msg(mixed_prefix(), lower@, upper@));
            return Err(e);
        }
        if crate::filter::number::chars_lt(upper, lower) {
            proof { reveal_strlit("The lower range boundary must not exceed the upper range boundary: "); }
            let e = range_message("The lower range boundary must not exceed the upper range boundary: ", lower, upper);
            assert(e.0@ =~= range_msg(exceed_prefix(), lower@, upper@));
            return Err(e);
        }
        Ok(FilterExpressionInner::StringRange { key: copy_strings(key), lower: Some(ls), upper: Some(us), incl_low, incl_high })
    }

    /// Reads a range at `p` (see [`parse_range`]).
    fn parse_range(&self, p: usize, key: &Vec<String>, first: &[char]) -> (r: Result<(FilterExpressionInner, usize), LuceneParseError>)
        requires
            p <= self.tm().len(),
        ensures
            agrees(r, parse_range(self.tm(), p as int, views(key@), first@, self.ctx())),
            pos_ok(r, p as int, self.tm().len() as int),
    {
        reveal(parse_range);
        let bracket = self.peek_tok(p);
        let p1 = if first.len() == 0 { self.adv_pos(p) } else { p };
        let incl_low = matches!(bracket, Token::LBracket);
        let (lower, p2) = if first.len() == 0 {
            match self.parse_range_boundary(p1) {
                Ok(x) => x,
                Err(m) => return Err(m),
            }
        } else {
            (first_copy(first), p1)
        };
        let to = self.peek_tok(p2);
        let p3 = self.adv_pos(p2);
        if !matches!(to, Token::To) {
            let e = msg_with_token("Expected TO, got ", &to);
            proof { reveal_strlit("Expected TO, got "); }
            assert(e.0@ =~= seq!['E','x','p','e','c','t','e','d',' ','T','O',',',' ','g','o','t',' '] + tok_debug(to.model()));
            return Err(e);
        }
        let (upper, p4) = match self.parse_range_boundary(p3) {
            Ok(x) => x,
            Err(m) => return Err(m),
        };
        let close = self.peek_tok(p4);
        let p5 = self.adv_pos(p4);
        let incl_high = matches!(close, Token::RBracket);
        if !incl_high && !matches!(close, Token::RBrace) {
            let e = msg_with_token("Expected ] or }, got ", &close);
            proof { reveal_strlit("Expected ] or }, got "); }
            assert(e.0@ =~= seq!['E','x','p','e','c','t','e','d',' ',']',' ','o','r',' ','}',',',' ','g','o','t',' '] + tok_debug(close.model()));
            return Err(e);
        }
        match self.range_expression(key, lower.as_slice(), upper.as_slice(), incl_low, incl_high) {
            Ok(e) => Ok((e, p5)),
            Err(m) => Err(m),
        }
    }

    fn is_tok(&self, p: usize, k: u8) -> (r: bool)
        ensures
            r == (p < self.tm().len() && tok_kind(self.tm()[p as int]) == k),
    {
        if p < self.tokens.len() {
            match &self.tokens[p] {
                Token::Or => k == 1,
                Token::And => k == 2,
                Token::Not => k == 3,
                Token::RParen => k == 4,
                Token::Pipe => k == 5,
                Token::Re => k == 6,
                Token::Colon => k == 7,
                Token::LBracket => k == 8,
                Token::LBrace => k == 9,
                _ => k == 0,
            }
        } else {
            false
        }
    }

    /// `a OR b OR …` from `p` (see [`parse_or`]).
    pub fn parse_or(&self, p: usize, fg: &Option<Vec<String>>) -> (r: Result<(FilterExpressionInner, usize), LuceneParseError>)
        requires
            p <= self.tm().len(),
        ensures
            agrees(r, parse_or(self.tm(), p as int, fg_model(*fg), self.ctx())),
            pos_ok(r, p as int, self.tm().len() as int),
        decreases self.tm().len() - p, 9int,
    {
        match self.parse_and(p, fg) {
            Err(m) => Err(m),
            Ok((left, q)) => self.or_loop(q, left, fg),
        }
    }

    fn or_loop(&self, p: usize, left: FilterExpressionInner, fg: &Option<Vec<String>>) -> (r: Result<(FilterExpressionInner, usize), LuceneParseError>)
        requires
            p <= self.tm().len(),
        ensures
            agrees(r, or_loop(self.tm(), p as int, left.model(), fg_model(*fg), self.ctx())),
            pos_ok(r, p as int, self.tm().len() as int),
        decreases self.tm().len() - p, 8int,
    {
        if self.is_tok(p, 1) {
            match self.parse_and(self.adv_pos(p), fg) {
                Err(m) => Err(m),
                Ok((right, q)) => self.or_loop(q, join_or_exec(left, right), fg),
            }
        } else {
            Ok((left, p))
        }
    }

    /// `a AND b AND …` from `p`.
    fn parse_and(&self, p: usize, fg: &Option<Vec<String>>) -> (r: Result<(FilterExpressionInner, usize), LuceneParseError>)
        requires
            p <= self.tm().len(),
        ensures
            agrees(r, parse_and(self.tm(), p as int, fg_model(*fg), self.ctx())),
            pos_ok(r, p as int, self.tm().len() as int),
        decreases self.tm().len() - p, 7int,
    {
        match self.parse_not(p, fg) {
            Err(m) => Err(m),
            Ok((left, q)) => self.and_loop(q, left, fg),
        }
    }

    fn and_loop(&self, p: usize, left: FilterExpressionInner, fg: &Option<Vec<String>>) -> (r: Result<(FilterExpressionInner, usize), LuceneParseError>)
        requires
            p <= self.tm().len(),
        ensures
            agrees(r, and_loop(self.tm(), p as int, left.model(), fg_model(*fg), self.ctx())),
            pos_ok(r, p as int, self.tm().len() as int),
        decreases self.tm().len() - p, 6int,
    {
        if self.is_tok(p, 2) {
            match self.parse_not(self.adv_pos(p), fg) {
                Err(m) => Err(m),
                Ok((right, q)) => self.and_loop(q, join_and_exec(left, right), fg),
            }
        } else {
            Ok((left, p))
        }
    }

    /// `NOT a`, or an atom, from `p`.
    fn parse_not(&self, p: usize, fg: &Option<Vec<String>>) -> (r: Result<(FilterExpressionInner, usize), LuceneParseError>)
        requires
            p <= self.tm().len(),
        ensures
            agrees(r, parse_not(self.tm(), p as int, fg_model(*fg), self.ctx())),
            pos_ok(r, p as int, self.tm().len() as int),
        decreases self.tm().len() - p, 5int,
    {
        if self.is_tok(p, 3) {
            match self.parse_not(self.adv_pos(p), fg) {
                Err(m) => Err(m),
                Ok((c, q)) => Ok((FilterExpressionInner::Not { child: Box::new(c) }, q)),
            }
        } else {
            self.parse_atom(p, fg)
        }
    }

    /// An atom from `p` (see [`parse_atom`]).
    #[verifier::spinoff_prover]
    #[verifier::rlimit(60)]
    fn parse_atom(&self, p: usize, fg: &Option<Vec<String>>) -> (r: Result<(FilterExpressionInner, usize), LuceneParseError>)
        requires
            p <= self.tm().len(),
        ensures
            agrees(r, parse_atom(self.tm(), p as int, fg_model(*fg), self.ctx())),
            pos_ok(r, p as int, self.tm().len() as int),
        decreases self.tm().len() - p, 4int,
    {
        let t = self.peek_tok(p);
        match t {
            Token::LParen => {
                match self.parse_or(self.adv_pos(p), fg) {
                    Err(m) => Err(m),
                    Ok((e, q)) => {
                        if self.is_tok(q, 4) {
                            Ok((e, self.adv_pos(q)))
                        } else {
                            let got = self.peek_tok(q);
                            Err(expected_got_msg(&Token::RParen, &got))
                        }
                    },
                }
            },
            Token::Star => Ok((FilterExpressionInner::Always { value: true }, self.adv_pos(p))),
            Token::Minus => match self.parse_not(self.adv_pos(p), fg) {
                Err(m) => Err(m),
                Ok((c, q)) => Ok((FilterExpressionInner::Not { child: Box::new(c) }, q)),
            },
            Token::LBracket | Token::LBrace => match fg {
                Some(k) => {
                    let empty: Vec<char> = Vec::new();
                    self.parse_range(p, k, empty.as_slice())
                },
                None => {
                    let e = msg("Expected field name before '[' or '{'");
                    proof { reveal_strlit("Expected field name before '[' or '{'"); }
                    assert(e.0@ =~= seq!['E','x','p','e','c','t','e','d',' ','f','i','e','l','d',' ','n','a','m','e',' ',
                        'b','e','f','o','r','e',' ','\'','[','\'',' ','o','r',' ','\'','{','\'']);
                    Err(e)
                },
            },
            Token::Word { .. } | Token::RegexLit(_) | Token::StringLit(_) => self.parse_search_field_or_value(p, fg),
            _ => {
                let e = msg_with_token("Unexpected token: ", &t);
                proof { reveal_strlit("Unexpected token: "); }
                assert(e.0@ =~= seq!['U','n','e','x','p','e','c','t','e','d',' ','t','o','k','e','n',':',' '] + tok_debug(t.model()));
                Err(e)
            },
        }
    }

    /// A field or value from `p` (see [`parse_field_or_value`]).
    #[verifier::spinoff_prover]
    #[verifier::rlimit(60)]
    fn parse_search_field_or_value(&self, p: usize, fg: &Option<Vec<String>>) -> (r: Result<(FilterExpressionInner, usize), LuceneParseError>)
        requires
            p <= self.tm().len(),
        ensures
            agrees(r, parse_field_or_value(self.tm(), p as int, fg_model(*fg), self.ctx())),
            pos_ok(r, p as int, self.tm().len() as int),
        decreases self.tm().len() - p, 3int,
    {
        let q = self.adv_pos(p);
        let t = self.peek_tok(p);
        match t {
            Token::Word { value, raw } => {
                let piped = self.is_tok(q, 5);
                let q1 = if piped { self.adv_pos(q) } else { q };
                let q2 = if piped && self.is_tok(q1, 6) { self.adv_pos(q1) } else { q1 };
                if piped && self.is_tok(q2, 7) && p < q2 {
                    let key = field_key_of(value.as_str());
                    self.parse_regex_value(self.adv_pos(q2), &key, fg)
                } else if self.is_tok(q2, 7) && p < q2 {
                    let key = field_key_of(value.as_str());
                    self.parse_value_after_colon(self.adv_pos(q2), &key, fg)
                } else {
                    match fg {
                        Some(k) => Ok((create_string_expr(k, value.as_str(), raw.as_str(), false, self.special_fields), q2)),
                        None => {
                            let vc = chars_of(value.as_str());
                            let star: [char; 1] = ['*'];
                            assert(star@ =~= seq!['*']);
                            if same_chars(vc.as_slice(), &star) {
                                Ok((FilterExpressionInner::Always { value: true }, q2))
                            } else {
                                Ok((FilterExpressionInner::Exists { key: field_key_of(value.as_str()) }, q2))
                            }
                        },
                    }
                }
            },
            Token::RegexLit(x) => {
                if self.is_tok(q, 7) && p < q {
                    let key = crate::field::get_dotted_field_list(x.as_str());
                    self.parse_regex_value(self.adv_pos(q), &key, fg)
                } else {
                    let key: Vec<String> = match fg {
                        Some(k) => copy_strings(k),
                        None => Vec::new(),
                    };
                    assert(views(key@) == (match fg_model(*fg) { Some(k) => k, None => Seq::<Seq<char>>::empty() })) by {
                        if fg is None { assert(views(key@) =~= Seq::<Seq<char>>::empty()); }
                    }
                    match regex_expr_exec(&key, x.as_str()) {
                        Ok(e) => Ok((e, q)),
                        Err(m) => Err(m),
                    }
                }
            },
            Token::StringLit(x) => {
                if self.is_tok(q, 7) && p < q {
                    let key = crate::field::get_dotted_field_list(x.as_str());
                    self.parse_value_after_colon(self.adv_pos(q), &key, fg)
                } else {
                    match fg {
                        Some(k) => Ok((create_string_expr(k, x.as_str(), x.as_str(), true, self.special_fields), q)),
                        None => {
                            let key: Vec<String> = Vec::new();
                            assert(views(key@) =~= Seq::<Seq<char>>::empty());
                            Ok((FilterExpressionInner::String { key, expected: x.clone() }, q))
                        },
                    }
                }
            },
            _ => {
                let e = msg_with_token("Unexpected token in atom: ", &t);
                proof { reveal_strlit("Unexpected token in atom: "); }
                assert(e.0@ =~= seq!['U','n','e','x','p','e','c','t','e','d',' ','t','o','k','e','n',' ','i','n',' ','a','t','o','m',':',' '] + tok_debug(t.model()));
                Err(e)
            },
        }
    }

    /// The value of a `field|re:` pair (see [`parse_regex_value`]).
    fn parse_regex_value(&self, p: usize, key: &Vec<String>, fg: &Option<Vec<String>>) -> (r: Result<(FilterExpressionInner, usize), LuceneParseError>)
        requires
            p <= self.tm().len(),
        ensures
            agrees(r, parse_regex_value(self.tm(), p as int, views(key@), fg_model(*fg), self.ctx())),
            pos_ok(r, p as int, self.tm().len() as int),
        decreases self.tm().len() - p, 2int,
    {
        let q = self.adv_pos(p);
        let t = self.peek_tok(p);
        match t {
            Token::StringLit(x) | Token::RegexLit(x) => match regex_expr_exec(key, x.as_str()) {
                Ok(e) => Ok((e, q)),
                Err(m) => Err(m),
            },
            Token::Word { raw, .. } => match regex_expr_exec(key, raw.as_str()) {
                Ok(e) => Ok((e, q)),
                Err(m) => Err(m),
            },
            Token::LParen => self.parse_field_group(p, key),
            _ => {
                let e = msg_with_token("Unexpected regex value token: ", &t);
                proof { reveal_strlit("Unexpected regex value token: "); }
                assert(e.0@ =~= seq!['U','n','e','x','p','e','c','t','e','d',' ','r','e','g','e','x',' ','v','a','l','u','e',' ','t','o','k','e','n',':',' '] + tok_debug(t.model()));
                Err(e)
            },
        }
    }

    /// The value of a `field:` pair (see [`parse_value_after_colon`]).
    #[verifier::spinoff_prover]
    #[verifier::rlimit(60)]
    fn parse_value_after_colon(&self, p: usize, key: &Vec<String>, fg: &Option<Vec<String>>) -> (r: Result<(FilterExpressionInner, usize), LuceneParseError>)
        requires
            p <= self.tm().len(),
        ensures
            agrees(r, parse_value_after_colon(self.tm(), p as int, views(key@), fg_model(*fg), self.ctx())),
            pos_ok(r, p as int, self.tm().len() as int),
        decreases self.tm().len() - p, 2int,
    {
        let q = self.adv_pos(p);
        let t = self.peek_tok(p);
        match t {
            Token::LParen => self.parse_field_group(p, key),
            Token::StringLit(x) => Ok((create_string_expr(key, x.as_str(), x.as_str(), true, self.special_fields), q)),
            Token::RegexLit(x) => match regex_expr_exec(key, x.as_str()) {
                Ok(e) => Ok((e, q)),
                Err(m) => Err(m),
            },
            Token::Word { value, raw } => {
                if self.is_tok(q, 8) || self.is_tok(q, 9) {
                    let vc = chars_of(value.as_str());
                    self.parse_range(q, key, vc.as_slice())
                } else {
                    let vc = chars_of(value.as_str());
                    let null_w: [char; 4] = ['n', 'u', 'l', 'l'];
                    assert(null_w@ =~= seq!['n', 'u', 'l', 'l']);
                    if same_chars(vc.as_slice(), &null_w) {
                        Ok((FilterExpressionInner::Null { key: copy_strings(key) }, q))
                    } else {
                        Ok((create_string_expr(key, value.as_str(), raw.as_str(), false, self.special_fields), q))
                    }
                }
            },
            Token::Minus => {
                let t2 = self.peek_tok(q);
                match t2 {
                    Token::Word { value, raw } => {
                        let q2 = self.adv_pos(q);
                        let mut neg: Vec<char> = Vec::new();
                        neg.push('-');
                        push_text(&mut neg, value.as_str());
                        let mut neg_raw: Vec<char> = Vec::new();
                        neg_raw.push('-');
                        push_text(&mut neg_raw, raw.as_str());
                        assert(neg@ =~= seq!['-'] + value@);
                        assert(neg_raw@ =~= seq!['-'] + raw@);
                        if self.is_tok(q2, 8) || self.is_tok(q2, 9) {
                            self.parse_range(q2, key, neg.as_slice())
                        } else {
                            let ns = string_of(neg.as_slice());
                            let nrs = string_of(neg_raw.as_slice());
                            Ok((create_string_expr(key, ns.as_str(), nrs.as_str(), false, self.special_fields), q2))
                        }
                    },
                    _ => {
                        let e = msg("Expected value after '-'");
                        proof { reveal_strlit("Expected value after '-'"); }
                        assert(e.0@ =~= seq!['E','x','p','e','c','t','e','d',' ','v','a','l','u','e',' ','a','f','t','e','r',' ','\'','-','\'']);
                        Err(e)
                    },
                }
            },
            Token::Star => Ok((FilterExpressionInner::Always { value: true }, q)),
            Token::LBracket | Token::LBrace => {
                let empty: Vec<char> = Vec::new();
                self.parse_range(p, key, empty.as_slice())
            },
            _ => {
                let e = msg_with_token("Unexpected value token: ", &t);
                proof { reveal_strlit("Unexpected value token: "); }
                assert(e.0@ =~= seq!['U','n','e','x','p','e','c','t','e','d',' ','v','a','l','u','e',' ','t','o','k','e','n',':',' '] + tok_debug(t.model()));
                Err(e)
            },
        }
    }

    /// A field group `(…)` at `p` whose leaves get `key` (see [`parse_group`]).
    fn parse_field_group(&self, p: usize, key: &Vec<String>) -> (r: Result<(FilterExpressionInner, usize), LuceneParseError>)
        requires
            p <= self.tm().len(),
        ensures
            agrees(r, parse_group(self.tm(), p as int, views(key@), self.ctx())),
            pos_ok(r, p as int, self.tm().len() as int),
        decreases self.tm().len() - p, 1int,
    {
        if p >= self.n() {
            let e = msg("");
            proof { reveal_strlit(""); }
            assert(e.0@ =~= Seq::<char>::empty());
            return Err(e);
        }
        let group: Option<Vec<String>> = Some(copy_strings(key));
        match self.parse_or(self.adv_pos(p), &group) {
            Err(m) => Err(m),
            Ok((e, q)) => {
                if self.is_tok(q, 4) {
                    match apply_field_group_context(e, key, self.special_fields) {
                        Ok(x) => Ok((x, self.adv_pos(q))),
                        Err(m) => Err(m),
                    }
                } else {
                    let got = self.peek_tok(q);
                    Err(expected_got_msg(&Token::RParen, &got))
                }
            },
        }
    }
}

fn first_copy(s: &[char]) -> (r: Vec<char>)
    ensures
        r@ == s@,
{
    let mut v: Vec<char> = Vec::new();
    push_all(&mut v, s);
    v
}

/// A token's kind as a number, for the kinds the parser asks about.
pub open spec fn tok_kind(t: Tok) -> u8 {
    match t {
        Tok::Or => 1,
        Tok::And => 2,
        Tok::Not => 3,
        Tok::RParen => 4,
        Tok::Pipe => 5,
        Tok::Re => 6,
        Tok::Colon => 7,
        Tok::LBracket => 8,
        Tok::LBrace => 9,
        _ => 0,
    }
}

fn join_or_exec(left: FilterExpressionInner, right: FilterExpressionInner) -> (r: FilterExpressionInner)
    ensures
        r.model() == join_or(left.model(), right.model()),
{
    match left {
        FilterExpressionInner::Or { children } => {
            let mut cs = children;
            let ghost before = cs@;
            cs.push(right);
            proof {
                crate::filter::expression::lemma_expr_models(before);
                crate::filter::expression::lemma_expr_models(cs@);
                assert(crate::filter::expression::expr_models(cs@)
                    =~= crate::filter::expression::expr_models(before).push(right.model()));
            }
            FilterExpressionInner::Or { children: cs }
        },
        other => {
            let mut cs: Vec<FilterExpressionInner> = Vec::new();
            cs.push(other);
            cs.push(right);
            proof {
                crate::filter::expression::lemma_expr_models(cs@);
                assert(crate::filter::expression::expr_models(cs@) =~= seq![other.model(), right.model()]);
            }
            FilterExpressionInner::Or { children: cs }
        },
    }
}

fn join_and_exec(left: FilterExpressionInner, right: FilterExpressionInner) -> (r: FilterExpressionInner)
    ensures
        r.model() == join_and(left.model(), right.model()),
{
    match left {
        FilterExpressionInner::And { children } => {
            let mut cs = children;
            let ghost before = cs@;
            cs.push(right);
            proof {
                crate::filter::expression::lemma_expr_models(before);
                crate::filter::expression::lemma_expr_models(cs@);
                assert(crate::filter::expression::expr_models(cs@)
                    =~= crate::filter::expression::expr_models(before).push(right.model()));
            }
            FilterExpressionInner::And { children: cs }
        },
        other => {
            let mut cs: Vec<FilterExpressionInner> = Vec::new();
            cs.push(other);
            cs.push(right);
            proof {
                crate::filter::expression::lemma_expr_models(cs@);
                assert(crate::filter::expression::expr_models(cs@) =~= seq![other.model(), right.model()]);
            }
            FilterExpressionInner::And { children: cs }
        },
    }
}

/// Applies a field group's key to what the group holds (see [`apply_group`]).
fn apply_field_group_context(expr: FilterExpressionInner, key: &Vec<String>, sf: &SpecialFields) -> (r: Result<FilterExpressionInner, LuceneParseError>)
    ensures
        expr_agrees(r, apply_group(expr.model(), views(key@), special_model(*sf))),
{
    match &expr {
        FilterExpressionInner::Or { children } => match fill_all_exec(children, key, sf) {
            Ok(xs) => Ok(FilterExpressionInner::Or { children: xs }),
            Err(m) => Err(m),
        },
        FilterExpressionInner::And { children } => match fill_all_exec(children, key, sf) {
            Ok(xs) => Ok(FilterExpressionInner::And { children: xs }),
            Err(m) => Err(m),
        },
        _ => fill_leaf_keys_exec(&expr, key, sf),
    }
}

/// Parses a query into a filter expression. `floats` holds the binary64
/// readings of the range bounds that read as numbers (see
/// [`range_bound_texts`]).
pub fn parse_lucene_query_inner(query_string: &str, special_fields: &SpecialFields, floats: &Vec<(String, FloatNum)>)
    -> (r: Result<FilterExpressionInner, LuceneParseError>)
    ensures
        expr_agrees(r, parse_query(query_string@, Ctx { sf: special_model(*special_fields), floats: floats_model(floats@) })),
{
    let tokens = match tokenize(query_string) {
        Ok(ts) => ts,
        Err(m) => return Err(m),
    };
    let parser = Parser { tokens: &tokens, special_fields, floats };
    let none: Option<Vec<String>> = None;
    match parser.parse_or(0, &none) {
        Ok((e, _)) => Ok(e),
        Err(m) => Err(m),
    }
}

fn unescape_part(s: &String) -> (r: String)
    ensures
        r@ == unescaped(s@),
{
    let c = chars_of(s.as_str());
    let mut out: Vec<char> = Vec::new();
    let mut i: usize = 0;
    assert(c@.subrange(0, c@.len() as int) =~= c@);
    while i < c.len()
        invariant
            i <= c@.len(),
            c@ == s@,
            out@ + unescaped(c@.subrange(i as int, c@.len() as int)) == unescaped(s@),
        decreases c@.len() - i,
    {
        let ghost t = c@.subrange(i as int, c@.len() as int);
        let ghost before = out@;
        if c[i] == '\\' && i + 1 < c.len() {
            assert(t.subrange(2, t.len() as int) =~= c@.subrange(i + 2, c@.len() as int));
            out.push(c[i + 1]);
            assert(out@ + unescaped(c@.subrange(i + 2, c@.len() as int)) =~= before + unescaped(t));
            i = i + 2;
        } else {
            assert(t.subrange(1, t.len() as int) =~= c@.subrange(i + 1, c@.len() as int));
            out.push(c[i]);
            assert(out@ + unescaped(c@.subrange(i + 1, c@.len() as int)) =~= before + unescaped(t));
            i = i + 1;
        }
    }
    assert(c@.subrange(c@.len() as int, c@.len() as int) =~= Seq::<char>::empty());
    assert(out@ =~= out@ + unescaped(Seq::<char>::empty()));
    string_of(out.as_slice())
}

/// The key a field name of a query stands for (see [`field_key`]).
fn field_key_of(word: &str) -> (r: Vec<String>)
    ensures
        views(r@) == field_key(word@),
{
    let parts = crate::field::get_dotted_field_list(word);
    let mut out: Vec<String> = Vec::new();
    let mut i: usize = 0;
    while i < parts.len()
        invariant
            i <= parts@.len(),
            views(parts@) == dotted_split(word@),
            views(out@) == Seq::new(i as nat, |k: int| unescaped(parts@[k]@)),
        decreases parts@.len() - i,
    {
        let ghost before = views(out@);
        out.push(unescape_part(&parts[i]));
        assert(views(out@) =~= before.push(unescaped(parts@[i as int]@)));
        assert(views(out@) =~= Seq::new((i + 1) as nat, |k: int| unescaped(parts@[k]@)));
        i = i + 1;
    }
    assert(views(out@) =~= field_key(word@));
    out
}

/// The text the token at `i` offers as a range bound: a word's value, a
/// quoted string, or `-` followed by the next word's value.
pub open spec fn bound_candidate(ts: Seq<Tok>, i: int) -> Option<Seq<char>> {
    match ts[i] {
        Tok::Word { value, .. } => Some(value),
        Tok::StringLit(x) => Some(x),
        Tok::Minus => if i + 1 < ts.len() {
            match ts[i + 1] {
                Tok::Word { value, .. } => Some(seq!['-'] + value),
                _ => None,
            }
        } else {
            None
        },
        _ => None,
    }
}

/// The candidates of the first `n` tokens that parse as an `f64`, in order.
pub open spec fn bound_texts_upto(ts: Seq<Tok>, n: int) -> Seq<Seq<char>>
    decreases n,
{
    if n <= 0 {
        Seq::empty()
    } else {
        let prev = bound_texts_upto(ts, n - 1);
        match bound_candidate(ts, n - 1) {
            Some(t) => if parses_as_f64(t) { prev.push(t) } else { prev },
            None => prev,
        }
    }
}

/// The range-bound texts of a query that read as numbers; none when the
/// query does not tokenize.
pub open spec fn bound_texts(q: Seq<char>) -> Seq<Seq<char>> {
    match lex(q) {
        Ok(ts) => bound_texts_upto(ts, ts.len() as int),
        Err(_) => Seq::empty(),
    }
}

/// Texts a range bound of the query may have that read as numbers: each
/// word, each quoted string, and `-` followed by a word, when it parses as
/// an `f64`. The caller supplies their binary64 readings to
/// [`parse_lucene_query_inner`].
pub fn range_bound_texts(query_string: &str) -> (r: Vec<String>)
    ensures
        views(r@) == bound_texts(query_string@),
        forall|i: int| 0 <= i < r@.len() ==> parses_as_f64(#[trigger] r@[i]@),
{
    let mut out: Vec<String> = Vec::new();
    let tokens = match tokenize(query_string) {
        Ok(ts) => ts,
        Err(_) => {
            assert(views(out@) =~= Seq::<Seq<char>>::empty());
            return out;
        },
    };
    let ghost tm = tok_models(tokens@);
    let mut i: usize = 0;
    assert(views(out@) =~= Seq::<Seq<char>>::empty());
    while i < tokens.len()
        invariant
            i <= tokens@.len(),
            tm == tok_models(tokens@),
            views(out@) == bound_texts_upto(tm, i as int),
            forall|j: int| 0 <= j < out@.len() ==> parses_as_f64(#[trigger] out@[j]@),
        decreases tokens@.len() - i,
    {
        assert(tm[i as int] == tokens@[i as int].model());
        let cand: Option<Vec<char>> = match &tokens[i] {
            Token::Word { value, .. } => Some(chars_of(value.as_str())),
            Token::StringLit(x) => Some(chars_of(x.as_str())),
            Token::Minus => {
                if i + 1 < tokens.len() {
                    assert(tm[i + 1] == tokens@[i + 1].model());
                    match &tokens[i + 1] {
                        Token::Word { value, .. } => {
                            let mut v: Vec<char> = Vec::new();
                            v.push('-');
                            push_text(&mut v, value.as_str());
                            assert(v@ =~= seq!['-'] + value@);
                            Some(v)
                        },
                        _ => None,
                    }
                } else {
                    None
                }
            },
            _ => None,
        };
        assert(match cand { Some(c) => bound_candidate(tm, i as int) == Some(c@), None => bound_candidate(tm, i as int) is None });
        let ghost before = views(out@);
        match cand {
            Some(c) => {
                let (parses, _) = crate::filter::number::classify_float_text(c.as_slice());
                if parses {
                    out.push(string_of(c.as_slice()));
                    assert(views(out@) =~= before.push(c@));
                }
            },
            None => {},
        }
        i = i + 1;
    }
    out
}

} // verus!
