//! The tokenizer: a single left-to-right scan that turns a pattern string
//! into literal chunks and group delimiters.
use crate::text::{char_string, chars_of};
use vstd::prelude::*;

verus! {

/// One lexical unit of a pattern.
#[derive(Debug, PartialEq)]
pub enum Token {
    /// Literal text.
    Chunk(String),
    /// `{`: a choice group opens.
    SwitchOpen,
    /// `}`: the innermost open group closes.
    SwitchClose,
    /// `,`: the next alternative of the innermost open group begins.
    SwitchNext,
}

/// A token with its text seen as a sequence of characters.
pub enum TokenView {
    Chunk(Seq<char>),
    SwitchOpen,
    SwitchClose,
    SwitchNext,
}

impl View for Token {
    type V = TokenView;

    open spec fn view(&self) -> TokenView {
        match self {
            Token::Chunk(s) => TokenView::Chunk(s@),
            Token::SwitchOpen => TokenView::SwitchOpen,
            Token::SwitchClose => TokenView::SwitchClose,
            Token::SwitchNext => TokenView::SwitchNext,
        }
    }
}

/// Why a pattern string was rejected.
#[derive(Debug, Clone, Copy, PartialEq, Eq, Structural)]
pub enum ParseError {
    /// A `}` with no open group.
    UnmatchedCloseBrace,
    /// The input ended while a group was still open.
    UnmatchedOpenBrace,
    /// A bound of a `..` range is not exactly one ASCII character.
    InvalidRangeBound,
    /// Something other than `}` follows the end of a range.
    RangeMustBeSingleGroup,
    /// The start of a range is not below its end.
    RangeNotAscending,
    /// The input ended inside an escape or a range.
    UnexpectedEndOfInput,
}

impl ParseError {
    /// A short description of the error.
    pub fn message(&self) -> (r: &'static str) {
        match self {
            ParseError::UnmatchedCloseBrace => "unmatched }, not in a group",
            ParseError::UnmatchedOpenBrace => "unmatched {, still in a group at end of string",
            ParseError::InvalidRangeBound => "range patterns only support a single ascii character",
            ParseError::RangeMustBeSingleGroup => "a range must be the only content of its group",
            ParseError::RangeNotAscending => "range start needs to be smaller than range end",
            ParseError::UnexpectedEndOfInput => "unexpected end of string",
        }
    }
}

/// Whether `c` is a single-byte (ASCII) character.
pub open spec fn is_ascii_char(c: char) -> bool {
    (c as u32) < 128
}

/// The views of a sequence of tokens.
pub open spec fn tokens_view(v: Seq<Token>) -> Seq<TokenView> {
    v.map_values(|t: Token| t@)
}

/// The view of a tokenizer result.
pub open spec fn lexed_view(r: Result<Vec<Token>, ParseError>) -> Result<Seq<TokenView>, ParseError> {
    match r {
        Ok(v) => Ok(tokens_view(v@)),
        Err(e) => Err(e),
    }
}

/// `t` followed by the tokens of `r`, or the error of `r`.
pub open spec fn prepend(t: Seq<TokenView>, r: Result<Seq<TokenView>, ParseError>) -> Result<
    Seq<TokenView>,
    ParseError,
> {
    match r {
        Ok(rest) => Ok(t + rest),
        Err(e) => Err(e),
    }
}

/// The pending literal as a token, if it holds any text.
pub open spec fn flush(buf: Seq<char>) -> Seq<TokenView> {
    if buf.len() == 0 {
        seq![]
    } else {
        seq![TokenView::Chunk(buf)]
    }
}

/// An explicit empty alternative, where position `i` holds a closing brace.
pub open spec fn empty_before_close(s: Seq<char>, i: int) -> Seq<TokenView> {
    if 0 <= i < s.len() && s[i] == '}' {
        seq![TokenView::Chunk(seq![])]
    } else {
        seq![]
    }
}

/// One chunk per character code from `lo` to `hi`, separated by `SwitchNext`.
pub open spec fn range_tokens(lo: u8, hi: u8) -> Seq<TokenView>
    decreases hi - lo,
{
    if lo >= hi {
        seq![TokenView::Chunk(seq![lo as char])]
    } else {
        seq![TokenView::Chunk(seq![lo as char]), TokenView::SwitchNext] + range_tokens(
            (lo + 1) as u8,
            hi,
        )
    }
}

/// The tokens of `s` from position `i` on, where `depth` groups are open and
/// `buf` is the literal text read but not yet emitted.
pub open spec fn lex(s: Seq<char>, i: int, depth: nat, buf: Seq<char>) -> Result<
    Seq<TokenView>,
    ParseError,
>
    decreases s.len() - i, 1int,
{
    if i < 0 || i >= s.len() {
        if depth > 0 {
            Err(ParseError::UnmatchedOpenBrace)
        } else {
            Ok(flush(buf))
        }
    } else if s[i] == '\\' {
        if i + 1 >= s.len() {
            Err(ParseError::UnexpectedEndOfInput)
        } else {
            lex(s, i + 2, depth, buf.push(s[i + 1]))
        }
    } else if s[i] == '{' {
        prepend(flush(buf).push(TokenView::SwitchOpen), lex(s, i + 1, depth + 1, seq![]))
    } else if s[i] == '}' {
        if depth == 0 {
            Err(ParseError::UnmatchedCloseBrace)
        } else if depth > 1 && i + 1 < s.len() && s[i + 1] == ',' {
            prepend(
                flush(buf) + seq![TokenView::SwitchClose, TokenView::SwitchNext]
                    + empty_before_close(s, i + 2),
                lex(s, i + 2, (depth - 1) as nat, seq![]),
            )
        } else {
            prepend(flush(buf).push(TokenView::SwitchClose), lex(s, i + 1, (depth - 1) as nat, seq![]))
        }
    } else if s[i] == ',' && depth > 0 {
        prepend(
            seq![TokenView::Chunk(buf), TokenView::SwitchNext] + empty_before_close(s, i + 1),
            lex(s, i + 1, depth, seq![]),
        )
    } else if s[i] == '.' && depth > 0 && i + 1 < s.len() && s[i + 1] == '.' {
        if buf.len() != 1 || !is_ascii_char(buf[0]) {
            Err(ParseError::InvalidRangeBound)
        } else {
            lex_range(s, i + 2, depth, buf[0])
        }
    } else {
        lex(s, i + 1, depth, buf.push(s[i]))
    }
}

/// The tokens of `s` where position `i` follows the `..` of a range that
/// starts at `start`.
pub open spec fn lex_range(s: Seq<char>, i: int, depth: nat, start: char) -> Result<
    Seq<TokenView>,
    ParseError,
>
    decreases s.len() - i, 0int,
{
    if i < 0 || i >= s.len() || (s[i] == '\\' && i + 1 >= s.len()) {
        Err(ParseError::UnexpectedEndOfInput)
    } else {
        let escaped = s[i] == '\\';
        let end = if escaped {
            s[i + 1]
        } else {
            s[i]
        };
        let j = if escaped {
            i + 2
        } else {
            i + 1
        };
        if !is_ascii_char(end) {
            Err(ParseError::InvalidRangeBound)
        } else if !(j < s.len() && s[j] == '}') {
            Err(ParseError::RangeMustBeSingleGroup)
        } else if (start as u32) >= (end as u32) {
            Err(ParseError::RangeNotAscending)
        } else {
            prepend(range_tokens((start as u32) as u8, (end as u32) as u8), lex(s, j, depth, seq![]))
        }
    }
}

/// The tokens of a whole pattern string.
pub open spec fn lex_all(s: Seq<char>) -> Result<Seq<TokenView>, ParseError> {
    lex(s, 0, 0, seq![])
}

proof fn lemma_prepend_prepend(a: Seq<TokenView>, b: Seq<TokenView>, r: Result<Seq<TokenView>, ParseError>)
    ensures
        prepend(a, prepend(b, r)) == prepend(a + b, r),
{
    if let Ok(rest) = r {
        assert(a + (b + rest) =~= (a + b) + rest);
    }
}

proof fn lemma_push_view(v: Seq<Token>, t: Token)
    ensures
        tokens_view(v.push(t)) == tokens_view(v).push(t@),
{
    assert(tokens_view(v.push(t)) =~= tokens_view(v).push(t@));
}

/// Appends the chunks of the character codes `lo..=hi`, separated by
/// `SwitchNext`, to `tokens`.
fn push_range(tokens: &mut Vec<Token>, lo: u8, hi: u8)
    requires
        lo < hi,
    ensures
        tokens_view(final(tokens)@) == tokens_view(old(tokens)@) + range_tokens(lo, hi),
{
    let ghost start = tokens_view(tokens@);
    let mut c: u8 = lo;
    loop
        invariant_except_break
            tokens_view(tokens@) + range_tokens(c, hi) == start + range_tokens(lo, hi),
        invariant
            lo <= c <= hi,
        ensures
            tokens_view(tokens@) == start + range_tokens(lo, hi),
        decreases hi - c,
    {
        let ghost before = tokens_view(tokens@);
        let chunk = char_string(c as char);
        proof {
            lemma_push_view(tokens@, Token::Chunk(chunk));
        }
        tokens.push(Token::Chunk(chunk));
        if c == hi {
            assert(range_tokens(c, hi) == seq![TokenView::Chunk(seq![c as char])]);
            assert(tokens_view(tokens@) =~= before + range_tokens(c, hi));
            break;
        }
        proof {
            lemma_push_view(tokens@, Token::SwitchNext);
        }
        tokens.push(Token::SwitchNext);
        assert(before + range_tokens(c, hi) =~= tokens_view(tokens@) + range_tokens(
            (c + 1) as u8,
            hi,
        ));
        c = c + 1;
    }
}

/// Splits a pattern string into tokens.
///
/// A backslash makes the next character literal. `{` opens a group and `}`
/// closes the innermost one; inside a group `,` separates alternatives and
/// `X..Y` stands for the alternatives `X` to `Y` (single ASCII characters,
/// `X` below `Y`, and nothing else before the closing brace).
pub fn parse(s: &str) -> (r: Result<Vec<Token>, ParseError>)
    ensures
        lexed_view(r) == lex_all(s@),
{
    let chars = chars_of(s);
    let n = chars.len();
    let mut tokens: Vec<Token> = Vec::new();
    let mut depth: usize = 0;
    let mut x = String::new();
    let mut x_len: usize = 0;
    let mut x_last: char = ' ';
    let mut i: usize = 0;
    while i < n
        invariant
            chars@ == s@,
            n == s@.len(),
            i <= n,
            depth <= i,
            x_len <= i,
            x_len == x@.len(),
            x_len > 0 ==> x@[x_len - 1] == x_last,
            lex_all(s@) == prepend(tokens_view(tokens@), lex(s@, i as int, depth as nat, x@)),
        decreases n - i,
    {
        let ghost t0 = tokens_view(tokens@);
        let ghost buf = x@;
        let c = chars[i];
        if c == '\\' {
            assert(lex(s@, i as int, depth as nat, buf) == if i + 1 >= n {
                Err(ParseError::UnexpectedEndOfInput)
            } else {
                lex(s@, i + 2, depth as nat, buf.push(s@[i + 1]))
            });
            if i + 1 >= n {
                return Err(ParseError::UnexpectedEndOfInput);
            }
            let e = chars[i + 1];
            x.push(e);
            x_len = x_len + 1;
            x_last = e;
            i = i + 2;
        } else if c == '{' {
            let ghost f = flush(x@);
            if x_len > 0 {
                proof {
                    lemma_push_view(tokens@, Token::Chunk(x));
                }
                tokens.push(Token::Chunk(x));
                x = String::new();
                x_len = 0;
            }
            proof {
                lemma_push_view(tokens@, Token::SwitchOpen);
                lemma_prepend_prepend(t0, f.push(TokenView::SwitchOpen), lex(s@, i + 1, (depth + 1) as nat, seq![]));
                assert(t0 + f.push(TokenView::SwitchOpen) =~= tokens_view(tokens@).push(TokenView::SwitchOpen));
            }
            tokens.push(Token::SwitchOpen);
            assert(x@ =~= seq![]);
            depth = depth + 1;
            i = i + 1;
        } else if c == '}' {
            if depth == 0 {
                return Err(ParseError::UnmatchedCloseBrace);
            }
            let ghost f = flush(x@);
            if x_len > 0 {
                proof {
                    lemma_push_view(tokens@, Token::Chunk(x));
                }
                tokens.push(Token::Chunk(x));
                x = String::new();
                x_len = 0;
            }
            proof {
                lemma_push_view(tokens@, Token::SwitchClose);
            }
            tokens.push(Token::SwitchClose);
            assert(x@ =~= seq![]);
            assert(tokens_view(tokens@) =~= t0 + f.push(TokenView::SwitchClose));
            depth = depth - 1;
            if depth > 0 && i + 1 < n && chars[i + 1] == ',' {
                proof {
                    lemma_push_view(tokens@, Token::SwitchNext);
                }
                tokens.push(Token::SwitchNext);
                if i + 2 < n && chars[i + 2] == '}' {
                    let empty = String::new();
                    proof {
                        lemma_push_view(tokens@, Token::Chunk(empty));
                    }
                    tokens.push(Token::Chunk(empty));
                }
                proof {
                    let tail = f + seq![TokenView::SwitchClose, TokenView::SwitchNext]
                        + empty_before_close(s@, i + 2);
                    lemma_prepend_prepend(t0, tail, lex(s@, i + 2, depth as nat, seq![]));
                    assert(t0 + tail =~= tokens_view(tokens@));
                }
                i = i + 2;
            } else {
                proof {
                    lemma_prepend_prepend(t0, f.push(TokenView::SwitchClose), lex(s@, i + 1, depth as nat, seq![]));
                }
                i = i + 1;
            }
        } else if c == ',' && depth > 0 {
            let ghost buf = x@;
            proof {
                lemma_push_view(tokens@, Token::Chunk(x));
            }
            tokens.push(Token::Chunk(x));
            x = String::new();
            x_len = 0;
            proof {
                lemma_push_view(tokens@, Token::SwitchNext);
            }
            tokens.push(Token::SwitchNext);
            if i + 1 < n && chars[i + 1] == '}' {
                let empty = String::new();
                proof {
                    lemma_push_view(tokens@, Token::Chunk(empty));
                }
                tokens.push(Token::Chunk(empty));
            }
            proof {
                let tail = seq![TokenView::Chunk(buf), TokenView::SwitchNext] + empty_before_close(s@, i + 1);
                lemma_prepend_prepend(t0, tail, lex(s@, i + 1, depth as nat, seq![]));
                assert(t0 + tail =~= tokens_view(tokens@));
            }
            i = i + 1;
        } else if c == '.' && depth > 0 && i + 1 < n && chars[i + 1] == '.' {
            assert(lex(s@, i as int, depth as nat, buf) == if buf.len() != 1 || !is_ascii_char(buf[0]) {
                Err(ParseError::InvalidRangeBound)
            } else {
                lex_range(s@, i + 2, depth as nat, buf[0])
            });
            if x_len != 1 || (x_last as u32) >= 128 {
                return Err(ParseError::InvalidRangeBound);
            }
            let start = x_last;
            assert(buf =~= seq![start]);
            let ghost rest = lex_range(s@, i + 2, depth as nat, start);
            let mut j = i + 2;
            if j >= n {
                return Err(ParseError::UnexpectedEndOfInput);
            }
            let mut end = chars[j];
            if end == '\\' {
                if j + 1 >= n {
                    return Err(ParseError::UnexpectedEndOfInput);
                }
                end = chars[j + 1];
                j = j + 2;
            } else {
                j = j + 1;
            }
            if (end as u32) >= 128 {
                return Err(ParseError::InvalidRangeBound);
            }
            if !(j < n && chars[j] == '}') {
                return Err(ParseError::RangeMustBeSingleGroup);
            }
            if (start as u32) >= (end as u32) {
                return Err(ParseError::RangeNotAscending);
            }
            let lo = (start as u32) as u8;
            let hi = (end as u32) as u8;
            assert(rest == prepend(range_tokens(lo, hi), lex(s@, j as int, depth as nat, seq![])));
            push_range(&mut tokens, lo, hi);
            proof {
                lemma_prepend_prepend(t0, range_tokens(lo, hi), lex(s@, j as int, depth as nat, seq![]));
            }
            x = String::new();
            x_len = 0;
            i = j;
        } else {
            x.push(c);
            x_len = x_len + 1;
            x_last = c;
            i = i + 1;
        }
    }
    let ghost t_end = tokens_view(tokens@);
    let ghost buf = x@;
    if x_len > 0 {
        proof {
            lemma_push_view(tokens@, Token::Chunk(x));
        }
        tokens.push(Token::Chunk(x));
    }
    assert(tokens_view(tokens@) =~= t_end + flush(buf));
    if depth > 0 {
        return Err(ParseError::UnmatchedOpenBrace);
    }
    Ok(tokens)
}

/// `t` with a backslash before each of its characters.
pub open spec fn escape_all(t: Seq<char>) -> Seq<char>
    decreases t.len(),
{
    if t.len() == 0 {
        seq![]
    } else {
        seq!['\\', t[0]] + escape_all(t.subrange(1, t.len() as int))
    }
}

proof fn lemma_escape_all_shape(t: Seq<char>)
    ensures
        escape_all(t).len() == 2 * t.len(),
        forall|k: int| 0 <= k < t.len() ==> #[trigger] escape_all(t)[2 * k] == '\\',
        forall|k: int| 0 <= k < t.len() ==> #[trigger] escape_all(t)[2 * k + 1] == t[k],
    decreases t.len(),
{
    if t.len() > 0 {
        let rest = t.subrange(1, t.len() as int);
        let e = escape_all(t);
        let head = seq!['\\', t[0]];
        lemma_escape_all_shape(rest);
        assert(e == head + escape_all(rest));
        assert forall|k: int| 0 <= k < t.len() implies #[trigger] e[2 * k] == '\\' by {
            if k > 0 {
                assert(e[2 * k] == escape_all(rest)[2 * (k - 1)]);
            }
        }
        assert forall|k: int| 0 <= k < t.len() implies #[trigger] e[2 * k + 1] == t[k] by {
            if k > 0 {
                assert(e[2 * k + 1] == escape_all(rest)[2 * (k - 1) + 1]);
                assert(rest[k - 1] == t[k]);
            }
        }
    }
}

proof fn lemma_escaped_from(t: Seq<char>, k: int)
    requires
        0 <= k <= t.len(),
    ensures
        lex(escape_all(t), 2 * k, 0, t.subrange(0, k)) == Ok::<Seq<TokenView>, ParseError>(flush(t)),
    decreases t.len() - k,
{
    lemma_escape_all_shape(t);
    if k == t.len() {
        assert(t.subrange(0, k) =~= t);
    } else {
        assert(escape_all(t)[2 * k + 1] == t[k]);
        assert(t.subrange(0, k).push(t[k]) =~= t.subrange(0, k + 1));
        lemma_escaped_from(t, k + 1);
    }
}

/// A backslash makes any character literal: a text with every character
/// escaped is read as that text, in a single chunk (no token at all where it
/// is empty), whatever characters of the grammar it holds.
pub proof fn lemma_escaped_text_is_literal(t: Seq<char>)
    ensures
        lex_all(escape_all(t)) == Ok::<Seq<TokenView>, ParseError>(flush(t)),
{
    lemma_escaped_from(t, 0);
    assert(t.subrange(0, 0) =~= Seq::<char>::empty());
}

} // verus!
