//! Lexical scanner: turns source text into a sequence of tokens.
//!
//! Single-character tokens (`:`, `;`, `=`) need no lookahead; names and
//! integer literals greedily consume a maximal run of continuation
//! characters; a maximal run of whitespace folds to a single `LineBreak`
//! token exactly when it contains a newline, and to nothing otherwise.
//! Any other character is a lexical error.

use crate::error::Error;
use vstd::prelude::*;

verus! {

/// What `char::is_lowercase` returns; the result depends on the character alone.
pub uninterp spec fn is_lower_char(c: char) -> bool;

/// What `char::is_uppercase` returns; the result depends on the character alone.
pub uninterp spec fn is_upper_char(c: char) -> bool;

/// What `char::is_alphanumeric` returns; the result depends on the character alone.
pub uninterp spec fn is_alnum_char(c: char) -> bool;

/// What `char::is_whitespace` returns; the result depends on the character alone.
pub uninterp spec fn is_space_char(c: char) -> bool;

/// Relies on `char::is_lowercase`: whether the character is a lowercase letter.
pub assume_specification[ char::is_lowercase ](c: char) -> (r: bool)
    ensures
        r == is_lower_char(c),
;

/// Relies on `char::is_uppercase`: whether the character is an uppercase letter.
pub assume_specification[ char::is_uppercase ](c: char) -> (r: bool)
    ensures
        r == is_upper_char(c),
;

/// Relies on `char::is_alphanumeric`: whether the character is a letter or digit.
pub assume_specification[ char::is_alphanumeric ](c: char) -> (r: bool)
    ensures
        r == is_alnum_char(c),
;

/// Relies on `char::is_whitespace`: whether the character is whitespace.
pub assume_specification[ char::is_whitespace ](c: char) -> (r: bool)
    ensures
        r == is_space_char(c),
;

/// The documented behaviour of `char::to_digit`: digits `0`-`9` map to their
/// value, letters map to 10 through 35 regardless of case, and the result
/// must be below the radix.
pub open spec fn spec_to_digit(c: char, radix: u32) -> Option<u32> {
    let cv = c as u32;
    let d: int = if '0' as u32 <= cv && cv <= '9' as u32 {
        cv - '0' as u32
    } else if 'a' as u32 <= cv && cv <= 'z' as u32 {
        cv - 'a' as u32 + 10
    } else if 'A' as u32 <= cv && cv <= 'Z' as u32 {
        cv - 'A' as u32 + 10
    } else {
        36
    };
    if d < radix {
        Some(d as u32)
    } else {
        None
    }
}

/// Relies on `char::to_digit`, which panics on a radix above 36.
pub assume_specification[ char::to_digit ](c: char, radix: u32) -> (r: Option<u32>)
    requires
        2 <= radix <= 36,
    ensures
        r == spec_to_digit(c, radix),
;

/// Does the character start a lower name?
pub fn starts_lower_name(c: char) -> (r: bool)
    ensures
        r == is_lower_char(c),
{
    c.is_lowercase()
}

/// Does the character start an upper name?
pub fn starts_upper_name(c: char) -> (r: bool)
    ensures
        r == is_upper_char(c),
{
    c.is_uppercase()
}

/// Does the character continue a name already started?
pub fn continues_name(c: char) -> (r: bool)
    ensures
        r == is_alnum_char(c),
{
    c.is_alphanumeric()
}

/// The decimal value of a digit character, if it is one.
pub open spec fn spec_digit(c: char) -> Option<i64> {
    match spec_to_digit(c, 10) {
        Some(d) => Some(d as i64),
        None => None,
    }
}

/// The decimal value of a digit character, if it is one.
pub fn digit(c: char) -> (r: Option<i64>)
    ensures
        r == spec_digit(c),
{
    match c.to_digit(10) {
        Some(d) => Some(d as i64),
        None => None,
    }
}

/// A half-open character range into the original source text.
///
/// `start + len <= len(source)` holds for every span the lexer emits, and
/// the lexer never emits an empty span.
#[derive(Debug, Clone, Copy, PartialEq, Eq, Structural)]
pub struct Span {
    pub start: usize,
    pub len: usize,
}

/// A lexical token.
///
/// Names carry a span into the source rather than a copied substring;
/// integer literals carry their already-decoded value; `LineBreak` is the
/// layout marker emitted once per maximal whitespace run that contains a
/// newline.
#[derive(Debug, Clone, Copy, PartialEq, Eq, Structural)]
pub enum Token {
    UpperName(Span),
    LowerName(Span),
    IntegerLiteral(i64),
    LineBreak,
    Colon,
    Semicolon,
    Equals,
}

/// The span carried by a name token.
pub open spec fn spec_token_name(t: Token) -> Option<Span> {
    match t {
        Token::UpperName(sp) => Some(sp),
        Token::LowerName(sp) => Some(sp),
        _ => None,
    }
}

/// The value carried by an integer-literal token.
pub open spec fn spec_token_integer(t: Token) -> Option<i64> {
    match t {
        Token::IntegerLiteral(n) => Some(n),
        _ => None,
    }
}

impl Token {
    /// The value of this token, if it is an integer literal.
    pub fn integer_literal(self) -> (r: Option<i64>)
        ensures
            r == spec_token_integer(self),
    {
        match self {
            Token::IntegerLiteral(n) => Some(n),
            _ => None,
        }
    }

    /// The span of this token, if it is a name.
    pub fn name(self) -> (r: Option<Span>)
        ensures
            r == spec_token_name(self),
    {
        match self {
            Token::UpperName(x) => Some(x),
            Token::LowerName(x) => Some(x),
            _ => None,
        }
    }
}

/// The classes of characters that continue a multi-character run.
pub enum RunClass {
    NameCont,
    Space,
    Digit,
}

/// Membership of a character in a run class.
pub open spec fn in_class(k: RunClass, c: char) -> bool {
    match k {
        RunClass::NameCont => is_alnum_char(c),
        RunClass::Space => is_space_char(c),
        RunClass::Digit => spec_digit(c) is Some,
    }
}

/// Length of the maximal run of class `k` characters starting at `i`.
pub open spec fn run_len(s: Seq<char>, i: int, k: RunClass) -> nat
    decreases s.len() - i,
{
    if i < 0 || i >= s.len() || !in_class(k, s[i]) {
        0
    } else {
        (1 + run_len(s, i + 1, k)) as nat
    }
}

/// A maximal run stays within the text.
pub proof fn lemma_run_len_bound(s: Seq<char>, i: int, k: RunClass)
    requires
        0 <= i <= s.len(),
    ensures
        i + run_len(s, i, k) <= s.len(),
    decreases s.len() - i,
{
    if i < s.len() && in_class(k, s[i]) {
        lemma_run_len_bound(s, i + 1, k);
    }
}

/// Every character of a maximal run is in its class, and the run is maximal:
/// the character after it, if any, is not.
pub proof fn lemma_run_len_chars(s: Seq<char>, i: int, k: RunClass)
    requires
        0 <= i <= s.len(),
    ensures
        forall|m: int| i <= m < i + run_len(s, i, k) ==> in_class(k, #[trigger] s[m]),
        i + run_len(s, i, k) < s.len() ==> !in_class(k, s[i + run_len(s, i, k)]),
    decreases s.len() - i,
{
    if i < s.len() && in_class(k, s[i]) {
        lemma_run_len_chars(s, i + 1, k);
    }
}

/// The wrapping 64-bit left fold `acc = 10 * acc + digit` over the digit
/// characters of `s` in the range `[start, end)`.
pub open spec fn digits_value(s: Seq<char>, start: int, end: int) -> i64
    decreases end - start,
{
    if end <= start {
        0
    } else {
        vstd::wrapping::i64_specs::wrapping_add(
            vstd::wrapping::i64_specs::wrapping_mul(digits_value(s, start, end - 1), 10),
            match spec_digit(s[end - 1]) {
                Some(d) => d,
                None => 0,
            },
        )
    }
}

/// Leading zeros do not affect the decoded value of a digit run.
pub proof fn lemma_leading_zero(s: Seq<char>, start: int, end: int)
    requires
        start < end,
        spec_digit(s[start]) == Some(0i64),
    ensures
        digits_value(s, start, end) == digits_value(s, start + 1, end),
    decreases end - start,
{
    if start + 1 < end {
        lemma_leading_zero(s, start, end - 1);
    } else {
        assert(digits_value(s, start, start) == 0);
        assert(digits_value(s, start + 1, start + 1) == 0);
        assert(vstd::wrapping::i64_specs::wrapping_mul(0, 10) == 0);
    }
}

/// Does the range `[i, j)` contain a newline?
pub open spec fn has_newline(s: Seq<char>, i: int, j: int) -> bool {
    exists|m: int| i <= m < j && s[m] == '\n'
}

/// Prepends a token to the outcome of lexing the rest of the text.
pub open spec fn cons_tok(t: Token, r: Result<Seq<Token>, char>) -> Result<Seq<Token>, char> {
    match r {
        Ok(ts) => Ok(seq![t] + ts),
        Err(c) => Err(c),
    }
}

/// The outcome of scanning the text from position `i` on: the tokens that
/// the rest of the text yields, or the first unclassifiable character.
///
/// At each position the scanner tries, in priority order: the three
/// single-character tokens, a lower or upper name, a whitespace run
/// (folded to one `LineBreak` if it contains a newline, dropped
/// otherwise), and an integer literal.
pub open spec fn spec_lex(s: Seq<char>, i: int) -> Result<Seq<Token>, char>
    decreases s.len() - i,
    via spec_lex_decreases
{
    if i < 0 || i >= s.len() {
        Ok(Seq::empty())
    } else {
        let c = s[i];
        if c == ':' {
            cons_tok(Token::Colon, spec_lex(s, i + 1))
        } else if c == ';' {
            cons_tok(Token::Semicolon, spec_lex(s, i + 1))
        } else if c == '=' {
            cons_tok(Token::Equals, spec_lex(s, i + 1))
        } else if is_lower_char(c) {
            let n = run_len(s, i + 1, RunClass::NameCont);
            cons_tok(
                Token::LowerName((Span { start: i as usize, len: (1 + n) as usize })),
                spec_lex(s, i + 1 + n),
            )
        } else if is_upper_char(c) {
            let n = run_len(s, i + 1, RunClass::NameCont);
            cons_tok(
                Token::UpperName((Span { start: i as usize, len: (1 + n) as usize })),
                spec_lex(s, i + 1 + n),
            )
        } else if is_space_char(c) {
            let n = run_len(s, i + 1, RunClass::Space);
            if has_newline(s, i, i + 1 + n) {
                cons_tok(Token::LineBreak, spec_lex(s, i + 1 + n))
            } else {
                spec_lex(s, i + 1 + n)
            }
        } else if spec_digit(c) is Some {
            let n = run_len(s, i + 1, RunClass::Digit);
            cons_tok(
                Token::IntegerLiteral(digits_value(s, i, i + 1 + n)),
                spec_lex(s, i + 1 + n),
            )
        } else {
            Err(c)
        }
    }
}

#[via_fn]
proof fn spec_lex_decreases(s: Seq<char>, i: int) {
    if 0 <= i && i < s.len() {
        lemma_run_len_bound(s, i + 1, RunClass::NameCont);
        lemma_run_len_bound(s, i + 1, RunClass::Space);
        lemma_run_len_bound(s, i + 1, RunClass::Digit);
    }
}

/// The message reported for an unclassifiable character.
pub open spec fn lex_error_text(c: char) -> Seq<char> {
    "lexer: unexpected character: "@ + seq![c]
}

/// Relies on `format!` with char's `Display`, which writes the character itself
/// after the prefix.
#[verifier::external_body]
fn char_message(prefix: &str, c: char) -> (r: String)
    ensures
        r@ == prefix@ + seq![c],
{
    format!("{}{}", prefix, c)
}

/// The scanner: the characters of the source and a cursor into them.
struct Lexer {
    chars: Vec<char>,
    pos: usize,
}

impl Lexer {
    /// The source text being scanned.
    closed spec fn src(&self) -> Seq<char> {
        self.chars@
    }

    /// The scan cursor.
    closed spec fn at(&self) -> int {
        self.pos as int
    }

    /// The cursor never leaves the text.
    closed spec fn wf(&self) -> bool {
        self.pos <= self.chars@.len()
    }

    fn new(source: &str) -> (l: Lexer)
        ensures
            l.wf(),
            l.src() == source@,
            l.at() == 0,
    {
        let n = source.unicode_len();
        let mut chars: Vec<char> = Vec::new();
        let mut i: usize = 0;
        while i < n
            invariant
                n == source@.len(),
                i <= n,
                chars@ == source@.subrange(0, i as int),
            decreases n - i,
        {
            chars.push(source.get_char(i));
            proof {
                assert(source@.subrange(0, i + 1) =~= source@.subrange(0, i as int).push(
                    source@[i as int],
                ));
            }
            i = i + 1;
        }
        proof {
            assert(source@.subrange(0, n as int) =~= source@);
        }
        Lexer { chars, pos: 0 }
    }

    /// Consume the maximal run of name-continuation characters after the
    /// starting character at `start`, and return the covering span.
    fn name(&mut self, start: usize) -> (sp: Span)
        requires
            old(self).wf(),
            old(self).at() == start + 1,
            start < old(self).src().len(),
        ensures
            final(self).wf(),
            final(self).src() == old(self).src(),
            final(self).at() == start + 1 + run_len(old(self).src(), start + 1, RunClass::NameCont),
            sp == (Span {
                start,
                len: (1 + run_len(old(self).src(), start + 1, RunClass::NameCont)) as usize,
            }),
    {
        let ghost s = self.chars@;
        let mut len: usize = 1;
        while self.pos < self.chars.len() && continues_name(self.chars[self.pos])
            invariant
                self.chars@ == s,
                self.pos <= s.len(),
                start + 1 <= self.pos,
                len == self.pos - start,
                run_len(s, start + 1, RunClass::NameCont) + start + 1 == run_len(
                    s,
                    self.pos as int,
                    RunClass::NameCont,
                ) + self.pos,
            decreases s.len() - self.pos,
        {
            proof {
                assert(run_len(s, self.pos as int, RunClass::NameCont) == 1 + run_len(
                    s,
                    self.pos + 1,
                    RunClass::NameCont,
                ));
            }
            self.pos = self.pos + 1;
            len = len + 1;
        }
        proof {
            assert(run_len(s, self.pos as int, RunClass::NameCont) == 0);
        }
        Span { start, len }
    }

    /// Consume the maximal run of whitespace after the starting character at
    /// `start`; report whether the whole run contained a newline.
    fn whitespace(&mut self, start: usize, first: char) -> (nl: bool)
        requires
            old(self).wf(),
            old(self).at() == start + 1,
            start < old(self).src().len(),
            old(self).src()[start as int] == first,
        ensures
            final(self).wf(),
            final(self).src() == old(self).src(),
            final(self).at() == start + 1 + run_len(old(self).src(), start + 1, RunClass::Space),
            nl == has_newline(old(self).src(), start as int, final(self).at()),
    {
        let ghost s = self.chars@;
        let mut has_nl = first == '\n';
        proof {
            assert(has_nl == has_newline(s, start as int, start + 1)) by {
                if s[start as int] == '\n' {
                    assert(start <= start < start + 1 && s[start as int] == '\n');
                }
            }
        }
        while self.pos < self.chars.len() && self.chars[self.pos].is_whitespace()
            invariant
                self.chars@ == s,
                self.pos <= s.len(),
                start + 1 <= self.pos,
                has_nl == has_newline(s, start as int, self.pos as int),
                run_len(s, start + 1, RunClass::Space) + start + 1 == run_len(
                    s,
                    self.pos as int,
                    RunClass::Space,
                ) + self.pos,
            decreases s.len() - self.pos,
        {
            let c = self.chars[self.pos];
            proof {
                assert(run_len(s, self.pos as int, RunClass::Space) == 1 + run_len(
                    s,
                    self.pos + 1,
                    RunClass::Space,
                ));
                if c == '\n' {
                    assert(start <= self.pos < self.pos + 1 && s[self.pos as int] == '\n');
                    assert(has_newline(s, start as int, self.pos + 1));
                } else {
                    assert(has_newline(s, start as int, self.pos + 1) == has_newline(
                        s,
                        start as int,
                        self.pos as int,
                    )) by {
                        if has_newline(s, start as int, self.pos + 1) {
                            let m = choose|m: int|
                                start <= m < self.pos + 1 && s[m] == '\n';
                            assert(start <= m < self.pos && s[m] == '\n');
                        }
                    }
                }
            }
            has_nl = has_nl || c == '\n';
            self.pos = self.pos + 1;
        }
        proof {
            assert(run_len(s, self.pos as int, RunClass::Space) == 0);
        }
        has_nl
    }

    /// Consume the maximal run of digits after the starting digit at `start`,
    /// folding the digits into a wrapping 64-bit accumulator.
    fn integer(&mut self, start: usize, first: char) -> (n: i64)
        requires
            old(self).wf(),
            old(self).at() == start + 1,
            start < old(self).src().len(),
            old(self).src()[start as int] == first,
            spec_digit(first) is Some,
        ensures
            final(self).wf(),
            final(self).src() == old(self).src(),
            final(self).at() == start + 1 + run_len(old(self).src(), start + 1, RunClass::Digit),
            n == digits_value(old(self).src(), start as int, final(self).at()),
    {
        let ghost s = self.chars@;
        let mut acc: i64 = match digit(first) {
            Some(d) => d,
            None => 0,
        };
        proof {
            assert(digits_value(s, start as int, start as int) == 0);
            assert(vstd::wrapping::i64_specs::wrapping_mul(0, 10) == 0);
            assert(digits_value(s, start as int, start + 1) == acc);
        }
        while self.pos < self.chars.len() && digit(self.chars[self.pos]).is_some()
            invariant
                self.chars@ == s,
                self.pos <= s.len(),
                start + 1 <= self.pos,
                acc == digits_value(s, start as int, self.pos as int),
                run_len(s, start + 1, RunClass::Digit) + start + 1 == run_len(
                    s,
                    self.pos as int,
                    RunClass::Digit,
                ) + self.pos,
            decreases s.len() - self.pos,
        {
            let c = self.chars[self.pos];
            let d = match digit(c) {
                Some(d) => d,
                None => 0,
            };
            proof {
                assert(run_len(s, self.pos as int, RunClass::Digit) == 1 + run_len(
                    s,
                    self.pos + 1,
                    RunClass::Digit,
                ));
            }
            acc = acc.wrapping_mul(10).wrapping_add(d);
            self.pos = self.pos + 1;
        }
        proof {
            assert(run_len(s, self.pos as int, RunClass::Digit) == 0);
        }
        acc
    }

    /// Produce the next token, if any: `None` at the end of the text, and an
    /// error on the first unclassifiable character.
    fn next(&mut self) -> (r: Option<Result<Token, Error>>)
        requires
            old(self).wf(),
        ensures
            final(self).wf(),
            final(self).src() == old(self).src(),
            old(self).at() <= final(self).at(),
            match r {
                None => spec_lex(final(self).src(), old(self).at()) == Ok::<Seq<Token>, char>(
                    Seq::empty(),
                ) && final(self).at() == final(self).src().len(),
                Some(res) => match res {
                    Ok(t) => spec_lex(final(self).src(), old(self).at()) == cons_tok(
                        t,
                        spec_lex(final(self).src(), final(self).at()),
                    ) && old(self).at() < final(self).at(),
                    Err(e) => spec_lex(final(self).src(), old(self).at()) matches Err(c)
                        && e.0@ == lex_error_text(c),
                },
            },
    {
        let ghost s = old(self).src();
        loop
            invariant
                self.chars@ == s,
                s == old(self).src(),
                self.pos <= s.len(),
                old(self).at() <= self.pos,
                spec_lex(s, old(self).at()) == spec_lex(s, self.pos as int),
            decreases s.len() - self.pos,
        {
            if self.pos == self.chars.len() {
                proof {
                    assert(spec_lex(s, self.pos as int) == Ok::<Seq<Token>, char>(Seq::empty()));
                }
                return None;
            }
            let start = self.pos;
            let c = self.chars[start];
            self.pos = self.pos + 1;
            if c == ':' {
                proof {
                    assert(spec_lex(s, start as int) == cons_tok(
                        Token::Colon,
                        spec_lex(s, start + 1),
                    ));
                }
                return Some(Ok(Token::Colon));
            }
            if c == ';' {
                proof {
                    assert(spec_lex(s, start as int) == cons_tok(
                        Token::Semicolon,
                        spec_lex(s, start + 1),
                    ));
                }
                return Some(Ok(Token::Semicolon));
            }
            if c == '=' {
                proof {
                    assert(spec_lex(s, start as int) == cons_tok(
                        Token::Equals,
                        spec_lex(s, start + 1),
                    ));
                }
                return Some(Ok(Token::Equals));
            }
            if starts_lower_name(c) {
                let sp = self.name(start);
                proof {
                    assert(spec_lex(s, start as int) == cons_tok(
                        Token::LowerName(sp),
                        spec_lex(s, self.pos as int),
                    ));
                }
                return Some(Ok(Token::LowerName(sp)));
            }
            if starts_upper_name(c) {
                let sp = self.name(start);
                proof {
                    assert(spec_lex(s, start as int) == cons_tok(
                        Token::UpperName(sp),
                        spec_lex(s, self.pos as int),
                    ));
                }
                return Some(Ok(Token::UpperName(sp)));
            }
            if c.is_whitespace() {
                let nl = self.whitespace(start, c);
                if nl {
                    proof {
                        assert(spec_lex(s, start as int) == cons_tok(
                            Token::LineBreak,
                            spec_lex(s, self.pos as int),
                        ));
                    }
                    return Some(Ok(Token::LineBreak));
                }
                proof {
                    assert(spec_lex(s, start as int) == spec_lex(s, self.pos as int));
                }
            } else {
                match digit(c) {
                    Some(_) => {
                        let n = self.integer(start, c);
                        proof {
                            assert(spec_lex(s, start as int) == cons_tok(
                                Token::IntegerLiteral(n),
                                spec_lex(s, self.pos as int),
                            ));
                        }
                        return Some(Ok(Token::IntegerLiteral(n)));
                    }
                    None => {
                        proof {
                            assert(spec_lex(s, start as int) == Err::<Seq<Token>, char>(c));
                        }
                        return Some(
                            Err(Error(char_message("lexer: unexpected character: ", c))),
                        );
                    }
                }
            }
        }
    }
}

/// What the source text holds at a name token's span: a non-empty range
/// inside the text whose first character starts a name of the token's case,
/// whose remaining characters all continue a name, and which is maximal:
/// the character after the span, if any, does not continue a name.
pub open spec fn name_span_wf(s: Seq<char>, sp: Span, lower: bool) -> bool {
    &&& 1 <= sp.len
    &&& sp.start + sp.len <= s.len()
    &&& if lower {
        is_lower_char(s[sp.start as int])
    } else {
        is_upper_char(s[sp.start as int])
    }
    &&& forall|m: int| sp.start < m < sp.start + sp.len ==> is_alnum_char(#[trigger] s[m])
    &&& sp.start + sp.len < s.len() ==> !is_alnum_char(s[sp.start + sp.len])
}

/// The span facts of one token; trivial for tokens that carry no span.
pub open spec fn token_wf(s: Seq<char>, t: Token) -> bool {
    match t {
        Token::LowerName(sp) => name_span_wf(s, sp, true),
        Token::UpperName(sp) => name_span_wf(s, sp, false),
        _ => true,
    }
}

/// Name tokens do not overlap: the span of an earlier one ends before the
/// span of a later one starts.
pub open spec fn tokens_ordered(t1: Token, t2: Token) -> bool {
    match (spec_token_name(t1), spec_token_name(t2)) {
        (Some(a), Some(b)) => a.start + a.len <= b.start,
        _ => true,
    }
}

/// A name token's span starts at or after position `i`.
pub open spec fn token_from(t: Token, i: int) -> bool {
    match spec_token_name(t) {
        Some(sp) => i <= sp.start,
        None => true,
    }
}

/// The round-trip span property: every name token of a successful scan
/// carries a span at which the source text reads back exactly the identifier
/// that triggered the token, and the spans of distinct name tokens are
/// disjoint and in source order.
pub proof fn lemma_lex_spans(s: Seq<char>, i: int)
    requires
        0 <= i,
        s.len() <= usize::MAX,
        spec_lex(s, i) is Ok,
    ensures
        forall|k: int|
            0 <= k < spec_lex(s, i)->Ok_0.len() ==> token_wf(s, #[trigger] spec_lex(s, i)->Ok_0[k])
                && token_from(spec_lex(s, i)->Ok_0[k], i),
        forall|k1: int, k2: int|
            0 <= k1 < k2 < spec_lex(s, i)->Ok_0.len() ==> tokens_ordered(
                spec_lex(s, i)->Ok_0[k1],
                spec_lex(s, i)->Ok_0[k2],
            ),
    decreases s.len() - i, 0int,
{
    let toks = spec_lex(s, i)->Ok_0;
    if i >= s.len() {
    } else {
        let c = s[i];
        if c == ':' || c == ';' || c == '=' {
            lemma_lex_one(s, i, i + 1, toks);
        } else if is_lower_char(c) || is_upper_char(c) {
            let n = run_len(s, i + 1, RunClass::NameCont);
            lemma_run_len_bound(s, i + 1, RunClass::NameCont);
            lemma_run_len_chars(s, i + 1, RunClass::NameCont);
            lemma_lex_one(s, i, i + 1 + n, toks);
        } else if is_space_char(c) {
            let n = run_len(s, i + 1, RunClass::Space);
            lemma_run_len_bound(s, i + 1, RunClass::Space);
            if has_newline(s, i, i + 1 + n) {
                lemma_lex_one(s, i, i + 1 + n, toks);
            } else {
                lemma_lex_spans(s, i + 1 + n);
                assert forall|k: int| 0 <= k < toks.len() implies token_wf(s, #[trigger] toks[k])
                    && token_from(toks[k], i) by {
                    assert(token_from(toks[k], i + 1 + n));
                }
            }
        } else {
            let n = run_len(s, i + 1, RunClass::Digit);
            lemma_run_len_bound(s, i + 1, RunClass::Digit);
            lemma_lex_one(s, i, i + 1 + n, toks);
        }
    }
}

/// The inductive step shared by the token-emitting branches of the scan:
/// position `i` emits one token, whose span (if any) covers `[i, j)`, and the
/// rest of the tokens come from position `j`.
proof fn lemma_lex_one(s: Seq<char>, i: int, j: int, toks: Seq<Token>)
    requires
        0 <= i < j <= s.len(),
        s.len() <= usize::MAX,
        spec_lex(s, j) is Ok,
        toks == seq![toks[0]] + spec_lex(s, j)->Ok_0,
        toks.len() >= 1,
        token_wf(s, toks[0]),
        spec_token_name(toks[0]) matches Some(sp) ==> sp.start == i && sp.start + sp.len == j,
    ensures
        forall|k: int|
            0 <= k < toks.len() ==> token_wf(s, #[trigger] toks[k]) && token_from(toks[k], i),
        forall|k1: int, k2: int|
            0 <= k1 < k2 < toks.len() ==> tokens_ordered(toks[k1], toks[k2]),
    decreases s.len() - j, 1int,
{
    lemma_lex_spans(s, j);
    let rest = spec_lex(s, j)->Ok_0;
    assert forall|k: int| 0 <= k < toks.len() implies token_wf(s, #[trigger] toks[k])
        && token_from(toks[k], i) by {
        if k >= 1 {
            assert(toks[k] == rest[k - 1]);
            assert(token_from(rest[k - 1], j));
        }
    }
    assert forall|k1: int, k2: int| 0 <= k1 < k2 < toks.len() implies tokens_ordered(
        toks[k1],
        toks[k2],
    ) by {
        if k1 >= 1 {
            assert(toks[k1] == rest[k1 - 1] && toks[k2] == rest[k2 - 1]);
        } else {
            assert(toks[k2] == rest[k2 - 1]);
            assert(token_from(rest[k2 - 1], j));
        }
    }
}

/// The character at `i` falls to the whitespace rule: it is whitespace and
/// no higher-priority rule (single-character tokens, names) claims it.
pub open spec fn classifies_space(s: Seq<char>, i: int) -> bool {
    &&& s[i] != ':' && s[i] != ';' && s[i] != '='
    &&& !is_lower_char(s[i]) && !is_upper_char(s[i])
    &&& is_space_char(s[i])
}

/// Whitespace folding: a maximal whitespace run yields exactly one
/// `LineBreak` token when it contains a newline — wherever in the run the
/// newline lies, and whatever the run's length — and no token at all when it
/// does not.
pub proof fn lemma_whitespace_folding(s: Seq<char>, i: int)
    requires
        0 <= i < s.len(),
        classifies_space(s, i),
    ensures
        ({
            let j = i + 1 + run_len(s, i + 1, RunClass::Space);
            &&& has_newline(s, i, j) ==> spec_lex(s, i) == cons_tok(
                Token::LineBreak,
                spec_lex(s, j),
            )
            &&& !has_newline(s, i, j) ==> spec_lex(s, i) == spec_lex(s, j)
        }),
{
}

/// The number of `LineBreak` tokens in a sequence.
pub open spec fn line_break_count(toks: Seq<Token>) -> nat
    decreases toks.len(),
{
    if toks.len() == 0 {
        0
    } else {
        (if toks[0] is LineBreak {
            1nat
        } else {
            0nat
        }) + line_break_count(toks.drop_first())
    }
}

/// The number of newline-bearing maximal whitespace runs the scan meets from
/// position `i` on.
pub open spec fn newline_run_count(s: Seq<char>, i: int) -> nat
    decreases s.len() - i,
    via newline_run_count_decreases
{
    if i < 0 || i >= s.len() {
        0
    } else {
        let c = s[i];
        if c == ':' || c == ';' || c == '=' {
            newline_run_count(s, i + 1)
        } else if is_lower_char(c) || is_upper_char(c) {
            newline_run_count(s, i + 1 + run_len(s, i + 1, RunClass::NameCont))
        } else if is_space_char(c) {
            let j = i + 1 + run_len(s, i + 1, RunClass::Space);
            if has_newline(s, i, j) {
                (1 + newline_run_count(s, j)) as nat
            } else {
                newline_run_count(s, j)
            }
        } else if spec_digit(c) is Some {
            newline_run_count(s, i + 1 + run_len(s, i + 1, RunClass::Digit))
        } else {
            0
        }
    }
}

#[via_fn]
proof fn newline_run_count_decreases(s: Seq<char>, i: int) {
    if 0 <= i && i < s.len() {
        lemma_run_len_bound(s, i + 1, RunClass::NameCont);
        lemma_run_len_bound(s, i + 1, RunClass::Space);
        lemma_run_len_bound(s, i + 1, RunClass::Digit);
    }
}

/// Prepending one token adds its own contribution to the `LineBreak` count.
proof fn lemma_line_break_count_cons(t: Token, rest: Seq<Token>)
    ensures
        line_break_count(seq![t] + rest) == (if t is LineBreak {
            1nat
        } else {
            0nat
        }) + line_break_count(rest),
{
    assert((seq![t] + rest).drop_first() =~= rest);
    assert((seq![t] + rest)[0] == t);
}

/// The total form of whitespace folding: a successful scan yields exactly
/// one `LineBreak` token per newline-bearing maximal whitespace run it
/// meets, and no other token contributes to that count.
pub proof fn lemma_line_break_count(s: Seq<char>, i: int)
    requires
        0 <= i,
        spec_lex(s, i) is Ok,
    ensures
        line_break_count(spec_lex(s, i)->Ok_0) == newline_run_count(s, i),
    decreases s.len() - i,
{
    let toks = spec_lex(s, i)->Ok_0;
    if i >= s.len() {
    } else {
        let c = s[i];
        if c == ':' || c == ';' || c == '=' {
            lemma_line_break_count(s, i + 1);
            lemma_line_break_count_cons(toks[0], spec_lex(s, i + 1)->Ok_0);
        } else if is_lower_char(c) || is_upper_char(c) {
            let j = i + 1 + run_len(s, i + 1, RunClass::NameCont);
            lemma_run_len_bound(s, i + 1, RunClass::NameCont);
            lemma_line_break_count(s, j);
            lemma_line_break_count_cons(toks[0], spec_lex(s, j)->Ok_0);
        } else if is_space_char(c) {
            let j = i + 1 + run_len(s, i + 1, RunClass::Space);
            lemma_run_len_bound(s, i + 1, RunClass::Space);
            lemma_line_break_count(s, j);
            if has_newline(s, i, j) {
                lemma_line_break_count_cons(Token::LineBreak, spec_lex(s, j)->Ok_0);
            }
        } else {
            let j = i + 1 + run_len(s, i + 1, RunClass::Digit);
            lemma_run_len_bound(s, i + 1, RunClass::Digit);
            lemma_line_break_count(s, j);
            lemma_line_break_count_cons(toks[0], spec_lex(s, j)->Ok_0);
        }
    }
}

/// Lexing is deterministic and total: the outcome of a scan is a function of
/// the source text alone — the scan always terminates (`spec_lex` is a total
/// function, and the scanner's loops all carry a termination measure) and
/// equal texts give equal outcomes, each a token sequence or a single
/// lexical error, never both.
pub proof fn lemma_lex_deterministic(
    s1: Seq<char>,
    s2: Seq<char>,
    r1: Result<Seq<Token>, char>,
    r2: Result<Seq<Token>, char>,
)
    requires
        s1 == s2,
        r1 == spec_lex(s1, 0),
        r2 == spec_lex(s2, 0),
    ensures
        r1 == r2,
{
}

/// Prepends already-emitted tokens to the outcome of the remaining scan.
pub open spec fn prepend_toks(a: Seq<Token>, r: Result<Seq<Token>, char>) -> Result<
    Seq<Token>,
    char,
> {
    match r {
        Ok(ts) => Ok(a + ts),
        Err(c) => Err(c),
    }
}

/// Scan the whole source text into its token sequence, or report the first
/// unclassifiable character.
pub fn lex(source: &str) -> (r: Result<Vec<Token>, Error>)
    ensures
        match r {
            Ok(toks) => spec_lex(source@, 0) == Ok::<Seq<Token>, char>(toks@),
            Err(e) => spec_lex(source@, 0) matches Err(c) && e.0@ == lex_error_text(c),
        },
{
    let mut lx = Lexer::new(source);
    let mut toks: Vec<Token> = Vec::new();
    loop
        invariant
            lx.wf(),
            lx.src() == source@,
            prepend_toks(toks@, spec_lex(source@, lx.at())) == spec_lex(source@, 0),
        decreases source@.len() - lx.at(),
    {
        let ghost at_before = lx.at();
        match lx.next() {
            None => {
                proof {
                    assert(toks@ + Seq::<Token>::empty() =~= toks@);
                }
                return Ok(toks);
            }
            Some(res) => match res {
                Ok(t) => {
                    proof {
                        if spec_lex(source@, lx.at()) is Ok {
                            assert((toks@ + seq![t]) + spec_lex(source@, lx.at())->Ok_0 =~= toks@
                                + (seq![t] + spec_lex(source@, lx.at())->Ok_0));
                        }
                        assert(toks@.push(t) =~= toks@ + seq![t]);
                    }
                    toks.push(t);
                }
                Err(e) => {
                    return Err(e);
                }
            },
        }
    }
}

} // verus!
