//! Turning source text into tokens.

use vstd::prelude::*;
use crate::rational::{fits, from_parts, reduce, Rational};
use crate::syntax::{toks, ExpressionTokens, Tok};
use crate::text::push_char;

verus! {

pub open spec fn is_digit(c: char) -> bool {
    '0' <= c <= '9'
}

/// Characters that a numeric literal is made of.
pub open spec fn is_number_char(c: char) -> bool {
    is_digit(c) || c == '.'
}

pub open spec fn is_identifier_start(c: char) -> bool {
    ('a' <= c <= 'z') || ('A' <= c <= 'Z') || c == '_'
}

/// What `char::is_alphanumeric` gives: the Unicode `Alphabetic` or
/// `Numeric` property.
pub uninterp spec fn alphanumeric(c: char) -> bool;

/// What `char::is_whitespace` gives: the Unicode `White_Space` property.
pub uninterp spec fn white_space(c: char) -> bool;

/// Characters that continue an identifier: letters and digits of any
/// script, and `_`.
pub open spec fn is_identifier_char(c: char) -> bool {
    c == '_' || if c <= '\x7f' {
        ('a' <= c <= 'z') || ('A' <= c <= 'Z') || is_digit(c)
    } else {
        alphanumeric(c)
    }
}

pub open spec fn is_operator(c: char) -> bool {
    c == '+' || c == '-' || c == '*' || c == '/'
}

/// White space of any script.
pub open spec fn is_blank(c: char) -> bool {
    if c <= '\x7f' {
        c == ' ' || ('\t' <= c <= '\r')
    } else {
        white_space(c)
    }
}

/// Characters that begin a token; all others are skipped.
pub open spec fn starts_token(c: char) -> bool {
    is_digit(c) || c == '(' || c == ')' || is_operator(c) || is_identifier_start(c)
}

/// The first position from `i` on that holds a character beginning a
/// token, or the end.
pub open spec fn token_start(s: Seq<char>, i: int) -> int
    decreases s.len() - i,
{
    if 0 <= i < s.len() && !starts_token(s[i]) {
        token_start(s, i + 1)
    } else {
        i
    }
}

/// The end of the run of literal characters that starts at `i`.
pub open spec fn number_end(s: Seq<char>, i: int) -> int
    decreases s.len() - i,
{
    if 0 <= i < s.len() && is_number_char(s[i]) {
        number_end(s, i + 1)
    } else {
        i
    }
}

/// The end of the run of identifier characters that starts at `i`.
pub open spec fn identifier_end(s: Seq<char>, i: int) -> int
    decreases s.len() - i,
{
    if 0 <= i < s.len() && is_identifier_char(s[i]) {
        identifier_end(s, i + 1)
    } else {
        i
    }
}

pub open spec fn digit_value(c: char) -> nat {
    (c as u32 - '0' as u32) as nat
}

/// The number of points in a literal.
pub open spec fn dot_count(t: Seq<char>) -> nat
    decreases t.len(),
{
    if t.len() == 0 {
        0
    } else {
        dot_count(t.drop_last()) + if t.last() == '.' {
            1nat
        } else {
            0nat
        }
    }
}

/// The digits of a literal read as one integer, the point left out.
pub open spec fn mantissa(t: Seq<char>) -> nat
    decreases t.len(),
{
    if t.len() == 0 {
        0
    } else if t.last() == '.' {
        mantissa(t.drop_last())
    } else {
        mantissa(t.drop_last()) * 10 + digit_value(t.last())
    }
}

/// The number of digits after the point.
pub open spec fn fraction_digits(t: Seq<char>) -> nat
    decreases t.len(),
{
    if t.len() == 0 {
        0
    } else if t.last() == '.' {
        fraction_digits(t.drop_last())
    } else if dot_count(t.drop_last()) > 0 {
        fraction_digits(t.drop_last()) + 1
    } else {
        0
    }
}

pub open spec fn pow10(k: nat) -> nat
    decreases k,
{
    if k == 0 {
        1
    } else {
        10 * pow10((k - 1) as nat)
    }
}

/// `t` without the zeros that end its fraction.
pub open spec fn trimmed(t: Seq<char>) -> Seq<char>
    decreases t.len(),
{
    if t.len() > 0 && dot_count(t) > 0 && t.last() == '0' {
        trimmed(t.drop_last())
    } else {
        t
    }
}

/// The value of a run of digits and points, in lowest terms: `None` where
/// it holds more than one point or where the value cannot be held by a
/// [`Rational`]. Zeros that end the fraction are dropped first; what is
/// left must have at most 38 digits after the point, and its digits read
/// as one integer must not exceed `i128::MAX`.
pub open spec fn literal_value(t: Seq<char>) -> Option<(int, int)> {
    let u = trimmed(t);
    let v = reduce(mantissa(u) as int, pow10(fraction_digits(u)) as int);
    if dot_count(t) <= 1 && mantissa(u) <= i128::MAX && fraction_digits(u) <= 38 && fits(v) {
        Some(v)
    } else {
        None
    }
}

/// The model of a [`LexError`].
pub enum LexFailure {
    InvalidNumber(int, Seq<char>),
}

/// A failure to read the source text.
#[derive(Clone, Debug, PartialEq)]
pub enum LexError {
    /// The literal `text` that starts at character `position` has no value.
    InvalidNumber { position: usize, text: String },
}

impl View for LexError {
    type V = LexFailure;

    open spec fn view(&self) -> LexFailure {
        match self {
            LexError::InvalidNumber { position, text } => LexFailure::InvalidNumber(
                *position as int,
                text@,
            ),
        }
    }
}

/// The model of what [`Lexer`] reads as its next token.
pub open spec fn token_outcome(r: Result<Option<ExpressionTokens>, LexError>) -> Result<
    Option<Tok>,
    LexFailure,
> {
    match r {
        Ok(Some(t)) => Ok(Some(t@)),
        Ok(None) => Ok(None),
        Err(e) => Err(e@),
    }
}

pub open spec fn prepend(t: Tok, r: Result<Seq<Tok>, LexFailure>) -> Result<Seq<Tok>, LexFailure> {
    match r {
        Ok(ts) => Ok(seq![t] + ts),
        Err(e) => Err(e),
    }
}

/// The token read from position `i`, with the position just past it: the
/// characters before it that begin no token are skipped; a digit begins a
/// literal; an ASCII letter or `_` begins an identifier, which goes on over
/// letters and digits of any script and `_`; parentheses and the four
/// operators stand alone. `Ok(None)` at the end of the text.
pub open spec fn next_from(s: Seq<char>, i: int) -> (Result<Option<Tok>, LexFailure>, int) {
    let j = token_start(s, i);
    if 0 <= j < s.len() {
        let c = s[j];
        if is_digit(c) {
            let e = number_end(s, j);
            let t = s.subrange(j, e);
            match literal_value(t) {
                Some(v) => (Ok(Some(Tok::Number(v))), e),
                None => (Err(LexFailure::InvalidNumber(j, t)), e),
            }
        } else if c == '(' {
            (Ok(Some(Tok::LeftParenthesis)), j + 1)
        } else if c == ')' {
            (Ok(Some(Tok::RightParenthesis)), j + 1)
        } else if is_operator(c) {
            (Ok(Some(Tok::Operator(c))), j + 1)
        } else if is_identifier_start(c) {
            let e = identifier_end(s, j);
            (Ok(Some(Tok::Variable(s.subrange(j, e)))), e)
        } else {
            (Ok(None), j)
        }
    } else {
        (Ok(None), j)
    }
}

/// The tokens of `s` from position `i` on, or the first failure.
pub open spec fn lex_from(s: Seq<char>, i: int) -> Result<Seq<Tok>, LexFailure>
    decreases s.len() - i,
    via lex_from_decreases
{
    if 0 <= i <= s.len() {
        match next_from(s, i) {
            (Ok(Some(t)), j) => prepend(t, lex_from(s, j)),
            (Ok(None), _) => Ok(seq![]),
            (Err(e), _) => Err(e),
        }
    } else {
        Ok(seq![])
    }
}

/// The tokens of the whole of `s`.
pub open spec fn tokens_of(s: Seq<char>) -> Result<Seq<Tok>, LexFailure> {
    lex_from(s, 0)
}

proof fn lemma_number_end(s: Seq<char>, i: int)
    requires
        0 <= i <= s.len(),
    ensures
        i <= number_end(s, i) <= s.len(),
        i < s.len() && is_number_char(s[i]) ==> i < number_end(s, i),
    decreases s.len() - i,
{
    if i < s.len() && is_number_char(s[i]) {
        lemma_number_end(s, i + 1);
    }
}

proof fn lemma_identifier_end(s: Seq<char>, i: int)
    requires
        0 <= i <= s.len(),
    ensures
        i <= identifier_end(s, i) <= s.len(),
        i < s.len() && is_identifier_char(s[i]) ==> i < identifier_end(s, i),
    decreases s.len() - i,
{
    if i < s.len() && is_identifier_char(s[i]) {
        lemma_identifier_end(s, i + 1);
    }
}

proof fn lemma_token_start(s: Seq<char>, i: int)
    requires
        0 <= i <= s.len(),
    ensures
        i <= token_start(s, i) <= s.len(),
        token_start(s, i) < s.len() ==> starts_token(s[token_start(s, i)]),
    decreases s.len() - i,
{
    if i < s.len() && !starts_token(s[i]) {
        lemma_token_start(s, i + 1);
    }
}

proof fn lemma_token_start_skip(s: Seq<char>, a: int, b: int)
    requires
        0 <= a <= b <= s.len(),
        forall|k: int| a <= k < b ==> !starts_token(#[trigger] s[k]),
    ensures
        token_start(s, a) == token_start(s, b),
    decreases b - a,
{
    if a < b {
        lemma_token_start_skip(s, a + 1, b);
    }
}

/// A token read from within the text ends after where reading began and no
/// later than the end.
proof fn lemma_next_from_advances(s: Seq<char>, i: int)
    requires
        0 <= i <= s.len(),
    ensures
        next_from(s, i).1 <= s.len(),
        next_from(s, i).0 matches Ok(Some(_)) ==> i < next_from(s, i).1,
        next_from(s, i).0 matches Ok(None) ==> next_from(s, i).1 == s.len(),
{
    lemma_token_start(s, i);
    let j = token_start(s, i);
    if j < s.len() {
        lemma_number_end(s, j);
        lemma_identifier_end(s, j);
    }
}

proof fn lemma_number_end_whole(s: Seq<char>, i: int)
    requires
        0 <= i <= s.len(),
        forall|k: int| i <= k < s.len() ==> is_number_char(#[trigger] s[k]),
    ensures
        number_end(s, i) == s.len(),
    decreases s.len() - i,
{
    if i < s.len() {
        lemma_number_end_whole(s, i + 1);
    }
}

/// A numeric literal standing alone is read as exactly one number token,
/// which holds the literal's value.
pub proof fn lemma_literal_is_one_token(t: Seq<char>)
    requires
        t.len() > 0,
        is_digit(t[0]),
        forall|k: int| 0 <= k < t.len() ==> is_number_char(#[trigger] t[k]),
        literal_value(t) is Some,
    ensures
        tokens_of(t) == Ok::<_, LexFailure>(seq![Tok::Number(literal_value(t)->Some_0)]),
{
    lemma_number_end_whole(t, 0);
    assert(token_start(t, 0) == 0);
    assert(token_start(t, t.len() as int) == t.len());
    assert(t.subrange(0, t.len() as int) =~= t);
    assert(lex_from(t, t.len() as int) == Ok::<_, LexFailure>(Seq::<Tok>::empty()));
    assert(seq![Tok::Number(literal_value(t)->Some_0)] + Seq::<Tok>::empty() =~= seq![
        Tok::Number(literal_value(t)->Some_0),
    ]);
}

/// `w` is `s` with one more character in front and `)` behind.
pub open spec fn wraps(s: Seq<char>, w: Seq<char>) -> bool {
    &&& w.len() == s.len() + 2
    &&& forall|k: int| 0 <= k < s.len() ==> w[k + 1] == #[trigger] s[k]
    &&& w[s.len() + 1int] == ')'
}

proof fn lemma_wrapped_ends(s: Seq<char>, w: Seq<char>, k: int)
    requires
        wraps(s, w),
        0 <= k <= s.len(),
    ensures
        number_end(w, k + 1) == number_end(s, k) + 1,
        identifier_end(w, k + 1) == identifier_end(s, k) + 1,
        token_start(w, k + 1) == token_start(s, k) + 1,
    decreases s.len() - k,
{
    if k < s.len() {
        assert(w[k + 1] == s[k]);
        lemma_wrapped_ends(s, w, k + 1);
    }
}

proof fn lemma_lex_wrapped(s: Seq<char>, w: Seq<char>, i: int)
    requires
        wraps(s, w),
        0 <= i <= s.len(),
        lex_from(s, i) is Ok,
    ensures
        lex_from(w, i + 1) == Ok::<_, LexFailure>(
            lex_from(s, i)->Ok_0 + seq![Tok::RightParenthesis],
        ),
    decreases s.len() - i,
{
    lemma_token_start(s, i);
    lemma_wrapped_ends(s, w, i);
    lemma_next_from_advances(s, i);
    let j = token_start(s, i);
    if j == s.len() {
        assert(token_start(w, w.len() as int) == w.len());
        assert(lex_from(w, j + 2) == Ok::<_, LexFailure>(Seq::<Tok>::empty()));
        assert(seq![Tok::RightParenthesis] + Seq::<Tok>::empty() =~= Seq::<Tok>::empty()
            + seq![Tok::RightParenthesis]);
    } else {
        let c = s[j];
        assert(w[j + 1] == c);
        lemma_number_end(s, j);
        lemma_identifier_end(s, j);
        lemma_wrapped_ends(s, w, j);
        let next = next_from(s, i).1;
        lemma_lex_wrapped(s, w, next);
        let rest = lex_from(s, next)->Ok_0;
        if is_digit(c) {
            assert(w.subrange(j + 1, number_end(w, j + 1)) =~= s.subrange(j, number_end(s, j)));
        } else if is_identifier_start(c) {
            assert(w.subrange(j + 1, identifier_end(w, j + 1)) =~= s.subrange(
                j,
                identifier_end(s, j),
            ));
        }
        assert forall|t: Tok| #[trigger] (seq![t] + rest) + seq![Tok::RightParenthesis] =~= seq![t]
            + (rest + seq![Tok::RightParenthesis]) by {}
    }
}

/// Reading `(`, then `s`, then `)` gives the tokens of `s` between a left
/// and a right parenthesis.
pub proof fn lemma_lex_parenthesized(s: Seq<char>)
    requires
        tokens_of(s) is Ok,
    ensures
        tokens_of(seq!['('] + s + seq![')']) == Ok::<_, LexFailure>(
            seq![Tok::LeftParenthesis] + tokens_of(s)->Ok_0 + seq![Tok::RightParenthesis],
        ),
{
    let w = seq!['('] + s + seq![')'];
    assert(wraps(s, w));
    lemma_lex_wrapped(s, w, 0);
    assert(w[0] == '(');
    assert(token_start(w, 0) == 0);
    assert(seq![Tok::LeftParenthesis] + (tokens_of(s)->Ok_0 + seq![Tok::RightParenthesis])
        =~= seq![Tok::LeftParenthesis] + tokens_of(s)->Ok_0 + seq![Tok::RightParenthesis]);
}

#[via_fn]
proof fn lex_from_decreases(s: Seq<char>, i: int) {
    if 0 <= i <= s.len() {
        lemma_next_from_advances(s, i);
    }
}

fn is_digit_char(c: char) -> (b: bool)
    ensures
        b == is_digit(c),
{
    '0' <= c && c <= '9'
}

fn is_number_character(c: char) -> (b: bool)
    ensures
        b == is_number_char(c),
{
    is_digit_char(c) || c == '.'
}

fn is_identifier_start_char(c: char) -> (b: bool)
    ensures
        b == is_identifier_start(c),
{
    ('a' <= c && c <= 'z') || ('A' <= c && c <= 'Z') || c == '_'
}

/// Relies on `char::is_alphanumeric`, which holds of the characters with
/// the Unicode `Alphabetic` or `Numeric` property; among ASCII characters
/// these are the letters and the digits.
#[verifier::external_body]
fn char_is_alphanumeric(c: char) -> (r: bool)
    ensures
        r == alphanumeric(c),
        c <= '\x7f' ==> (r <==> (('a' <= c <= 'z') || ('A' <= c <= 'Z') || ('0' <= c <= '9'))),
{
    c.is_alphanumeric()
}

/// Relies on `char::is_whitespace`, which holds of the characters with the
/// Unicode `White_Space` property; among ASCII characters these are the
/// space and U+0009 to U+000D.
#[verifier::external_body]
fn char_is_whitespace(c: char) -> (r: bool)
    ensures
        r == white_space(c),
        c <= '\x7f' ==> (r <==> (c == ' ' || ('\t' <= c <= '\r'))),
{
    c.is_whitespace()
}

fn is_identifier_character(c: char) -> (b: bool)
    ensures
        b == is_identifier_char(c),
{
    char_is_alphanumeric(c) || c == '_'
}

fn is_blank_char(c: char) -> (b: bool)
    ensures
        b == is_blank(c),
{
    char_is_whitespace(c)
}

proof fn lemma_pow10_le(i: nat, k: nat)
    requires
        i <= k,
    ensures
        1 <= pow10(i) <= pow10(k),
    decreases k - i,
{
    lemma_pow10_positive(i);
    if i < k {
        lemma_pow10_le(i + 1, k);
    }
}

proof fn lemma_pow10_positive(k: nat)
    ensures
        pow10(k) >= 1,
    decreases k,
{
    if k > 0 {
        lemma_pow10_positive((k - 1) as nat);
    }
}

/// `10` to the power `k`.
fn power_of_ten(k: usize) -> (p: i128)
    requires
        k <= 38,
    ensures
        p as int == pow10(k as nat),
{
    proof {
        reveal_with_fuel(pow10, 38);
        assert(pow10(37) == 10_000_000_000_000_000_000_000_000_000_000_000_000);
    }
    let mut p: i128 = 1;
    let mut i: usize = 0;
    while i < k
        invariant
            i <= k <= 38,
            p as int == pow10(i as nat),
            pow10(37) == 10_000_000_000_000_000_000_000_000_000_000_000_000,
        decreases k - i,
    {
        proof {
            lemma_pow10_le(i as nat, 37);
        }
        p = p * 10;
        i = i + 1;
    }
    p
}

/// The value of the literal `t`, a run of digits and points.
fn literal_number(t: &Vec<char>) -> (r: Option<Rational>)
    requires
        forall|k: int| 0 <= k < t@.len() ==> is_number_char(#[trigger] t@[k]),
    ensures
        match r {
            Some(v) => literal_value(t@) == Some(v@),
            None => literal_value(t@) is None,
        },
{
    let mut dots: usize = 0;
    let mut i: usize = 0;
    while i < t.len()
        invariant
            i <= t@.len(),
            dots == dot_count(t@.subrange(0, i as int)),
            dots <= i,
        decreases t@.len() - i,
    {
        assert(t@.subrange(0, i + 1).drop_last() =~= t@.subrange(0, i as int));
        if t[i] == '.' {
            dots = dots + 1;
        }
        i = i + 1;
    }
    assert(t@.subrange(0, t@.len() as int) =~= t@);
    if dots > 1 {
        return None;
    }
    let mut end: usize = t.len();
    while end > 0 && dots == 1 && t[end - 1] == '0'
        invariant
            end <= t@.len(),
            dots <= 1,
            trimmed(t@) == trimmed(t@.subrange(0, end as int)),
            dot_count(t@.subrange(0, end as int)) == dots,
        decreases end,
    {
        assert(t@.subrange(0, end as int).drop_last() =~= t@.subrange(0, end - 1));
        end = end - 1;
    }
    let ghost u = t@.subrange(0, end as int);
    assert(trimmed(u) == u);
    let mut m: u128 = 0;
    let mut too_big = false;
    let mut fraction: usize = 0;
    let mut seen_dot = false;
    i = 0;
    while i < end
        invariant
            i <= end <= t@.len(),
            u == t@.subrange(0, end as int),
            forall|k: int| 0 <= k < t@.len() ==> is_number_char(#[trigger] t@[k]),
            seen_dot == (dot_count(t@.subrange(0, i as int)) > 0),
            fraction == fraction_digits(t@.subrange(0, i as int)),
            fraction <= i,
            !too_big ==> m == mantissa(t@.subrange(0, i as int)) && m <= i128::MAX,
            too_big ==> mantissa(t@.subrange(0, i as int)) > i128::MAX,
        decreases end - i,
    {
        let c = t[i];
        assert(t@.subrange(0, i + 1).drop_last() =~= t@.subrange(0, i as int));
        assert(t@.subrange(0, i + 1).last() == c);
        if c == '.' {
            seen_dot = true;
        } else {
            if seen_dot {
                fraction = fraction + 1;
            }
            let d = (c as u32 - '0' as u32) as u128;
            assert(d as nat == digit_value(c));
            if !too_big {
                if m > (i128::MAX as u128 - d) / 10 {
                    assert(m * 10 + d > i128::MAX) by (nonlinear_arith)
                        requires
                            m > (i128::MAX as u128 - d) / 10,
                            d <= 9,
                    ;
                    too_big = true;
                } else {
                    assert(m * 10 + d <= i128::MAX) by (nonlinear_arith)
                        requires
                            m <= (i128::MAX as u128 - d) / 10,
                            d <= 9,
                    ;
                    m = m * 10 + d;
                }
            }
        }
        i = i + 1;
    }
    if too_big || fraction > 38 {
        return None;
    }
    let scale = power_of_ten(fraction);
    proof {
        lemma_pow10_le(0, fraction as nat);
        reveal_with_fuel(pow10, 1);
    }
    from_parts(m as i128, scale)
}

/// Reads tokens from a source text, one after another.
pub struct Lexer {
    position: usize,
    input: String,
    length: usize,
}

impl Lexer {
    /// The source text.
    pub closed spec fn source(&self) -> Seq<char> {
        self.input@
    }

    /// The position, in characters, of the next character to read.
    pub closed spec fn pos(&self) -> int {
        self.position as int
    }

    pub closed spec fn wf(&self) -> bool {
        self.length == self.input@.len() && self.position <= self.length
    }

    /// A lexer at the start of `input`.
    pub fn new(input: String) -> (r: Lexer)
        ensures
            r.wf(),
            r.source() == input@,
            r.pos() == 0,
    {
        let length = input.as_str().unicode_len();
        Lexer { position: 0, input, length }
    }

    fn peek(&self) -> (r: Option<char>)
        requires
            self.wf(),
        ensures
            r == if self.pos() < self.source().len() {
                Some(self.source()[self.pos()])
            } else {
                None::<char>
            },
    {
        if self.position < self.length {
            Some(self.input.as_str().get_char(self.position))
        } else {
            None
        }
    }

    fn advance(&mut self)
        requires
            old(self).wf(),
            old(self).pos() < old(self).source().len(),
        ensures
            final(self).wf(),
            final(self).source() == old(self).source(),
            final(self).pos() == old(self).pos() + 1,
    {
        self.position += 1;
    }

    /// Moves past the white space that starts here.
    fn skip_whitespace(&mut self)
        requires
            old(self).wf(),
        ensures
            final(self).wf(),
            final(self).source() == old(self).source(),
            old(self).pos() <= final(self).pos(),
            forall|k: int|
                old(self).pos() <= k < final(self).pos() ==> is_blank(#[trigger] final(self).source()[k]),
            final(self).pos() < final(self).source().len() ==> !is_blank(
                final(self).source()[final(self).pos()],
            ),
    {
        loop
            invariant
                self.wf(),
                self.source() == old(self).source(),
                old(self).pos() <= self.pos(),
                forall|k: int| old(self).pos() <= k < self.pos() ==> is_blank(#[trigger] self.source()[k]),
            ensures
                self.pos() < self.source().len() ==> !is_blank(self.source()[self.pos()]),
            decreases self.source().len() - self.pos(),
        {
            match self.peek() {
                Some(c) => {
                    if !is_blank_char(c) {
                        break;
                    }
                    self.advance();
                },
                None => break,
            }
        }
    }

    /// Reads the literal that starts here.
    fn read_number(&mut self) -> (r: Result<Rational, LexError>)
        requires
            old(self).wf(),
            old(self).pos() < old(self).source().len(),
            is_digit(old(self).source()[old(self).pos()]),
        ensures
            final(self).wf(),
            final(self).source() == old(self).source(),
            final(self).pos() == number_end(old(self).source(), old(self).pos()),
            ({
                let t = old(self).source().subrange(old(self).pos(), final(self).pos());
                match r {
                    Ok(v) => literal_value(t) == Some(v@),
                    Err(e) => literal_value(t) is None && e@ == LexFailure::InvalidNumber(
                        old(self).pos(),
                        t,
                    ),
                }
            }),
    {
        let start = self.position;
        let mut literal = String::new();
        let mut chars: Vec<char> = Vec::new();
        loop
            invariant
                self.wf(),
                self.source() == old(self).source(),
                start == old(self).pos(),
                start <= self.pos(),
                number_end(self.source(), start as int) == number_end(self.source(), self.pos()),
                literal@ == self.source().subrange(start as int, self.pos()),
                chars@ == literal@,
                forall|k: int| 0 <= k < chars@.len() ==> is_number_char(#[trigger] chars@[k]),
            ensures
                self.pos() == number_end(self.source(), start as int),
            decreases self.source().len() - self.pos(),
        {
            let c = match self.peek() {
                Some(c) => c,
                None => break,
            };
            if !is_number_character(c) {
                break;
            }
            push_char(&mut literal, c);
            chars.push(c);
            self.advance();
            assert(literal@ =~= self.source().subrange(start as int, self.pos()));
        }
        match literal_number(&chars) {
            Some(v) => Ok(v),
            None => Err(LexError::InvalidNumber { position: start, text: literal }),
        }
    }

    /// Reads the identifier that starts here.
    fn read_identifier(&mut self) -> (r: String)
        requires
            old(self).wf(),
        ensures
            final(self).wf(),
            final(self).source() == old(self).source(),
            final(self).pos() == identifier_end(old(self).source(), old(self).pos()),
            r@ == old(self).source().subrange(old(self).pos(), final(self).pos()),
    {
        let start = self.position;
        let mut name = String::new();
        loop
            invariant
                self.wf(),
                self.source() == old(self).source(),
                start == old(self).pos(),
                start <= self.pos(),
                identifier_end(self.source(), start as int) == identifier_end(
                    self.source(),
                    self.pos(),
                ),
                name@ == self.source().subrange(start as int, self.pos()),
            ensures
                self.pos() == identifier_end(self.source(), start as int),
            decreases self.source().len() - self.pos(),
        {
            let c = match self.peek() {
                Some(c) => c,
                None => break,
            };
            if !is_identifier_character(c) {
                break;
            }
            push_char(&mut name, c);
            self.advance();
            assert(name@ =~= self.source().subrange(start as int, self.pos()));
        }
        name
    }

    /// The next token, `Ok(None)` at the end of the text.
    fn next_token(&mut self) -> (r: Result<Option<ExpressionTokens>, LexError>)
        requires
            old(self).wf(),
        ensures
            final(self).wf(),
            final(self).source() == old(self).source(),
            token_outcome(r) == next_from(old(self).source(), old(self).pos()).0,
            final(self).pos() == next_from(old(self).source(), old(self).pos()).1,
    {
        let ghost s = self.source();
        let ghost start = self.pos();
        proof {
            lemma_token_start(s, start);
        }
        loop
            invariant
                self.wf(),
                self.source() == s,
                s == old(self).source(),
                start == old(self).pos(),
                start <= self.pos() <= token_start(s, start),
                token_start(s, self.pos()) == token_start(s, start),
            decreases s.len() - self.pos(),
        {
            let ghost before = self.pos();
            self.skip_whitespace();
            proof {
                lemma_token_start_skip(s, before, self.pos());
                lemma_token_start(s, self.pos());
            }
            let c = match self.peek() {
                Some(c) => c,
                None => {
                    return Ok(None);
                },
            };
            if is_digit_char(c) {
                return match self.read_number() {
                    Ok(v) => Ok(Some(ExpressionTokens::Number(v))),
                    Err(e) => Err(e),
                };
            } else if c == '(' {
                self.advance();
                return Ok(Some(ExpressionTokens::LeftParenthesis));
            } else if c == ')' {
                self.advance();
                return Ok(Some(ExpressionTokens::RightParenthesis));
            } else if c == '+' || c == '-' || c == '*' || c == '/' {
                self.advance();
                return Ok(Some(ExpressionTokens::Operator(c)));
            } else if is_identifier_start_char(c) {
                let name = self.read_identifier();
                return Ok(Some(ExpressionTokens::Variable(name)));
            } else {
                self.advance();
            }
        }
    }

    /// All tokens from the current position to the end of the text.
    ///
    /// A second call continues from where the first stopped: after a
    /// successful call it returns no tokens.
    pub fn tokenize(&mut self) -> (r: Result<Vec<ExpressionTokens>, LexError>)
        requires
            old(self).wf(),
        ensures
            final(self).wf(),
            final(self).source() == old(self).source(),
            match r {
                Ok(ts) => lex_from(old(self).source(), old(self).pos()) == Ok::<_, LexFailure>(
                    toks(ts@),
                ) && final(self).pos() == final(self).source().len(),
                Err(e) => lex_from(old(self).source(), old(self).pos()) == Err::<Seq<Tok>, _>(e@),
            },
    {
        let mut tokens: Vec<ExpressionTokens> = Vec::new();
        loop
            invariant
                self.wf(),
                self.source() == old(self).source(),
                lex_from(old(self).source(), old(self).pos()) == match lex_from(
                    self.source(),
                    self.pos(),
                ) {
                    Ok(rest) => Ok(toks(tokens@) + rest),
                    Err(e) => Err(e),
                },
            decreases self.source().len() - self.pos(),
        {
            let ghost before = self.pos();
            proof {
                lemma_next_from_advances(self.source(), before);
            }
            match self.next_token() {
                Err(e) => {
                    return Err(e);
                },
                Ok(None) => {
                    assert(toks(tokens@) + Seq::<Tok>::empty() =~= toks(tokens@));
                    return Ok(tokens);
                },
                Ok(Some(t)) => {
                    let ghost before = tokens@;
                    let ghost tv = t@;
                    tokens.push(t);
                    assert(toks(tokens@) =~= toks(before).push(tv));
                    assert forall|rest: Seq<Tok>| #[trigger] (toks(before) + (seq![tv] + rest)) =~= toks(tokens@) + rest by {}
                },
            }
        }
    }
}

} // verus!
