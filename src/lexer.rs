use vstd::prelude::*;
use vstd::std_specs::iter::IteratorSpec;

verus! {

/// The characters of `s`, in order.
pub fn chars_of(s: &str) -> (r: Vec<char>)
    ensures
        r@ == s@,
{
    let mut r: Vec<char> = Vec::new();
    let mut it = s.chars();
    proof {
        broadcast use vstd::string::axiom_spec_iter;
    }
    loop
        invariant
            it.obeys_prophetic_iter_laws(),
            r@ + it.remaining() == s@,
            it.decrease() is Some,
        decreases it.decrease()->0,
    {
        match it.next() {
            Some(c) => {
                proof { broadcast use vstd::string::next_postcondition; }
                r.push(c);
                proof {
                    assert(r@ + it.remaining() =~= s@);
                }
            },
            None => {
                proof { broadcast use vstd::string::next_postcondition; }
                proof {
                    assert(r@ =~= s@);
                }
                return r;
            },
        }
    }
}

fn is_word(s: &Vec<char>, start: usize, end: usize, word: &[char]) -> (r: bool)
    requires
        start <= end <= s@.len(),
    ensures
        r == (s@.subrange(start as int, end as int) == word@),
{
    if end - start != word.len() {
        return false;
    }
    let mut i: usize = 0;
    while i < word.len()
        invariant
            end - start == word@.len(),
            start <= end <= s@.len(),
            i <= word@.len(),
            forall|j: int| 0 <= j < i ==> s@[start + j] == word@[j],
        decreases word@.len() - i,
    {
        if s[start + i] != word[i] {
            return false;
        }
        i = i + 1;
    }
    proof {
        assert(s@.subrange(start as int, end as int) =~= word@);
    }
    true
}


/// A classified lexeme.
#[derive(Clone, Copy, Debug, PartialEq, Eq, Structural)]
pub enum Token {
    MultilineCommentStart,
    MultilineCommentEnd,
    /// `rule <name>`, one space between the two words.
    RuleDefinition,
    /// A letter followed by letters and digits, that is no keyword.
    RuleInvocation,
    SetKeyword,
    BracketOpen,
    BracketClose,
    MoreThan,
    Multiply,
    LiteralInteger,
    LiteralFloat,
    MaxDepth,
    Weight,
    Hue,
    Brightness,
    Alpha,
    Color,
    Reflect,
    Blend,
    Matrix,
    Sat,
    V,
    X,
    Y,
    Z,
    Rx,
    Ry,
    Rz,
    S,
    Fx,
    Fy,
    Fz,
    /// Text that matches no token shape. It is skipped like whitespace.
    Unrecognized,
}

/// A token with its span, `start..end`, in characters of the source.
#[derive(Clone, Copy, Debug, PartialEq, Eq, Structural)]
pub struct Lexeme {
    pub token: Token,
    pub start: usize,
    pub end: usize,
}

pub open spec fn is_letter(c: char) -> bool {
    ('a' <= c && c <= 'z') || ('A' <= c && c <= 'Z')
}

pub open spec fn is_digit(c: char) -> bool {
    '0' <= c && c <= '9'
}

pub open spec fn is_alnum(c: char) -> bool {
    is_letter(c) || is_digit(c)
}

pub open spec fn is_space(c: char) -> bool {
    c == ' ' || c == '\t' || c == '\n' || c == '\x0C'
}

/// The end of the run of letters and digits that starts at `p`.
pub open spec fn alnum_end(s: Seq<char>, p: int) -> int
    decreases s.len() - p,
{
    if 0 <= p < s.len() && is_alnum(s[p]) {
        alnum_end(s, p + 1)
    } else {
        p
    }
}

/// The end of the run of digits that starts at `p`.
pub open spec fn digit_end(s: Seq<char>, p: int) -> int
    decreases s.len() - p,
{
    if 0 <= p < s.len() && is_digit(s[p]) {
        digit_end(s, p + 1)
    } else {
        p
    }
}

/// The end of the run of whitespace that starts at `p`.
pub open spec fn space_end(s: Seq<char>, p: int) -> int
    decreases s.len() - p,
{
    if 0 <= p < s.len() && is_space(s[p]) {
        space_end(s, p + 1)
    } else {
        p
    }
}

/// The position of the first line break at or after `p`, or the end.
pub open spec fn line_end(s: Seq<char>, p: int) -> int
    decreases s.len() - p,
{
    if 0 <= p < s.len() && s[p] != '\n' {
        line_end(s, p + 1)
    } else {
        p
    }
}

/// A numeric literal at `p`: `[+-]?[0-9]+` is an integer; a longer match of
/// `[+-]?[0-9]*[.]?[0-9]+` is a float.
pub open spec fn number_at(s: Seq<char>, p: int) -> (Option<Token>, int) {
    let q = if s[p] == '+' || s[p] == '-' { p + 1 } else { p };
    let d = digit_end(s, q);
    if d + 1 < s.len() && s[d] == '.' && is_digit(s[d + 1]) {
        (Some(Token::LiteralFloat), digit_end(s, d + 1))
    } else if d > q {
        (Some(Token::LiteralInteger), d)
    } else {
        (Some(Token::Unrecognized), p + 1)
    }
}

/// A word at `p`: `rule <name>`, a keyword, or a rule name.
pub open spec fn word_at(s: Seq<char>, p: int) -> (Option<Token>, int) {
    let e = alnum_end(s, p + 1);
    if s.subrange(p, e) == seq!['r', 'u', 'l', 'e'] && e + 1 < s.len() && s[e] == ' '
        && is_letter(s[e + 1]) {
        (Some(Token::RuleDefinition), alnum_end(s, e + 2))
    } else {
        match keyword(s.subrange(p, e)) {
            Some(t) => (Some(t), e),
            None => (Some(Token::RuleInvocation), e),
        }
    }
}

/// The longest lexeme that starts at `p`, and where it ends; `None` for
/// whitespace and `//` comments, which are skipped.
pub open spec fn token_at(s: Seq<char>, p: int) -> (Option<Token>, int) {
    let c = s[p];
    let next_is = |d: char| p + 1 < s.len() && s[p + 1] == d;
    if is_space(c) {
        (None, space_end(s, p))
    } else if c == '/' && next_is('/') {
        (None, line_end(s, p))
    } else if c == '/' && next_is('*') {
        (Some(Token::MultilineCommentStart), p + 2)
    } else if c == '*' && next_is('/') {
        (Some(Token::MultilineCommentEnd), p + 2)
    } else if c == '*' {
        (Some(Token::Multiply), p + 1)
    } else if c == '{' {
        (Some(Token::BracketOpen), p + 1)
    } else if c == '}' {
        (Some(Token::BracketClose), p + 1)
    } else if c == '>' {
        (Some(Token::MoreThan), p + 1)
    } else if is_letter(c) {
        word_at(s, p)
    } else if is_digit(c) || c == '.' || c == '+' || c == '-' {
        number_at(s, p)
    } else {
        (Some(Token::Unrecognized), p + 1)
    }
}

/// The lexemes of `s` from position `p` on.
pub open spec fn scan_from(s: Seq<char>, p: int) -> Seq<Lexeme>
    decreases s.len() - p,
{
    if 0 <= p < s.len() {
        let (t, e) = token_at(s, p);
        if p < e <= s.len() {
            match t {
                Some(t) => seq![Lexeme { token: t, start: p as usize, end: e as usize }]
                    + scan_from(s, e),
                None => scan_from(s, e),
            }
        } else {
            Seq::empty()
        }
    } else {
        Seq::empty()
    }
}

fn alnum_end_of(s: &Vec<char>, p: usize) -> (r: usize)
    requires
        p <= s@.len(),
    ensures
        r == alnum_end(s@, p as int),
        p <= r <= s@.len(),
        p < s@.len() && is_alnum(s@[p as int]) ==> p < r,
{
    let mut i = p;
    while i < s.len() && (is_alnum_char(s[i]))
        invariant
            p <= i <= s@.len(),
            alnum_end(s@, i as int) == alnum_end(s@, p as int),
        decreases s@.len() - i,
    {
        i = i + 1;
    }
    i
}

fn digit_end_of(s: &Vec<char>, p: usize) -> (r: usize)
    requires
        p <= s@.len(),
    ensures
        r == digit_end(s@, p as int),
        p <= r <= s@.len(),
        p < s@.len() && is_digit(s@[p as int]) ==> p < r,
{
    let mut i = p;
    while i < s.len() && (is_digit_char(s[i]))
        invariant
            p <= i <= s@.len(),
            digit_end(s@, i as int) == digit_end(s@, p as int),
        decreases s@.len() - i,
    {
        i = i + 1;
    }
    i
}

fn space_end_of(s: &Vec<char>, p: usize) -> (r: usize)
    requires
        p <= s@.len(),
    ensures
        r == space_end(s@, p as int),
        p <= r <= s@.len(),
        p < s@.len() && is_space(s@[p as int]) ==> p < r,
{
    let mut i = p;
    while i < s.len() && (is_space_char(s[i]))
        invariant
            p <= i <= s@.len(),
            space_end(s@, i as int) == space_end(s@, p as int),
        decreases s@.len() - i,
    {
        i = i + 1;
    }
    i
}

fn line_end_of(s: &Vec<char>, p: usize) -> (r: usize)
    requires
        p <= s@.len(),
    ensures
        r == line_end(s@, p as int),
        p <= r <= s@.len(),
        p < s@.len() && s@[p as int] != '\n' ==> p < r,
{
    let mut i = p;
    while i < s.len() && s[i] != '\n'
        invariant
            p <= i <= s@.len(),
            line_end(s@, i as int) == line_end(s@, p as int),
        decreases s@.len() - i,
    {
        i = i + 1;
    }
    i
}

fn is_letter_char(c: char) -> (r: bool)
    ensures
        r == is_letter(c),
{
    ('a' <= c && c <= 'z') || ('A' <= c && c <= 'Z')
}

fn is_digit_char(c: char) -> (r: bool)
    ensures
        r == is_digit(c),
{
    '0' <= c && c <= '9'
}

fn is_alnum_char(c: char) -> (r: bool)
    ensures
        r == is_alnum(c),
{
    is_letter_char(c) || is_digit_char(c)
}

fn is_space_char(c: char) -> (r: bool)
    ensures
        r == is_space(c),
{
    c == ' ' || c == '\t' || c == '\n' || c == '\x0C'
}

/// The keyword token spelled by `w`, if `w` is one.
pub open spec fn keyword(w: Seq<char>) -> Option<Token> {
    if w.len() == 3 && w[0] == 's' && w[1] == 'e' && w[2] == 't' {
        Some(Token::SetKeyword)
    } else if w.len() == 8 && w[0] == 'm' && w[1] == 'a' && w[2] == 'x' && w[3] == 'd' && w[4] == 'e' && w[5] == 'p' && w[6] == 't' && w[7] == 'h' {
        Some(Token::MaxDepth)
    } else if w.len() == 2 && w[0] == 'm' && w[1] == 'd' {
        Some(Token::MaxDepth)
    } else if w.len() == 6 && w[0] == 'w' && w[1] == 'e' && w[2] == 'i' && w[3] == 'g' && w[4] == 'h' && w[5] == 't' {
        Some(Token::Weight)
    } else if w.len() == 1 && w[0] == 'w' {
        Some(Token::Weight)
    } else if w.len() == 3 && w[0] == 'h' && w[1] == 'u' && w[2] == 'e' {
        Some(Token::Hue)
    } else if w.len() == 1 && w[0] == 'h' {
        Some(Token::Hue)
    } else if w.len() == 10 && w[0] == 'b' && w[1] == 'r' && w[2] == 'i' && w[3] == 'g' && w[4] == 'h' && w[5] == 't' && w[6] == 'n' && w[7] == 'e' && w[8] == 's' && w[9] == 's' {
        Some(Token::Brightness)
    } else if w.len() == 1 && w[0] == 'b' {
        Some(Token::Brightness)
    } else if w.len() == 5 && w[0] == 'a' && w[1] == 'l' && w[2] == 'p' && w[3] == 'h' && w[4] == 'a' {
        Some(Token::Alpha)
    } else if w.len() == 1 && w[0] == 'a' {
        Some(Token::Alpha)
    } else if w.len() == 5 && w[0] == 'c' && w[1] == 'o' && w[2] == 'l' && w[3] == 'o' && w[4] == 'r' {
        Some(Token::Color)
    } else if w.len() == 1 && w[0] == 'c' {
        Some(Token::Color)
    } else if w.len() == 7 && w[0] == 'r' && w[1] == 'e' && w[2] == 'f' && w[3] == 'l' && w[4] == 'e' && w[5] == 'c' && w[6] == 't' {
        Some(Token::Reflect)
    } else if w.len() == 5 && w[0] == 'b' && w[1] == 'l' && w[2] == 'e' && w[3] == 'n' && w[4] == 'd' {
        Some(Token::Blend)
    } else if w.len() == 6 && w[0] == 'm' && w[1] == 'a' && w[2] == 't' && w[3] == 'r' && w[4] == 'i' && w[5] == 'x' {
        Some(Token::Matrix)
    } else if w.len() == 3 && w[0] == 's' && w[1] == 'a' && w[2] == 't' {
        Some(Token::Sat)
    } else if w.len() == 1 && w[0] == 'v' {
        Some(Token::V)
    } else if w.len() == 1 && w[0] == 'x' {
        Some(Token::X)
    } else if w.len() == 1 && w[0] == 'y' {
        Some(Token::Y)
    } else if w.len() == 1 && w[0] == 'z' {
        Some(Token::Z)
    } else if w.len() == 2 && w[0] == 'r' && w[1] == 'x' {
        Some(Token::Rx)
    } else if w.len() == 2 && w[0] == 'r' && w[1] == 'y' {
        Some(Token::Ry)
    } else if w.len() == 2 && w[0] == 'r' && w[1] == 'z' {
        Some(Token::Rz)
    } else if w.len() == 1 && w[0] == 's' {
        Some(Token::S)
    } else if w.len() == 2 && w[0] == 'f' && w[1] == 'x' {
        Some(Token::Fx)
    } else if w.len() == 2 && w[0] == 'f' && w[1] == 'y' {
        Some(Token::Fy)
    } else if w.len() == 2 && w[0] == 'f' && w[1] == 'z' {
        Some(Token::Fz)
    } else {
        None
    }
}

fn keyword_of(s: &Vec<char>, start: usize, end: usize) -> (r: Option<Token>)
    requires
        start <= end <= s@.len(),
    ensures
        r == keyword(s@.subrange(start as int, end as int)),
{
    let n = end - start;
    if n == 3 && s[start] == 's' && s[start + 1] == 'e' && s[start + 2] == 't' {
        Some(Token::SetKeyword)
    } else if n == 8 && s[start] == 'm' && s[start + 1] == 'a' && s[start + 2] == 'x' && s[start + 3] == 'd' && s[start + 4] == 'e' && s[start + 5] == 'p' && s[start + 6] == 't' && s[start + 7] == 'h' {
        Some(Token::MaxDepth)
    } else if n == 2 && s[start] == 'm' && s[start + 1] == 'd' {
        Some(Token::MaxDepth)
    } else if n == 6 && s[start] == 'w' && s[start + 1] == 'e' && s[start + 2] == 'i' && s[start + 3] == 'g' && s[start + 4] == 'h' && s[start + 5] == 't' {
        Some(Token::Weight)
    } else if n == 1 && s[start] == 'w' {
        Some(Token::Weight)
    } else if n == 3 && s[start] == 'h' && s[start + 1] == 'u' && s[start + 2] == 'e' {
        Some(Token::Hue)
    } else if n == 1 && s[start] == 'h' {
        Some(Token::Hue)
    } else if n == 10 && s[start] == 'b' && s[start + 1] == 'r' && s[start + 2] == 'i' && s[start + 3] == 'g' && s[start + 4] == 'h' && s[start + 5] == 't' && s[start + 6] == 'n' && s[start + 7] == 'e' && s[start + 8] == 's' && s[start + 9] == 's' {
        Some(Token::Brightness)
    } else if n == 1 && s[start] == 'b' {
        Some(Token::Brightness)
    } else if n == 5 && s[start] == 'a' && s[start + 1] == 'l' && s[start + 2] == 'p' && s[start + 3] == 'h' && s[start + 4] == 'a' {
        Some(Token::Alpha)
    } else if n == 1 && s[start] == 'a' {
        Some(Token::Alpha)
    } else if n == 5 && s[start] == 'c' && s[start + 1] == 'o' && s[start + 2] == 'l' && s[start + 3] == 'o' && s[start + 4] == 'r' {
        Some(Token::Color)
    } else if n == 1 && s[start] == 'c' {
        Some(Token::Color)
    } else if n == 7 && s[start] == 'r' && s[start + 1] == 'e' && s[start + 2] == 'f' && s[start + 3] == 'l' && s[start + 4] == 'e' && s[start + 5] == 'c' && s[start + 6] == 't' {
        Some(Token::Reflect)
    } else if n == 5 && s[start] == 'b' && s[start + 1] == 'l' && s[start + 2] == 'e' && s[start + 3] == 'n' && s[start + 4] == 'd' {
        Some(Token::Blend)
    } else if n == 6 && s[start] == 'm' && s[start + 1] == 'a' && s[start + 2] == 't' && s[start + 3] == 'r' && s[start + 4] == 'i' && s[start + 5] == 'x' {
        Some(Token::Matrix)
    } else if n == 3 && s[start] == 's' && s[start + 1] == 'a' && s[start + 2] == 't' {
        Some(Token::Sat)
    } else if n == 1 && s[start] == 'v' {
        Some(Token::V)
    } else if n == 1 && s[start] == 'x' {
        Some(Token::X)
    } else if n == 1 && s[start] == 'y' {
        Some(Token::Y)
    } else if n == 1 && s[start] == 'z' {
        Some(Token::Z)
    } else if n == 2 && s[start] == 'r' && s[start + 1] == 'x' {
        Some(Token::Rx)
    } else if n == 2 && s[start] == 'r' && s[start + 1] == 'y' {
        Some(Token::Ry)
    } else if n == 2 && s[start] == 'r' && s[start + 1] == 'z' {
        Some(Token::Rz)
    } else if n == 1 && s[start] == 's' {
        Some(Token::S)
    } else if n == 2 && s[start] == 'f' && s[start + 1] == 'x' {
        Some(Token::Fx)
    } else if n == 2 && s[start] == 'f' && s[start + 1] == 'y' {
        Some(Token::Fy)
    } else if n == 2 && s[start] == 'f' && s[start + 1] == 'z' {
        Some(Token::Fz)
    } else {
        None
    }
}

fn number_at_exec(s: &Vec<char>, p: usize) -> (r: (Option<Token>, usize))
    requires
        p < s@.len(),
        is_digit(s@[p as int]) || s@[p as int] == '.' || s@[p as int] == '+' || s@[p as int] == '-',
    ensures
        (r.0, r.1 as int) == number_at(s@, p as int),
        p < r.1 <= s@.len(),
{
    let n = s.len();
    let q = if s[p] == '+' || s[p] == '-' { p + 1 } else { p };
    let d = digit_end_of(s, q);
    if n - d > 1 && s[d] == '.' && is_digit_char(s[d + 1]) {
        let e = digit_end_of(s, d + 1);
        (Some(Token::LiteralFloat), e)
    } else if d > q {
        (Some(Token::LiteralInteger), d)
    } else {
        (Some(Token::Unrecognized), p + 1)
    }
}

fn word_at_exec(s: &Vec<char>, p: usize) -> (r: (Option<Token>, usize))
    requires
        p < s@.len(),
        is_letter(s@[p as int]),
    ensures
        (r.0, r.1 as int) == word_at(s@, p as int),
        p < r.1 <= s@.len(),
{
    let n = s.len();
    let e = alnum_end_of(s, p + 1);
    if is_word(s, p, e, &['r', 'u', 'l', 'e']) && n - e > 1 && s[e] == ' ' && is_letter_char(
        s[e + 1],
    ) {
        let f = alnum_end_of(s, e + 2);
        (Some(Token::RuleDefinition), f)
    } else {
        match keyword_of(s, p, e) {
            Some(t) => (Some(t), e),
            None => (Some(Token::RuleInvocation), e),
        }
    }
}

fn token_at_exec(s: &Vec<char>, p: usize) -> (r: (Option<Token>, usize))
    requires
        p < s@.len(),
    ensures
        (r.0, r.1 as int) == token_at(s@, p as int),
        p < r.1 <= s@.len(),
{
    let c = s[p];
    let n = s.len();
    let next_is_slash = n - p > 1 && s[p + 1] == '/';
    let next_is_star = n - p > 1 && s[p + 1] == '*';
    if is_space_char(c) {
        (None, space_end_of(s, p))
    } else if c == '/' && next_is_slash {
        (None, line_end_of(s, p))
    } else if c == '/' && next_is_star {
        (Some(Token::MultilineCommentStart), p + 2)
    } else if c == '*' && next_is_slash {
        (Some(Token::MultilineCommentEnd), p + 2)
    } else if c == '*' {
        (Some(Token::Multiply), p + 1)
    } else if c == '{' {
        (Some(Token::BracketOpen), p + 1)
    } else if c == '}' {
        (Some(Token::BracketClose), p + 1)
    } else if c == '>' {
        (Some(Token::MoreThan), p + 1)
    } else if is_letter_char(c) {
        word_at_exec(s, p)
    } else if is_digit_char(c) || c == '.' || c == '+' || c == '-' {
        number_at_exec(s, p)
    } else {
        (Some(Token::Unrecognized), p + 1)
    }
}

/// Splits `s` into lexemes, skipping whitespace and `//` comments; block
/// comment markers are kept as tokens.
pub fn scan(s: &Vec<char>) -> (r: Vec<Lexeme>)
    ensures
        r@ == scan_from(s@, 0),
{
    let mut out: Vec<Lexeme> = Vec::new();
    let mut p: usize = 0;
    while p < s.len()
        invariant
            p <= s@.len(),
            out@ + scan_from(s@, p as int) == scan_from(s@, 0),
        decreases s@.len() - p,
    {
        let (t, e) = token_at_exec(s, p);
        match t {
            Some(t) => {
                let lx = Lexeme { token: t, start: p, end: e };
                proof {
                    assert(scan_from(s@, p as int) == seq![lx] + scan_from(s@, e as int));
                    assert(out@.push(lx) + scan_from(s@, e as int) =~= out@ + scan_from(s@, p as int));
                }
                out.push(lx);
            },
            None => {},
        }
        p = e;
    }
    proof {
        assert(out@ + scan_from(s@, p as int) =~= out@);
    }
    out
}

/// The state after the first `i` lexemes of `ls` went through the block
/// comment filter: the lexemes kept, whether a comment is open, and the
/// nested comment opener that was met, if any.
pub open spec fn comment_state(ls: Seq<Lexeme>, i: int) -> (Seq<Lexeme>, bool, Option<Lexeme>)
    decreases i,
{
    if i <= 0 || i > ls.len() {
        (Seq::empty(), false, None)
    } else {
        let (kept, open, nested) = comment_state(ls, i - 1);
        let l = ls[i - 1];
        if nested is Some {
            (kept, open, nested)
        } else if l.token == Token::MultilineCommentStart {
            if open {
                (kept, open, Some(l))
            } else {
                (kept, true, None)
            }
        } else if l.token == Token::MultilineCommentEnd {
            (kept, false, None)
        } else if open {
            (kept, true, None)
        } else {
            (kept.push(l), false, None)
        }
    }
}

/// `ls` without the block comments `/* ... */` and their markers; a comment
/// that is never closed runs to the end, and a stray `*/` is dropped. A
/// `/*` inside a comment is refused: the result is that lexeme.
pub open spec fn strip_comments(ls: Seq<Lexeme>) -> Result<Seq<Lexeme>, Lexeme> {
    let (kept, _open, nested) = comment_state(ls, ls.len() as int);
    match nested {
        Some(l) => Err(l),
        None => Ok(kept),
    }
}

/// The lexemes of `s` without whitespace, line comments and block
/// comments, or the `/*` that opens a comment inside a comment.
pub fn tokenize(s: &Vec<char>) -> (r: Result<Vec<Lexeme>, Lexeme>)
    ensures
        strip_comments(scan_from(s@, 0)) == match r {
            Ok(v) => Ok(v@),
            Err(l) => Err(l),
        },
        r matches Ok(v) ==> spans_ok(s@, v@),
        r matches Err(l) ==> l.start <= l.end <= s@.len(),
{
    let ls = scan(s);
    let n = s.len();
    proof {
        lemma_scan_spans(s@, 0);
    }
    let mut kept: Vec<Lexeme> = Vec::new();
    let mut open = false;
    let mut i: usize = 0;
    while i < ls.len()
        invariant
            ls@ == scan_from(s@, 0),
            i <= ls@.len(),
            comment_state(ls@, i as int) == (kept@, open, None::<Lexeme>),
            spans_ok(s@, ls@),
            spans_ok(s@, kept@),
        decreases ls@.len() - i,
    {
        let l = ls[i];
        if l.token == Token::MultilineCommentStart {
            if open {
                proof {
                    assert(comment_state(ls@, i + 1) == (kept@, open, Some(l)));
                    lemma_nested_stays(ls@, i + 1);
                }
                return Err(l);
            }
            open = true;
        } else if l.token == Token::MultilineCommentEnd {
            open = false;
        } else if !open {
            kept.push(l);
        }
        i = i + 1;
    }
    Ok(kept)
}

proof fn lemma_nested_stays(ls: Seq<Lexeme>, i: int)
    requires
        0 < i <= ls.len(),
        comment_state(ls, i).2 is Some,
    ensures
        comment_state(ls, ls.len() as int).2 == comment_state(ls, i).2,
    decreases ls.len() - i,
{
    if i < ls.len() {
        lemma_nested_stays(ls, i + 1);
    }
}

/// Every lexeme lies inside the text, and a rule definition's holds the
/// word `rule` and a space before the name.
pub open spec fn spans_ok(text: Seq<char>, toks: Seq<Lexeme>) -> bool {
    forall|j: int|
        0 <= j < toks.len() ==> (#[trigger] toks[j]).start <= toks[j].end <= text.len() && (
        toks[j].token == Token::RuleDefinition ==> toks[j].start + 5 <= toks[j].end)
}

/// The lexemes that the parser reads: all but the unrecognized ones.
pub open spec fn significant(ls: Seq<Lexeme>) -> Seq<Lexeme> {
    ls.filter(|l: Lexeme| l.token != Token::Unrecognized)
}

proof fn lemma_alnum_end_bounds(s: Seq<char>, q: int)
    requires
        0 <= q <= s.len(),
    ensures
        q <= alnum_end(s, q) <= s.len(),
    decreases s.len() - q,
{
    if q < s.len() && is_alnum(s[q]) {
        lemma_alnum_end_bounds(s, q + 1);
    }
}

proof fn lemma_scan_spans(s: Seq<char>, p: int)
    requires
        0 <= p,
        s.len() <= usize::MAX,
    ensures
        spans_ok(s, scan_from(s, p)),
    decreases s.len() - p,
{
    if 0 <= p < s.len() {
        let (t, e) = token_at(s, p);
        if p < e <= s.len() {
            lemma_scan_spans(s, e);
            if t == Some(Token::RuleDefinition) {
                let e0 = alnum_end(s, p + 1);
                lemma_alnum_end_bounds(s, p + 1);
                assert(is_letter(s[p]));
                assert(s.subrange(p, e0) == seq!['r', 'u', 'l', 'e'] && e0 + 1 < s.len());
                assert(s.subrange(p, e0).len() == 4);
                lemma_alnum_end_bounds(s, e0 + 2);
                assert(e >= p + 6);
            }
            let ls = scan_from(s, p);
            let rest = scan_from(s, e);
            match t {
                Some(tk) => {
                    assert(ls == seq![Lexeme { token: tk, start: p as usize, end: e as usize }] + rest);
                    assert forall|j: int| 0 <= j < ls.len() implies (#[trigger] ls[j]).start <= ls[j].end <= s.len() && (
                        ls[j].token == Token::RuleDefinition ==> ls[j].start + 5 <= ls[j].end) by {
                        if j > 0 {
                            assert(ls[j] == rest[j - 1]);
                        }
                    }
                },
                None => {
                    assert(ls == rest);
                },
            }
        }
    }
}

/// The lexemes of `toks` but the unrecognized ones.
pub fn keep_significant(text: &Vec<char>, toks: &Vec<Lexeme>) -> (r: Vec<Lexeme>)
    requires
        spans_ok(text@, toks@),
    ensures
        r@ == significant(toks@),
        spans_ok(text@, r@),
{
    let mut out: Vec<Lexeme> = Vec::new();
    let mut i: usize = 0;
    while i < toks.len()
        invariant
            i <= toks@.len(),
            spans_ok(text@, toks@),
            spans_ok(text@, out@),
            out@ == significant(toks@.take(i as int)),
        decreases toks@.len() - i,
    {
        let l = toks[i];
        let ghost before = out@;
        proof {
            assert(toks@.take(i + 1).drop_last() =~= toks@.take(i as int));
            assert(toks@.take(i + 1).last() == l);
            reveal(Seq::filter);
            assert(significant(toks@.take(i + 1)) == if l.token != Token::Unrecognized {
                significant(toks@.take(i as int)).push(l)
            } else {
                significant(toks@.take(i as int))
            });
            assert(toks@[i as int] == l);
        }
        if l.token != Token::Unrecognized {
            out.push(l);
            proof {
                assert forall|j: int| 0 <= j < out@.len() implies (#[trigger] out@[j]).start <= out@[j].end <= text@.len() && (
                    out@[j].token == Token::RuleDefinition ==> out@[j].start + 5 <= out@[j].end) by {
                    if j < before.len() {
                        assert(out@[j] == before[j]);
                    }
                }
            }
        }
        i = i + 1;
    }
    proof {
        assert(toks@.take(i as int) =~= toks@);
    }
    out
}

} // verus!
