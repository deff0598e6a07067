use vstd::prelude::*;
use vstd::string::*;

use crate::text::{decimal, int_text, push_decimal, push_int};

verus! {

/// Whether `c` has Unicode's Alphabetic property.
pub uninterp spec fn alphabetic(c: char) -> bool;

/// Whether `c` is alphabetic or numeric in Unicode's sense.
pub uninterp spec fn alphanumeric(c: char) -> bool;

/// Relies on `char::is_alphabetic`, which decides Unicode's Alphabetic
/// property of `c`.
#[verifier::external_body]
fn is_alphabetic(c: char) -> (r: bool)
    ensures
        r == alphabetic(c),
{
    c.is_alphabetic()
}

/// Relies on `char::is_alphanumeric`, which decides whether `c` is
/// alphabetic or numeric.
#[verifier::external_body]
fn is_alphanumeric(c: char) -> (r: bool)
    ensures
        r == alphanumeric(c),
{
    c.is_alphanumeric()
}

/// An ASCII decimal digit.
pub open spec fn is_digit(c: char) -> bool {
    '0' <= c && c <= '9'
}

/// A character that may continue a name.
pub open spec fn name_char(c: char) -> bool {
    alphanumeric(c) || c == '_'
}

/// How many digits follow from position `i`.
pub open spec fn digit_run(s: Seq<char>, i: int) -> nat
    decreases s.len() - i,
{
    if 0 <= i < s.len() && is_digit(s[i]) {
        1 + digit_run(s, i + 1)
    } else {
        0
    }
}

/// How many name characters follow from position `i`.
pub open spec fn name_run(s: Seq<char>, i: int) -> nat
    decreases s.len() - i,
{
    if 0 <= i < s.len() && name_char(s[i]) {
        1 + name_run(s, i + 1)
    } else {
        0
    }
}

/// What the lexeme starting at a position is.
#[derive(Clone, Copy, Debug, PartialEq, Eq, Structural)]
pub enum Class {
    Space,
    ParenOpen,
    ParenClose,
    BraceOpen,
    BraceClose,
    Newline,
    Plus,
    FatArrow,
    Equal,
    Integer,
    Name,
    Unexpected,
}

/// The class of the lexeme that starts at position `i` of `s`.
pub open spec fn class_at(s: Seq<char>, i: int) -> Class {
    let n = s.len();
    let c = s[i];
    if c == ' ' {
        Class::Space
    } else if c == '(' {
        Class::ParenOpen
    } else if c == ')' {
        Class::ParenClose
    } else if c == '{' {
        Class::BraceOpen
    } else if c == '}' {
        Class::BraceClose
    } else if c == '\n' {
        Class::Newline
    } else if c == '+' {
        Class::Plus
    } else if c == '=' && i + 1 < s.len() && s[i + 1] == '>' {
        Class::FatArrow
    } else if c == '=' {
        Class::Equal
    } else if is_digit(c) {
        Class::Integer
    } else if alphabetic(c) {
        Class::Name
    } else {
        Class::Unexpected
    }
}

/// How many characters the lexeme at position `i` spans.
pub open spec fn lexeme_len(s: Seq<char>, i: int) -> nat {
    match class_at(s, i) {
        Class::FatArrow => 2,
        Class::Integer => 1 + digit_run(s, i + 1),
        Class::Name => 1 + name_run(s, i + 1),
        _ => 1,
    }
}

/// The value of the decimal digit `c`.
pub open spec fn digit_value(c: char) -> int {
    (c as u32) as int - ('0' as u32) as int
}

/// The value of the digits `s[a..b]`.
pub open spec fn digits_value(s: Seq<char>, a: int, b: int) -> int
    decreases b - a,
{
    if b <= a {
        0
    } else {
        digits_value(s, a, b - 1) * 10 + digit_value(s[b - 1])
    }
}

/// The integer lexeme at `i` does not fit in `i64`.
pub open spec fn too_large(s: Seq<char>, i: int) -> bool {
    digits_value(s, i, i + lexeme_len(s, i)) > i64::MAX
}

/// The lexeme at `i` is an error: an unexpected character or an integer
/// that does not fit.
pub open spec fn is_error(s: Seq<char>, i: int) -> bool {
    class_at(s, i) == Class::Unexpected || (class_at(s, i) == Class::Integer && too_large(s, i))
}

/// The lexeme at `i` becomes a token.
pub open spec fn is_token(s: Seq<char>, i: int) -> bool {
    class_at(s, i) != Class::Space && !is_error(s, i)
}

/// Line and column, from zero, of position `i`.
pub open spec fn line_col(s: Seq<char>, i: int) -> (nat, nat)
    decreases i,
{
    if i <= 0 {
        (0, 0)
    } else {
        let (l, c) = line_col(s, i - 1);
        if s[i - 1] == '\n' {
            (l + 1, 0)
        } else {
            (l, c + 1)
        }
    }
}

/// `line:column` of position `i`.
pub open spec fn location_text(s: Seq<char>, i: int) -> Seq<char> {
    decimal(line_col(s, i).0) + seq![':'] + decimal(line_col(s, i).1)
}

/// The message for the error lexeme at `i`.
pub open spec fn error_message(s: Seq<char>, i: int) -> Seq<char> {
    if class_at(s, i) == Class::Unexpected {
        "unexpected token '"@ + seq![s[i]] + "' at "@ + location_text(s, i)
    } else {
        "integer token too large "@ + s.subrange(i, i + lexeme_len(s, i)) + " at "@
            + location_text(s, i)
    }
}

/// The tokens from position `i` on: class, start and end of each.
pub open spec fn lex_tokens(s: Seq<char>, i: int) -> Seq<(Class, int, int)>
    decreases s.len() - i,
    via lex_tokens_decreases
{
    if i < 0 || i >= s.len() {
        Seq::empty()
    } else {
        let rest = lex_tokens(s, i + lexeme_len(s, i));
        if is_token(s, i) {
            seq![(class_at(s, i), i, i + lexeme_len(s, i))] + rest
        } else {
            rest
        }
    }
}

/// The error messages from position `i` on.
pub open spec fn lex_errors(s: Seq<char>, i: int) -> Seq<Seq<char>>
    decreases s.len() - i,
    via lex_errors_decreases
{
    if i < 0 || i >= s.len() {
        Seq::empty()
    } else {
        let rest = lex_errors(s, i + lexeme_len(s, i));
        if is_error(s, i) {
            seq![error_message(s, i)] + rest
        } else {
            rest
        }
    }
}

#[via_fn]
proof fn lex_tokens_decreases(s: Seq<char>, i: int) {
    if 0 <= i < s.len() {
        lemma_lexeme_in_range(s, i);
    }
}

#[via_fn]
proof fn lex_errors_decreases(s: Seq<char>, i: int) {
    if 0 <= i < s.len() {
        lemma_lexeme_in_range(s, i);
    }
}

/// The messages, one per line.
pub open spec fn joined(msgs: Seq<Seq<char>>) -> Seq<char>
    decreases msgs.len(),
{
    if msgs.len() == 0 {
        Seq::empty()
    } else if msgs.len() == 1 {
        msgs[0]
    } else {
        joined(msgs.drop_last()) + seq!['\n'] + msgs.last()
    }
}

/// What a token is.
pub enum Kind {
    BraceClose,
    BraceOpen,
    Equal,
    FatArrow,
    Integer(i64),
    Name(String),
    Newline,
    ParenClose,
    ParenOpen,
    Plus,
}

/// A token and the characters of the source it spans.
pub struct Token {
    pub kind: Kind,
    pub start: usize,
    pub end: usize,
}

/// The token `t` is the lexeme `(class, start, end)` of `s`, with the value
/// of an integer and the text of a name.
pub open spec fn token_is(t: Token, s: Seq<char>, lexeme: (Class, int, int)) -> bool {
    &&& t.start == lexeme.1
    &&& t.end == lexeme.2
    &&& match t.kind {
        Kind::BraceClose => lexeme.0 == Class::BraceClose,
        Kind::BraceOpen => lexeme.0 == Class::BraceOpen,
        Kind::Equal => lexeme.0 == Class::Equal,
        Kind::FatArrow => lexeme.0 == Class::FatArrow,
        Kind::Integer(v) => lexeme.0 == Class::Integer && v == digits_value(s, lexeme.1, lexeme.2),
        Kind::Name(n) => lexeme.0 == Class::Name && n@ == s.subrange(lexeme.1, lexeme.2),
        Kind::Newline => lexeme.0 == Class::Newline,
        Kind::ParenClose => lexeme.0 == Class::ParenClose,
        Kind::ParenOpen => lexeme.0 == Class::ParenOpen,
        Kind::Plus => lexeme.0 == Class::Plus,
    }
}

/// Each token of `ts` is the lexeme at the same place of `ls`.
pub open spec fn tokens_are(ts: Seq<Token>, s: Seq<char>, ls: Seq<(Class, int, int)>) -> bool {
    &&& ts.len() == ls.len()
    &&& forall|k: int| 0 <= k < ts.len() ==> token_is(#[trigger] ts[k], s, ls[k])
}

proof fn lemma_digit_run(s: Seq<char>, i: int)
    requires
        0 <= i <= s.len(),
    ensures
        i + digit_run(s, i) <= s.len(),
        forall|k: int| i <= k < i + digit_run(s, i) ==> is_digit(#[trigger] s[k]),
    decreases s.len() - i,
{
    if i < s.len() && is_digit(s[i]) {
        lemma_digit_run(s, i + 1);
    }
}

proof fn lemma_name_run(s: Seq<char>, i: int)
    requires
        0 <= i <= s.len(),
    ensures
        i + name_run(s, i) <= s.len(),
    decreases s.len() - i,
{
    if i < s.len() && name_char(s[i]) {
        lemma_name_run(s, i + 1);
    }
}

proof fn lemma_lexeme_in_range(s: Seq<char>, i: int)
    requires
        0 <= i < s.len(),
    ensures
        i + lexeme_len(s, i) <= s.len(),
        class_at(s, i) == Class::Integer ==> forall|k: int|
            i <= k < i + lexeme_len(s, i) ==> is_digit(#[trigger] s[k]),
{
    lemma_digit_run(s, i + 1);
    lemma_name_run(s, i + 1);
}

/// Digits never lower the value of what precedes them.
proof fn lemma_digits_grow(s: Seq<char>, a: int, b: int)
    requires
        a <= b,
        forall|k: int| a <= k < b ==> is_digit(#[trigger] s[k]),
    ensures
        digits_value(s, a, b) >= 0,
        forall|c: int| a <= c <= b ==> #[trigger] digits_value(s, a, c) <= digits_value(s, a, b),
    decreases b - a,
{
    if a < b {
        lemma_digits_grow(s, a, b - 1);
        assert(0 <= digit_value(s[b - 1]));
    }
}

/// The characters of `source`, in order.
fn chars_of(source: &str) -> (r: Vec<char>)
    ensures
        r@ == source@,
{
    let n = source.unicode_len();
    let mut r: Vec<char> = Vec::new();
    let mut i: usize = 0;
    while i < n
        invariant
            n == source@.len(),
            i <= n,
            r@ == source@.subrange(0, i as int),
        decreases n - i,
    {
        r.push(source.get_char(i));
        i = i + 1;
        assert(r@ =~= source@.subrange(0, i as int));
    }
    assert(r@ =~= source@);
    r
}

/// The class of the lexeme at position `i`.
fn classify(s: &Vec<char>, i: usize) -> (r: Class)
    requires
        i < s@.len(),
    ensures
        r == class_at(s@, i as int),
{
    let n = s.len();
    let c = s[i];
    if c == ' ' {
        Class::Space
    } else if c == '(' {
        Class::ParenOpen
    } else if c == ')' {
        Class::ParenClose
    } else if c == '{' {
        Class::BraceOpen
    } else if c == '}' {
        Class::BraceClose
    } else if c == '\n' {
        Class::Newline
    } else if c == '+' {
        Class::Plus
    } else if c == '=' && i + 1 < n && s[i + 1] == '>' {
        Class::FatArrow
    } else if c == '=' {
        Class::Equal
    } else if '0' <= c && c <= '9' {
        Class::Integer
    } else if is_alphabetic(c) {
        Class::Name
    } else {
        Class::Unexpected
    }
}

/// Where the lexeme at position `i`, of class `class`, ends.
fn lexeme_end(s: &Vec<char>, i: usize, class: Class) -> (r: usize)
    requires
        i < s@.len(),
        class == class_at(s@, i as int),
    ensures
        r == i + lexeme_len(s@, i as int),
        r <= s@.len(),
{
    let n = s.len();
    proof {
        lemma_lexeme_in_range(s@, i as int);
    }
    match class {
        Class::FatArrow => i + 2,
        Class::Integer => {
            let mut j = i + 1;
            while j < s.len() && '0' <= s[j] && s[j] <= '9'
                invariant
                    i < j <= s@.len(),
                    digit_run(s@, i + 1) == (j - i - 1) + digit_run(s@, j as int),
                decreases s@.len() - j,
            {
                j = j + 1;
            }
            j
        },
        Class::Name => {
            let mut j = i + 1;
            while j < s.len() && (s[j] == '_' || is_alphanumeric(s[j]))
                invariant
                    i < j <= s@.len(),
                    name_run(s@, i + 1) == (j - i - 1) + name_run(s@, j as int),
                decreases s@.len() - j,
            {
                j = j + 1;
            }
            j
        },
        _ => i + 1,
    }
}

/// The value of the digits `s[a..b]`, or `None` when it exceeds `i64`.
fn parse_digits(s: &Vec<char>, a: usize, b: usize) -> (r: Option<i64>)
    requires
        a <= b <= s@.len(),
        forall|k: int| a <= k < b ==> is_digit(#[trigger] s@[k]),
    ensures
        r is Some <==> digits_value(s@, a as int, b as int) <= i64::MAX,
        r matches Some(v) ==> v == digits_value(s@, a as int, b as int),
{
    proof {
        lemma_digits_grow(s@, a as int, b as int);
    }
    let mut v: i64 = 0;
    let mut k: usize = a;
    while k < b
        invariant
            a <= k <= b,
            b <= s@.len(),
            v == digits_value(s@, a as int, k as int),
            forall|q: int| a <= q < b ==> is_digit(#[trigger] s@[q]),
            forall|c: int| a <= c <= b ==> #[trigger] digits_value(s@, a as int, c) <= digits_value(s@, a as int, b as int),
            digits_value(s@, a as int, k as int) >= 0,
        decreases b - k,
    {
        let d = (s[k] as u32 - '0' as u32) as i64;
        assert(is_digit(s@[k as int]));
        let w: i128 = v as i128 * 10 + d as i128;
        assert(w == digits_value(s@, a as int, k + 1));
        if w > i64::MAX as i128 {
            return None;
        }
        v = w as i64;
        k = k + 1;
    }
    Some(v)
}

/// `line:column`, from zero, of position `i` of `s`.
fn locate(s: &Vec<char>, i: usize) -> (r: String)
    requires
        i < s@.len(),
    ensures
        r@ == location_text(s@, i as int),
{
    let mut line: u64 = 0;
    let mut col: u64 = 0;
    let mut j: usize = 0;
    while j < i
        invariant
            j <= i,
            i < s@.len(),
            (line as nat, col as nat) == line_col(s@, j as int),
            line <= j,
            col <= j,
        decreases i - j,
    {
        if s[j] == '\n' {
            line = line + 1;
            col = 0;
        } else {
            col = col + 1;
        }
        j = j + 1;
    }
    let mut r = String::new();
    push_decimal(&mut r, line);
    r.append(":");
    proof {
        reveal_strlit(":");
    }
    push_decimal(&mut r, col);
    proof {
        assert(r@ =~= location_text(s@, i as int));
    }
    r
}

/// The text of one token.
pub open spec fn kind_text(k: Kind) -> Seq<char> {
    match k {
        Kind::BraceClose => "<BraceClose>"@,
        Kind::BraceOpen => "<BraceOpen>"@,
        Kind::Equal => "<Equal>"@,
        Kind::FatArrow => "<FatArrow>"@,
        Kind::Integer(v) => "<Integer "@ + int_text(v as int) + ">"@,
        Kind::Name(n) => "<Name "@ + n@ + ">"@,
        Kind::Newline => "<Newline>"@,
        Kind::ParenClose => "<ParenClose>"@,
        Kind::ParenOpen => "<ParenOpen>"@,
        Kind::Plus => "<Plus>"@,
    }
}

/// The texts of the tokens, separated by single spaces.
pub open spec fn tokens_text(ts: Seq<Token>) -> Seq<char>
    decreases ts.len(),
{
    if ts.len() == 0 {
        Seq::empty()
    } else if ts.len() == 1 {
        kind_text(ts[0].kind)
    } else {
        tokens_text(ts.drop_last()) + seq![' '] + kind_text(ts.last().kind)
    }
}

/// Appends the text of `k` to `r`.
fn push_kind(r: &mut String, k: &Kind)
    ensures
        final(r)@ == old(r)@ + kind_text(*k),
{
    match k {
        Kind::BraceClose => r.append("<BraceClose>"),
        Kind::BraceOpen => r.append("<BraceOpen>"),
        Kind::Equal => r.append("<Equal>"),
        Kind::FatArrow => r.append("<FatArrow>"),
        Kind::Integer(v) => {
            r.append("<Integer ");
            push_int(r, *v);
            r.append(">");
            proof {
                assert(final(r)@ =~= old(r)@ + kind_text(*k));
            }
        },
        Kind::Name(n) => {
            r.append("<Name ");
            r.append(n.as_str());
            r.append(">");
            proof {
                assert(final(r)@ =~= old(r)@ + kind_text(*k));
            }
        },
        Kind::Newline => r.append("<Newline>"),
        Kind::ParenClose => r.append("<ParenClose>"),
        Kind::ParenOpen => r.append("<ParenOpen>"),
        Kind::Plus => r.append("<Plus>"),
    }
}

/// The tokens of a source text.
pub struct Tokens<'a> {
    pub source: &'a str,
    pub tokens: Vec<Token>,
}

impl<'a> Tokens<'a> {
    /// Splits `source` into tokens. Scans the whole text; if any lexeme is an
    /// error, returns every error message, one per line, instead.
    pub fn from_source(source: &'a str) -> (r: Result<Tokens<'a>, String>)
        ensures
            lex_errors(source@, 0).len() == 0 ==> r is Ok && r->Ok_0.source == source
                && tokens_are(r->Ok_0.tokens@, source@, lex_tokens(source@, 0)),
            lex_errors(source@, 0).len() > 0 ==> r is Err && r->Err_0@ == joined(
                lex_errors(source@, 0),
            ),
    {
        let s = chars_of(source);
        let n = s.len();
        let mut tokens: Vec<Token> = Vec::new();
        let mut errors = String::new();
        let mut failed = false;
        let ghost mut found: Seq<(Class, int, int)> = Seq::empty();
        let ghost mut errs: Seq<Seq<char>> = Seq::empty();
        let mut i: usize = 0;
        while i < n
            invariant
                s@ == source@,
                n == s@.len(),
                i <= n,
                found + lex_tokens(s@, i as int) == lex_tokens(s@, 0),
                tokens_are(tokens@, s@, found),
                errs + lex_errors(s@, i as int) == lex_errors(s@, 0),
                errors@ == joined(errs),
                failed == (errs.len() > 0),
            decreases n - i,
        {
            let class = classify(&s, i);
            let end = lexeme_end(&s, i, class);
            proof {
                lemma_lexeme_in_range(s@, i as int);
            }
            let ghost lexeme = (class, i as int, end as int);
            let ghost before_tokens = tokens@;
            let mut message: Option<String> = None;
            let kind: Option<Kind> = match class {
                Class::Space => None,
                Class::ParenOpen => Some(Kind::ParenOpen),
                Class::ParenClose => Some(Kind::ParenClose),
                Class::BraceOpen => Some(Kind::BraceOpen),
                Class::BraceClose => Some(Kind::BraceClose),
                Class::Newline => Some(Kind::Newline),
                Class::Plus => Some(Kind::Plus),
                Class::FatArrow => Some(Kind::FatArrow),
                Class::Equal => Some(Kind::Equal),
                Class::Integer => match parse_digits(&s, i, end) {
                    Some(v) => Some(Kind::Integer(v)),
                    None => {
                        let mut m = String::from_str("integer token too large ");
                        m.append(source.substring_char(i, end));
                        m.append(" at ");
                        let loc = locate(&s, i);
                        m.append(loc.as_str());
                        message = Some(m);
                        None
                    },
                },
                Class::Name => Some(Kind::Name(source.substring_char(i, end).to_owned())),
                Class::Unexpected => {
                    let mut m = String::from_str("unexpected token '");
                    m.append(source.substring_char(i, i + 1));
                    m.append("' at ");
                    let loc = locate(&s, i);
                    m.append(loc.as_str());
                    proof {
                        assert(source@.subrange(i as int, i + 1) =~= seq![s@[i as int]]);
                    }
                    message = Some(m);
                    None
                },
            };
            match kind {
                Some(k) => {
                    tokens.push(Token { kind: k, start: i, end });
                    proof {
                        found = found.push(lexeme);
                        assert forall|q: int| 0 <= q < tokens@.len() implies token_is(
                            #[trigger] tokens@[q],
                            s@,
                            found[q],
                        ) by {
                            if q < before_tokens.len() {
                                assert(tokens@[q] == before_tokens[q]);
                            }
                        }
                    }
                },
                None => {},
            }
            match message {
                Some(m) => {
                    if failed {
                        errors.append("\n");
                    }
                    errors.append(m.as_str());
                    proof {
                        let old_errs = errs;
                        errs = errs.push(m@);
                        assert(errs.drop_last() =~= old_errs);
                        if old_errs.len() > 0 {
                            reveal_strlit("\n");
                            assert(errors@ =~= joined(errs));
                        }
                    }
                    failed = true;
                },
                None => {},
            }
            proof {
                assert(found + lex_tokens(s@, end as int) =~= lex_tokens(s@, 0));
                assert(errs + lex_errors(s@, end as int) =~= lex_errors(s@, 0));
            }
            i = end;
        }
        proof {
            assert(found =~= lex_tokens(s@, 0));
            assert(errs =~= lex_errors(s@, 0));
        }
        if failed {
            Err(errors)
        } else {
            Ok(Tokens { source, tokens })
        }
    }

    /// The tokens as text: `<Kind>` or `<Kind payload>` for each, separated
    /// by single spaces.
    pub fn to_text(&self) -> (r: String)
        ensures
            r@ == tokens_text(self.tokens@),
    {
        let mut r = String::new();
        let mut k: usize = 0;
        while k < self.tokens.len()
            invariant
                k <= self.tokens@.len(),
                r@ == tokens_text(self.tokens@.subrange(0, k as int)),
            decreases self.tokens@.len() - k,
        {
            if k > 0 {
                r.append(" ");
                proof {
                    reveal_strlit(" ");
                }
            }
            push_kind(&mut r, &self.tokens[k].kind);
            proof {
                let pre = self.tokens@.subrange(0, k as int);
                let next = self.tokens@.subrange(0, k + 1);
                assert(next.drop_last() =~= pre);
                assert(r@ =~= tokens_text(next));
            }
            k = k + 1;
        }
        assert(self.tokens@.subrange(0, k as int) =~= self.tokens@);
        r
    }
}

} // verus!
