//! lumiterm's configuration syntax and its recursive-descent parser.
//!
//! ```text
//! window {
//!     width: 1000
//!     opacity: 0.95
//! }
//! colors {
//!     background: #1e1e2e
//! }
//! shell {
//!     program: "/bin/bash"
//! }
//! ```
//!
//! A block is a sequence of `key { block }` and `key: value` statements;
//! `#` starts a comment between statements, while inside a value it is the
//! start of a hex colour. The parser's behaviour is stated as the spec
//! functions below, over the input's characters and a position in them.

use vstd::prelude::*;
use crate::text::{spec_is_whitespace, is_whitespace, trim, trim_start, trim_end, push_char, chars_of};

verus! {

/// A configuration value. A number is kept as its text, which is a valid
/// floating-point literal; a section maps keys to values, each key once.
#[derive(Debug, PartialEq)]
pub enum Value {
    Str(String),
    Num(String),
    Section(Vec<(String, Value)>),
}

/// The mathematical picture of a `Value`.
pub enum ValueModel {
    Str(Seq<char>),
    Num(Seq<char>),
    Section(Seq<(Seq<char>, ValueModel)>),
}

pub open spec fn value_model(v: Value) -> ValueModel
    decreases v,
{
    match v {
        Value::Str(s) => ValueModel::Str(s@),
        Value::Num(s) => ValueModel::Num(s@),
        Value::Section(es) => ValueModel::Section(entries_model(es@)),
    }
}

/// The entries of a section, in order.
pub open spec fn entries_model(es: Seq<(String, Value)>) -> Seq<(Seq<char>, ValueModel)>
    decreases es,
{
    if es.len() == 0 {
        Seq::empty()
    } else {
        entries_model(es.drop_last()).push((es.last().0@, value_model(es.last().1)))
    }
}

// ---------------------------------------------------------------------------
// Character classes
// ---------------------------------------------------------------------------

/// What `char::is_alphanumeric` returns for `c` (Unicode Alphabetic or
/// Numeric).
pub uninterp spec fn char_is_alphanumeric(c: char) -> bool;

/// An ASCII letter or digit.
pub open spec fn is_ascii_alphanumeric(c: char) -> bool {
    ('a' <= c <= 'z') || ('A' <= c <= 'Z') || ('0' <= c <= '9')
}

/// Whether `c` is alphanumeric: within ASCII exactly the letters and
/// digits, elsewhere what `char::is_alphanumeric` gives.
pub open spec fn alphanumeric(c: char) -> bool {
    if (c as u32) < 128 {
        is_ascii_alphanumeric(c)
    } else {
        char_is_alphanumeric(c)
    }
}

/// `char::is_alphanumeric`. Its contract names the result, and states the
/// one part of it that the documentation pins down in a line: a character
/// is alphanumeric when it is Unicode Alphabetic or Numeric (categories Nd,
/// Nl, No), which within ASCII are exactly the letters and the digits. The
/// Unicode tables beyond ASCII are left to the standard library.
#[verifier::external_body]
fn is_alphanumeric(c: char) -> (r: bool)
    ensures
        r == char_is_alphanumeric(c),
        (c as u32) < 128 ==> (r <==> is_ascii_alphanumeric(c)),
{
    c.is_alphanumeric()
}

/// A character that may stand in a key.
pub open spec fn is_ident_char(c: char) -> bool {
    alphanumeric(c) || c == '_' || c == '-'
}

pub open spec fn is_ascii_digit(c: char) -> bool {
    '0' <= c <= '9'
}

// ---------------------------------------------------------------------------
// Floating-point literals (the grammar that `f64`'s `FromStr` accepts)
// ---------------------------------------------------------------------------

/// The end of the run of ASCII digits that starts at `i`.
pub open spec fn digits_end(s: Seq<char>, i: int) -> int
    decreases s.len() - i,
{
    if 0 <= i < s.len() && is_ascii_digit(s[i]) {
        digits_end(s, i + 1)
    } else {
        i
    }
}

/// `s` spells a word in letters each of either case: `lower` and `upper`
/// are the word in lower and upper case.
pub open spec fn eq_ignore_case(s: Seq<char>, lower: Seq<char>, upper: Seq<char>) -> bool {
    &&& s.len() == lower.len()
    &&& s.len() == upper.len()
    &&& forall|i: int| 0 <= i < s.len() ==> s[i] == lower[i] || s[i] == upper[i]
}

/// `Digit+`, `Digit+ '.' Digit*` or `Digit* '.' Digit+`, then an optional
/// exponent `('e' | 'E') Sign? Digit+`.
pub open spec fn is_decimal_literal(t: Seq<char>) -> bool {
    let i = digits_end(t, 0);
    let has_dot = i < t.len() && t[i] == '.';
    let j = if has_dot {
        digits_end(t, i + 1)
    } else {
        i
    };
    let mantissa_digits = if has_dot {
        i + (j - (i + 1))
    } else {
        i
    };
    &&& mantissa_digits >= 1
    &&& (j == t.len() || ((t[j] == 'e' || t[j] == 'E') && {
        let k = if j + 1 < t.len() && (t[j + 1] == '+' || t[j + 1] == '-') {
            j + 2
        } else {
            j + 1
        };
        let m = digits_end(t, k);
        m > k && m == t.len()
    }))
}

/// Whether `s` parses as an `f64`: an optional sign, then `inf`,
/// `infinity` or `nan` in any case, or a decimal literal.
pub open spec fn is_float_literal(s: Seq<char>) -> bool {
    let b = if s.len() > 0 && (s[0] == '+' || s[0] == '-') {
        1int
    } else {
        0int
    };
    let t = s.subrange(b, s.len() as int);
    ||| eq_ignore_case(t, seq!['i', 'n', 'f'], seq!['I', 'N', 'F'])
    ||| eq_ignore_case(
        t,
        seq!['i', 'n', 'f', 'i', 'n', 'i', 't', 'y'],
        seq!['I', 'N', 'F', 'I', 'N', 'I', 'T', 'Y'],
    )
    ||| eq_ignore_case(t, seq!['n', 'a', 'n'], seq!['N', 'A', 'N'])
    ||| is_decimal_literal(t)
}

/// The end of the run of ASCII digits in `t` that starts at `i`.
fn digits_end_at(t: &Vec<char>, i: usize) -> (r: usize)
    requires
        i <= t@.len(),
    ensures
        r == digits_end(t@, i as int),
        i <= r <= t@.len(),
{
    let mut j = i;
    while j < t.len() && '0' <= t[j] && t[j] <= '9'
        invariant
            i <= j <= t@.len(),
            digits_end(t@, j as int) == digits_end(t@, i as int),
        decreases t@.len() - j,
    {
        j = j + 1;
    }
    j
}

/// Whether `t[b..]` spells the word given in `lower` and `upper` case.
fn eq_ignore_case_at(t: &Vec<char>, b: usize, lower: &Vec<char>, upper: &Vec<char>) -> (r: bool)
    requires
        b <= t@.len(),
    ensures
        r == eq_ignore_case(t@.subrange(b as int, t@.len() as int), lower@, upper@),
{
    let n = t.len();
    if n - b != lower.len() || n - b != upper.len() {
        return false;
    }
    let mut i: usize = 0;
    while i < lower.len()
        invariant
            b <= n == t@.len(),
            n - b == lower@.len(),
            n - b == upper@.len(),
            i <= lower@.len(),
            forall|j: int| 0 <= j < i ==> t@[b + j] == lower@[j] || t@[b + j] == upper@[j],
        decreases lower@.len() - i,
    {
        let c = t[b + i];
        if !(c == lower[i] || c == upper[i]) {
            assert(t@.subrange(b as int, n as int)[i as int] == c);
            return false;
        }
        i = i + 1;
    }
    assert forall|j: int| 0 <= j < lower@.len() implies (t@.subrange(b as int, n as int)[j]
        == lower@[j] || t@.subrange(b as int, n as int)[j] == upper@[j]) by {
        assert(t@.subrange(b as int, n as int)[j] == t@[b + j]);
    }
    true
}

/// Whether `t` is a decimal literal.
fn is_decimal_text(t: &Vec<char>) -> (r: bool)
    ensures
        r == is_decimal_literal(t@),
{
    let n = t.len();
    let i = digits_end_at(t, 0);
    let has_dot = i < n && t[i] == '.';
    let j = if has_dot {
        digits_end_at(t, i + 1)
    } else {
        i
    };
    let mantissa_digits = if has_dot {
        i + (j - (i + 1))
    } else {
        i
    };
    if mantissa_digits < 1 {
        return false;
    }
    if j == n {
        return true;
    }
    if !(t[j] == 'e' || t[j] == 'E') {
        return false;
    }
    let k = if j + 1 < n && (t[j + 1] == '+' || t[j + 1] == '-') {
        j + 2
    } else {
        j + 1
    };
    let m = digits_end_at(t, k);
    m > k && m == n
}

/// Whether `t` parses as an `f64`.
pub fn is_float_text(t: &Vec<char>) -> (r: bool)
    ensures
        r == is_float_literal(t@),
{
    let b: usize = if t.len() > 0 && (t[0] == '+' || t[0] == '-') {
        1
    } else {
        0
    };
    let inf = vec!['i', 'n', 'f'];
    let inf_upper = vec!['I', 'N', 'F'];
    let infinity = vec!['i', 'n', 'f', 'i', 'n', 'i', 't', 'y'];
    let infinity_upper = vec!['I', 'N', 'F', 'I', 'N', 'I', 'T', 'Y'];
    let nan = vec!['n', 'a', 'n'];
    let nan_upper = vec!['N', 'A', 'N'];
    if eq_ignore_case_at(t, b, &inf, &inf_upper) || eq_ignore_case_at(
        t,
        b,
        &infinity,
        &infinity_upper,
    ) || eq_ignore_case_at(t, b, &nan, &nan_upper) {
        return true;
    }
    let mut rest: Vec<char> = Vec::new();
    let mut i = b;
    while i < t.len()
        invariant
            b <= i <= t@.len(),
            rest@ == t@.subrange(b as int, i as int),
        decreases t@.len() - i,
    {
        rest.push(t[i]);
        i = i + 1;
        assert(rest@ =~= t@.subrange(b as int, i as int));
    }
    is_decimal_text(&rest)
}

// ---------------------------------------------------------------------------
// The parser, as spec functions over the input `s` and a position `p`
// ---------------------------------------------------------------------------

/// The character at `p`, if there is one.
pub open spec fn peek_at(s: Seq<char>, p: int) -> Option<char> {
    if 0 <= p < s.len() {
        Some(s[p])
    } else {
        None
    }
}

/// `s[a..b]`, or nothing when that is not a range of `s`.
pub open spec fn text(s: Seq<char>, a: int, b: int) -> Seq<char> {
    if 0 <= a <= b <= s.len() {
        s.subrange(a, b)
    } else {
        Seq::empty()
    }
}

/// Past the white space at `p`.
pub open spec fn ws_end(s: Seq<char>, p: int) -> int
    decreases s.len() - p,
{
    if 0 <= p < s.len() && spec_is_whitespace(s[p]) {
        ws_end(s, p + 1)
    } else {
        p
    }
}

/// The line feed that ends the line at `p`, or the end of the input.
pub open spec fn line_end(s: Seq<char>, p: int) -> int
    decreases s.len() - p,
{
    if 0 <= p < s.len() && s[p] != '\n' {
        line_end(s, p + 1)
    } else {
        p
    }
}

/// Past the key characters at `p`.
pub open spec fn ident_end(s: Seq<char>, p: int) -> int
    decreases s.len() - p,
{
    if 0 <= p < s.len() && is_ident_char(s[p]) {
        ident_end(s, p + 1)
    } else {
        p
    }
}

/// The end of a bare value: the next line feed or `}`, or the end.
pub open spec fn bare_end(s: Seq<char>, p: int) -> int
    decreases s.len() - p,
{
    if 0 <= p < s.len() && s[p] != '\n' && s[p] != '}' {
        bare_end(s, p + 1)
    } else {
        p
    }
}

pub proof fn lemma_ws_end(s: Seq<char>, p: int)
    requires
        0 <= p,
    ensures
        p <= ws_end(s, p),
        p <= s.len() ==> ws_end(s, p) <= s.len(),
        p > s.len() ==> ws_end(s, p) == p,
        ws_end(s, p) < s.len() ==> !spec_is_whitespace(s[ws_end(s, p)]),
    decreases s.len() - p,
{
    if 0 <= p < s.len() && spec_is_whitespace(s[p]) {
        lemma_ws_end(s, p + 1);
    }
}

pub proof fn lemma_line_end(s: Seq<char>, p: int)
    requires
        0 <= p,
    ensures
        p <= line_end(s, p),
        p <= s.len() ==> line_end(s, p) <= s.len(),
        p > s.len() ==> line_end(s, p) == p,
    decreases s.len() - p,
{
    if 0 <= p < s.len() && s[p] != '\n' {
        lemma_line_end(s, p + 1);
    }
}

pub proof fn lemma_ident_end(s: Seq<char>, p: int)
    requires
        0 <= p,
    ensures
        p <= ident_end(s, p),
        p <= s.len() ==> ident_end(s, p) <= s.len(),
        p > s.len() ==> ident_end(s, p) == p,
    decreases s.len() - p,
{
    if 0 <= p < s.len() && is_ident_char(s[p]) {
        lemma_ident_end(s, p + 1);
    }
}

pub proof fn lemma_bare_end(s: Seq<char>, p: int)
    requires
        0 <= p,
    ensures
        p <= bare_end(s, p),
        p <= s.len() ==> bare_end(s, p) <= s.len(),
        p > s.len() ==> bare_end(s, p) == p,
    decreases s.len() - p,
{
    if 0 <= p < s.len() && s[p] != '\n' && s[p] != '}' {
        lemma_bare_end(s, p + 1);
    }
}

/// Past white space and whole-line `#` comments at `p`.
pub open spec fn skip_wsc(s: Seq<char>, p: int) -> int
    decreases s.len() - p,
{
    if p < 0 {
        p
    } else {
        let q = ws_end(s, p);
        if q < s.len() && s[q] == '#' {
            proof {
                lemma_ws_end(s, p);
                lemma_line_end(s, q + 1);
            }
            skip_wsc(s, line_end(s, q + 1))
        } else {
            q
        }
    }
}

pub proof fn lemma_skip_wsc(s: Seq<char>, p: int)
    requires
        0 <= p,
    ensures
        p <= skip_wsc(s, p),
        p <= s.len() ==> skip_wsc(s, p) <= s.len(),
        p > s.len() ==> skip_wsc(s, p) == p,
    decreases s.len() - p,
{
    lemma_ws_end(s, p);
    let q = ws_end(s, p);
    if q < s.len() && s[q] == '#' {
        lemma_line_end(s, q + 1);
        lemma_skip_wsc(s, line_end(s, q + 1));
    }
}

/// The body of a quoted string whose opening quote is just before `q`: a
/// backslash takes the next character literally; the string ends at `"` or
/// at the end of the input. Returns the text and the position after it.
pub open spec fn string_body(s: Seq<char>, q: int) -> (Seq<char>, int)
    decreases s.len() + 2 - q,
{
    if q < 0 || q >= s.len() {
        (Seq::empty(), q + 1)
    } else if s[q] == '"' {
        (Seq::empty(), q + 1)
    } else if s[q] == '\\' {
        if q + 1 < s.len() {
            let (r, e) = string_body(s, q + 2);
            (seq![s[q + 1]] + r, e)
        } else {
            string_body(s, q + 2)
        }
    } else {
        let (r, e) = string_body(s, q + 1);
        (seq![s[q]] + r, e)
    }
}

pub proof fn lemma_string_body(s: Seq<char>, q: int)
    requires
        0 <= q <= s.len() + 1,
    ensures
        q < string_body(s, q).1 <= s.len() + 2,
    decreases s.len() + 2 - q,
{
    if q < s.len() {
        if s[q] == '"' {
        } else if s[q] == '\\' {
            lemma_string_body(s, q + 2);
        } else {
            lemma_string_body(s, q + 1);
        }
    }
}

/// The value after a `:` at `p`: past white space (comments are not
/// skipped here, since `#` starts a hex colour), a quoted string; or else
/// the trimmed rest of the line up to `}`, which is a number when it is a
/// floating-point literal and does not start with `#`, and a string
/// otherwise.
pub open spec fn parse_value(s: Seq<char>, p: int) -> (ValueModel, int) {
    let q = ws_end(s, p);
    if q < s.len() && s[q] == '"' {
        let (b, e) = string_body(s, q + 1);
        (ValueModel::Str(b), e)
    } else {
        let e = bare_end(s, q);
        let raw = trim(text(s, q, e));
        if q < s.len() && s[q] == '#' {
            (ValueModel::Str(raw), e)
        } else if is_float_literal(raw) {
            (ValueModel::Num(raw), e)
        } else {
            (ValueModel::Str(raw), e)
        }
    }
}

pub proof fn lemma_parse_value(s: Seq<char>, p: int)
    requires
        0 <= p <= s.len(),
    ensures
        p <= parse_value(s, p).1 <= s.len() + 2,
{
    lemma_ws_end(s, p);
    let q = ws_end(s, p);
    if q < s.len() && s[q] == '"' {
        lemma_string_body(s, q + 1);
    } else {
        lemma_bare_end(s, q);
    }
}

/// The index of the first entry with key `k` at or after `i`, or -1.
pub open spec fn find_key<V>(es: Seq<(Seq<char>, V)>, k: Seq<char>, i: int) -> int
    decreases es.len() - i,
{
    if i < 0 || i >= es.len() {
        -1
    } else if es[i].0 == k {
        i
    } else {
        find_key(es, k, i + 1)
    }
}

/// `es` with `k` bound to `v`: the entry for `k` replaced where there is
/// one, a new entry at the end otherwise.
pub open spec fn assoc_insert<V>(es: Seq<(Seq<char>, V)>, k: Seq<char>, v: V) -> Seq<(Seq<char>, V)> {
    let i = find_key(es, k, 0);
    if i >= 0 {
        es.update(i, (k, v))
    } else {
        es.push((k, v))
    }
}

/// Whether the parser moves from `p` to `n` without leaving the input's
/// bounds.
pub open spec fn advances(s: Seq<char>, p: int, n: int) -> bool {
    p < n <= s.len() + 2
}

/// The statements of a block from `p` on, added to `acc`, and the
/// position where the block ends (at its `}` or the end of the input).
pub open spec fn parse_block(
    s: Seq<char>,
    p: int,
    acc: Seq<(Seq<char>, ValueModel)>,
) -> (Seq<(Seq<char>, ValueModel)>, int)
    decreases s.len() + 3 - p,
{
    if !(0 <= p <= s.len() + 2) {
        (acc, p)
    } else {
        let q = skip_wsc(s, p);
        if q >= s.len() || s[q] == '}' {
            (acc, q)
        } else {
            let k = ident_end(s, q);
            if k == q {
                if advances(s, p, q + 1) {
                    parse_block(s, q + 1, acc)
                } else {
                    (acc, q + 1)
                }
            } else {
                let key = text(s, q, k);
                let r = skip_wsc(s, k);
                if r < s.len() && s[r] == '{' {
                    if advances(s, p, r + 1) {
                        let (inner, e) = parse_block(s, r + 1, Seq::empty());
                        let e2 = skip_wsc(s, e);
                        let e3 = if e2 < s.len() && s[e2] == '}' {
                            e2 + 1
                        } else {
                            e2
                        };
                        let acc2 = assoc_insert(acc, key, ValueModel::Section(inner));
                        if advances(s, p, e3) {
                            parse_block(s, e3, acc2)
                        } else {
                            (acc2, e3)
                        }
                    } else {
                        (acc, r + 1)
                    }
                } else if r < s.len() && s[r] == ':' {
                    let (v, e) = parse_value(s, r + 1);
                    let acc2 = assoc_insert(acc, key, v);
                    if advances(s, p, e) {
                        parse_block(s, e, acc2)
                    } else {
                        (acc2, e)
                    }
                } else {
                    let e = line_end(s, r);
                    if advances(s, p, e) {
                        parse_block(s, e, acc)
                    } else {
                        (acc, e)
                    }
                }
            }
        }
    }
}

/// The whole input parsed as the top-level block.
pub open spec fn parse_spec(s: Seq<char>) -> Seq<(Seq<char>, ValueModel)> {
    parse_block(s, 0, Seq::empty()).0
}

// ---------------------------------------------------------------------------
// The parser
// ---------------------------------------------------------------------------

/// The input's characters and a position in them. The position may run up
/// to two past the end, where reading gives nothing.
struct Parser {
    chars: Vec<char>,
    pos: usize,
}

impl Parser {
    spec fn wf(&self) -> bool {
        &&& self.pos <= self.chars@.len() + 2
        &&& self.chars@.len() + 3 <= usize::MAX
    }

    fn new(input: &str) -> (p: Parser)
        requires
            input@.len() + 3 <= usize::MAX,
        ensures
            p.chars@ == input@,
            p.pos == 0,
            p.wf(),
    {
        let chars = chars_of(input);
        Parser { chars, pos: 0 }
    }

    fn peek(&self) -> (r: Option<char>)
        ensures
            r == peek_at(self.chars@, self.pos as int),
    {
        if self.pos < self.chars.len() {
            Some(self.chars[self.pos])
        } else {
            None
        }
    }

    fn advance(&mut self) -> (r: Option<char>)
        requires
            old(self).wf(),
            old(self).pos <= old(self).chars@.len() + 1,
        ensures
            r == peek_at(old(self).chars@, old(self).pos as int),
            final(self).pos == old(self).pos + 1,
            final(self).chars == old(self).chars,
            final(self).wf(),
    {
        let c = self.peek();
        self.pos = self.pos + 1;
        c
    }

    fn skip_ws_only(&mut self)
        requires
            old(self).wf(),
        ensures
            final(self).pos == ws_end(old(self).chars@, old(self).pos as int),
            final(self).chars == old(self).chars,
            final(self).wf(),
    {
        proof {
            lemma_ws_end(self.chars@, self.pos as int);
        }
        while self.pos < self.chars.len() && is_whitespace(self.chars[self.pos])
            invariant
                self.wf(),
                self.chars == old(self).chars,
                old(self).pos <= self.pos,
                ws_end(self.chars@, self.pos as int) == ws_end(
                    old(self).chars@,
                    old(self).pos as int,
                ),
            decreases self.chars@.len() - self.pos,
        {
            self.pos = self.pos + 1;
        }
    }

    /// Skips to the line feed that ends the current line, or the end.
    fn skip_to_line_end(&mut self)
        requires
            old(self).wf(),
        ensures
            final(self).pos == line_end(old(self).chars@, old(self).pos as int),
            final(self).chars == old(self).chars,
            final(self).wf(),
    {
        proof {
            lemma_line_end(self.chars@, self.pos as int);
        }
        while self.pos < self.chars.len() && self.chars[self.pos] != '\n'
            invariant
                self.wf(),
                self.chars == old(self).chars,
                line_end(self.chars@, self.pos as int) == line_end(
                    old(self).chars@,
                    old(self).pos as int,
                ),
            decreases self.chars@.len() - self.pos,
        {
            self.pos = self.pos + 1;
        }
    }

    fn skip_ws_and_comments(&mut self)
        requires
            old(self).wf(),
        ensures
            final(self).pos == skip_wsc(old(self).chars@, old(self).pos as int),
            final(self).chars == old(self).chars,
            final(self).wf(),
    {
        proof {
            lemma_skip_wsc(self.chars@, self.pos as int);
        }
        loop
            invariant
                self.wf(),
                self.chars == old(self).chars,
                skip_wsc(self.chars@, self.pos as int) == skip_wsc(
                    old(self).chars@,
                    old(self).pos as int,
                ),
            ensures
                self.wf(),
                self.chars == old(self).chars,
                self.pos == skip_wsc(old(self).chars@, old(self).pos as int),
            decreases self.chars@.len() + 3 - self.pos,
        {
            let ghost p = self.pos;
            self.skip_ws_only();
            proof {
                lemma_ws_end(self.chars@, p as int);
            }
            if self.pos < self.chars.len() && self.chars[self.pos] == '#' {
                self.pos = self.pos + 1;
                self.skip_to_line_end();
                proof {
                    lemma_line_end(self.chars@, (ws_end(self.chars@, p as int) + 1));
                }
            } else {
                break;
            }
        }
    }

    fn parse_ident(&mut self) -> (r: String)
        requires
            old(self).wf(),
        ensures
            final(self).pos == ident_end(old(self).chars@, old(self).pos as int),
            r@ == text(old(self).chars@, old(self).pos as int, final(self).pos as int),
            final(self).chars == old(self).chars,
            final(self).wf(),
    {
        let ghost p0 = self.pos as int;
        proof {
            lemma_ident_end(self.chars@, p0);
        }
        let mut s = String::new();
        while self.pos < self.chars.len() && (is_alphanumeric(self.chars[self.pos])
            || self.chars[self.pos] == '_' || self.chars[self.pos] == '-')
            invariant
                self.wf(),
                self.chars == old(self).chars,
                p0 == old(self).pos,
                p0 <= self.pos <= self.chars@.len() || self.pos == p0,
                ident_end(self.chars@, self.pos as int) == ident_end(self.chars@, p0),
                s@ == text(self.chars@, p0, self.pos as int),
            decreases self.chars@.len() - self.pos,
        {
            push_char(&mut s, self.chars[self.pos]);
            self.pos = self.pos + 1;
            assert(s@ =~= text(self.chars@, p0, self.pos as int));
        }
        s
    }

    /// Reads a quoted string; the current character is its opening quote.
    fn parse_string(&mut self) -> (r: String)
        requires
            old(self).wf(),
            old(self).pos < old(self).chars@.len(),
        ensures
            (r@, final(self).pos as int) == string_body(
                old(self).chars@,
                old(self).pos + 1,
            ),
            final(self).chars == old(self).chars,
            final(self).wf(),
    {
        let ghost s0 = self.chars@;
        self.advance();
        let mut s = String::new();
        proof {
            lemma_string_body(s0, self.pos as int);
        }
        loop
            invariant_except_break
                self.pos <= s0.len() + 1,
                s@ + string_body(s0, self.pos as int).0 == string_body(s0, old(self).pos + 1).0,
                string_body(s0, self.pos as int).1 == string_body(s0, old(self).pos + 1).1,
            invariant
                self.wf(),
                self.chars == old(self).chars,
                s0 == self.chars@,
            ensures
                self.wf(),
                self.chars == old(self).chars,
                (s@, self.pos as int) == string_body(s0, old(self).pos + 1),
            decreases s0.len() + 2 - self.pos,
        {
            let ghost q = self.pos as int;
            proof {
                lemma_string_body(s0, q);
            }
            match self.advance() {
                None => {
                    assert(s@ =~= string_body(s0, old(self).pos + 1).0);
                    break;
                },
                Some(c) => {
                    if c == '"' {
                        assert(s@ =~= string_body(s0, old(self).pos + 1).0);
                        break;
                    }
                    if c == '\\' {
                        match self.advance() {
                            Some(next) => {
                                let ghost before = s@;
                                push_char(&mut s, next);
                                assert(s@ + string_body(s0, self.pos as int).0 =~= before
                                    + string_body(s0, q).0);
                            },
                            None => {},
                        }
                    } else {
                        let ghost before = s@;
                        push_char(&mut s, c);
                        assert(s@ + string_body(s0, self.pos as int).0 =~= before + string_body(
                            s0,
                            q,
                        ).0);
                    }
                },
            }
        }
        s
    }

    /// Reads a bare value to the end of the line or the next `}`, trimmed.
    fn parse_bare_value(&mut self) -> (r: String)
        requires
            old(self).wf(),
        ensures
            final(self).pos == bare_end(old(self).chars@, old(self).pos as int),
            r@ == trim(
                text(old(self).chars@, old(self).pos as int, final(self).pos as int),
            ),
            final(self).chars == old(self).chars,
            final(self).wf(),
    {
        let p0 = self.pos;
        proof {
            lemma_bare_end(self.chars@, p0 as int);
        }
        while self.pos < self.chars.len() && self.chars[self.pos] != '\n' && self.chars[self.pos]
            != '}'
            invariant
                self.wf(),
                self.chars == old(self).chars,
                p0 == old(self).pos,
                p0 <= self.pos <= self.chars@.len() || self.pos == p0,
                bare_end(self.chars@, self.pos as int) == bare_end(self.chars@, p0 as int),
            decreases self.chars@.len() - self.pos,
        {
            self.pos = self.pos + 1;
        }
        let mut s = String::new();
        if p0 <= self.chars.len() {
            let (a, b) = crate::text::trim_bounds(&self.chars, p0, self.pos);
            crate::text::push_chars(&mut s, &self.chars, a, b);
            assert(s@ =~= trim(text(self.chars@, p0 as int, self.pos as int)));
        } else {
            assert(text(self.chars@, p0 as int, self.pos as int) =~= Seq::<char>::empty());
            assert(s@ =~= trim(text(self.chars@, p0 as int, self.pos as int)));
        }
        s
    }

    fn parse_value(&mut self) -> (v: Value)
        requires
            old(self).wf(),
            old(self).pos <= old(self).chars@.len(),
        ensures
            (value_model(v), final(self).pos as int) == parse_value(
                old(self).chars@,
                old(self).pos as int,
            ),
            final(self).chars == old(self).chars,
            final(self).wf(),
    {
        let ghost s0 = self.chars@;
        let ghost p0 = self.pos as int;
        proof {
            lemma_ws_end(s0, p0);
        }
        self.skip_ws_only();
        match self.peek() {
            Some('"') => Value::Str(self.parse_string()),
            Some('#') => {
                let raw = self.parse_bare_value();
                Value::Str(raw)
            },
            _ => {
                let raw = self.parse_bare_value();
                let t = chars_of(raw.as_str());
                if is_float_text(&t) {
                    Value::Num(raw)
                } else {
                    Value::Str(raw)
                }
            },
        }
    }

    /// The statements of a block up to its closing `}` (not consumed) or
    /// the end of the input.
    fn parse_block(&mut self) -> (m: Vec<(String, Value)>)
        requires
            old(self).wf(),
        ensures
            (entries_model(m@), final(self).pos as int) == parse_block(
                old(self).chars@,
                old(self).pos as int,
                Seq::empty(),
            ),
            final(self).chars == old(self).chars,
            final(self).wf(),
        decreases old(self).chars@.len() + 3 - old(self).pos,
    {
        let ghost s = self.chars@;
        let ghost p0 = self.pos as int;
        let mut map: Vec<(String, Value)> = Vec::new();
        loop
            invariant_except_break
                parse_block(s, self.pos as int, entries_model(map@)) == parse_block(
                    s,
                    p0,
                    Seq::empty(),
                ),
            invariant
                self.wf(),
                self.chars == old(self).chars,
                s == self.chars@,
                p0 == old(self).pos,
                p0 <= self.pos,
            ensures
                (entries_model(map@), self.pos as int) == parse_block(s, p0, Seq::empty()),
            decreases s.len() + 3 - self.pos,
        {
            let ghost p = self.pos as int;
            let ghost acc = entries_model(map@);
            proof {
                lemma_skip_wsc(s, p);
            }
            self.skip_ws_and_comments();
            let q = self.pos;
            match self.peek() {
                None => {
                    break;
                },
                Some(c) => {
                    if c == '}' {
                        break;
                    }
                },
            }
            proof {
                lemma_ident_end(s, q as int);
            }
            let key = self.parse_ident();
            if self.pos == q {
                self.pos = self.pos + 1;
                continue;
            }
            let k = self.pos;
            proof {
                lemma_skip_wsc(s, k as int);
            }
            self.skip_ws_and_comments();
            let r = self.pos;
            let mut is_open = false;
            let mut is_colon = false;
            match self.peek() {
                Some(c) => {
                    is_open = c == '{';
                    is_colon = c == ':';
                },
                None => {},
            }
            if is_open {
                self.advance();
                let inner = self.parse_block();
                proof {
                    lemma_parse_block(s, r as int + 1, Seq::empty());
                }
                let e = self.pos;
                proof {
                    lemma_skip_wsc(s, e as int);
                }
                self.skip_ws_and_comments();
                let mut close = false;
                match self.peek() {
                    Some(c) => {
                        close = c == '}';
                    },
                    None => {},
                }
                if close {
                    self.advance();
                }
                let ghost inner_model = entries_model(inner@);
                insert_entry(&mut map, key, Value::Section(inner));
                proof {
                    assert(entries_model(map@) == assoc_insert(
                        acc,
                        text(s, q as int, k as int),
                        ValueModel::Section(inner_model),
                    ));
                }
            } else if is_colon {
                self.advance();
                proof {
                    lemma_parse_value(s, r as int + 1);
                }
                let val = self.parse_value();
                insert_entry(&mut map, key, val);
            } else {
                proof {
                    lemma_line_end(s, r as int);
                }
                self.skip_to_line_end();
            }
        }
        map
    }
}

/// Lengths and entries of the model of a section.
pub proof fn lemma_entries_model(es: Seq<(String, Value)>)
    ensures
        entries_model(es).len() == es.len(),
        forall|i: int|
            0 <= i < es.len() ==> #[trigger] entries_model(es)[i] == (
                es[i].0@,
                value_model(es[i].1),
            ),
    decreases es.len(),
{
    if es.len() > 0 {
        lemma_entries_model(es.drop_last());
        assert forall|i: int| 0 <= i < es.len() implies #[trigger] entries_model(es)[i] == (
            es[i].0@,
            value_model(es[i].1),
        ) by {
            if i < es.len() - 1 {
                assert(es.drop_last()[i] == es[i]);
            }
        }
    }
}

/// Binds `key` to `v` in the section `map`.
fn insert_entry(map: &mut Vec<(String, Value)>, key: String, v: Value)
    ensures
        entries_model(final(map)@) == assoc_insert(
            entries_model(old(map)@),
            key@,
            value_model(v),
        ),
{
    let ghost m0 = entries_model(map@);
    proof {
        lemma_entries_model(map@);
    }
    let mut i: usize = 0;
    while i < map.len()
        invariant
            i <= map@.len(),
            m0 == entries_model(map@),
            m0 == entries_model(old(map)@),
            m0.len() == map@.len(),
            find_key(m0, key@, 0) == find_key(m0, key@, i as int),
            forall|j: int| 0 <= j < map@.len() ==> #[trigger] m0[j] == (map@[j].0@, value_model(map@[j].1)),
        decreases map@.len() - i,
    {
        if map[i].0 == key {
            let ghost old_map = map@;
            let ghost vm = value_model(v);
            let ghost kv = key@;
            assert(m0[i as int].0 == kv);
            assert(find_key(m0, kv, i as int) == i);
            map.set(i, (key, v));
            proof {
                lemma_entries_model(map@);
                assert(entries_model(map@) =~= m0.update(i as int, (kv, vm))) by {
                    assert forall|j: int| 0 <= j < map@.len() implies entries_model(map@)[j] == m0.update(
                        i as int,
                        (kv, vm),
                    )[j] by {
                        if j != i {
                            assert(map@[j] == old_map[j]);
                        }
                    }
                }
            }
            return;
        }
        i = i + 1;
    }
    let ghost vm = value_model(v);
    let ghost kv = key@;
    let ghost old_map = map@;
    map.push((key, v));
    proof {
        lemma_entries_model(map@);
        assert(entries_model(map@) =~= m0.push((kv, vm))) by {
            assert forall|j: int| 0 <= j < map@.len() implies entries_model(map@)[j] == m0.push(
                (kv, vm),
            )[j] by {
                if j < old_map.len() {
                    assert(map@[j] == old_map[j]);
                }
            }
        }
    }
}

/// The block parser moves forward and stays within two past the end.
pub proof fn lemma_parse_block(s: Seq<char>, p: int, acc: Seq<(Seq<char>, ValueModel)>)
    requires
        0 <= p <= s.len() + 2,
    ensures
        p <= parse_block(s, p, acc).1 <= s.len() + 2,
    decreases s.len() + 3 - p,
{
    lemma_skip_wsc(s, p);
    let q = skip_wsc(s, p);
    if q >= s.len() || s[q] == '}' {
    } else {
        lemma_ident_end(s, q);
        let k = ident_end(s, q);
        if k == q {
            if advances(s, p, q + 1) {
                lemma_parse_block(s, q + 1, acc);
            }
        } else {
            let key = text(s, q, k);
            lemma_skip_wsc(s, k);
            let r = skip_wsc(s, k);
            if r < s.len() && s[r] == '{' {
                if advances(s, p, r + 1) {
                    lemma_parse_block(s, r + 1, Seq::empty());
                    let (inner, e) = parse_block(s, r + 1, Seq::empty());
                    lemma_skip_wsc(s, e);
                    let e2 = skip_wsc(s, e);
                    let e3 = if e2 < s.len() && s[e2] == '}' {
                        e2 + 1
                    } else {
                        e2
                    };
                    let acc2 = assoc_insert(acc, key, ValueModel::Section(inner));
                    if advances(s, p, e3) {
                        lemma_parse_block(s, e3, acc2);
                    }
                }
            } else if r < s.len() && s[r] == ':' {
                lemma_parse_value(s, r + 1);
                let (v, e) = parse_value(s, r + 1);
                let acc2 = assoc_insert(acc, key, v);
                if advances(s, p, e) {
                    lemma_parse_block(s, e, acc2);
                }
            } else {
                lemma_line_end(s, r);
                let e = line_end(s, r);
                if advances(s, p, e) {
                    lemma_parse_block(s, e, acc);
                }
            }
        }
    }
}

/// Parses a configuration text into its top-level section.
pub fn parse(input: &str) -> (m: Vec<(String, Value)>)
    requires
        input@.len() + 3 <= usize::MAX,
    ensures
        entries_model(m@) == parse_spec(input@),
{
    let mut p = Parser::new(input);
    p.parse_block()
}

// ---------------------------------------------------------------------------
// Reading the parsed tree
// ---------------------------------------------------------------------------

/// The value bound to `k`, if any.
pub open spec fn lookup<V>(es: Seq<(Seq<char>, V)>, k: Seq<char>) -> Option<V> {
    let i = find_key(es, k, 0);
    if 0 <= i < es.len() {
        Some(es[i].1)
    } else {
        None
    }
}

/// `es` with `k` bound to `v` unless `k` is bound already.
pub open spec fn insert_if_absent<V>(es: Seq<(Seq<char>, V)>, k: Seq<char>, v: V) -> Seq<
    (Seq<char>, V),
> {
    if find_key(es, k, 0) >= 0 {
        es
    } else {
        es.push((k, v))
    }
}

pub proof fn lemma_find_key<V>(es: Seq<(Seq<char>, V)>, k: Seq<char>, i: int)
    requires
        0 <= i,
    ensures
        find_key(es, k, i) == -1 || (i <= find_key(es, k, i) < es.len() && es[find_key(
            es,
            k,
            i,
        )].0 == k),
        find_key(es, k, i) == -1 ==> forall|j: int| i <= j < es.len() ==> es[j].0 != k,
    decreases es.len() - i,
{
    if i < es.len() && es[i].0 != k {
        lemma_find_key(es, k, i + 1);
    }
}

/// `==` on `str`; the contract claims that the result is whether the two
/// strings hold the same characters.
#[verifier::external_body]
fn str_eq(a: &str, b: &str) -> (r: bool)
    ensures
        r == (a@ == b@),
{
    a == b
}

/// The index of the entry of `es` with key `k`, as `find_key` gives it.
fn find_entry<V>(es: &Vec<(String, V)>, k: &str) -> (r: Option<usize>)
    ensures
        match r {
            Some(i) => i < es@.len() && find_key(keys_model(es@), k@, 0) == i,
            None => find_key(keys_model(es@), k@, 0) == -1,
        },
{
    let ghost m = keys_model(es@);
    let mut i: usize = 0;
    while i < es.len()
        invariant
            i <= es@.len(),
            m == keys_model(es@),
            m.len() == es@.len(),
            find_key(m, k@, 0) == find_key(m, k@, i as int),
        decreases es@.len() - i,
    {
        if str_eq(es[i].0.as_str(), k) {
            assert(m[i as int].0 == k@);
            return Some(i);
        }
        assert(m[i as int].0 != k@);
        i = i + 1;
    }
    None
}

/// The entries of an association list with their keys as character
/// sequences.
pub open spec fn keys_model<V>(es: Seq<(String, V)>) -> Seq<(Seq<char>, V)> {
    Seq::new(es.len(), |i: int| (es[i].0@, es[i].1))
}

/// The section bound to `name` in `map`, if `name` is bound to a section.
pub fn get_section<'a>(map: &'a Vec<(String, Value)>, name: &str) -> (r: Option<
    &'a Vec<(String, Value)>,
>)
    ensures
        match lookup(entries_model(map@), name@) {
            Some(ValueModel::Section(inner)) => r is Some && entries_model(r.unwrap()@) == inner,
            _ => r is None,
        },
{
    proof {
        lemma_entries_model(map@);
        assert(keys_model(map@) =~= Seq::new(map@.len(), |i: int| (entries_model(map@)[i].0, map@[i].1)));
        lemma_find_key_keys(map@, name@, 0);
    }
    match find_entry(map, name) {
        None => None,
        Some(i) => {
            match &map[i].1 {
                Value::Section(s) => Some(s),
                _ => None,
            }
        },
    }
}

/// The value bound to `key` in `map`, if any.
pub fn get_value<'a>(map: &'a Vec<(String, Value)>, key: &str) -> (r: Option<&'a Value>)
    ensures
        match lookup(entries_model(map@), key@) {
            Some(v) => r is Some && value_model(*r.unwrap()) == v,
            None => r is None,
        },
{
    proof {
        lemma_entries_model(map@);
        lemma_find_key_keys(map@, key@, 0);
    }
    match find_entry(map, key) {
        None => None,
        Some(i) => Some(&map[i].1),
    }
}

/// Searching the model of a section finds what searching its keys finds.
pub proof fn lemma_find_key_keys(es: Seq<(String, Value)>, k: Seq<char>, i: int)
    requires
        0 <= i,
    ensures
        find_key(entries_model(es), k, i) == find_key(keys_model(es), k, i),
    decreases es.len() - i,
{
    lemma_entries_model(es);
    if i < es.len() {
        assert(entries_model(es)[i].0 == keys_model(es)[i].0);
        lemma_find_key_keys(es, k, i + 1);
    }
}

// ---------------------------------------------------------------------------
// Hex colours
// ---------------------------------------------------------------------------

/// The end of the run of `#` bytes that starts at `i`.
pub open spec fn hash_run_end(b: Seq<u8>, i: int) -> int
    decreases b.len() - i,
{
    if 0 <= i < b.len() && b[i] == 0x23 {
        hash_run_end(b, i + 1)
    } else {
        i
    }
}

/// The value of an ASCII hexadecimal digit.
pub open spec fn hex_digit(c: u8) -> Option<u8> {
    if 0x30 <= c <= 0x39 {
        Some((c - 0x30) as u8)
    } else if 0x61 <= c <= 0x66 {
        Some((c - 0x61 + 10) as u8)
    } else if 0x41 <= c <= 0x46 {
        Some((c - 0x41 + 10) as u8)
    } else {
        None
    }
}

/// What `u8::from_str_radix(.., 16).unwrap_or(0)` gives for the two bytes
/// `a b`: two hex digits, or `+` and one hex digit; 0 for anything else.
pub open spec fn hex_byte(a: u8, b: u8) -> u8 {
    if a == 0x2b {
        match hex_digit(b) {
            Some(d) => d,
            None => 0,
        }
    } else {
        match (hex_digit(a), hex_digit(b)) {
            (Some(x), Some(y)) => (x * 16 + y) as u8,
            _ => 0,
        }
    }
}

/// The bytes of a colour once its leading `#`s are dropped.
pub open spec fn hex_body(b: Seq<u8>) -> Seq<u8> {
    b.subrange(hash_run_end(b, 0), b.len() as int)
}

/// The colour `#rrggbb` (any number of leading `#`), from the UTF-8 bytes
/// `b`; black when fewer than six bytes follow the `#`s.
pub open spec fn rgb_of_hex(b: Seq<u8>) -> [u8; 3] {
    let t = hex_body(b);
    if t.len() >= 6 {
        [hex_byte(t[0], t[1]), hex_byte(t[2], t[3]), hex_byte(t[4], t[5])]
    } else {
        [0, 0, 0]
    }
}

/// The colour text can be cut into its three byte pairs: the cuts at 2, 4
/// and 6 fall between characters (cutting a `str` inside a character
/// panics).
pub open spec fn hex_cuts_ok(b: Seq<u8>) -> bool {
    let t = hex_body(b);
    t.len() >= 6 ==> {
        &&& !vstd::utf8::is_continuation_byte(t[2])
        &&& !vstd::utf8::is_continuation_byte(t[4])
        &&& (t.len() == 6 || !vstd::utf8::is_continuation_byte(t[6]))
    }
}

/// The end of the run of `#` bytes at the start of `b`.
fn hash_run_end_of(b: &[u8]) -> (k: usize)
    ensures
        k == hash_run_end(b@, 0),
        k <= b@.len(),
{
    let mut k: usize = 0;
    while k < b.len() && b[k] == 0x23
        invariant
            k <= b@.len(),
            hash_run_end(b@, k as int) == hash_run_end(b@, 0),
        decreases b@.len() - k,
    {
        k = k + 1;
    }
    k
}

fn hex_digit_of(c: u8) -> (r: Option<u8>)
    ensures
        r == hex_digit(c),
{
    if 0x30 <= c && c <= 0x39 {
        Some(c - 0x30)
    } else if 0x61 <= c && c <= 0x66 {
        Some(c - 0x61 + 10)
    } else if 0x41 <= c && c <= 0x46 {
        Some(c - 0x41 + 10)
    } else {
        None
    }
}

fn hex_byte_of(a: u8, b: u8) -> (r: u8)
    ensures
        r == hex_byte(a, b),
{
    if a == 0x2b {
        match hex_digit_of(b) {
            Some(d) => d,
            None => 0,
        }
    } else {
        match (hex_digit_of(a), hex_digit_of(b)) {
            (Some(x), Some(y)) => x * 16 + y,
            _ => 0,
        }
    }
}

/// Whether `hex_to_rgb` can take `s`: whether `s` splits into its byte
/// pairs at character boundaries.
pub fn hex_color_ok(s: &str) -> (r: bool)
    ensures
        r == hex_cuts_ok(vstd::utf8::encode_utf8(s@)),
{
    let b = s.as_bytes();
    let k = hash_run_end_of(b);
    let n = b.len() - k;
    if n < 6 {
        return true;
    }
    let cont = |x: u8| -> (r: bool)
        ensures
            r == vstd::utf8::is_continuation_byte(x),
        { 0x80 <= x && x <= 0xbf };
    !cont(b[k + 2]) && !cont(b[k + 4]) && (n == 6 || !cont(b[k + 6]))
}

/// Parses a colour `#rrggbb`: each pair of hex digits (`+` and one digit
/// also counts) gives a component, 0 where it is not a number; black when
/// fewer than six bytes follow the leading `#`s.
pub fn hex_to_rgb(s: &str) -> (r: [u8; 3])
    requires
        hex_cuts_ok(vstd::utf8::encode_utf8(s@)),
    ensures
        r == rgb_of_hex(vstd::utf8::encode_utf8(s@)),
{
    let b = s.as_bytes();
    let k = hash_run_end_of(b);
    if b.len() - k >= 6 {
        [hex_byte_of(b[k], b[k + 1]), hex_byte_of(b[k + 2], b[k + 3]), hex_byte_of(b[k + 4], b[k + 5])]
    } else {
        [0, 0, 0]
    }
}

// ---------------------------------------------------------------------------
// The colour table
// ---------------------------------------------------------------------------

/// How many colours the fallback table holds.
pub const NUM_DEFAULT_COLORS: usize = 19;

/// Entry `i` of the fallback colour table (Catppuccin-like), used for every
/// name the configuration leaves out.
pub open spec fn default_color(i: int) -> (Seq<char>, [u8; 3]) {
    if i == 0 {
        ("background"@, [0x1e, 0x1e, 0x2e])
    } else if i == 1 {
        ("foreground"@, [0xcd, 0xd6, 0xf4])
    } else if i == 2 {
        ("cursor"@, [0xf5, 0xe0, 0xdc])
    } else if i == 3 {
        ("black"@, [0x45, 0x47, 0x5a])
    } else if i == 4 {
        ("red"@, [0xf3, 0x8b, 0xa8])
    } else if i == 5 {
        ("green"@, [0xa6, 0xe3, 0xa1])
    } else if i == 6 {
        ("yellow"@, [0xf9, 0xe2, 0xaf])
    } else if i == 7 {
        ("blue"@, [0x89, 0xb4, 0xfa])
    } else if i == 8 {
        ("magenta"@, [0xf5, 0xc2, 0xe7])
    } else if i == 9 {
        ("cyan"@, [0x94, 0xe2, 0xd5])
    } else if i == 10 {
        ("white"@, [0xba, 0xc2, 0xde])
    } else if i == 11 {
        ("bright_black"@, [0x58, 0x5b, 0x70])
    } else if i == 12 {
        ("bright_red"@, [0xf3, 0x8b, 0xa8])
    } else if i == 13 {
        ("bright_green"@, [0xa6, 0xe3, 0xa1])
    } else if i == 14 {
        ("bright_yellow"@, [0xf9, 0xe2, 0xaf])
    } else if i == 15 {
        ("bright_blue"@, [0x89, 0xb4, 0xfa])
    } else if i == 16 {
        ("bright_magenta"@, [0xf5, 0xc2, 0xe7])
    } else if i == 17 {
        ("bright_white"@, [0xa6, 0xad, 0xc8])
    } else {
        ("bright_cyan"@, [0x94, 0xe2, 0xd5])
    }
}

fn default_color_at(i: usize) -> (r: (&'static str, [u8; 3]))
    requires
        i < NUM_DEFAULT_COLORS,
    ensures
        r.0@ == default_color(i as int).0,
        r.1 == default_color(i as int).1,
{
    if i == 0 {
        ("background", [0x1e, 0x1e, 0x2e])
    } else if i == 1 {
        ("foreground", [0xcd, 0xd6, 0xf4])
    } else if i == 2 {
        ("cursor", [0xf5, 0xe0, 0xdc])
    } else if i == 3 {
        ("black", [0x45, 0x47, 0x5a])
    } else if i == 4 {
        ("red", [0xf3, 0x8b, 0xa8])
    } else if i == 5 {
        ("green", [0xa6, 0xe3, 0xa1])
    } else if i == 6 {
        ("yellow", [0xf9, 0xe2, 0xaf])
    } else if i == 7 {
        ("blue", [0x89, 0xb4, 0xfa])
    } else if i == 8 {
        ("magenta", [0xf5, 0xc2, 0xe7])
    } else if i == 9 {
        ("cyan", [0x94, 0xe2, 0xd5])
    } else if i == 10 {
        ("white", [0xba, 0xc2, 0xde])
    } else if i == 11 {
        ("bright_black", [0x58, 0x5b, 0x70])
    } else if i == 12 {
        ("bright_red", [0xf3, 0x8b, 0xa8])
    } else if i == 13 {
        ("bright_green", [0xa6, 0xe3, 0xa1])
    } else if i == 14 {
        ("bright_yellow", [0xf9, 0xe2, 0xaf])
    } else if i == 15 {
        ("bright_blue", [0x89, 0xb4, 0xfa])
    } else if i == 16 {
        ("bright_magenta", [0xf5, 0xc2, 0xe7])
    } else if i == 17 {
        ("bright_white", [0xa6, 0xad, 0xc8])
    } else {
        ("bright_cyan", [0x94, 0xe2, 0xd5])
    }
}

/// The `colors` section of a configuration tree (empty when missing).
pub open spec fn colors_section(tree: Seq<(Seq<char>, ValueModel)>) -> Seq<(Seq<char>, ValueModel)> {
    match lookup(tree, "colors"@) {
        Some(ValueModel::Section(cs)) => cs,
        _ => Seq::empty(),
    }
}

/// The colours given by the first `n` entries of a `colors` section: each
/// string entry parsed as a hex colour; other entries are ignored.
pub open spec fn section_colors(cs: Seq<(Seq<char>, ValueModel)>, n: int) -> Seq<
    (Seq<char>, [u8; 3]),
>
    decreases n,
{
    if n <= 0 {
        Seq::empty()
    } else {
        let prev = section_colors(cs, n - 1);
        match cs[n - 1].1 {
            ValueModel::Str(t) => assoc_insert(prev, cs[n - 1].0, rgb_of_hex(vstd::utf8::encode_utf8(t))),
            _ => prev,
        }
    }
}

/// `acc` completed with the first `n` fallback colours it lacks.
pub open spec fn with_defaults(acc: Seq<(Seq<char>, [u8; 3])>, n: int) -> Seq<(Seq<char>, [u8; 3])>
    decreases n,
{
    if n <= 0 {
        acc
    } else {
        insert_if_absent(with_defaults(acc, n - 1), default_color(n - 1).0, default_color(n - 1).1)
    }
}

/// The colour table of a configuration: its `colors` section, completed
/// from the fallback table.
pub open spec fn colors_spec(tree: Seq<(Seq<char>, ValueModel)>) -> Seq<(Seq<char>, [u8; 3])> {
    let cs = colors_section(tree);
    with_defaults(section_colors(cs, cs.len() as int), NUM_DEFAULT_COLORS as int)
}

/// Every string of the `colors` section can be read as a hex colour.
pub open spec fn colors_ok_spec(tree: Seq<(Seq<char>, ValueModel)>) -> bool {
    let cs = colors_section(tree);
    forall|i: int|
        0 <= i < cs.len() ==> match #[trigger] cs[i].1 {
            ValueModel::Str(t) => hex_cuts_ok(vstd::utf8::encode_utf8(t)),
            _ => true,
        }
}

/// Binds `key` to `c` in the colour table `out`.
fn color_insert(out: &mut Vec<(String, [u8; 3])>, key: String, c: [u8; 3])
    ensures
        keys_model(final(out)@) == assoc_insert(keys_model(old(out)@), key@, c),
{
    let ghost m0 = keys_model(out@);
    match find_entry(out, key.as_str()) {
        Some(i) => {
            let ghost kv = key@;
            let ghost o = out@;
            out.set(i, (key, c));
            assert(keys_model(out@) =~= m0.update(i as int, (kv, c))) by {
                assert forall|j: int| 0 <= j < out@.len() implies keys_model(out@)[j] == m0.update(
                    i as int,
                    (kv, c),
                )[j] by {
                    if j != i {
                        assert(out@[j] == o[j]);
                    }
                }
            }
        },
        None => {
            let ghost kv = key@;
            let ghost o = out@;
            out.push((key, c));
            assert(keys_model(out@) =~= m0.push((kv, c))) by {
                assert forall|j: int| 0 <= j < out@.len() implies keys_model(out@)[j] == m0.push(
                    (kv, c),
                )[j] by {
                    if j < o.len() {
                        assert(out@[j] == o[j]);
                    }
                }
            }
        },
    }
}

/// Whether every string of the `colors` section of `tree` can be read as
/// a hex colour, as `config_colors` needs.
pub fn colors_ok(tree: &Vec<(String, Value)>) -> (r: bool)
    ensures
        r == colors_ok_spec(entries_model(tree@)),
{
    proof {
        lemma_entries_model(tree@);
    }
    match get_section(tree, "colors") {
        None => {
            proof {
                assert(colors_section(entries_model(tree@)) =~= Seq::empty());
            }
            true
        },
        Some(cs) => {
            let ghost csm = entries_model(cs@);
            proof {
                lemma_entries_model(cs@);
            }
            let mut i: usize = 0;
            while i < cs.len()
                invariant
                    i <= cs@.len(),
                    csm == entries_model(cs@),
                    csm.len() == cs@.len(),
                    csm == colors_section(entries_model(tree@)),
                    forall|j: int| 0 <= j < cs@.len() ==> #[trigger] csm[j] == (cs@[j].0@, value_model(cs@[j].1)),
                    forall|j: int|
                        0 <= j < i ==> match #[trigger] csm[j].1 {
                            ValueModel::Str(t) => hex_cuts_ok(vstd::utf8::encode_utf8(t)),
                            _ => true,
                        },
                decreases cs@.len() - i,
            {
                match &cs[i].1 {
                    Value::Str(t) => {
                        assert(csm[i as int].1 == ValueModel::Str(t@));
                        if !hex_color_ok(t.as_str()) {
                            return false;
                        }
                    },
                    _ => {},
                }
                i = i + 1;
            }
            true
        },
    }
}

/// The colour table of a configuration: the `colors` section's hex
/// strings, completed from the fallback table for every name it lacks.
pub fn config_colors(tree: &Vec<(String, Value)>) -> (r: Vec<(String, [u8; 3])>)
    requires
        colors_ok_spec(entries_model(tree@)),
    ensures
        keys_model(r@) == colors_spec(entries_model(tree@)),
{
    let mut out: Vec<(String, [u8; 3])> = Vec::new();
    let ghost csm = colors_section(entries_model(tree@));
    proof {
        lemma_entries_model(tree@);
    }
    match get_section(tree, "colors") {
        None => {
            assert(keys_model(out@) =~= section_colors(csm, csm.len() as int));
        },
        Some(cs) => {
            proof {
                lemma_entries_model(cs@);
            }
            let mut i: usize = 0;
            while i < cs.len()
                invariant
                    i <= cs@.len(),
                    csm == entries_model(cs@),
                    csm.len() == cs@.len(),
                    colors_ok_spec(entries_model(tree@)),
                    csm == colors_section(entries_model(tree@)),
                    forall|j: int| 0 <= j < cs@.len() ==> #[trigger] csm[j] == (cs@[j].0@, value_model(cs@[j].1)),
                    keys_model(out@) == section_colors(csm, i as int),
                decreases cs@.len() - i,
            {
                let ghost before = keys_model(out@);
                match &cs[i].1 {
                    Value::Str(t) => {
                        assert(csm[i as int].1 == ValueModel::Str(t@));
                        let c = hex_to_rgb(t.as_str());
                        let key = cs[i].0.clone();
                        color_insert(&mut out, key, c);
                    },
                    _ => {
                        assert(csm[i as int].1 == value_model(cs@[i as int].1));
                    },
                }
                i = i + 1;
            }
        },
    }
    let ghost base = keys_model(out@);
    let mut d: usize = 0;
    while d < NUM_DEFAULT_COLORS
        invariant
            d <= NUM_DEFAULT_COLORS,
            keys_model(out@) == with_defaults(base, d as int),
        decreases NUM_DEFAULT_COLORS - d,
    {
        let (name, c) = default_color_at(d);
        match find_entry(&out, name) {
            Some(_) => {},
            None => {
                let ghost o = out@;
                let ghost m0 = keys_model(out@);
                out.push((name.to_owned(), c));
                assert(keys_model(out@) =~= m0.push((name@, c))) by {
                    assert forall|j: int| 0 <= j < out@.len() implies keys_model(out@)[j] == m0.push(
                        (name@, c),
                    )[j] by {
                        if j < o.len() {
                            assert(out@[j] == o[j]);
                        }
                    }
                }
            },
        }
        d = d + 1;
    }
    out
}

/// The colour bound to `name` in a colour table.
pub fn color_of(colors: &Vec<(String, [u8; 3])>, name: &str) -> (r: Option<[u8; 3]>)
    ensures
        r == lookup(keys_model(colors@), name@),
{
    match find_entry(colors, name) {
        Some(i) => Some(colors[i].1),
        None => None,
    }
}

/// Name of palette entry `i`: the eight ANSI colours, then their bright
/// variants.
pub open spec fn palette_name(i: int) -> Seq<char> {
    if i == 0 {
        "black"@
    } else if i == 1 {
        "red"@
    } else if i == 2 {
        "green"@
    } else if i == 3 {
        "yellow"@
    } else if i == 4 {
        "blue"@
    } else if i == 5 {
        "magenta"@
    } else if i == 6 {
        "cyan"@
    } else if i == 7 {
        "white"@
    } else if i == 8 {
        "bright_black"@
    } else if i == 9 {
        "bright_red"@
    } else if i == 10 {
        "bright_green"@
    } else if i == 11 {
        "bright_yellow"@
    } else if i == 12 {
        "bright_blue"@
    } else if i == 13 {
        "bright_magenta"@
    } else if i == 14 {
        "bright_cyan"@
    } else {
        "bright_white"@
    }
}

/// Palette entry `i` from a colour table, `fallback` where the table lacks
/// its name.
pub open spec fn palette_entry(colors: Seq<(Seq<char>, [u8; 3])>, fallback: [u8; 3], i: int) -> [u8; 3] {
    match lookup(colors, palette_name(i)) {
        Some(c) => c,
        None => fallback,
    }
}

fn palette_name_at(i: usize) -> (r: &'static str)
    requires
        i < 16,
    ensures
        r@ == palette_name(i as int),
{
    if i == 0 {
        "black"
    } else if i == 1 {
        "red"
    } else if i == 2 {
        "green"
    } else if i == 3 {
        "yellow"
    } else if i == 4 {
        "blue"
    } else if i == 5 {
        "magenta"
    } else if i == 6 {
        "cyan"
    } else if i == 7 {
        "white"
    } else if i == 8 {
        "bright_black"
    } else if i == 9 {
        "bright_red"
    } else if i == 10 {
        "bright_green"
    } else if i == 11 {
        "bright_yellow"
    } else if i == 12 {
        "bright_blue"
    } else if i == 13 {
        "bright_magenta"
    } else if i == 14 {
        "bright_cyan"
    } else {
        "bright_white"
    }
}

/// Palette entry `i` from a colour table.
fn palette_color_at(colors: &Vec<(String, [u8; 3])>, i: usize, fallback: [u8; 3]) -> (r: [u8; 3])
    requires
        i < 16,
    ensures
        r == palette_entry(keys_model(colors@), fallback, i as int),
{
    match color_of(colors, palette_name_at(i)) {
        Some(c) => c,
        None => fallback,
    }
}

/// The 16-colour terminal palette from a colour table.
pub fn terminal_palette(colors: &Vec<(String, [u8; 3])>, fallback: [u8; 3]) -> (r: [[u8; 3]; 16])
    ensures
        forall|i: int| 0 <= i < 16 ==> #[trigger] r[i] == palette_entry(keys_model(colors@), fallback, i),
{
    let mut r = [fallback; 16];
    let mut i: usize = 0;
    while i < 16
        invariant
            i <= 16,
            forall|j: int| 0 <= j < i ==> #[trigger] r[j] == palette_entry(keys_model(colors@), fallback, j),
        decreases 16 - i,
    {
        let c = palette_color_at(colors, i, fallback);
        r.set(i, c);
        i = i + 1;
    }
    r
}

// ---------------------------------------------------------------------------
// Laws
// ---------------------------------------------------------------------------

/// No key occurs twice.
pub open spec fn keys_distinct<V>(es: Seq<(Seq<char>, V)>) -> bool {
    forall|i: int, j: int| 0 <= i < j < es.len() ==> es[i].0 != es[j].0
}

pub proof fn lemma_find_key_first<V>(es: Seq<(Seq<char>, V)>, k: Seq<char>, f: int, i: int)
    requires
        0 <= i <= f < es.len(),
        es[f].0 == k,
        forall|j: int| i <= j < f ==> es[j].0 != k,
    ensures
        find_key(es, k, i) == f,
    decreases f - i,
{
    if i < f {
        lemma_find_key_first(es, k, f, i + 1);
    }
}

pub proof fn lemma_find_key_same_keys<V>(
    es1: Seq<(Seq<char>, V)>,
    es2: Seq<(Seq<char>, V)>,
    k: Seq<char>,
    i: int,
)
    requires
        0 <= i,
        es1.len() == es2.len(),
        forall|j: int| 0 <= j < es1.len() ==> #[trigger] es1[j].0 == es2[j].0,
    ensures
        find_key(es1, k, i) == find_key(es2, k, i),
    decreases es1.len() - i,
{
    if i < es1.len() {
        assert(es1[i].0 == es2[i].0);
        lemma_find_key_same_keys(es1, es2, k, i + 1);
    }
}

pub proof fn lemma_find_key_push<V>(es: Seq<(Seq<char>, V)>, e: (Seq<char>, V), k: Seq<char>, i: int)
    requires
        0 <= i,
        e.0 != k,
    ensures
        find_key(es.push(e), k, i) == find_key(es, k, i),
    decreases es.len() + 1 - i,
{
    if i < es.len() {
        assert(es.push(e)[i] == es[i]);
        lemma_find_key_push(es, e, k, i + 1);
    } else if i == es.len() {
        assert(es.push(e)[i] == e);
        assert(find_key(es.push(e), k, i + 1) == -1);
    }
}

/// After binding `k` to `v`, looking up `k` gives `v` and every other key
/// gives what it gave before: a later binding of a key replaces an earlier
/// one.
pub proof fn lemma_assoc_insert<V>(es: Seq<(Seq<char>, V)>, k: Seq<char>, v: V, k2: Seq<char>)
    ensures
        lookup(assoc_insert(es, k, v), k) == Some(v),
        k2 != k ==> lookup(assoc_insert(es, k, v), k2) == lookup(es, k2),
{
    lemma_find_key(es, k, 0);
    lemma_find_key(es, k2, 0);
    let f = find_key(es, k, 0);
    let es2 = assoc_insert(es, k, v);
    if f >= 0 {
        lemma_find_key_same_keys(es, es2, k, 0);
        lemma_find_key_same_keys(es, es2, k2, 0);
    } else {
        lemma_find_key_first(es2, k, es.len() as int, 0);
        if k2 != k {
            lemma_find_key_push(es, (k, v), k2, 0);
        }
    }
}

/// Binding a key keeps the keys distinct.
pub proof fn lemma_assoc_insert_distinct<V>(es: Seq<(Seq<char>, V)>, k: Seq<char>, v: V)
    requires
        keys_distinct(es),
    ensures
        keys_distinct(assoc_insert(es, k, v)),
{
    lemma_find_key(es, k, 0);
}

/// The parser's sections never bind a key twice: a key given again
/// replaces the earlier value.
pub proof fn lemma_parse_block_distinct(s: Seq<char>, p: int, acc: Seq<(Seq<char>, ValueModel)>)
    requires
        keys_distinct(acc),
    ensures
        keys_distinct(parse_block(s, p, acc).0),
    decreases s.len() + 3 - p,
{
    if 0 <= p <= s.len() + 2 {
        let q = skip_wsc(s, p);
        if q >= s.len() || s[q] == '}' {
        } else {
            let k = ident_end(s, q);
            if k == q {
                if advances(s, p, q + 1) {
                    lemma_parse_block_distinct(s, q + 1, acc);
                }
            } else {
                let key = text(s, q, k);
                let r = skip_wsc(s, k);
                if r < s.len() && s[r] == '{' {
                    if advances(s, p, r + 1) {
                        let (inner, e) = parse_block(s, r + 1, Seq::empty());
                        let e2 = skip_wsc(s, e);
                        let e3 = if e2 < s.len() && s[e2] == '}' {
                            e2 + 1
                        } else {
                            e2
                        };
                        let acc2 = assoc_insert(acc, key, ValueModel::Section(inner));
                        lemma_assoc_insert_distinct(acc, key, ValueModel::Section(inner));
                        if advances(s, p, e3) {
                            lemma_parse_block_distinct(s, e3, acc2);
                        }
                    }
                } else if r < s.len() && s[r] == ':' {
                    let (v, e) = parse_value(s, r + 1);
                    let acc2 = assoc_insert(acc, key, v);
                    lemma_assoc_insert_distinct(acc, key, v);
                    if advances(s, p, e) {
                        lemma_parse_block_distinct(s, e, acc2);
                    }
                } else {
                    let e = line_end(s, r);
                    if advances(s, p, e) {
                        lemma_parse_block_distinct(s, e, acc);
                    }
                }
            }
        }
    }
}

/// The top level of a parsed configuration binds each key once.
pub proof fn lemma_parse_keys_distinct(s: Seq<char>)
    ensures
        keys_distinct(parse_spec(s)),
{
    lemma_parse_block_distinct(s, 0, Seq::empty());
}

/// The lower-case hex digit for `d` (below 16).
pub open spec fn hex_char(d: int) -> u8 {
    if d < 10 {
        (0x30 + d) as u8
    } else {
        (0x61 + d - 10) as u8
    }
}

/// The text `#rrggbb` of a colour, in lower-case hex, as bytes.
pub open spec fn hex_text(c: [u8; 3]) -> Seq<u8> {
    seq![
        0x23u8,
        hex_char(c[0] as int / 16),
        hex_char(c[0] as int % 16),
        hex_char(c[1] as int / 16),
        hex_char(c[1] as int % 16),
        hex_char(c[2] as int / 16),
        hex_char(c[2] as int % 16),
    ]
}

pub proof fn lemma_hex_byte(x: u8)
    ensures
        hex_byte(hex_char(x as int / 16), hex_char(x as int % 16)) == x,
        hex_char(x as int / 16) != 0x23,
        !vstd::utf8::is_continuation_byte(hex_char(x as int / 16)),
{
    assert((x / 16) * 16 + x % 16 == x) by (nonlinear_arith);
}

/// Reading back a colour written as `#rrggbb` gives the colour.
pub proof fn lemma_hex_round_trip(c: [u8; 3])
    ensures
        hex_cuts_ok(hex_text(c)),
        rgb_of_hex(hex_text(c)) == [c[0], c[1], c[2]],
{
    lemma_hex_byte(c[0]);
    lemma_hex_byte(c[1]);
    lemma_hex_byte(c[2]);
    let b = hex_text(c);
    assert(hash_run_end(b, 1) == 1);
    assert(hash_run_end(b, 0) == 1);
    assert(hex_body(b) =~= b.subrange(1, 7));
}

/// Binding a key only where it is missing keeps every existing binding.
pub proof fn lemma_insert_if_absent_keeps<V>(es: Seq<(Seq<char>, V)>, k: Seq<char>, v: V, k2: Seq<char>)
    requires
        lookup(es, k2) is Some,
    ensures
        lookup(insert_if_absent(es, k, v), k2) == lookup(es, k2),
        lookup(insert_if_absent(es, k, v), k) is Some,
{
    lemma_find_key(es, k, 0);
    lemma_find_key(es, k2, 0);
    if find_key(es, k, 0) < 0 {
        lemma_find_key_push(es, (k, v), k2, 0);
        lemma_find_key_first(es.push((k, v)), k, es.len() as int, 0);
    }
}

/// `with_defaults` keeps every binding of `acc`.
pub proof fn lemma_with_defaults_keeps(acc: Seq<(Seq<char>, [u8; 3])>, n: int, k: Seq<char>)
    requires
        lookup(acc, k) is Some,
    ensures
        lookup(with_defaults(acc, n), k) == lookup(acc, k),
    decreases n,
{
    if n > 0 {
        lemma_with_defaults_keeps(acc, n - 1, k);
        let d = default_color(n - 1);
        lemma_insert_if_absent_keeps(with_defaults(acc, n - 1), d.0, d.1, k);
    }
}

/// After `with_defaults(acc, n)`, the first `n` fallback names are bound.
pub proof fn lemma_with_defaults_binds(acc: Seq<(Seq<char>, [u8; 3])>, n: int, i: int)
    requires
        0 <= i < n,
    ensures
        lookup(with_defaults(acc, n), default_color(i).0) is Some,
    decreases n,
{
    let prev = with_defaults(acc, n - 1);
    let d = default_color(n - 1);
    lemma_find_key(prev, d.0, 0);
    if i < n - 1 {
        lemma_with_defaults_binds(acc, n - 1, i);
        lemma_insert_if_absent_keeps(prev, d.0, d.1, default_color(i).0);
    } else if find_key(prev, d.0, 0) < 0 {
        lemma_find_key_first(prev.push(d), d.0, prev.len() as int, 0);
    }
}

/// Every name of the fallback table has a colour, whatever the
/// configuration says.
pub proof fn lemma_colors_complete(tree: Seq<(Seq<char>, ValueModel)>, i: int)
    requires
        0 <= i < NUM_DEFAULT_COLORS,
    ensures
        lookup(colors_spec(tree), default_color(i).0) is Some,
{
    let cs = colors_section(tree);
    lemma_with_defaults_binds(section_colors(cs, cs.len() as int), NUM_DEFAULT_COLORS as int, i);
}

/// The binding of `k` in `section_colors` comes from the last string entry
/// for `k` among the first `n` entries.
pub proof fn lemma_section_colors_entry(cs: Seq<(Seq<char>, ValueModel)>, n: int, j: int, t: Seq<char>)
    requires
        keys_distinct(cs),
        0 <= j < n <= cs.len(),
        cs[j].1 == ValueModel::Str(t),
    ensures
        lookup(section_colors(cs, n), cs[j].0) == Some(rgb_of_hex(vstd::utf8::encode_utf8(t))),
    decreases n,
{
    let prev = section_colors(cs, n - 1);
    if j == n - 1 {
        lemma_assoc_insert(prev, cs[j].0, rgb_of_hex(vstd::utf8::encode_utf8(t)), cs[j].0);
    } else {
        lemma_section_colors_entry(cs, n - 1, j, t);
        match cs[n - 1].1 {
            ValueModel::Str(t2) => {
                lemma_assoc_insert(prev, cs[n - 1].0, rgb_of_hex(vstd::utf8::encode_utf8(t2)), cs[j].0);
            },
            _ => {},
        }
    }
}

/// A colour that the `colors` section gives as a string is the colour used,
/// whatever the fallback table says.
pub proof fn lemma_config_color_wins(tree: Seq<(Seq<char>, ValueModel)>, j: int, t: Seq<char>)
    requires
        keys_distinct(colors_section(tree)),
        0 <= j < colors_section(tree).len(),
        colors_section(tree)[j].1 == ValueModel::Str(t),
    ensures
        lookup(colors_spec(tree), colors_section(tree)[j].0) == Some(
            rgb_of_hex(vstd::utf8::encode_utf8(t)),
        ),
{
    let cs = colors_section(tree);
    lemma_section_colors_entry(cs, cs.len() as int, j, t);
    lemma_with_defaults_keeps(section_colors(cs, cs.len() as int), NUM_DEFAULT_COLORS as int, cs[j].0);
}

/// A run of key characters reaches as far as the run goes.
proof fn lemma_ident_run(s: Seq<char>, p: int, n: int)
    requires
        0 <= p <= n <= s.len(),
        forall|i: int| p <= i < n ==> is_ident_char(#[trigger] s[i]),
    ensures
        ident_end(s, p) == ident_end(s, n),
    decreases n - p,
{
    if p < n {
        lemma_ident_run(s, p + 1, n);
    }
}

/// A bare value with no line feed or `}` runs to the end of the input.
proof fn lemma_bare_run(s: Seq<char>, p: int)
    requires
        0 <= p <= s.len(),
        forall|i: int| p <= i < s.len() ==> s[i] != '\n' && s[i] != '}',
    ensures
        bare_end(s, p) == s.len(),
    decreases s.len() - p,
{
    if p < s.len() {
        lemma_bare_run(s, p + 1);
    }
}

/// A key is the longest run of alphanumeric characters, `_` and `-`: the
/// statement `name: #value` alone in the input binds exactly `name` (every
/// character of it, `_` and `-` included) to the text `#value`, which is a
/// string and not a comment.
pub proof fn lemma_key_statement(name: Seq<char>, val: Seq<char>)
    requires
        name.len() > 0,
        forall|i: int|
            0 <= i < name.len() ==> alphanumeric(#[trigger] name[i]) || name[i] == '_' || name[i]
                == '-',
        !spec_is_whitespace(name[0]),
        val.len() > 0,
        val[0] == '#',
        !spec_is_whitespace(val.last()),
        forall|i: int| 0 <= i < val.len() ==> #[trigger] val[i] != '\n' && val[i] != '}',
    ensures
        parse_spec(name + seq![':', ' '] + val) == seq![(name, ValueModel::Str(val))],
{
    let s = name + seq![':', ' '] + val;
    let n = name.len() as int;
    assert(forall|i: int| 0 <= i < n ==> s[i] == name[i]);
    assert(s[n] == ':');
    assert(s[n + 1] == ' ');
    assert(forall|i: int| n + 2 <= i < s.len() ==> s[i] == val[i - n - 2]);
    assert(is_ident_char(s[0]));
    assert(ws_end(s, 0) == 0);
    assert(skip_wsc(s, 0) == 0);
    assert forall|i: int| 0 <= i < n implies is_ident_char(#[trigger] s[i]) by {
        assert(s[i] == name[i]);
    }
    lemma_ident_run(s, 0, n);
    assert(!is_ident_char(s[n]));
    assert(ident_end(s, n) == n);
    assert(text(s, 0, n) =~= name);
    assert(ws_end(s, n) == n);
    assert(skip_wsc(s, n) == n);
    assert(spec_is_whitespace(s[n + 1]));
    assert(s[n + 2] == '#');
    assert(ws_end(s, n + 2) == n + 2);
    assert(ws_end(s, n + 1) == n + 2);
    assert forall|i: int| n + 2 <= i < s.len() implies s[i] != '\n' && s[i] != '}' by {
        assert(s[i] == val[i - n - 2]);
    }
    lemma_bare_run(s, n + 2);
    assert(text(s, n + 2, s.len() as int) =~= val);
    assert(trim_start(val) == val);
    assert(trim_end(val) == val);
    assert(parse_value(s, n + 1) == (ValueModel::Str(val), s.len() as int));
    let acc2 = assoc_insert(Seq::<(Seq<char>, ValueModel)>::empty(), name, ValueModel::Str(val));
    assert(acc2 =~= seq![(name, ValueModel::Str(val))]);
    assert(ws_end(s, s.len() as int) == s.len());
    assert(skip_wsc(s, s.len() as int) == s.len());
    assert(parse_block(s, s.len() as int, acc2) == (acc2, s.len() as int));
    assert(parse_block(s, 0, Seq::empty()) == (acc2, s.len() as int));
}

} // verus!
