//! Line-addressable G-code parser.
//!
//! A program is a text of line-oriented blocks. Comments start with `;` or
//! `%` and run to the end of the line; `(...)` comments are inline and may
//! nest. Each remaining whitespace-separated token is one command letter
//! followed by a decimal number, parsed into an integer `major` part and a
//! fractional `minor` part held exactly in micro-units. A leading `N` token
//! overrides the line's key in the program; otherwise the count of
//! previously accepted lines is used.

use vstd::prelude::*;
use vstd::string::StrSliceExecFns;
use crate::MICRO;

verus! {

broadcast use vstd::std_specs::hash::group_hash_axioms;

/// One G-code word: a command letter with its decimal number split into the
/// integer `major` part and the fractional `minor` part in micro-units
/// (`minor / 1_000_000` of a unit, carrying the sign of the number).
/// `text_value` is reserved for string operands and is never produced today.
#[derive(Debug, Clone, PartialEq)]
pub struct GCode {
    pub command: char,
    pub major: i32,
    pub minor: i64,
    pub text_value: Option<String>,
}

impl GCode {
    /// The fractional part is a proper fraction with the sign of the value.
    pub open spec fn wf(self) -> bool {
        -(MICRO as int) < self.minor < MICRO as int
    }

    /// The token's numeric value in micro-units.
    pub open spec fn value_micro(self) -> int {
        self.major * (MICRO as int) + self.minor
    }
}

pub type GCodeBlock = Vec<GCode>;

pub type GCodeProgram = std::collections::HashMap<i32, GCodeBlock>;

pub open spec fn is_ws(c: char) -> bool {
    c == ' ' || c == '\t' || c == '\n' || c == '\r' || c == '\x0c'
}

pub open spec fn is_digit(c: char) -> bool {
    48 <= (c as u32) <= 57
}

pub open spec fn digit_of(c: char) -> nat
    recommends
        is_digit(c),
{
    ((c as u32) - 48) as nat
}

/// Value of a digit string, most significant digit first.
pub open spec fn digits_val(t: Seq<char>) -> nat
    decreases t.len(),
{
    if t.len() == 0 {
        0
    } else {
        digits_val(t.drop_last()) * 10 + digit_of(t.last())
    }
}

pub open spec fn all_digits(t: Seq<char>) -> bool {
    forall|j: int| 0 <= j < t.len() ==> is_digit(#[trigger] t[j])
}

pub open spec fn pow10(n: nat) -> nat
    decreases n,
{
    if n == 0 {
        1
    } else {
        10 * pow10((n - 1) as nat)
    }
}

/// A digit string's value is below one followed by as many zeros.
pub proof fn lemma_digits_val_bound(t: Seq<char>)
    requires
        all_digits(t),
    ensures
        digits_val(t) < pow10(t.len()),
    decreases t.len(),
{
    if t.len() > 0 {
        assert(all_digits(t.drop_last())) by {
            assert(forall|j: int| 0 <= j < t.len() - 1 ==> t.drop_last()[j] == t[j]);
        }
        lemma_digits_val_bound(t.drop_last());
        assert(digit_of(t.last()) <= 9);
    }
}

/// True when the token's number is negative.
pub open spec fn tok_neg(v: Seq<char>) -> bool {
    v.len() >= 1 && v[0] == '-'
}

/// The number with a leading sign removed.
pub open spec fn tok_body(v: Seq<char>) -> Seq<char> {
    if v.len() >= 1 && (v[0] == '-' || v[0] == '+') {
        v.subrange(1, v.len() as int)
    } else {
        v
    }
}

/// Position of the first `.` at or after `i`, or the length if none.
pub open spec fn first_dot_from(w: Seq<char>, i: int) -> int
    recommends
        0 <= i <= w.len(),
    decreases w.len() - i,
{
    if i >= w.len() {
        w.len() as int
    } else if w[i] == '.' {
        i
    } else {
        first_dot_from(w, i + 1)
    }
}

pub open spec fn int_part(w: Seq<char>) -> Seq<char> {
    w.take(first_dot_from(w, 0))
}

pub open spec fn frac_part(w: Seq<char>) -> Seq<char> {
    if first_dot_from(w, 0) == w.len() {
        Seq::empty()
    } else {
        w.subrange(first_dot_from(w, 0) + 1, w.len() as int)
    }
}

/// The integer part of a token's number: the signed value of the digits
/// before the dot, or 0 when they are missing, malformed, or do not fit in
/// an `i32`.
pub open spec fn major_val(v: Seq<char>) -> int {
    let ip = int_part(tok_body(v));
    if ip.len() >= 1 && all_digits(ip) {
        if tok_neg(v) {
            if digits_val(ip) <= 0x8000_0000 {
                -(digits_val(ip) as int)
            } else {
                0
            }
        } else {
            if digits_val(ip) <= 0x7fff_ffff {
                digits_val(ip) as int
            } else {
                0
            }
        }
    } else {
        0
    }
}

/// A fractional part may be read only from a well-formed decimal: one dot,
/// digits on both sides (either side may be empty, not both).
pub open spec fn minor_valid(w: Seq<char>) -> bool {
    &&& first_dot_from(w, 0) < w.len()
    &&& all_digits(int_part(w))
    &&& all_digits(frac_part(w))
    &&& int_part(w).len() + frac_part(w).len() >= 1
}

/// The value of the fractional digits in micro-units; digits beyond the
/// sixth are truncated.
pub open spec fn frac_micro(f: Seq<char>) -> nat {
    let f6 = if f.len() <= 6 { f } else { f.take(6) };
    digits_val(f6) * pow10((6 - f6.len()) as nat)
}

/// The fractional part of a token's number in signed micro-units, or 0 when
/// the number is not a well-formed decimal.
pub open spec fn minor_val(v: Seq<char>) -> int {
    let w = tok_body(v);
    if minor_valid(w) {
        if tok_neg(v) {
            -(frac_micro(frac_part(w)) as int)
        } else {
            frac_micro(frac_part(w)) as int
        }
    } else {
        0
    }
}

pub proof fn lemma_frac_micro_bound(f: Seq<char>)
    requires
        all_digits(f),
    ensures
        frac_micro(f) < MICRO,
{
    let f6 = if f.len() <= 6 { f } else { f.take(6) };
    assert(all_digits(f6)) by {
        assert(forall|j: int| 0 <= j < f6.len() ==> f6[j] == f[j]);
    }
    lemma_digits_val_bound(f6);
    let k = f6.len();
    assert(pow10(k) * pow10((6 - k) as nat) == pow10(6)) by {
        lemma_pow10_add(k, (6 - k) as nat);
    }
    assert(pow10(6) == 1_000_000) by {
        reveal_with_fuel(pow10, 7);
    }
    assert(digits_val(f6) * pow10((6 - k) as nat) < pow10(k) * pow10((6 - k) as nat))
        by (nonlinear_arith)
        requires digits_val(f6) < pow10(k), pow10((6 - k) as nat) >= 1,
    {
        lemma_pow10_pos((6 - k) as nat);
    }
}

pub proof fn lemma_pow10_pos(n: nat)
    ensures
        pow10(n) >= 1,
    decreases n,
{
    if n > 0 {
        lemma_pow10_pos((n - 1) as nat);
    }
}

pub proof fn lemma_pow10_le(a: nat, b: nat)
    requires
        a <= b,
    ensures
        pow10(a) <= pow10(b),
{
    lemma_pow10_add(a, (b - a) as nat);
    lemma_pow10_pos((b - a) as nat);
    assert(pow10(a) <= pow10(a) * pow10((b - a) as nat)) by (nonlinear_arith)
        requires pow10((b - a) as nat) >= 1, pow10(a) >= 0,
    ;
}

pub proof fn lemma_pow10_add(a: nat, b: nat)
    ensures
        pow10(a) * pow10(b) == pow10(a + b),
    decreases a,
{
    if a == 0 {
        assert(pow10(a) * pow10(b) == pow10(b)) by (nonlinear_arith)
            requires pow10(a) == 1,
        ;
    } else {
        lemma_pow10_add((a - 1) as nat, b);
        assert(pow10(a) * pow10(b) == 10 * (pow10((a - 1) as nat) * pow10(b)))
            by (nonlinear_arith)
            requires pow10(a) == 10 * pow10((a - 1) as nat),
        ;
        assert(10 * (pow10((a - 1) as nat) * pow10(b)) == 10 * pow10((a + b - 1) as nat));
        assert(pow10(a + b) == 10 * pow10((a + b - 1) as nat));
    }
}

/// The `GCode` word read from one token: first character is the command
/// letter, the remainder the decimal number.
pub open spec fn spec_parse_token(t: Seq<char>) -> GCode
    recommends
        t.len() >= 1,
{
    GCode {
        command: t[0],
        major: major_val(t.subrange(1, t.len() as int)) as i32,
        minor: minor_val(t.subrange(1, t.len() as int)) as i64,
        text_value: None,
    }
}

/// Whitespace-separated tokens of `s` from position `i`, with `cur` the
/// partial token read so far.
pub open spec fn tokens_from(s: Seq<char>, i: int, cur: Seq<char>) -> Seq<Seq<char>>
    recommends
        0 <= i <= s.len(),
    decreases s.len() - i,
{
    if i >= s.len() {
        if cur.len() == 0 {
            Seq::empty()
        } else {
            seq![cur]
        }
    } else if is_ws(s[i]) {
        if cur.len() == 0 {
            tokens_from(s, i + 1, cur)
        } else {
            seq![cur] + tokens_from(s, i + 1, Seq::empty())
        }
    } else {
        tokens_from(s, i + 1, cur.push(s[i]))
    }
}

pub open spec fn tokenize(s: Seq<char>) -> Seq<Seq<char>> {
    tokens_from(s, 0, Seq::empty())
}

/// Every token is nonempty.
pub proof fn lemma_tokens_nonempty(s: Seq<char>, i: int, cur: Seq<char>)
    requires
        0 <= i <= s.len(),
    ensures
        forall|j: int| 0 <= j < tokens_from(s, i, cur).len()
            ==> (#[trigger] tokens_from(s, i, cur)[j]).len() >= 1,
    decreases s.len() - i,
{
    if i >= s.len() {
        if cur.len() > 0 {
            assert(tokens_from(s, i, cur) == seq![cur]);
            assert(seq![cur][0] == cur);
        }
    } else if is_ws(s[i]) {
        lemma_tokens_nonempty(s, i + 1, cur);
        lemma_tokens_nonempty(s, i + 1, Seq::empty());
        if cur.len() > 0 {
            let r = seq![cur] + tokens_from(s, i + 1, Seq::empty());
            assert(tokens_from(s, i, cur) == r);
            assert(r[0] == cur);
            assert forall|j: int| 0 <= j < r.len() implies (#[trigger] r[j]).len() >= 1 by {
                if j >= 1 {
                    assert(r[j] == tokens_from(s, i + 1, Seq::empty())[j - 1]);
                }
            }
        } else {
            assert forall|j: int| 0 <= j < tokens_from(s, i, cur).len()
                implies (#[trigger] tokens_from(s, i, cur)[j]).len() >= 1 by {
                assert(tokens_from(s, i, cur)[j] == tokens_from(s, i + 1, cur)[j]);
            }
        }
    } else {
        lemma_tokens_nonempty(s, i + 1, cur.push(s[i]));
        assert forall|j: int| 0 <= j < tokens_from(s, i, cur).len()
            implies (#[trigger] tokens_from(s, i, cur)[j]).len() >= 1 by {
            assert(tokens_from(s, i, cur)[j] == tokens_from(s, i + 1, cur.push(s[i]))[j]);
        }
    }
}

/// The characters of `l` from `i` up to the first line comment (`;` or `%`).
pub open spec fn strip_comment_from(l: Seq<char>, i: int) -> Seq<char>
    recommends
        0 <= i <= l.len(),
    decreases l.len() - i,
{
    if i >= l.len() {
        Seq::empty()
    } else if l[i] == ';' || l[i] == '%' {
        Seq::empty()
    } else {
        seq![l[i]] + strip_comment_from(l, i + 1)
    }
}

/// The characters of `l` from `i` that lie at parenthesis depth 0, given
/// the depth accumulated so far; parentheses themselves are dropped.
pub open spec fn strip_parens_from(l: Seq<char>, i: int, depth: int) -> Seq<char>
    recommends
        0 <= i <= l.len(),
    decreases l.len() - i,
{
    if i >= l.len() {
        Seq::empty()
    } else if l[i] == ')' {
        strip_parens_from(l, i + 1, depth - 1)
    } else if l[i] == '(' {
        strip_parens_from(l, i + 1, depth + 1)
    } else if depth == 0 {
        seq![l[i]] + strip_parens_from(l, i + 1, depth)
    } else {
        strip_parens_from(l, i + 1, depth)
    }
}

/// One line parsed: `None` when nothing but comments and whitespace remain,
/// else the block and its effective line number (a leading `N` token is
/// consumed and overrides the default).
pub open spec fn spec_parse_line(default_ln: i32, l: Seq<char>) -> Option<(i32, Seq<GCode>)> {
    let sc = strip_comment_from(l, 0);
    if sc.len() == 0 {
        None
    } else {
        let s = strip_parens_from(sc, 0, 0);
        let ts = tokenize(s);
        let has_n = ts.len() >= 1 && ts[0].len() >= 1 && ts[0][0] == 'N';
        let ln: i32 = if has_n {
            spec_parse_token(ts[0]).major
        } else {
            default_ln
        };
        let body = if has_n {
            ts.drop_first()
        } else {
            ts
        };
        let block = body.map_values(|t: Seq<char>| spec_parse_token(t));
        if block.len() == 0 {
            None
        } else {
            Some((ln, block))
        }
    }
}

/// What comment stripping keeps is the prefix of the line up to the first
/// line-comment character.
pub proof fn lemma_strip_comment_chars(l: Seq<char>, i: int)
    requires
        0 <= i <= l.len(),
    ensures
        strip_comment_from(l, i).len() <= l.len() - i,
        forall|j: int| 0 <= j < strip_comment_from(l, i).len()
            ==> #[trigger] strip_comment_from(l, i)[j] == l[i + j],
    decreases l.len() - i,
{
    if i < l.len() && !(l[i] == ';' || l[i] == '%') {
        lemma_strip_comment_chars(l, i + 1);
        assert forall|j: int| 0 <= j < strip_comment_from(l, i).len()
            implies #[trigger] strip_comment_from(l, i)[j] == l[i + j] by {
            if j > 0 {
                assert(strip_comment_from(l, i)[j] == strip_comment_from(l, i + 1)[j - 1]);
            }
        }
    }
}

/// Comment stripping reads only the characters before the comment: a line
/// and any extension of it behind a `;` strip to the same text.
pub proof fn lemma_strip_comment_concat(l: Seq<char>, g: Seq<char>, i: int)
    requires
        0 <= i <= l.len(),
    ensures
        strip_comment_from(l + seq![';'] + g, i) == strip_comment_from(l, i),
    decreases l.len() - i,
{
    let c = l + seq![';'] + g;
    if i == l.len() {
        assert(c[i] == ';');
        assert(strip_comment_from(c, i) =~= strip_comment_from(l, i));
    } else {
        assert(c[i] == l[i]);
        lemma_strip_comment_concat(l, g, i + 1);
    }
}

/// Comment safety along the line: appending a `;` comment to any text
/// leaves its parse unchanged.
pub proof fn lemma_comment_suffix(default_ln: i32, l: Seq<char>, g: Seq<char>)
    ensures
        spec_parse_line(default_ln, l + seq![';'] + g) == spec_parse_line(default_ln, l),
{
    lemma_strip_comment_concat(l, g, 0);
}

/// Prepending characters free of line-comment markers prepends them to the
/// stripped text.
pub proof fn lemma_strip_comment_prefix(pre: Seq<char>, t: Seq<char>, i: int)
    requires
        0 <= i <= pre.len(),
        forall|j: int| 0 <= j < pre.len() ==> #[trigger] pre[j] != ';' && pre[j] != '%',
    ensures
        strip_comment_from(pre + t, i) == pre.skip(i) + strip_comment_from(t, 0),
    decreases pre.len() - i,
{
    let c = pre + t;
    if i == pre.len() {
        lemma_strip_comment_shift(pre, t, 0);
        assert(pre.skip(i) =~= Seq::<char>::empty());
        assert(pre.skip(i) + strip_comment_from(t, 0) =~= strip_comment_from(t, 0));
    } else {
        assert(c[i] == pre[i]);
        lemma_strip_comment_prefix(pre, t, i + 1);
        assert(seq![c[i]] + (pre.skip(i + 1) + strip_comment_from(t, 0))
            =~= pre.skip(i) + strip_comment_from(t, 0));
    }
}

/// Comment stripping is position independent across a concatenation.
pub proof fn lemma_strip_comment_shift(pre: Seq<char>, t: Seq<char>, j: int)
    requires
        0 <= j <= t.len(),
    ensures
        strip_comment_from(pre + t, pre.len() + j) == strip_comment_from(t, j),
    decreases t.len() - j,
{
    let c = pre + t;
    if j < t.len() {
        assert(c[pre.len() + j] == t[j]);
        lemma_strip_comment_shift(pre, t, j + 1);
    } else {
        assert(strip_comment_from(c, pre.len() + j) =~= strip_comment_from(t, j));
    }
}

/// Paren stripping is the identity on text without parentheses.
pub proof fn lemma_strip_parens_clean(s: Seq<char>, i: int)
    requires
        0 <= i <= s.len(),
        forall|j: int| 0 <= j < s.len() ==> #[trigger] s[j] != '(' && s[j] != ')',
    ensures
        strip_parens_from(s, i, 0) == s.skip(i),
    decreases s.len() - i,
{
    if i == s.len() {
        assert(strip_parens_from(s, i, 0) =~= s.skip(i));
    } else {
        lemma_strip_parens_clean(s, i + 1);
        assert(seq![s[i]] + s.skip(i + 1) =~= s.skip(i));
    }
}

/// At nonzero depth, characters that are not parentheses are dropped.
pub proof fn lemma_strip_parens_deep(s: Seq<char>, i: int, j: int, depth: int)
    requires
        0 <= i <= j <= s.len(),
        depth != 0,
        forall|k: int| i <= k < j ==> #[trigger] s[k] != '(' && s[k] != ')',
    ensures
        strip_parens_from(s, i, depth) == strip_parens_from(s, j, depth),
    decreases j - i,
{
    if i < j {
        lemma_strip_parens_deep(s, i + 1, j, depth);
    }
}

/// Tokenization does not depend on the absolute position of the text.
pub proof fn lemma_tokens_shift(pre: Seq<char>, t: Seq<char>, j: int, cur: Seq<char>)
    requires
        0 <= j <= t.len(),
    ensures
        tokens_from(pre + t, pre.len() + j, cur) == tokens_from(t, j, cur),
    decreases t.len() - j,
{
    let c = pre + t;
    if j < t.len() {
        assert(c[pre.len() + j] == t[j]);
        lemma_tokens_shift(pre, t, j + 1, cur);
        lemma_tokens_shift(pre, t, j + 1, Seq::empty());
        lemma_tokens_shift(pre, t, j + 1, cur.push(t[j]));
    }
}

/// Comment safety at the head of the line: a parenthesized comment and a
/// space in front of any paren-free text leave its parse unchanged.
pub proof fn lemma_leading_comment(default_ln: i32, c: Seq<char>, t: Seq<char>)
    requires
        forall|j: int| 0 <= j < c.len()
            ==> #[trigger] c[j] != '(' && c[j] != ')' && c[j] != ';' && c[j] != '%',
        forall|j: int| 0 <= j < t.len() ==> #[trigger] t[j] != '(' && t[j] != ')',
    ensures
        spec_parse_line(default_ln, seq!['('] + c + seq![')', ' '] + t)
            == spec_parse_line(default_ln, t),
{
    let pre = seq!['('] + c + seq![')', ' '];
    let full = pre + t;
    assert(seq!['('] + c + seq![')', ' '] + t == full);
    // comment stripping keeps the prefix and strips t as before
    assert forall|j: int| 0 <= j < pre.len()
        implies #[trigger] pre[j] != ';' && pre[j] != '%' by {
        if j == 0 {
            assert(pre[0] == '(');
        } else if j < 1 + c.len() {
            assert(pre[j] == c[j - 1]);
        } else if j == 1 + c.len() {
            assert(pre[j] == ')');
        } else {
            assert(pre[j] == ' ');
        }
    }
    lemma_strip_comment_prefix(pre, t, 0);
    assert(pre.skip(0) =~= pre);
    let sct = strip_comment_from(t, 0);
    let scf = strip_comment_from(full, 0);
    assert(scf == pre + sct);
    assert(scf.len() != 0);
    lemma_strip_comment_chars(t, 0);
    // paren stripping drops the comment and keeps the space and the text
    assert(scf[0] == '(');
    assert(strip_parens_from(scf, 0, 0) == strip_parens_from(scf, 1, 1));
    assert forall|k: int| 1 <= k < 1 + c.len()
        implies #[trigger] scf[k] != '(' && scf[k] != ')' by {
        assert(scf[k] == pre[k]);
        assert(pre[k] == c[k - 1]);
    }
    lemma_strip_parens_deep(scf, 1, 1 + c.len() as int, 1);
    assert(scf[1 + c.len() as int] == pre[1 + c.len() as int]);
    assert(pre[1 + c.len() as int] == ')');
    assert(strip_parens_from(scf, 1 + c.len() as int, 1) == strip_parens_from(scf, 2 + c.len() as int, 0));
    assert(scf[2 + c.len() as int] == pre[2 + c.len() as int]);
    assert(pre[2 + c.len() as int] == ' ');
    assert(strip_parens_from(scf, 2 + c.len() as int, 0)
        == seq![' '] + strip_parens_from(scf, 3 + c.len() as int, 0));
    assert(3 + c.len() as int == pre.len());
    assert forall|k: int| pre.len() <= k < scf.len()
        implies #[trigger] scf[k] != '(' && scf[k] != ')' by {
        assert(scf[k] == sct[k - pre.len()]);
        assert(sct[k - pre.len()] == t[k - pre.len()]);
    }
    assert(scf.skip(pre.len() as int) =~= sct);
    lemma_strip_parens_suffix_clean(scf, pre.len() as int, sct);
    let s_full = strip_parens_from(scf, 0, 0);
    assert(s_full == seq![' '] + sct);
    // the stripped text of t has no parens either, so it passes unchanged
    assert forall|j: int| 0 <= j < sct.len()
        implies #[trigger] sct[j] != '(' && sct[j] != ')' by {
        assert(sct[j] == t[j]);
    }
    if sct.len() == 0 {
        // t is all comment: the leading comment line tokenizes to nothing
        assert(spec_parse_line(default_ln, t) is None);
        assert(s_full =~= seq![' ']);
        assert(tokenize(s_full) =~= Seq::<Seq<char>>::empty()) by {
            assert(is_ws(s_full[0]));
            assert(tokens_from(s_full, 0, Seq::empty())
                == tokens_from(s_full, 1, Seq::empty()));
            assert(tokens_from(s_full, 1, Seq::empty()) =~= Seq::<Seq<char>>::empty());
        }
        assert(spec_parse_line(default_ln, full) is None);
    } else {
        lemma_strip_parens_clean(sct, 0);
        assert(sct.skip(0) =~= sct);
        // tokenizing " " + text skips the leading space
        assert(is_ws(s_full[0]));
        assert(tokenize(s_full) == tokens_from(s_full, 1, Seq::<char>::empty()));
        assert(s_full == seq![' '] + sct);
        lemma_tokens_shift(seq![' '], sct, 0, Seq::empty());
        assert(tokens_from(s_full, 1, Seq::<char>::empty())
            == tokens_from(sct, 0, Seq::<char>::empty()));
        assert(tokenize(s_full) == tokenize(sct));
    }
}

/// The suffix of a concatenation without parentheses passes paren
/// stripping unchanged.
pub proof fn lemma_strip_parens_suffix_clean(s: Seq<char>, i: int, suffix: Seq<char>)
    requires
        0 <= i <= s.len(),
        s.skip(i) == suffix,
        forall|k: int| i <= k < s.len() ==> #[trigger] s[k] != '(' && s[k] != ')',
    ensures
        strip_parens_from(s, i, 0) == suffix,
    decreases s.len() - i,
{
    if i == s.len() {
        assert(strip_parens_from(s, i, 0) =~= suffix);
    } else {
        assert(s.skip(i + 1) =~= s.skip(i).drop_first());
        lemma_strip_parens_suffix_clean(s, i + 1, s.skip(i + 1));
        assert(seq![s[i]] + s.skip(i + 1) =~= s.skip(i));
    }
}

/// Structural round trip: a line that still holds a token after comment
/// stripping parses to exactly the words of its tokens, in order, behind
/// the key a leading `N` token sets.
pub proof fn lemma_parse_line_structure(default_ln: i32, l: Seq<char>)
    requires
        strip_comment_from(l, 0).len() != 0,
    ensures
        ({
            let s = strip_parens_from(strip_comment_from(l, 0), 0, 0);
            let ts = tokenize(s);
            let has_n = ts.len() >= 1 && ts[0].len() >= 1 && ts[0][0] == 'N';
            let body = if has_n { ts.drop_first() } else { ts };
            body.len() >= 1 ==> match spec_parse_line(default_ln, l) {
                Some((k, b)) => b.len() == body.len() && forall|j: int|
                    0 <= j < body.len() ==> b[j] == spec_parse_token(body[j]),
                None => false,
            }
        }),
{
    let s = strip_parens_from(strip_comment_from(l, 0), 0, 0);
    let ts = tokenize(s);
    let has_n = ts.len() >= 1 && ts[0].len() >= 1 && ts[0][0] == 'N';
    let body = if has_n { ts.drop_first() } else { ts };
    if body.len() >= 1 {
        let block = body.map_values(|t: Seq<char>| spec_parse_token(t));
        assert(block.len() == body.len());
        assert(forall|j: int| 0 <= j < body.len()
            ==> block[j] == spec_parse_token(body[j]));
    }
}

/// Line numbering: a line starting with `N k` is keyed by `k`; any other
/// accepted line is keyed by the default counter handed in.
pub proof fn lemma_line_numbering(default_ln: i32, l: Seq<char>)
    ensures
        ({
            let sc = strip_comment_from(l, 0);
            let ts = tokenize(strip_parens_from(sc, 0, 0));
            match spec_parse_line(default_ln, l) {
                Some((k, _)) => k == if ts.len() >= 1 && ts[0].len() >= 1 && ts[0][0] == 'N' {
                    spec_parse_token(ts[0]).major
                } else {
                    default_ln
                },
                None => true,
            }
        }),
{
}

/// Trailing carriage return removed, as the line splitter does.
pub open spec fn strip_cr(l: Seq<char>) -> Seq<char> {
    if l.len() >= 1 && l.last() == '\r' {
        l.drop_last()
    } else {
        l
    }
}

/// The lines of `s` from position `i`, with `cur` the partial line read so
/// far: split at `\n`, a trailing `\r` removed from each line, no empty
/// final line after a trailing newline.
pub open spec fn lines_from(s: Seq<char>, i: int, cur: Seq<char>) -> Seq<Seq<char>>
    recommends
        0 <= i <= s.len(),
    decreases s.len() - i,
{
    if i >= s.len() {
        if cur.len() == 0 {
            Seq::empty()
        } else {
            seq![strip_cr(cur)]
        }
    } else if s[i] == '\n' {
        seq![strip_cr(cur)] + lines_from(s, i + 1, Seq::empty())
    } else {
        lines_from(s, i + 1, cur.push(s[i]))
    }
}

/// The program accumulated from the given lines: each accepted line is
/// keyed by its effective line number (later occurrences overwrite), and
/// the default counter advances once per accepted line.
pub open spec fn parse_lines(ls: Seq<Seq<char>>, counter: i32, acc: Map<i32, Seq<GCode>>)
    -> Map<i32, Seq<GCode>>
    decreases ls.len(),
{
    if ls.len() == 0 {
        acc
    } else {
        match spec_parse_line(counter, ls[0]) {
            None => parse_lines(ls.drop_first(), counter, acc),
            Some((k, b)) => parse_lines(
                ls.drop_first(), (counter + 1) as i32, acc.insert(k, b)),
        }
    }
}

/// The program read from a whole text.
pub open spec fn spec_parse(s: Seq<char>) -> Map<i32, Seq<GCode>> {
    parse_lines(lines_from(s, 0, Seq::empty()), 0, Map::empty())
}

/// The view of a parsed program: each block as the sequence of its words.
pub open spec fn program_view(m: Map<i32, Vec<GCode>>) -> Map<i32, Seq<GCode>> {
    Map::new(|k: i32| m.dom().contains(k), |k: i32| m[k]@)
}

/// The characters of `s`, one by one.
fn chars_of(s: &str) -> (v: Vec<char>)
    ensures
        v@ == s@,
{
    let n = s.unicode_len();
    let mut v: Vec<char> = Vec::new();
    let mut i: usize = 0;
    while i < n
        invariant
            i <= n,
            n == s@.len(),
            v@ == s@.take(i as int),
        decreases n - i,
    {
        let c = s.get_char(i);
        v.push(c);
        proof {
            assert(v@ =~= s@.take(i + 1));
        }
        i += 1;
    }
    proof {
        assert(v@ =~= s@);
    }
    v
}

/// One token turned into a `GCode` word.
#[verifier::rlimit(60)]
fn parse_token_exec(t: &Vec<char>) -> (g: GCode)
    requires
        t@.len() >= 1,
    ensures
        g == spec_parse_token(t@),
        g.wf(),
{
    let ghost v = t@.subrange(1, t@.len() as int);
    let command = t[0];
    // sign
    let neg = t.len() >= 2 && t[1] == '-';
    let skip: usize = if t.len() >= 2 && (t[1] == '-' || t[1] == '+') { 2 } else { 1 };
    proof {
        assert(tok_neg(v) == neg);
        assert(tok_body(v) =~= t@.subrange(skip as int, t@.len() as int));
    }
    let ghost w = tok_body(v);
    // find the first dot
    let mut dot: usize = skip;
    while dot < t.len() && t[dot] != '.'
        invariant
            skip <= dot <= t@.len(),
            w == t@.subrange(skip as int, t@.len() as int),
            first_dot_from(w, 0) == first_dot_from(w, dot - skip),
        decreases t@.len() - dot,
    {
        proof {
            assert(w[dot - skip] == t@[dot as int]);
        }
        dot += 1;
    }
    proof {
        if dot < t@.len() {
            assert(w[dot - skip] == t@[dot as int]);
        }
        assert(first_dot_from(w, 0) == dot - skip);
    }
    let ghost ip = int_part(w);
    let ghost fp = frac_part(w);
    proof {
        assert(ip =~= t@.subrange(skip as int, dot as int));
        if dot < t@.len() {
            assert(fp =~= t@.subrange(dot + 1, t@.len() as int));
        }
    }
    // integer part digits, with saturation above i32 range
    let cap: u64 = 0x1_0000_0000;
    let mut acc: u64 = 0;
    let mut ip_digits = true;
    let mut j: usize = skip;
    while j < dot
        invariant
            skip <= j <= dot <= t@.len(),
            ip =~= t@.subrange(skip as int, dot as int),
            ip_digits == all_digits(ip.take(j - skip)),
            acc <= cap,
            cap == 0x1_0000_0000,
            ip_digits ==> (digits_val(ip.take(j - skip)) <= cap && acc == digits_val(
                ip.take(j - skip)) || digits_val(ip.take(j - skip)) > cap && acc == cap),
        decreases dot - j,
    {
        let c = t[j];
        let cu = c as u32;
        let is_d = cu >= 48 && cu <= 57;
        proof {
            assert(ip.take(j + 1 - skip).drop_last() =~= ip.take(j - skip));
            assert(ip.take(j + 1 - skip).last() == t@[j as int]);
            assert(all_digits(ip.take(j - skip)) && is_digit(t@[j as int])
                ==> all_digits(ip.take(j + 1 - skip))) by {
                assert(forall|k: int| 0 <= k < j - skip
                    ==> ip.take(j + 1 - skip)[k] == #[trigger] ip.take(j - skip)[k]);
            }
            assert(all_digits(ip.take(j + 1 - skip)) ==> all_digits(ip.take(j - skip))) by {
                assert(forall|k: int| 0 <= k < j - skip
                    ==> ip.take(j - skip)[k] == #[trigger] ip.take(j + 1 - skip)[k]);
            }
            assert(!is_digit(t@[j as int]) ==> !all_digits(ip.take(j + 1 - skip))) by {
                assert(ip.take(j + 1 - skip)[j - skip] == t@[j as int]);
            }
        }
        if is_d {
            let d = (cu - 48) as u64;
            if acc >= cap {
                acc = cap;
            } else {
                let next = acc * 10 + d;
                acc = if next > cap { cap } else { next };
            }
        } else {
            ip_digits = false;
        }
        j += 1;
    }
    proof {
        assert(ip.take(dot - skip) =~= ip);
    }
    let major: i32 = if j > skip && ip_digits {
        if neg {
            if acc <= 0x8000_0000 {
                proof {
                    assert(digits_val(ip) == acc);
                }
                (-(acc as i64)) as i32
            } else {
                0
            }
        } else {
            if acc <= 0x7fff_ffff {
                acc as i32
            } else {
                0
            }
        }
    } else {
        0
    };
    proof {
        assert(major == major_val(v));
    }
    // fractional part: digits after the dot, first six in micro-units
    let mut minor: i64 = 0;
    if dot < t.len() {
        let mut fp_digits = true;
        let mut m: u64 = 0;
        let mut count: usize = 0;
        let mut k: usize = dot + 1;
        while k < t.len()
            invariant
                dot + 1 <= k <= t@.len(),
                fp =~= t@.subrange(dot + 1, t@.len() as int),
                fp_digits == all_digits(fp.take(k - dot - 1)),
                count <= 6,
                fp_digits ==> count == if k - dot - 1 <= 6 { (k - dot - 1) as int } else { 6int },
                fp_digits ==> m == digits_val(fp.take(count as int)),
                fp_digits ==> m < 1_000_000,
            decreases t@.len() - k,
        {
            let c = t[k];
            let cu = c as u32;
            let is_d = cu >= 48 && cu <= 57;
            proof {
                assert(fp.take(k - dot).drop_last() =~= fp.take(k - dot - 1));
                assert(fp.take(k - dot).last() == t@[k as int]);
                assert(all_digits(fp.take(k - dot - 1)) && is_digit(t@[k as int])
                    ==> all_digits(fp.take(k - dot))) by {
                    assert(forall|q: int| 0 <= q < k - dot - 1
                        ==> fp.take(k - dot)[q] == #[trigger] fp.take(k - dot - 1)[q]);
                }
                assert(all_digits(fp.take(k - dot)) ==> all_digits(fp.take(k - dot - 1))) by {
                    assert(forall|q: int| 0 <= q < k - dot - 1
                        ==> fp.take(k - dot - 1)[q] == #[trigger] fp.take(k - dot)[q]);
                }
                assert(!is_digit(t@[k as int]) ==> !all_digits(fp.take(k - dot))) by {
                    assert(fp.take(k - dot)[k - dot - 1] == t@[k as int]);
                }
            }
            if is_d {
                if fp_digits && count < 6 {
                    proof {
                        assert(all_digits(fp.take(k - dot)));
                        assert(fp.take(count + 1).drop_last() =~= fp.take(count as int));
                        assert(fp.take(count + 1).last() == fp[count as int]);
                        assert(fp[count as int] == t@[k as int]);
                        assert(all_digits(fp.take(count + 1))) by {
                            assert(forall|q: int| 0 <= q < count + 1
                                ==> fp.take(count + 1)[q] == #[trigger] fp.take(k - dot)[q]);
                        }
                        lemma_digits_val_bound(fp.take(count + 1));
                        lemma_pow10_le((count + 1) as nat, 6);
                        assert(pow10(6) == 1_000_000) by {
                            reveal_with_fuel(pow10, 7);
                        }
                    }
                    m = m * 10 + (cu - 48) as u64;
                    count += 1;
                }
            } else {
                fp_digits = false;
            }
            k += 1;
        }
        proof {
            assert(fp.take(fp.len() as int) =~= fp);
        }
        // a well-formed decimal needs digits on both sides and at least one
        if ip_digits && fp_digits && (dot > skip || t.len() > dot + 1) {
            proof {
                lemma_frac_micro_bound(fp);
                let f6 = if fp.len() <= 6 { fp } else { fp.take(6) };
                assert(f6 =~= fp.take(count as int));
                lemma_pow10_pos((6 - count) as nat);
                assert(m * pow10((6 - count) as nat) == frac_micro(fp));
            }
            // scale to six fractional digits
            while count < 6
                invariant
                    count <= 6,
                    m * pow10((6 - count) as nat) == frac_micro(fp),
                    frac_micro(fp) < MICRO,
                decreases 6 - count,
            {
                proof {
                    let p = pow10((6 - count) as nat);
                    lemma_pow10_pos((6 - count - 1) as nat);
                    assert(p == 10 * pow10((6 - count - 1) as nat));
                    assert((m * 10) * pow10((6 - count - 1) as nat) == m * p)
                        by (nonlinear_arith)
                        requires p == 10 * pow10((6 - count - 1) as nat),
                    ;
                    assert(m <= m * p) by (nonlinear_arith)
                        requires p >= 1, m >= 0,
                    ;
                }
                m = m * 10;
                count += 1;
            }
            proof {
                assert(pow10(0) == 1);
                assert(m * 1 == m) by (nonlinear_arith);
            }
            minor = if neg { -(m as i64) } else { m as i64 };
        }
    }
    proof {
        assert(minor == minor_val(v));
    }
    GCode { command, major, minor, text_value: None }
}

/// The sequences behind a sequence of character vectors.
pub open spec fn views(ts: Seq<Vec<char>>) -> Seq<Seq<char>> {
    ts.map_values(|t: Vec<char>| t@)
}

/// `parse_line` on a line already split into characters.
fn parse_line_chars(linenumber: i32, l: &Vec<char>) -> (r: Option<(i32, GCodeBlock)>)
    ensures
        ({
            let s = spec_parse_line(linenumber, l@);
            match r {
                None => s is None,
                Some((n, b)) => s == Some((n, b@)) && forall|j: int|
                    0 <= j < b@.len() ==> (#[trigger] b@[j]).wf(),
            }
        }),
{
    let ghost lv = l@;
    // strip the line comment
    let mut sc: Vec<char> = Vec::new();
    let mut i: usize = 0;
    while i < l.len() && l[i] != ';' && l[i] != '%'
        invariant
            i <= lv.len(),
            lv == l@,
            strip_comment_from(lv, 0) == sc@ + strip_comment_from(lv, i as int),
        decreases lv.len() - i,
    {
        let c = l[i];
        proof {
            assert((sc@ + seq![lv[i as int]]) + strip_comment_from(lv, i + 1)
                =~= sc@ + (seq![lv[i as int]] + strip_comment_from(lv, i + 1)));
        }
        sc.push(c);
        i += 1;
    }
    proof {
        assert(strip_comment_from(lv, 0) =~= sc@) by {
            assert(strip_comment_from(lv, i as int) =~= Seq::<char>::empty());
            assert(sc@ + Seq::<char>::empty() =~= sc@);
        }
    }
    if sc.len() == 0 {
        return None;
    }
    // strip nesting parenthesized comments
    let ghost scv = sc@;
    let mut cleaned: Vec<char> = Vec::new();
    let mut depth: i128 = 0;
    let mut i: usize = 0;
    while i < sc.len()
        invariant
            i <= scv.len(),
            scv == sc@,
            -(i as int) <= depth <= i as int,
            strip_parens_from(scv, 0, 0)
                == cleaned@ + strip_parens_from(scv, i as int, depth as int),
        decreases scv.len() - i,
    {
        let c = sc[i];
        if c == ')' {
            depth = depth - 1;
        } else if c == '(' {
            depth = depth + 1;
        } else if depth == 0 {
            proof {
                assert((cleaned@ + seq![scv[i as int]]) + strip_parens_from(scv, i + 1, 0)
                    =~= cleaned@ + (seq![scv[i as int]] + strip_parens_from(scv, i + 1, 0)));
            }
            cleaned.push(c);
        }
        i += 1;
    }
    proof {
        assert(strip_parens_from(scv, 0, 0) =~= cleaned@) by {
            assert(strip_parens_from(scv, scv.len() as int, depth as int)
                =~= Seq::<char>::empty());
            assert(cleaned@ + Seq::<char>::empty() =~= cleaned@);
        }
    }
    // split into tokens
    let ghost cv = cleaned@;
    let mut toks: Vec<Vec<char>> = Vec::new();
    let mut cur: Vec<char> = Vec::new();
    let mut i: usize = 0;
    while i < cleaned.len()
        invariant
            i <= cv.len(),
            cv == cleaned@,
            tokenize(cv) == views(toks@) + tokens_from(cv, i as int, cur@),
        decreases cv.len() - i,
    {
        let c = cleaned[i];
        let ws = c == ' ' || c == '\t' || c == '\n' || c == '\r' || c == '\x0c';
        if ws {
            if cur.len() > 0 {
                proof {
                    assert(views(toks@.push(cur)) =~= views(toks@).push(cur@));
                    assert((views(toks@) + seq![cur@]) + tokens_from(cv, i + 1, Seq::empty())
                        =~= views(toks@) + (seq![cur@] + tokens_from(cv, i + 1, Seq::empty())));
                    assert(views(toks@).push(cur@) =~= views(toks@) + seq![cur@]);
                }
                toks.push(cur);
                cur = Vec::new();
            }
        } else {
            cur.push(c);
        }
        i += 1;
    }
    if cur.len() > 0 {
        proof {
            assert(views(toks@.push(cur)) =~= views(toks@).push(cur@));
            assert(views(toks@).push(cur@) =~= views(toks@) + seq![cur@]);
        }
        toks.push(cur);
    }
    proof {
        assert(tokenize(cv) =~= views(toks@)) by {
            assert(views(toks@) + Seq::<Seq<char>>::empty() =~= views(toks@));
        }
        lemma_tokens_nonempty(cv, 0, Seq::empty());
    }
    // read the words; a leading N token overrides the line number
    let ghost ts = tokenize(cv);
    let ghost has_n = ts.len() >= 1 && ts[0].len() >= 1 && ts[0][0] == 'N';
    let ghost body = if has_n { ts.drop_first() } else { ts };
    let mut block: Vec<GCode> = Vec::new();
    let mut validated_linenumber = linenumber;
    let mut j: usize = 0;
    while j < toks.len()
        invariant
            j <= toks@.len(),
            ts == views(toks@),
            forall|q: int| 0 <= q < ts.len() ==> (#[trigger] ts[q]).len() >= 1,
            has_n == (ts.len() >= 1 && ts[0].len() >= 1 && ts[0][0] == 'N'),
            body == if has_n { ts.drop_first() } else { ts },
            validated_linenumber == if has_n && j >= 1 {
                spec_parse_token(ts[0]).major
            } else {
                linenumber
            },
            block@ == if has_n {
                if j >= 1 {
                    ts.subrange(1, j as int).map_values(|t: Seq<char>| spec_parse_token(t))
                } else {
                    Seq::<GCode>::empty()
                }
            } else {
                ts.subrange(0, j as int).map_values(|t: Seq<char>| spec_parse_token(t))
            },
            forall|q: int| 0 <= q < block@.len() ==> (#[trigger] block@[q]).wf(),
        decreases toks@.len() - j,
    {
        proof {
            assert(ts[j as int] == toks@[j as int]@);
        }
        let g = parse_token_exec(&toks[j]);
        if j == 0 && g.command == 'N' {
            proof {
                assert(has_n);
            }
            validated_linenumber = g.major;
        } else {
            let ghost lo: int = if has_n { 1 } else { 0 };
            proof {
                assert(ts.subrange(lo, j + 1).drop_last() =~= ts.subrange(lo, j as int));
                assert(ts.subrange(lo, j + 1).last() == ts[j as int]);
                assert(ts.subrange(lo, j + 1).map_values(|t: Seq<char>| spec_parse_token(t))
                    =~= ts.subrange(lo, j as int).map_values(|t: Seq<char>| spec_parse_token(t))
                        .push(spec_parse_token(ts[j as int])));
            }
            block.push(g);
        }
        j += 1;
    }
    proof {
        if has_n {
            assert(ts.subrange(1, ts.len() as int) =~= ts.drop_first());
        } else {
            assert(ts.subrange(0, ts.len() as int) =~= ts);
        }
        if toks@.len() == 0 {
            assert(body.map_values(|t: Seq<char>| spec_parse_token(t)) =~= Seq::<GCode>::empty());
        }
    }
    if block.len() == 0 {
        None
    } else {
        Some((validated_linenumber, block))
    }
}

/// One line of G-code parsed into its effective line number and its block:
/// `None` when nothing but comments and whitespace remain, or no token does.
pub fn parse_line(linenumber: i32, line: &str) -> (r: Option<(i32, GCodeBlock)>)
    ensures
        ({
            let s = spec_parse_line(linenumber, line@);
            match r {
                None => s is None,
                Some((n, b)) => s == Some((n, b@)) && forall|j: int|
                    0 <= j < b@.len() ==> (#[trigger] b@[j]).wf(),
            }
        }),
{
    let chars = chars_of(line);
    parse_line_chars(linenumber, &chars)
}

/// A whole text parsed into a program: a map from line number to block.
pub fn parse(contents: &str) -> (p: GCodeProgram)
    requires
        contents@.len() < 0x7fff_0000,
    ensures
        program_view(p@) == spec_parse(contents@),
        forall|k: i32| #[trigger] p@.contains_key(k) ==> p@[k]@.len() >= 1,
        forall|k: i32, j: int| p@.contains_key(k) && 0 <= j < p@[k]@.len()
            ==> (#[trigger] p@[k]@[j]).wf(),
{
    let chars = chars_of(contents);
    let ghost s = chars@;
    let mut program: GCodeProgram = std::collections::HashMap::new();
    let mut linenumber: i32 = 0;
    let mut cur: Vec<char> = Vec::new();
    let mut i: usize = 0;
    proof {
        assert(program_view(program@) =~= Map::<i32, Seq<GCode>>::empty());
    }
    while i < chars.len()
        invariant
            i <= s.len(),
            s == chars@,
            s.len() < 0x7fff_0000,
            cur@.len() <= i,
            0 <= linenumber <= i,
            spec_parse(s) == parse_lines(
                lines_from(s, i as int, cur@), linenumber, program_view(program@)),
            forall|k: i32| #[trigger] program@.contains_key(k) ==> program@[k]@.len() >= 1,
            forall|k: i32, j: int| program@.contains_key(k) && 0 <= j < program@[k]@.len()
                ==> (#[trigger] program@[k]@[j]).wf(),
        decreases s.len() - i,
    {
        let c = chars[i];
        if c == '\n' {
            let ghost cur0 = cur@;
            if cur.len() > 0 && cur[cur.len() - 1] == '\r' {
                cur.pop();
            }
            proof {
                assert(cur@ == strip_cr(cur0));
                assert(lines_from(s, i as int, cur0)
                    == seq![strip_cr(cur0)] + lines_from(s, i + 1, Seq::empty()));
                assert((seq![strip_cr(cur0)] + lines_from(s, i + 1, Seq::empty()))[0]
                    == strip_cr(cur0));
                assert((seq![strip_cr(cur0)] + lines_from(s, i + 1, Seq::empty())).drop_first()
                    =~= lines_from(s, i + 1, Seq::empty()));
            }
            match parse_line_chars(linenumber, &cur) {
                Some((ln, b)) => {
                    proof {
                        assert(program_view(program@.insert(ln, b))
                            =~= program_view(program@).insert(ln, b@));
                    }
                    program.insert(ln, b);
                    linenumber += 1;
                }
                None => {}
            }
            cur = Vec::new();
        } else {
            cur.push(c);
        }
        i += 1;
    }
    if cur.len() > 0 {
        let ghost cur0 = cur@;
        let ghost pv = program_view(program@);
        let ghost n0 = linenumber;
        if cur[cur.len() - 1] == '\r' {
            cur.pop();
        }
        proof {
            assert(cur@ == strip_cr(cur0));
            assert(lines_from(s, i as int, cur0) == seq![strip_cr(cur0)]);
            assert(seq![strip_cr(cur0)][0] == strip_cr(cur0));
            assert(seq![strip_cr(cur0)].drop_first() =~= Seq::<Seq<char>>::empty());
        }
        match parse_line_chars(linenumber, &cur) {
            Some((ln, b)) => {
                proof {
                    let lsq = seq![strip_cr(cur0)];
                    assert(parse_lines(lsq, n0, pv)
                        == parse_lines(lsq.drop_first(), (n0 + 1) as i32, pv.insert(ln, b@)));
                    assert(parse_lines(Seq::<Seq<char>>::empty(), (n0 + 1) as i32,
                        pv.insert(ln, b@)) == pv.insert(ln, b@));
                    assert(program_view(program@.insert(ln, b))
                        =~= pv.insert(ln, b@));
                }
                program.insert(ln, b);
            }
            None => {
                proof {
                    let lsq = seq![strip_cr(cur0)];
                    assert(parse_lines(lsq, n0, pv) == parse_lines(lsq.drop_first(), n0, pv));
                    assert(parse_lines(Seq::<Seq<char>>::empty(), n0, pv) == pv);
                }
            }
        }
    }
    program
}

} // verus!
