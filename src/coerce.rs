//! Type coercion of raw strings from the environment, the command line and
//! INI files into typed leaf values.
//!
//! The trials run in a fixed order and the first that succeeds wins:
//! boolean literal, signed 64-bit integer, unsigned 64-bit integer, 64-bit
//! float, and finally the string itself.

use crate::value::{Tree, ConfigValue};
use vstd::prelude::*;
use vstd::std_specs::iter::IteratorSpec;
use vstd::string::*;

verus! {

/// ASCII lower case of one character; other characters stay as they are.
pub open spec fn ascii_lower(c: char) -> char {
    if 'A' <= c <= 'Z' {
        ((c as u32) + 32) as char
    } else {
        c
    }
}

/// ASCII lower case of a character sequence.
pub open spec fn lower_seq(s: Seq<char>) -> Seq<char> {
    s.map_values(|c: char| ascii_lower(c))
}

/// `s` spells, in any case, one of the words that mean true.
pub open spec fn true_literal(s: Seq<char>) -> bool {
    let l = lower_seq(s);
    l == "true"@ || l == "1"@ || l == "yes"@ || l == "on"@
}

/// `s` spells, in any case, one of the words that mean false.
pub open spec fn false_literal(s: Seq<char>) -> bool {
    let l = lower_seq(s);
    l == "false"@ || l == "0"@ || l == "no"@ || l == "off"@
}

pub open spec fn is_digit(c: char) -> bool {
    '0' <= c <= '9'
}

/// `s` is a non-empty run of decimal digits.
pub open spec fn all_digits(s: Seq<char>) -> bool {
    s.len() > 0 && forall|i: int| 0 <= i < s.len() ==> is_digit(#[trigger] s[i])
}

/// The number that the decimal digits `s` denote.
pub open spec fn digits_value(s: Seq<char>) -> int
    decreases s.len(),
{
    if s.len() == 0 {
        0
    } else {
        digits_value(s.drop_last()) * 10 + (s.last() as int - '0' as int)
    }
}

/// `s` without a leading `+`, if it has one.
pub open spec fn strip_plus(s: Seq<char>) -> Seq<char> {
    if s.len() > 0 && s[0] == '+' {
        s.drop_first()
    } else {
        s
    }
}

/// The value of `s` read as a signed 64-bit decimal integer (an optional
/// sign, then digits), if it is one and fits.
pub open spec fn int_literal(s: Seq<char>) -> Option<int> {
    if s.len() > 0 && s[0] == '-' {
        let body = s.drop_first();
        if all_digits(body) && digits_value(body) <= 0x8000_0000_0000_0000 {
            Some(-digits_value(body))
        } else {
            None
        }
    } else {
        let body = strip_plus(s);
        if all_digits(body) && digits_value(body) <= 0x7fff_ffff_ffff_ffff {
            Some(digits_value(body))
        } else {
            None
        }
    }
}

/// The value of `s` read as an unsigned 64-bit decimal integer (an optional
/// `+`, then digits), if it is one and fits.
pub open spec fn uint_literal(s: Seq<char>) -> Option<int> {
    let body = strip_plus(s);
    if all_digits(body) && digits_value(body) <= 0xffff_ffff_ffff_ffff {
        Some(digits_value(body))
    } else {
        None
    }
}

/// Digits, with at most one point among them and at least one digit.
pub open spec fn decimal_mantissa(s: Seq<char>) -> bool {
    ||| all_digits(s)
    ||| exists|p: int|
        0 <= p < s.len() && #[trigger] s[p] == '.' && (p > 0 || p + 1 < s.len()) && (p == 0
            || all_digits(s.subrange(0, p))) && (p + 1 == s.len() || all_digits(
            s.subrange(p + 1, s.len() as int),
        ))
}

/// An exponent: `e` or `E`, an optional sign, digits.
pub open spec fn decimal_exponent(s: Seq<char>) -> bool {
    &&& s.len() >= 2
    &&& (s[0] == 'e' || s[0] == 'E')
    &&& {
        let rest = s.drop_first();
        if rest[0] == '+' || rest[0] == '-' {
            all_digits(rest.drop_first())
        } else {
            all_digits(rest)
        }
    }
}

/// An unsigned float: a mantissa with an optional exponent, or one of the
/// words `inf`, `infinity`, `nan` in any case.
pub open spec fn unsigned_float(s: Seq<char>) -> bool {
    ||| decimal_mantissa(s)
    ||| exists|e: int|
        0 < e < s.len() && decimal_mantissa(s.subrange(0, e)) && decimal_exponent(
            #[trigger] s.subrange(e, s.len() as int),
        )
    ||| lower_seq(s) == "inf"@
    ||| lower_seq(s) == "infinity"@
    ||| lower_seq(s) == "nan"@
}

/// `s` is text that parses as a 64-bit float: an optional sign, then an
/// unsigned float.
pub open spec fn float_literal(s: Seq<char>) -> bool {
    if s.len() > 0 && (s[0] == '+' || s[0] == '-') {
        unsigned_float(s.drop_first())
    } else {
        unsigned_float(s)
    }
}

/// The leaf that coercion gives for the raw string `s`.
pub open spec fn coerced(s: Seq<char>) -> Tree {
    if true_literal(s) {
        Tree::Bool(true)
    } else if false_literal(s) {
        Tree::Bool(false)
    } else if int_literal(s) is Some {
        Tree::Int(int_literal(s)->0)
    } else if uint_literal(s) is Some {
        Tree::UInt(uint_literal(s)->0)
    } else if float_literal(s) {
        Tree::Float(s)
    } else {
        Tree::Str(s)
    }
}

/// The characters of `s`.
pub fn chars_of(s: &str) -> (r: Vec<char>)
    ensures
        r@ == s@,
{
    broadcast use vstd::string::group_string_axioms, vstd::string::next_postcondition;

    let mut it = s.chars();
    let mut r: Vec<char> = Vec::new();
    loop
        invariant
            r@ + it.remaining() == s@,
            it.obeys_prophetic_iter_laws(),
            it.decrease() is Some,
        decreases it.decrease()->0,
    {
        match it.next() {
            Some(c) => {
                r.push(c);
                assert(r@ + it.remaining() =~= s@);
            },
            None => {
                assert(r@ =~= s@);
                return r;
            },
        }
    }
}

fn lower_char(c: char) -> (r: char)
    ensures
        r == ascii_lower(c),
{
    if 'A' <= c && c <= 'Z' {
        ((c as u8) + 32) as char
    } else {
        c
    }
}

/// Whether `cs`, in ASCII lower case, equals the lower-case word `word`.
pub(crate) fn eq_lower(cs: &Vec<char>, word: &str) -> (r: bool)
    ensures
        r == (lower_seq(cs@) == word@),
{
    let w = chars_of(word);
    if cs.len() != w.len() {
        assert(lower_seq(cs@).len() != word@.len());
        return false;
    }
    let mut i: usize = 0;
    while i < cs.len()
        invariant
            w@ == word@,
            cs.len() == w.len(),
            i <= cs.len(),
            forall|j: int| 0 <= j < i ==> ascii_lower(cs@[j]) == w@[j],
        decreases cs.len() - i,
    {
        if lower_char(cs[i]) != w[i] {
            assert(lower_seq(cs@)[i as int] != word@[i as int]);
            return false;
        }
        i = i + 1;
    }
    assert(lower_seq(cs@) =~= word@);
    true
}

fn is_digit_char(c: char) -> (r: bool)
    ensures
        r == is_digit(c),
{
    '0' <= c && c <= '9'
}

/// Whether `cs[from..to]` is a non-empty run of digits.
fn digits_between(cs: &Vec<char>, from: usize, to: usize) -> (r: bool)
    requires
        from <= to <= cs.len(),
    ensures
        r == all_digits(cs@.subrange(from as int, to as int)),
{
    if from == to {
        return false;
    }
    let mut i = from;
    while i < to
        invariant
            from <= i <= to <= cs.len(),
            forall|j: int| from <= j < i ==> is_digit(cs@[j]),
        decreases to - i,
    {
        if !is_digit_char(cs[i]) {
            assert(!is_digit(cs@.subrange(from as int, to as int)[i - from]));
            return false;
        }
        i = i + 1;
    }
    assert forall|j: int| 0 <= j < to - from implies is_digit(
        #[trigger] cs@.subrange(from as int, to as int)[j],
    ) by {
        assert(cs@.subrange(from as int, to as int)[j] == cs@[from + j]);
    }
    true
}

proof fn lemma_digits_nonneg(s: Seq<char>)
    requires
        forall|i: int| 0 <= i < s.len() ==> is_digit(#[trigger] s[i]),
    ensures
        digits_value(s) >= 0,
    decreases s.len(),
{
    if s.len() > 0 {
        lemma_digits_nonneg(s.drop_last());
    }
}

/// A prefix of a run of digits denotes no more than the whole run.
proof fn lemma_digits_prefix(s: Seq<char>, j: int)
    requires
        0 <= j <= s.len(),
        forall|i: int| 0 <= i < s.len() ==> is_digit(#[trigger] s[i]),
    ensures
        digits_value(s.subrange(0, j)) <= digits_value(s),
    decreases s.len() - j,
{
    if j < s.len() {
        lemma_digits_prefix(s, j + 1);
        let p = s.subrange(0, j + 1);
        assert(p.drop_last() =~= s.subrange(0, j));
        lemma_digits_nonneg(s.subrange(0, j));
        let v = digits_value(s.subrange(0, j));
        assert(v * 10 >= v) by (nonlinear_arith)
            requires
                v >= 0,
        ;
    } else {
        assert(s.subrange(0, j) =~= s);
    }
}

/// The value of the digits `cs[from..to]`, if they are all digits, at least
/// one, and the value fits in 64 bits.
fn digits_u64(cs: &Vec<char>, from: usize, to: usize) -> (r: Option<u64>)
    requires
        from <= to <= cs.len(),
    ensures
        match r {
            Some(v) => all_digits(cs@.subrange(from as int, to as int)) && v == digits_value(
                cs@.subrange(from as int, to as int),
            ),
            None => !all_digits(cs@.subrange(from as int, to as int)) || digits_value(
                cs@.subrange(from as int, to as int),
            ) > u64::MAX,
        },
{
    if !digits_between(cs, from, to) {
        return None;
    }
    let ghost s = cs@.subrange(from as int, to as int);
    let mut acc: u64 = 0;
    let mut i = from;
    while i < to
        invariant
            from <= i <= to <= cs.len(),
            s == cs@.subrange(from as int, to as int),
            all_digits(s),
            acc == digits_value(s.subrange(0, i - from)),
        decreases to - i,
    {
        let ghost k = i - from;
        assert(is_digit(s[k]));
        let d = (cs[i] as u32 - '0' as u32) as u64;
        assert(s.subrange(0, k + 1).drop_last() =~= s.subrange(0, k));
        if acc > (u64::MAX - d) / 10 {
            proof {
                lemma_digits_prefix(s, k + 1);
            }
            return None;
        }
        acc = acc * 10 + d;
        i = i + 1;
    }
    assert(s.subrange(0, to - from) =~= s);
    Some(acc)
}

/// The value of `cs` read as a signed 64-bit integer, if it is one.
fn parse_int(cs: &Vec<char>) -> (r: Option<i64>)
    ensures
        match r {
            Some(v) => int_literal(cs@) == Some(v as int),
            None => int_literal(cs@) is None,
        },
{
    let n = cs.len();
    if n > 0 && cs[0] == '-' {
        assert(cs@.drop_first() =~= cs@.subrange(1, n as int));
        match digits_u64(cs, 1, n) {
            Some(m) => {
                if m <= 0x7fff_ffff_ffff_ffff {
                    Some(-(m as i64))
                } else if m == 0x8000_0000_0000_0000 {
                    Some(i64::MIN)
                } else {
                    None
                }
            },
            None => None,
        }
    } else {
        let start: usize = if n > 0 && cs[0] == '+' {
            1
        } else {
            0
        };
        assert(strip_plus(cs@) =~= cs@.subrange(start as int, n as int));
        match digits_u64(cs, start, n) {
            Some(m) => {
                if m <= 0x7fff_ffff_ffff_ffff {
                    Some(m as i64)
                } else {
                    None
                }
            },
            None => None,
        }
    }
}

/// The value of `cs` read as an unsigned 64-bit integer, if it is one.
fn parse_uint(cs: &Vec<char>) -> (r: Option<u64>)
    ensures
        match r {
            Some(v) => uint_literal(cs@) == Some(v as int),
            None => uint_literal(cs@) is None,
        },
{
    let n = cs.len();
    let start: usize = if n > 0 && cs[0] == '+' {
        1
    } else {
        0
    };
    assert(strip_plus(cs@) =~= cs@.subrange(start as int, n as int));
    digits_u64(cs, start, n)
}

/// The characters `cs[from..to]` as a vector of their own.
fn slice_chars(cs: &Vec<char>, from: usize, to: usize) -> (r: Vec<char>)
    requires
        from <= to <= cs.len(),
    ensures
        r@ == cs@.subrange(from as int, to as int),
{
    let mut r: Vec<char> = Vec::new();
    let mut i = from;
    while i < to
        invariant
            from <= i <= to <= cs.len(),
            r@ == cs@.subrange(from as int, i as int),
        decreases to - i,
    {
        r.push(cs[i]);
        i = i + 1;
        assert(r@ =~= cs@.subrange(from as int, i as int));
    }
    r
}

/// Every character of a mantissa is a digit or a point.
proof fn lemma_mantissa_chars(t: Seq<char>, i: int)
    requires
        decimal_mantissa(t),
        0 <= i < t.len(),
    ensures
        is_digit(t[i]) || t[i] == '.',
{
    if !all_digits(t) {
        let p = choose|p: int|
            0 <= p < t.len() && #[trigger] t[p] == '.' && (p > 0 || p + 1 < t.len()) && (p == 0
                || all_digits(t.subrange(0, p))) && (p + 1 == t.len() || all_digits(
                t.subrange(p + 1, t.len() as int),
            ));
        if i < p {
            assert(t.subrange(0, p)[i] == t[i]);
        } else if i > p {
            assert(t.subrange(p + 1, t.len() as int)[i - p - 1] == t[i]);
        }
    }
}

/// Position of the first `c1` or `c2` in `v`, or `v.len()` where there is none.
fn first_of(v: &Vec<char>, c1: char, c2: char) -> (r: usize)
    ensures
        r <= v.len(),
        r < v.len() ==> v@[r as int] == c1 || v@[r as int] == c2,
        forall|j: int| 0 <= j < r ==> v@[j] != c1 && v@[j] != c2,
{
    let mut p: usize = 0;
    while p < v.len() && v[p] != c1 && v[p] != c2
        invariant
            p <= v.len(),
            forall|j: int| 0 <= j < p ==> v@[j] != c1 && v@[j] != c2,
        decreases v.len() - p,
    {
        p = p + 1;
    }
    p
}

fn is_mantissa(v: &Vec<char>) -> (r: bool)
    ensures
        r == decimal_mantissa(v@),
{
    let n = v.len();
    let p = first_of(v, '.', '.');
    assert(v@.subrange(0, n as int) =~= v@);
    if p == n {
        let r = digits_between(v, 0, n);
        assert(!exists|q: int| 0 <= q < v@.len() && #[trigger] v@[q] == '.');
        return r;
    }
    assert(!is_digit(v@[p as int]));
    let r = (p > 0 || p + 1 < n) && (p == 0 || digits_between(v, 0, p)) && (p + 1 == n
        || digits_between(v, p + 1, n));
    if !r {
        assert(!decimal_mantissa(v@)) by {
            if exists|q: int|
                0 <= q < v@.len() && #[trigger] v@[q] == '.' && (q > 0 || q + 1 < v@.len()) && (
                q == 0 || all_digits(v@.subrange(0, q))) && (q + 1 == v@.len() || all_digits(
                    v@.subrange(q + 1, v@.len() as int),
                )) {
                let q = choose|q: int|
                    0 <= q < v@.len() && #[trigger] v@[q] == '.' && (q > 0 || q + 1 < v@.len())
                        && (q == 0 || all_digits(v@.subrange(0, q))) && (q + 1 == v@.len()
                        || all_digits(v@.subrange(q + 1, v@.len() as int)));
                if q > p {
                    assert(v@.subrange(0, q)[p as int] == '.');
                }
                assert(q == p);
            }
        }
    }
    r
}

fn is_exponent(v: &Vec<char>) -> (r: bool)
    ensures
        r == decimal_exponent(v@),
{
    let n = v.len();
    if n < 2 || (v[0] != 'e' && v[0] != 'E') {
        return false;
    }
    assert(v@.drop_first() =~= v@.subrange(1, n as int));
    assert(v@.drop_first().drop_first() =~= v@.subrange(2, n as int));
    if v[1] == '+' || v[1] == '-' {
        digits_between(v, 2, n)
    } else {
        digits_between(v, 1, n)
    }
}

fn is_unsigned_float(v: &Vec<char>) -> (r: bool)
    ensures
        r == unsigned_float(v@),
{
    let n = v.len();
    let q = first_of(v, 'e', 'E');
    let m = is_mantissa(v);
    let e = if 0 < q && q < n {
        let head = slice_chars(v, 0, q);
        let tail = slice_chars(v, q, n);
        is_mantissa(&head) && is_exponent(&tail)
    } else {
        false
    };
    let w = eq_lower(v, "inf") || eq_lower(v, "infinity") || eq_lower(v, "nan");
    let r = m || e || w;
    if !r {
        assert(!unsigned_float(v@)) by {
            if exists|x: int|
                0 < x < v@.len() && decimal_mantissa(v@.subrange(0, x)) && decimal_exponent(
                    #[trigger] v@.subrange(x, v@.len() as int),
                ) {
                let x = choose|x: int|
                    0 < x < v@.len() && decimal_mantissa(v@.subrange(0, x)) && decimal_exponent(
                        #[trigger] v@.subrange(x, v@.len() as int),
                    );
                assert(v@.subrange(x, v@.len() as int)[0] == v@[x]);
                if x > q {
                    lemma_mantissa_chars(v@.subrange(0, x), q as int);
                    assert(v@.subrange(0, x)[q as int] == v@[q as int]);
                }
                assert(x == q);
            }
        }
    }
    r
}

fn is_float(v: &Vec<char>) -> (r: bool)
    ensures
        r == float_literal(v@),
{
    let n = v.len();
    if n > 0 && (v[0] == '+' || v[0] == '-') {
        let rest = slice_chars(v, 1, n);
        assert(rest@ =~= v@.drop_first());
        is_unsigned_float(&rest)
    } else {
        is_unsigned_float(v)
    }
}

/// Turns a raw string into a typed leaf: a boolean word (in any case), a
/// signed integer, an unsigned integer, a float, or else the string itself,
/// the first of these that applies.
pub fn coerce(s: &str) -> (r: ConfigValue)
    ensures
        r@ == coerced(s@),
{
    let cs = chars_of(s);
    if eq_lower(&cs, "true") || eq_lower(&cs, "1") || eq_lower(&cs, "yes") || eq_lower(&cs, "on") {
        return ConfigValue::Bool(true);
    }
    if eq_lower(&cs, "false") || eq_lower(&cs, "0") || eq_lower(&cs, "no") || eq_lower(
        &cs,
        "off",
    ) {
        return ConfigValue::Bool(false);
    }
    if let Some(i) = parse_int(&cs) {
        return ConfigValue::Int(i);
    }
    if let Some(u) = parse_uint(&cs) {
        return ConfigValue::UInt(u);
    }
    if is_float(&cs) {
        return ConfigValue::Float(String::from_str(s));
    }
    ConfigValue::String(String::from_str(s))
}

/// Coercion reads every spelling, in any case, of `true`, `1`, `yes`, `on`
/// as true and of `false`, `0`, `no`, `off` as false; text that is neither
/// a boolean word nor a number comes back as the same string.
pub proof fn law_coercion_literals(s: Seq<char>)
    ensures
        true_literal(s) ==> coerced(s) == Tree::Bool(true),
        false_literal(s) ==> coerced(s) == Tree::Bool(false),
        !true_literal(s) && !false_literal(s) && int_literal(s) is None && uint_literal(s) is None
            && !float_literal(s) ==> coerced(s) == Tree::Str(s),
{
    if false_literal(s) {
        reveal_strlit("true");
        reveal_strlit("1");
        reveal_strlit("yes");
        reveal_strlit("on");
        reveal_strlit("false");
        reveal_strlit("0");
        reveal_strlit("no");
        reveal_strlit("off");
        let l = lower_seq(s);
        assert(l =~= "false"@ || l =~= "0"@ || l =~= "no"@ || l =~= "off"@);
        assert(!true_literal(s)) by {
            if l == "true"@ || l == "1"@ || l == "yes"@ || l == "on"@ {
                assert(l[0] == "true"@[0] || l[0] == "1"@[0] || l[0] == "yes"@[0] || l[0] == "on"@[0]);
                assert(l.len() == "true"@.len() || l.len() == "1"@.len() || l.len() == "yes"@.len()
                    || l.len() == "on"@.len());
                assert(l[1] == "on"@[1] || l.len() != 2);
            }
        }
    }
}

} // verus!
