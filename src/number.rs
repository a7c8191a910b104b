//! Recognition of numeric field text: decimal floating-point literals as
//! `f64::from_str` accepts them, and unsigned column indices.
use vstd::prelude::*;

verus! {

pub open spec fn is_digit(c: u8) -> bool {
    48u8 <= c <= 57u8
}

pub open spec fn is_sign(c: u8) -> bool {
    c == 43u8 || c == 45u8
}

/// ASCII upper-case letters mapped to lower case; other bytes unchanged.
pub open spec fn lower(c: u8) -> u8 {
    if 65u8 <= c <= 90u8 {
        (c + 32) as u8
    } else {
        c
    }
}

/// The number of consecutive digits of `s` from position `i` on.
pub open spec fn digit_run(s: Seq<u8>, i: int) -> nat
    decreases s.len() - i,
{
    if 0 <= i < s.len() && is_digit(s[i]) {
        1 + digit_run(s, i + 1)
    } else {
        0
    }
}

/// `s` without one leading `+` or `-`.
pub open spec fn unsigned(s: Seq<u8>) -> Seq<u8> {
    if s.len() > 0 && is_sign(s[0]) {
        s.drop_first()
    } else {
        s
    }
}

/// `e` or `E`, an optional sign, then one or more digits up to the end.
pub open spec fn exponent_text(s: Seq<u8>) -> bool {
    s.len() > 0 && lower(s[0]) == 101u8 && {
        let d = unsigned(s.drop_first());
        d.len() > 0 && digit_run(d, 0) == d.len()
    }
}

/// `Digit+ | Digit+ '.' Digit* | Digit* '.' Digit+`, then an optional exponent,
/// read greedily from the left.
pub open spec fn decimal_text(s: Seq<u8>) -> bool {
    let a = digit_run(s, 0) as int;
    if a < s.len() && s[a] == 46u8 {
        let m = a + 1 + digit_run(s, a + 1);
        m >= 2 && (m == s.len() || exponent_text(s.skip(m)))
    } else {
        a >= 1 && (a == s.len() || exponent_text(s.skip(a)))
    }
}

/// `inf`, `infinity` or `nan`, in any mix of cases.
pub open spec fn special_text(s: Seq<u8>) -> bool {
    let l = s.map_values(|c: u8| lower(c));
    l == seq![105u8, 110u8, 102u8] || l == seq![105u8, 110u8, 102u8, 105u8, 110u8, 105u8, 116u8, 121u8]
        || l == seq![110u8, 97u8, 110u8]
}

/// The texts that denote a floating-point number: an optional sign, then a
/// decimal literal or one of the special values.
pub open spec fn float_text(s: Seq<u8>) -> bool {
    decimal_text(unsigned(s)) || special_text(unsigned(s))
}

fn digit(c: u8) -> (r: bool)
    ensures
        r == is_digit(c),
{
    48u8 <= c && c <= 57u8
}

fn lower_byte(c: u8) -> (r: u8)
    ensures
        r == lower(c),
{
    if 65u8 <= c && c <= 90u8 {
        c + 32
    } else {
        c
    }
}

/// The first position at or after `i` that does not hold a digit.
fn skip_digits(s: &[u8], i: usize) -> (r: usize)
    requires
        i <= s@.len(),
    ensures
        r == i + digit_run(s@, i as int),
        r <= s@.len(),
{
    let mut j: usize = i;
    while j < s.len() && digit(s[j])
        invariant
            i <= j <= s@.len(),
            digit_run(s@, i as int) == (j - i) + digit_run(s@, j as int),
        decreases s.len() - j,
    {
        j = j + 1;
    }
    j
}

/// Whether `s` from position `i` on is an exponent.
fn exponent_from(s: &[u8], i: usize) -> (r: bool)
    requires
        i < s@.len(),
    ensures
        r == exponent_text(s@.skip(i as int)),
{
    let ghost t = s@.skip(i as int);
    if lower_byte(s[i]) != 101u8 {
        return false;
    }
    let mut j: usize = i + 1;
    assert(t.drop_first() =~= s@.skip(j as int));
    if j < s.len() && (s[j] == 43u8 || s[j] == 45u8) {
        assert(s@.skip(j as int).drop_first() =~= s@.skip(j + 1));
        j = j + 1;
    }
    let ghost d = unsigned(t.drop_first());
    assert(d =~= s@.skip(j as int));
    let k = skip_digits(s, j);
    proof {
        lemma_run_skip(s@, j as int, 0);
    }
    j < s.len() && k == s.len()
}

proof fn lemma_run_skip(s: Seq<u8>, j: int, k: int)
    requires
        0 <= j <= s.len(),
        0 <= k,
    ensures
        digit_run(s.skip(j), k) == digit_run(s, j + k),
    decreases s.len() - j - k,
{
    if j + k < s.len() && is_digit(s[j + k]) {
        lemma_run_skip(s, j, k + 1);
    }
}

/// The value of a string of decimal digits.
pub open spec fn digits_value(s: Seq<u8>) -> nat
    decreases s.len(),
{
    if s.len() == 0 {
        0
    } else {
        digits_value(s.drop_last()) * 10 + (s.last() - 48) as nat
    }
}

/// `s` without one leading `+`.
pub open spec fn without_plus(s: Seq<u8>) -> Seq<u8> {
    if s.len() > 0 && s[0] == 43u8 {
        s.drop_first()
    } else {
        s
    }
}

/// The index that `s` denotes: an optional `+`, then one or more digits whose
/// value fits in `usize`.
pub open spec fn index_value(s: Seq<u8>) -> Option<nat> {
    let d = without_plus(s);
    if d.len() > 0 && digit_run(d, 0) == d.len() && digits_value(d) <= usize::MAX {
        Some(digits_value(d))
    } else {
        None
    }
}

proof fn lemma_run_all(s: Seq<u8>, i: int)
    requires
        0 <= i <= s.len(),
    ensures
        digit_run(s, i) == s.len() - i <==> forall|k: int| i <= k < s.len() ==> is_digit(s[k]),
    decreases s.len() - i,
{
    if i < s.len() {
        lemma_run_all(s, i + 1);
    }
}

proof fn lemma_value_prefix(s: Seq<u8>, k: int)
    requires
        0 <= k <= s.len(),
    ensures
        digits_value(s.take(k)) <= digits_value(s),
    decreases s.len() - k,
{
    if k < s.len() {
        lemma_value_prefix(s, k + 1);
        assert(s.take(k + 1).drop_last() =~= s.take(k));
    } else {
        assert(s.take(k) =~= s);
    }
}

/// The column index that `s` denotes, as `usize::from_str` reads it.
pub fn parse_index(s: &[u8]) -> (r: Option<usize>)
    ensures
        r matches Some(v) ==> index_value(s@) == Some(v as nat),
        r is None ==> index_value(s@) is None,
{
    let start: usize = if s.len() > 0 && s[0] == 43u8 {
        1
    } else {
        0
    };
    let ghost d = s@.skip(start as int);
    assert(d =~= without_plus(s@));
    proof {
        lemma_run_all(d, 0);
    }
    if start == s.len() {
        return None;
    }
    let mut v: usize = 0;
    let mut i: usize = start;
    assert(d.take(0) =~= seq![]);
    while i < s.len()
        invariant
            start <= i <= s@.len(),
            d == s@.skip(start as int),
            d == without_plus(s@),
            v as nat == digits_value(d.take(i - start)),
            forall|k: int| 0 <= k < i - start ==> is_digit(d[k]),
        decreases s.len() - i,
    {
        let c = s[i];
        if !digit(c) {
            assert(d[i - start] == c);
            proof {
                lemma_run_all(d, 0);
            }
            return None;
        }
        assert(d.take(i + 1 - start).drop_last() =~= d.take(i - start));
        assert(d[i - start] == c);
        assert(digits_value(d.take(i + 1 - start)) == v * 10 + (c - 48) as nat);
        let step = v.checked_mul(10);
        match step {
            None => {
                proof {
                    lemma_value_prefix(d, i + 1 - start);
                }
                return None;
            },
            Some(t) => {
                let next = t.checked_add((c - 48u8) as usize);
                match next {
                    None => {
                        proof {
                            lemma_value_prefix(d, i + 1 - start);
                        }
                        return None;
                    },
                    Some(n) => {
                        v = n;
                    },
                }
            },
        }
        i = i + 1;
    }
    assert(d.take(i - start) =~= d);
    proof {
        lemma_run_all(d, 0);
    }
    Some(v)
}

/// Whether `s` is the text of a floating-point number.
pub fn is_float_text(s: &[u8]) -> (r: bool)
    ensures
        r == float_text(s@),
{
    let start: usize = if s.len() > 0 && (s[0] == 43u8 || s[0] == 45u8) {
        1
    } else {
        0
    };
    let ghost b = unsigned(s@);
    assert(b =~= s@.skip(start as int));
    proof {
        lemma_run_skip(s@, start as int, 0);
    }
    is_decimal_from(s, start) || is_special_from(s, start)
}

fn is_decimal_from(s: &[u8], start: usize) -> (r: bool)
    requires
        start <= s@.len(),
    ensures
        r == decimal_text(s@.skip(start as int)),
{
    let ghost b = s@.skip(start as int);
    let a = skip_digits(s, start);
    proof {
        lemma_run_skip(s@, start as int, 0);
    }
    if a < s.len() && s[a] == 46u8 {
        assert(b[a - start] == s@[a as int]);
        let m = skip_digits(s, a + 1);
        proof {
            lemma_run_skip(s@, start as int, a + 1 - start);
        }
        if m - start < 2 {
            return false;
        }
        if m == s.len() {
            return true;
        }
        assert(b.skip(m - start) =~= s@.skip(m as int));
        exponent_from(s, m)
    } else {
        if a == start {
            return false;
        }
        if a == s.len() {
            return true;
        }
        assert(b.skip(a - start) =~= s@.skip(a as int));
        exponent_from(s, a)
    }
}

fn is_special_from(s: &[u8], start: usize) -> (r: bool)
    requires
        start <= s@.len(),
    ensures
        r == special_text(s@.skip(start as int)),
{
    let ghost b = s@.skip(start as int);
    let ghost l = b.map_values(|c: u8| lower(c));
    let n = s.len() - start;
    if n != 3 && n != 8 {
        assert(l.len() == n);
        return false;
    }
    let mut w: Vec<u8> = Vec::new();
    let mut i: usize = start;
    while i < s.len()
        invariant
            start <= i <= s@.len(),
            b == s@.skip(start as int),
            l == b.map_values(|c: u8| lower(c)),
            w@ == l.take(i - start),
        decreases s.len() - i,
    {
        w.push(lower_byte(s[i]));
        i = i + 1;
        assert(w@ =~= l.take(i - start));
    }
    assert(w@ =~= l);
    if n == 3 {
        let inf = (w[0] == 105u8 && w[1] == 110u8 && w[2] == 102u8);
        let nan = (w[0] == 110u8 && w[1] == 97u8 && w[2] == 110u8);
        proof {
            if inf {
                assert(l =~= seq![105u8, 110u8, 102u8]);
            }
            if nan {
                assert(l =~= seq![110u8, 97u8, 110u8]);
            }
        }
        inf || nan
    } else {
        let r = w[0] == 105u8 && w[1] == 110u8 && w[2] == 102u8 && w[3] == 105u8 && w[4] == 110u8
            && w[5] == 105u8 && w[6] == 116u8 && w[7] == 121u8;
        proof {
            if r {
                assert(l =~= seq![105u8, 110u8, 102u8, 105u8, 110u8, 105u8, 116u8, 121u8]);
            }
        }
        r
    }
}

} // verus!
