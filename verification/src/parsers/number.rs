//! Recognizers for the numeric literals that the benchmark formats carry.
//!
//! The library decides *whether* a token is a number exactly as `str::parse`
//! does; turning an accepted token into its double is left to the caller.
use vstd::prelude::*;
use crate::text::{ascii_lower, is_ascii_digit, is_ascii_digit_exec, to_ascii_lower, eq_lit};

verus! {

pub open spec fn all_digits(s: Seq<char>) -> bool {
    forall|i: int| 0 <= i < s.len() ==> is_ascii_digit(#[trigger] s[i])
}

/// Index of the first occurrence of `c` in `s`.
pub open spec fn first_index(s: Seq<char>, c: char) -> Option<int>
    decreases s.len(),
{
    if s.len() == 0 {
        None
    } else if s[0] == c {
        Some(0)
    } else {
        match first_index(s.drop_first(), c) {
            Some(i) => Some(i + 1),
            None => None,
        }
    }
}

/// `s` without one leading sign character.
pub open spec fn unsigned_part(s: Seq<char>) -> Seq<char> {
    if s.len() > 0 && (s[0] == '+' || s[0] == '-') {
        s.drop_first()
    } else {
        s
    }
}

/// `Digit+ | Digit+ '.' Digit* | Digit* '.' Digit+`
pub open spec fn mantissa_ok(m: Seq<char>) -> bool {
    match first_index(m, '.') {
        None => m.len() > 0 && all_digits(m),
        Some(d) => all_digits(m.take(d)) && all_digits(m.skip(d + 1)) && m.len() >= 2,
    }
}

/// `Sign? Digit+` (what follows the exponent marker).
pub open spec fn exponent_ok(x: Seq<char>) -> bool {
    unsigned_part(x).len() > 0 && all_digits(unsigned_part(x))
}

/// `Number ::= Mantissa ('e' Sign? Digit+)?` on lowercased text.
pub open spec fn decimal_number(b: Seq<char>) -> bool {
    match first_index(b, 'e') {
        None => mantissa_ok(b),
        Some(e) => mantissa_ok(b.take(e)) && exponent_ok(b.skip(e + 1)),
    }
}

/// The grammar that `<f64 as FromStr>::from_str` accepts (its documentation:
/// `Sign? ('inf' | 'infinity' | 'nan' | Number)`, compared after ASCII
/// lowercasing; no surrounding whitespace).
pub open spec fn float_literal(s: Seq<char>) -> bool {
    let body = unsigned_part(ascii_lower(s));
    body == "inf"@ || body == "infinity"@ || body == "nan"@ || decimal_number(body)
}

/// Value of a string of decimal digits.
pub open spec fn digits_value(s: Seq<char>) -> nat
    decreases s.len(),
{
    if s.len() == 0 {
        0
    } else {
        digits_value(s.drop_last()) * 10 + ((s.last() as u32) - ('0' as u32)) as nat
    }
}

/// The grammar and range that `<u64 as FromStr>::from_str` accepts: an
/// optional `+`, then one or more ASCII digits whose value fits in `u64`.
pub open spec fn u64_literal(s: Seq<char>) -> bool {
    let d = if s.len() > 0 && s[0] == '+' {
        s.drop_first()
    } else {
        s
    };
    d.len() > 0 && all_digits(d) && digits_value(d) <= u64::MAX
}

pub proof fn lemma_first_index(s: Seq<char>, c: char)
    ensures
        first_index(s, c) matches Some(i) ==> 0 <= i < s.len() && s[i] == c && forall|j: int|
            0 <= j < i ==> s[j] != c,
        first_index(s, c) is None ==> forall|j: int| 0 <= j < s.len() ==> s[j] != c,
    decreases s.len(),
{
    if s.len() > 0 {
        lemma_first_index(s.drop_first(), c);
        if s[0] != c {
            assert forall|j: int| 1 <= j < s.len() implies s[j] == s.drop_first()[j - 1] by {}
        }
    }
}

proof fn lemma_first_index_at(s: Seq<char>, c: char, i: int)
    requires
        0 <= i <= s.len(),
        forall|j: int| 0 <= j < i ==> s[j] != c,
        i < s.len() ==> s[i] == c,
    ensures
        first_index(s, c) == if i < s.len() {
            Some(i)
        } else {
            None::<int>
        },
    decreases i,
{
    if i > 0 {
        assert forall|j: int| 0 <= j < i - 1 implies s.drop_first()[j] != c by {
            assert(s.drop_first()[j] == s[j + 1]);
        }
        if i < s.len() {
            assert(s.drop_first()[i - 1] == s[i]);
        }
        lemma_first_index_at(s.drop_first(), c, i - 1);
    }
}

/// Position of the first `c` in `s`.
pub fn find_char(s: &Vec<char>, c: char) -> (r: Option<usize>)
    ensures
        r matches Some(i) ==> first_index(s@, c) == Some(i as int),
        r is None ==> first_index(s@, c) is None,
{
    let mut i: usize = 0;
    while i < s.len()
        invariant
            i <= s.len(),
            forall|j: int| 0 <= j < i ==> s@[j] != c,
        decreases s.len() - i,
    {
        if s[i] == c {
            proof {
                lemma_first_index_at(s@, c, i as int);
            }
            return Some(i);
        }
        i = i + 1;
    }
    proof {
        lemma_first_index_at(s@, c, i as int);
    }
    None
}

/// Are all characters of `s[lo..hi]` ASCII digits?
fn digits_between(s: &Vec<char>, lo: usize, hi: usize) -> (r: bool)
    requires
        lo <= hi <= s.len(),
    ensures
        r == all_digits(s@.subrange(lo as int, hi as int)),
{
    let mut i = lo;
    while i < hi
        invariant
            lo <= i <= hi <= s.len(),
            forall|j: int| lo <= j < i ==> is_ascii_digit(s@[j]),
        decreases hi - i,
    {
        if !is_ascii_digit_exec(s[i]) {
            assert(s@.subrange(lo as int, hi as int)[i - lo] == s@[i as int]);
            return false;
        }
        i = i + 1;
    }
    assert forall|j: int| 0 <= j < hi - lo implies is_ascii_digit(
        #[trigger] s@.subrange(lo as int, hi as int)[j],
    ) by {
        assert(s@.subrange(lo as int, hi as int)[j] == s@[lo + j]);
    }
    true
}

fn mantissa_ok_between(s: &Vec<char>, lo: usize, hi: usize) -> (r: bool)
    requires
        lo <= hi <= s.len(),
    ensures
        r == mantissa_ok(s@.subrange(lo as int, hi as int)),
{
    let ghost m = s@.subrange(lo as int, hi as int);
    let mut i = lo;
    while i < hi && s[i] != '.'
        invariant
            lo <= i <= hi <= s.len(),
            forall|j: int| lo <= j < i ==> s@[j] != '.',
        decreases hi - i,
    {
        i = i + 1;
    }
    proof {
        assert forall|j: int| 0 <= j < i - lo implies m[j] != '.' by {
            assert(m[j] == s@[lo + j]);
        }
        if i < hi {
            assert(m[i - lo] == s@[i as int]);
        }
        lemma_first_index_at(m, '.', i - lo);
    }
    if i == hi {
        proof {
            assert(m == s@.subrange(lo as int, hi as int));
        }
        hi > lo && digits_between(s, lo, hi)
    } else {
        proof {
            assert(m.take(i - lo) == s@.subrange(lo as int, i as int));
            assert(m.skip(i - lo + 1) == s@.subrange(i + 1, hi as int));
        }
        digits_between(s, lo, i) && digits_between(s, i + 1, hi) && hi - lo >= 2
    }
}

fn exponent_ok_between(s: &Vec<char>, lo: usize, hi: usize) -> (r: bool)
    requires
        lo <= hi <= s.len(),
    ensures
        r == exponent_ok(s@.subrange(lo as int, hi as int)),
{
    let ghost x = s@.subrange(lo as int, hi as int);
    if lo < hi && (s[lo] == '+' || s[lo] == '-') {
        assert(x[0] == s@[lo as int]);
        assert(x.drop_first() == s@.subrange(lo + 1, hi as int));
        hi > lo + 1 && digits_between(s, lo + 1, hi)
    } else {
        if lo < hi {
            assert(x[0] == s@[lo as int]);
        }
        hi > lo && digits_between(s, lo, hi)
    }
}

/// Does `<f64 as FromStr>::from_str` accept `tok`?
pub fn is_float_literal(tok: &Vec<char>) -> (r: bool)
    ensures
        r == float_literal(tok@),
{
    let low = to_ascii_lower(tok);
    let lo: usize = if low.len() > 0 && (low[0] == '+' || low[0] == '-') {
        1
    } else {
        0
    };
    let ghost body = unsigned_part(ascii_lower(tok@));
    assert(body == low@.subrange(lo as int, low.len() as int));
    let b = crate::text::subvec(&low, lo, low.len());
    if eq_lit(&b, "inf") || eq_lit(&b, "infinity") || eq_lit(&b, "nan") {
        return true;
    }
    match find_char(&b, 'e') {
        None => {
            assert(b@.subrange(0, b.len() as int) == b@);
            mantissa_ok_between(&b, 0, b.len())
        },
        Some(e) => {
            proof {
                lemma_first_index(b@, 'e');
            }
            assert(b@.subrange(0, e as int) == b@.take(e as int));
            assert(b@.subrange(e + 1, b.len() as int) == b@.skip(e + 1));
            mantissa_ok_between(&b, 0, e) && exponent_ok_between(&b, e + 1, b.len())
        },
    }
}

proof fn lemma_digits_value_push(s: Seq<char>, c: char)
    ensures
        digits_value(s.push(c)) == digits_value(s) * 10 + ((c as u32) - ('0' as u32)) as nat,
{
    assert(s.push(c).drop_last() == s);
}

/// Does `<u64 as FromStr>::from_str` accept `tok`?
pub fn is_u64_literal(tok: &Vec<char>) -> (r: bool)
    ensures
        r == u64_literal(tok@),
{
    let start: usize = if tok.len() > 0 && tok[0] == '+' {
        1
    } else {
        0
    };
    let ghost d = if tok@.len() > 0 && tok@[0] == '+' {
        tok@.drop_first()
    } else {
        tok@
    };
    assert(d == tok@.subrange(start as int, tok.len() as int));
    assert(u64_literal(tok@) == (d.len() > 0 && all_digits(d) && digits_value(d) <= u64::MAX));
    if start == tok.len() {
        return false;
    }
    let mut value: u64 = 0;
    let mut i = start;
    while i < tok.len()
        invariant
            start <= i <= tok.len(),
            d == tok@.subrange(start as int, tok.len() as int),
            u64_literal(tok@) == (d.len() > 0 && all_digits(d) && digits_value(d) <= u64::MAX),
            all_digits(tok@.subrange(start as int, i as int)),
            value as nat == digits_value(tok@.subrange(start as int, i as int)),
        decreases tok.len() - i,
    {
        let c = tok[i];
        proof {
            assert(tok@.subrange(start as int, i + 1) == tok@.subrange(start as int, i as int).push(
                c,
            ));
            lemma_digits_value_push(tok@.subrange(start as int, i as int), c);
        }
        if !is_ascii_digit_exec(c) {
            assert(d[i - start] == c);
            assert(!is_ascii_digit(d[i - start]));
            assert(!all_digits(d));
            return false;
        }
        let digit = (c as u32 - '0' as u32) as u64;
        if value > (u64::MAX - digit) / 10 {
            // Either this prefix already overflows, or a later one will.
            assert(!u64_literal(tok@)) by {
                if all_digits(d) {
                    lemma_digits_value_monotone(d, i - start + 1);
                    assert(d.take(i - start + 1) == tok@.subrange(start as int, i + 1));
                    assert(digits_value(tok@.subrange(start as int, i + 1)) == value * 10 + digit);
                    assert(value * 10 + digit > u64::MAX) by (nonlinear_arith)
                        requires
                            value > (u64::MAX - digit) / 10,
                            digit < 10;
                }
            }
            return false;
        }
        value = value * 10 + digit;
        i = i + 1;
    }
    true
}

proof fn lemma_digits_value_monotone(s: Seq<char>, k: int)
    requires
        0 <= k <= s.len(),
        all_digits(s),
    ensures
        digits_value(s.take(k)) <= digits_value(s),
    decreases s.len() - k,
{
    if k < s.len() {
        assert(s.drop_last().take(k) == s.take(k));
        assert(all_digits(s.drop_last()));
        lemma_digits_value_monotone(s.drop_last(), k);
    } else {
        assert(s.take(k) == s);
    }
}

} // verus!
