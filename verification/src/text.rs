//! Character-sequence primitives shared by the parsers: trimming, ASCII case
//! folding, prefix / suffix / substring tests, splitting and decimal rendering.
//!
//! Every function works on `Vec<char>` and is specified over `Seq<char>`, the
//! view that vstd gives to `str` and `String`.
use vstd::prelude::*;

verus! {

/// `char::is_ascii_whitespace`: space, tab, line feed, form feed, carriage return.
pub open spec fn is_ascii_ws(c: char) -> bool {
    c == ' ' || c == '\t' || c == '\n' || c == '\x0C' || c == '\r'
}

/// `char::is_whitespace`: the Unicode `White_Space` property.
pub open spec fn is_unicode_ws(c: char) -> bool {
    ||| ('\t' <= c && c <= '\r')
    ||| c == ' '
    ||| c == '\u{85}'
    ||| c == '\u{A0}'
    ||| c == '\u{1680}'
    ||| ('\u{2000}' <= c && c <= '\u{200A}')
    ||| c == '\u{2028}'
    ||| c == '\u{2029}'
    ||| c == '\u{202F}'
    ||| c == '\u{205F}'
    ||| c == '\u{3000}'
}

pub open spec fn is_ascii_upper(c: char) -> bool {
    'A' <= c && c <= 'Z'
}

pub open spec fn is_ascii_digit(c: char) -> bool {
    '0' <= c && c <= '9'
}

pub open spec fn is_ascii_alnum(c: char) -> bool {
    is_ascii_digit(c) || is_ascii_upper(c) || ('a' <= c && c <= 'z')
}

/// `char::to_ascii_lowercase`.
pub open spec fn lower_char(c: char) -> char {
    if is_ascii_upper(c) {
        ((c as u32) + 32) as char
    } else {
        c
    }
}

/// `str::to_ascii_lowercase`.
pub open spec fn ascii_lower(s: Seq<char>) -> Seq<char> {
    Seq::new(s.len(), |i: int| lower_char(s[i]))
}

/// `str::trim_start`.
pub open spec fn trim_start(s: Seq<char>) -> Seq<char>
    decreases s.len(),
{
    if s.len() > 0 && is_unicode_ws(s[0]) {
        trim_start(s.drop_first())
    } else {
        s
    }
}

/// `str::trim_end`.
pub open spec fn trim_end(s: Seq<char>) -> Seq<char>
    decreases s.len(),
{
    if s.len() > 0 && is_unicode_ws(s.last()) {
        trim_end(s.drop_last())
    } else {
        s
    }
}

/// `str::trim`.
pub open spec fn trim(s: Seq<char>) -> Seq<char> {
    trim_end(trim_start(s))
}

pub open spec fn starts_with(s: Seq<char>, p: Seq<char>) -> bool {
    p.len() <= s.len() && s.take(p.len() as int) == p
}

pub open spec fn ends_with(s: Seq<char>, p: Seq<char>) -> bool {
    p.len() <= s.len() && s.skip(s.len() - p.len()) == p
}

pub open spec fn occurs_at(s: Seq<char>, p: Seq<char>, i: int) -> bool {
    0 <= i && i + p.len() <= s.len() && s.subrange(i, i + p.len()) == p
}

/// `str::contains` with a string needle.
pub open spec fn contains(s: Seq<char>, p: Seq<char>) -> bool {
    exists|i: int| occurs_at(s, p, i)
}

/// Pieces of `s` between occurrences of `sep` (`str::split` with a char):
/// `n` separators give `n + 1` pieces.
pub open spec fn split_on(s: Seq<char>, sep: char) -> Seq<Seq<char>>
    decreases s.len(),
{
    if s.len() == 0 {
        seq![Seq::<char>::empty()]
    } else {
        let rest = split_on(s.drop_first(), sep);
        if s[0] == sep {
            seq![Seq::<char>::empty()] + rest
        } else {
            rest.update(0, seq![s[0]] + rest[0])
        }
    }
}

/// Maximal runs of non-ASCII-whitespace (`str::split_ascii_whitespace`).
pub open spec fn words(s: Seq<char>) -> Seq<Seq<char>>
    decreases s.len(),
{
    if s.len() == 0 {
        Seq::<Seq<char>>::empty()
    } else {
        let rest = words(s.drop_first());
        if is_ascii_ws(s[0]) {
            rest
        } else if s.len() > 1 && !is_ascii_ws(s[1]) {
            rest.update(0, seq![s[0]] + rest[0])
        } else {
            seq![seq![s[0]]] + rest
        }
    }
}

pub open spec fn digit_char(d: nat) -> char {
    (('0' as u32) + d) as char
}

/// Decimal rendering of a natural number (`Display` for unsigned integers).
pub open spec fn decimal(n: nat) -> Seq<char>
    decreases n,
{
    if n < 10 {
        seq![digit_char(n)]
    } else {
        decimal(n / 10).push(digit_char(n % 10))
    }
}

/// `s` left-padded with `'0'` up to `width` characters (`{:0width$}`).
pub open spec fn zero_pad(s: Seq<char>, width: nat) -> Seq<char> {
    if s.len() >= width {
        s
    } else {
        Seq::new((width - s.len()) as nat, |i: int| '0') + s
    }
}

/// A word with no surrounding whitespace and no ASCII capital letter is
/// unchanged by trimming and ASCII lowercasing.
pub proof fn lemma_plain_word(s: Seq<char>)
    requires
        s.len() > 0,
        !is_unicode_ws(s[0]),
        !is_unicode_ws(s.last()),
        forall|i: int| 0 <= i < s.len() ==> !is_ascii_upper(#[trigger] s[i]),
    ensures
        ascii_lower(trim(s)) == s,
{
    assert(trim_start(s) == s);
    assert(trim_end(s) == s);
    assert(ascii_lower(s) =~= s);
}

/// Number of occurrences of `c` in `s`.
pub open spec fn count_char(s: Seq<char>, c: char) -> nat
    decreases s.len(),
{
    if s.len() == 0 {
        0
    } else {
        count_char(s.drop_first(), c) + if s[0] == c {
            1nat
        } else {
            0nat
        }
    }
}

/// `n` separators give `n + 1` pieces.
pub proof fn lemma_split_on_len(s: Seq<char>, sep: char)
    ensures
        split_on(s, sep).len() == count_char(s, sep) + 1,
    decreases s.len(),
{
    if s.len() > 0 {
        lemma_split_on_len(s.drop_first(), sep);
    }
}

pub proof fn lemma_split_on_nonempty(s: Seq<char>, sep: char)
    ensures
        split_on(s, sep).len() >= 1,
    decreases s.len(),
{
    if s.len() > 0 {
        lemma_split_on_nonempty(s.drop_first(), sep);
    }
}

pub proof fn lemma_split_pieces_sep_free(s: Seq<char>, sep: char)
    ensures
        forall|k: int, j: int|
            0 <= k < split_on(s, sep).len() && 0 <= j < split_on(s, sep)[k].len()
                ==> split_on(s, sep)[k][j] != sep,
    decreases s.len(),
{
    if s.len() > 0 {
        lemma_split_pieces_sep_free(s.drop_first(), sep);
        lemma_split_on_nonempty(s.drop_first(), sep);
        let rest = split_on(s.drop_first(), sep);
        if s[0] != sep {
            assert forall|k: int, j: int|
                0 <= k < split_on(s, sep).len() && 0 <= j < split_on(s, sep)[k].len()
                    implies split_on(s, sep)[k][j] != sep by {
                if k == 0 && j > 0 {
                    assert(split_on(s, sep)[0][j] == rest[0][j - 1]);
                }
            }
        } else {
            assert forall|k: int, j: int|
                0 <= k < split_on(s, sep).len() && 0 <= j < split_on(s, sep)[k].len()
                    implies split_on(s, sep)[k][j] != sep by {
                if k > 0 {
                    assert(split_on(s, sep)[k] == rest[k - 1]);
                }
            }
        }
    }
}

pub proof fn lemma_words_nonempty(t: Seq<char>)
    requires
        t.len() > 0,
        !is_ascii_ws(t[0]),
    ensures
        words(t).len() >= 1,
    decreases t.len(),
{
    if t.len() > 1 && !is_ascii_ws(t[1]) {
        assert(t.drop_first()[0] == t[1]);
        lemma_words_nonempty(t.drop_first());
    }
}

pub fn chars_of(s: &str) -> (v: Vec<char>)
    ensures
        v@ == s@,
{
    broadcast use vstd::string::axiom_spec_iter;

    let mut v: Vec<char> = Vec::new();
    for c in it: s.chars()
        invariant
            v@ == it.seq().take(it.index() as int),
            it.seq() == s@,
    {
        v.push(c);
    }
    v
}

/// `String::push` appends one character. Taken on trust from std's
/// documentation: the string's characters after the call are those before it
/// followed by `ch`.
pub assume_specification[ String::push ](s: &mut String, ch: char)
    ensures
        final(s)@ == old(s)@.push(ch),
;

pub fn string_of(v: &Vec<char>) -> (s: String)
    ensures
        s@ == v@,
{
    let mut s = String::new();
    for i in 0..v.len()
        invariant
            s@ == v@.take(i as int),
    {
        s.push(v[i]);
        assert(s@ == v@.take(i + 1));
    }
    assert(v@.take(v.len() as int) == v@);
    s
}

pub fn copy_str(s: &str) -> (r: String)
    ensures
        r@ == s@,
{
    s.to_owned()
}

pub fn eq_chars(a: &Vec<char>, b: &Vec<char>) -> (r: bool)
    ensures
        r == (a@ == b@),
{
    if a.len() != b.len() {
        return false;
    }
    for i in 0..a.len()
        invariant
            a.len() == b.len(),
            forall|j: int| 0 <= j < i ==> a@[j] == b@[j],
    {
        if a[i] != b[i] {
            return false;
        }
    }
    assert(a@ == b@);
    true
}

/// Does `a` hold exactly the characters of the literal `lit`?
pub fn eq_lit(a: &Vec<char>, lit: &str) -> (r: bool)
    ensures
        r == (a@ == lit@),
{
    let b = chars_of(lit);
    eq_chars(a, &b)
}

pub fn is_ascii_ws_exec(c: char) -> (r: bool)
    ensures
        r == is_ascii_ws(c),
{
    c == ' ' || c == '\t' || c == '\n' || c == '\x0C' || c == '\r'
}

pub fn is_unicode_ws_exec(c: char) -> (r: bool)
    ensures
        r == is_unicode_ws(c),
{
    ('\t' <= c && c <= '\r') || c == ' ' || c == '\u{85}' || c == '\u{A0}' || c == '\u{1680}'
        || ('\u{2000}' <= c && c <= '\u{200A}') || c == '\u{2028}' || c == '\u{2029}' || c
        == '\u{202F}' || c == '\u{205F}' || c == '\u{3000}'
}

pub fn is_ascii_digit_exec(c: char) -> (r: bool)
    ensures
        r == is_ascii_digit(c),
{
    '0' <= c && c <= '9'
}

pub fn lower_char_exec(c: char) -> (r: char)
    ensures
        r == lower_char(c),
{
    if 'A' <= c && c <= 'Z' {
        let u = c as u8;
        assert(u as u32 == c as u32);
        let l = (u + 32) as char;
        l
    } else {
        c
    }
}

pub fn to_ascii_lower(s: &Vec<char>) -> (r: Vec<char>)
    ensures
        r@ == ascii_lower(s@),
{
    let mut r: Vec<char> = Vec::new();
    for i in 0..s.len()
        invariant
            r@ == ascii_lower(s@).take(i as int),
    {
        r.push(lower_char_exec(s[i]));
        assert(r@ == ascii_lower(s@).take(i + 1));
    }
    assert(ascii_lower(s@).take(s.len() as int) == ascii_lower(s@));
    r
}

pub fn subvec(s: &Vec<char>, lo: usize, hi: usize) -> (r: Vec<char>)
    requires
        lo <= hi <= s.len(),
    ensures
        r@ == s@.subrange(lo as int, hi as int),
{
    let mut r: Vec<char> = Vec::new();
    let mut i = lo;
    while i < hi
        invariant
            lo <= i <= hi <= s.len(),
            r@ == s@.subrange(lo as int, i as int),
        decreases hi - i,
    {
        r.push(s[i]);
        i = i + 1;
        assert(r@ == s@.subrange(lo as int, i as int));
    }
    r
}

pub fn copy_chars(s: &Vec<char>) -> (r: Vec<char>)
    ensures
        r@ == s@,
{
    let r = subvec(s, 0, s.len());
    assert(s@.subrange(0, s.len() as int) == s@);
    r
}

proof fn lemma_trim_start_skip(s: Seq<char>, i: int)
    requires
        0 <= i <= s.len(),
        forall|j: int| 0 <= j < i ==> is_unicode_ws(s[j]),
    ensures
        trim_start(s) == trim_start(s.skip(i)),
    decreases i,
{
    if i > 0 {
        assert(is_unicode_ws(s[0]));
        assert(s.drop_first().skip(i - 1) == s.skip(i));
        assert(forall|j: int| 0 <= j < i - 1 ==> s.drop_first()[j] == s[j + 1]);
        lemma_trim_start_skip(s.drop_first(), i - 1);
        assert(trim_start(s) == trim_start(s.drop_first()));
    } else {
        assert(s.skip(0) == s);
    }
}

proof fn lemma_trim_end_take(s: Seq<char>, k: int)
    requires
        0 <= k <= s.len(),
        forall|j: int| k <= j < s.len() ==> is_unicode_ws(s[j]),
    ensures
        trim_end(s) == trim_end(s.take(k)),
    decreases s.len() - k,
{
    if k < s.len() {
        assert(s.drop_last().take(k) == s.take(k));
        lemma_trim_end_take(s.drop_last(), k);
    } else {
        assert(s.take(k) == s);
    }
}

/// `str::trim`.
pub fn trim_chars(s: &Vec<char>) -> (r: Vec<char>)
    ensures
        r@ == trim(s@),
{
    let mut i: usize = 0;
    while i < s.len() && is_unicode_ws_exec(s[i])
        invariant
            0 <= i <= s.len(),
            forall|j: int| 0 <= j < i ==> is_unicode_ws(s@[j]),
        decreases s.len() - i,
    {
        i = i + 1;
    }
    proof {
        lemma_trim_start_skip(s@, i as int);
    }
    let ghost t = s@.skip(i as int);
    assert(trim_start(t) == t);
    let mut k: usize = s.len();
    while k > i && is_unicode_ws_exec(s[k - 1])
        invariant
            i <= k <= s.len(),
            forall|j: int| k <= j < s.len() ==> is_unicode_ws(s@[j]),
        decreases k,
    {
        k = k - 1;
    }
    proof {
        lemma_trim_end_take(t, k - i);
        assert(t.take(k - i) == s@.subrange(i as int, k as int));
    }
    subvec(s, i, k)
}

pub fn starts_with_lit(s: &Vec<char>, lit: &str) -> (r: bool)
    ensures
        r == starts_with(s@, lit@),
{
    let p = chars_of(lit);
    starts_with_chars(s, &p)
}

pub fn occurs_at_exec(s: &Vec<char>, p: &Vec<char>, i: usize) -> (r: bool)
    ensures
        r == occurs_at(s@, p@, i as int),
{
    if i > s.len() || p.len() > s.len() - i {
        return false;
    }
    for j in 0..p.len()
        invariant
            i + p.len() <= s.len(),
            forall|m: int| 0 <= m < j ==> s@[i + m] == p@[m],
    {
        if s[i + j] != p[j] {
            assert(s@.subrange(i as int, i + p.len())[j as int] != p@[j as int]);
            return false;
        }
    }
    assert(s@.subrange(i as int, i + p.len()) == p@);
    true
}

pub fn starts_with_chars(s: &Vec<char>, p: &Vec<char>) -> (r: bool)
    ensures
        r == starts_with(s@, p@),
{
    let r = occurs_at_exec(s, p, 0);
    assert(r == starts_with(s@, p@)) by {
        if p.len() <= s.len() {
            assert(s@.subrange(0, p.len() as int) == s@.take(p.len() as int));
        }
    }
    r
}

pub fn ends_with_chars(s: &Vec<char>, p: &Vec<char>) -> (r: bool)
    ensures
        r == ends_with(s@, p@),
{
    if p.len() > s.len() {
        return false;
    }
    let r = occurs_at_exec(s, p, s.len() - p.len());
    assert(s@.subrange(s.len() - p.len(), s.len() as int) == s@.skip(s.len() - p.len()));
    r
}

pub fn contains_chars(s: &Vec<char>, p: &Vec<char>) -> (r: bool)
    ensures
        r == contains(s@, p@),
{
    if p.len() > s.len() {
        return false;
    }
    let limit = s.len() - p.len();
    let mut i: usize = 0;
    loop
        invariant
            p.len() <= s.len(),
            limit == s.len() - p.len(),
            i <= limit,
            forall|j: int| 0 <= j < i ==> !occurs_at(s@, p@, j),
        decreases limit - i,
    {
        if occurs_at_exec(s, p, i) {
            return true;
        }
        if i == limit {
            assert forall|j: int| !occurs_at(s@, p@, j) by {
                if 0 <= j && j + p.len() <= s.len() && j != i {
                    assert(j < i);
                }
            }
            return false;
        }
        i = i + 1;
    }
}

pub fn contains_lit(s: &Vec<char>, lit: &str) -> (r: bool)
    ensures
        r == contains(s@, lit@),
{
    let p = chars_of(lit);
    contains_chars(s, &p)
}

/// `str::split(sep)` with a char separator.
pub fn split_chars(s: &Vec<char>, sep: char) -> (r: Vec<Vec<char>>)
    ensures
        r@.len() == split_on(s@, sep).len(),
        forall|k: int| 0 <= k < r@.len() ==> #[trigger] r@[k]@ == split_on(s@, sep)[k],
{
    let mut pieces: Vec<Vec<char>> = Vec::new();
    let mut cur: Vec<char> = Vec::new();
    let mut i: usize = 0;
    proof {
        lemma_split_on_nonempty(s@, sep);
        assert(s@.skip(0) == s@);
        let sp = split_on(s@, sep);
        assert(Seq::<char>::empty() + sp[0] == sp[0]);
        assert(sp.update(0, sp[0]) == sp);
        assert(pieces@.map_values(|v: Vec<char>| v@) + sp == sp);
    }
    while i < s.len()
        invariant
            0 <= i <= s.len(),
            split_on(s@, sep) == pieces@.map_values(|v: Vec<char>| v@) + split_on(
                s@.skip(i as int),
                sep,
            ).update(0, cur@ + split_on(s@.skip(i as int), sep)[0]),
        decreases s.len() - i,
    {
        let ghost tail = s@.skip(i as int);
        let ghost tail1 = s@.skip(i + 1);
        proof {
            assert(tail.drop_first() == tail1);
            lemma_split_on_nonempty(tail1, sep);
        }
        let c = s[i];
        if c == sep {
            let ghost old_pieces = pieces@;
            let ghost old_cur = cur@;
            pieces.push(cur);
            cur = Vec::new();
            assert(split_on(tail, sep) == seq![Seq::<char>::empty()] + split_on(tail1, sep));
            assert(pieces@.map_values(|v: Vec<char>| v@) == old_pieces.map_values(
                |v: Vec<char>| v@,
            ).push(old_cur));
            assert(split_on(tail1, sep).update(0, cur@ + split_on(tail1, sep)[0]) == split_on(
                tail1,
                sep,
            ));
        } else {
            let ghost old_cur = cur@;
            cur.push(c);
            assert(cur@ + split_on(tail1, sep)[0] == old_cur + (seq![c] + split_on(tail1, sep)[0]));
        }
        i = i + 1;
    }
    proof {
        assert(s@.skip(s.len() as int) == Seq::<char>::empty());
    }
    pieces.push(cur);
    let ghost m = pieces@.map_values(|v: Vec<char>| v@);
    assert(m == split_on(s@, sep));
    assert forall|k: int| 0 <= k < pieces@.len() implies #[trigger] pieces@[k]@ == split_on(
        s@,
        sep,
    )[k] by {
        assert(m[k] == pieces@[k]@);
    }
    pieces
}

/// `str::split_ascii_whitespace`.
pub fn split_words(s: &Vec<char>) -> (r: Vec<Vec<char>>)
    ensures
        r@.len() == words(s@).len(),
        forall|k: int| 0 <= k < r@.len() ==> #[trigger] r@[k]@ == words(s@)[k],
{
    // Scan from the end so that each step matches the front-recursive definition.
    let mut acc: Vec<Vec<char>> = Vec::new();  // words in reverse order
    let mut i: usize = s.len();
    while i > 0
        invariant
            0 <= i <= s.len(),
            words(s@.skip(i as int)) == acc@.map_values(|v: Vec<char>| v@).reverse(),
        decreases i,
    {
        i = i - 1;
        let c = s[i];
        let ghost tail = s@.skip(i as int);
        let ghost tail1 = s@.skip(i + 1);
        assert(tail.drop_first() == tail1);
        assert(tail[0] == c);
        let ghost before = acc@.map_values(|v: Vec<char>| v@);
        if is_ascii_ws_exec(c) {
        } else if i + 1 < s.len() && !is_ascii_ws_exec(s[i + 1]) {
            assert(tail[1] == s@[i + 1]);
            proof {
                assert(tail1[0] == s@[i + 1]);
                lemma_words_nonempty(tail1);
            }
            let last = acc.len() - 1;
            let mut w: Vec<char> = Vec::new();
            w.push(c);
            let mut j: usize = 0;
            let ghost lw = acc@[last as int]@;
            while j < acc[last].len()
                invariant
                    last < acc.len(),
                    lw == acc@[last as int]@,
                    j <= lw.len(),
                    w@ == seq![c] + lw.take(j as int),
                decreases lw.len() - j,
            {
                w.push(acc[last][j]);
                j = j + 1;
                assert(w@ == seq![c] + lw.take(j as int));
            }
            assert(lw.take(lw.len() as int) == lw);
            acc.set(last, w);
            assert(acc@.map_values(|v: Vec<char>| v@).reverse() == before.reverse().update(
                0,
                seq![c] + before.reverse()[0],
            ));
        } else {
            let mut w: Vec<char> = Vec::new();
            w.push(c);
            acc.push(w);
            assert(acc@.map_values(|v: Vec<char>| v@) == before.push(seq![c]));
            assert(before.push(seq![c]).reverse() == seq![seq![c]] + before.reverse());
        }
    }
    assert(s@.skip(0) == s@);
    let mut r: Vec<Vec<char>> = Vec::new();
    let mut k: usize = acc.len();
    let ghost ws = words(s@);
    while k > 0
        invariant
            k <= acc.len(),
            ws == acc@.map_values(|v: Vec<char>| v@).reverse(),
            r@.len() == acc.len() - k,
            forall|m: int| 0 <= m < r@.len() ==> #[trigger] r@[m]@ == ws[m],
        decreases k,
    {
        k = k - 1;
        let w = acc[k].clone();
        r.push(w);
    }
    r
}

pub fn digit_char_exec(d: u64) -> (c: char)
    requires
        d < 10,
    ensures
        c == digit_char(d as nat),
{
    let b = (d as u8) + 48;
    b as char
}

/// Decimal rendering of an unsigned integer.
pub fn decimal_chars(n: u64) -> (r: Vec<char>)
    ensures
        r@ == decimal(n as nat),
    decreases n,
{
    if n < 10 {
        let mut r = Vec::new();
        r.push(digit_char_exec(n));
        r
    } else {
        let mut r = decimal_chars(n / 10);
        r.push(digit_char_exec(n % 10));
        r
    }
}

pub fn zero_pad_chars(s: Vec<char>, width: usize) -> (r: Vec<char>)
    ensures
        r@ == zero_pad(s@, width as nat),
{
    if s.len() >= width {
        return s;
    }
    let mut r: Vec<char> = Vec::new();
    let n = width - s.len();
    for i in 0..n
        invariant
            n == width - s.len(),
            r@ == Seq::new(i as nat, |j: int| '0'),
    {
        r.push('0');
        assert(r@ == Seq::new((i + 1) as nat, |j: int| '0'));
    }
    let ghost pre = r@;
    for i in 0..s.len()
        invariant
            r@ == pre + s@.take(i as int),
    {
        r.push(s[i]);
        assert(r@ == pre + s@.take(i + 1));
    }
    assert(s@.take(s.len() as int) == s@);
    r
}

pub fn append_chars(r: &mut Vec<char>, s: &Vec<char>)
    ensures
        final(r)@ == old(r)@ + s@,
{
    let ghost pre = r@;
    for i in 0..s.len()
        invariant
            r@ == pre + s@.take(i as int),
    {
        r.push(s[i]);
        assert(r@ == pre + s@.take(i + 1));
    }
    assert(s@.take(s.len() as int) == s@);
}

pub fn append_lit(r: &mut Vec<char>, lit: &str)
    ensures
        final(r)@ == old(r)@ + lit@,
{
    let s = chars_of(lit);
    append_chars(r, &s);
}

} // verus!
