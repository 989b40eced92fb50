//! Baselines: labelled snapshots of a run, their file names, the listing of
//! stored labels, and the UTC timestamps they carry.
//!
//! Reading and writing the JSON files is done by the caller; this module
//! decides which labels are safe file names, where a baseline lives, which
//! directory entries are baselines, and how a timestamp is written.
use vstd::prelude::*;
use crate::error::{Error, ErrorView, debug_char, debug_char_text};
use crate::parsers::{utf8_len, utf8_len_exec};
use crate::parsers::aggregate::{seq_lt, lt_chars, lemma_seq_lt_irreflexive, lemma_seq_lt_trichotomy, lemma_seq_lt_transitive};
use crate::parsers::gobench::last_index;
use crate::sample::{Run, result_view};
use crate::text::{
    is_ascii_alnum, decimal, zero_pad, chars_of, string_of, copy_str, append_chars, append_lit,
    decimal_chars, zero_pad_chars, subvec, eq_lit,
};

verus! {

/// A labelled snapshot of a benchmark run.
#[derive(Debug, Clone)]
pub struct Baseline {
    /// Schema version (starts at 1).
    pub schema: u32,
    pub label: String,
    /// RFC3339-ish timestamp. Informational only.
    pub created_at: String,
    pub run: Run,
}

/// Characters allowed in a label.
pub open spec fn label_char_ok(c: char) -> bool {
    is_ascii_alnum(c) || c == '-' || c == '_' || c == '.' || c == '+'
}

/// Index of the first character of `s` not allowed in a label.
pub open spec fn first_bad_label_char(s: Seq<char>) -> Option<int>
    decreases s.len(),
{
    if s.len() == 0 {
        None
    } else if !label_char_ok(s[0]) {
        Some(0)
    } else {
        match first_bad_label_char(s.drop_first()) {
            Some(i) => Some(i + 1),
            None => None,
        }
    }
}

/// Longest label, in bytes.
pub const MAX_LABEL_BYTES: usize = 128;

pub open spec fn invalid_label(label: Seq<char>, reason: Seq<char>) -> ErrorView {
    ErrorView::InvalidLabel { label, reason }
}

/// What `Baseline::validate_label` decides, check by check.
pub open spec fn validate_label_spec(label: Seq<char>) -> Result<(), ErrorView> {
    if label.len() == 0 {
        Err(invalid_label(label, "label must be non-empty"@))
    } else if utf8_len(label) > MAX_LABEL_BYTES {
        Err(invalid_label(label, "label too long (max 128)"@))
    } else if first_bad_label_char(label) is Some {
        Err(
            invalid_label(
                label,
                "character "@ + debug_char_text(label[first_bad_label_char(label).unwrap()])
                    + " not allowed in label"@,
            ),
        )
    } else if label[0] == '.' {
        Err(invalid_label(label, "label cannot start with '.'"@))
    } else {
        Ok(())
    }
}

/// `dir.join(file)` for a relative file name on a `/`-separated path: a
/// separator is added unless `dir` is empty or already ends with one.
pub open spec fn join_path(dir: Seq<char>, file: Seq<char>) -> Seq<char> {
    if dir.len() == 0 || dir.last() == '/' {
        dir + file
    } else {
        dir + "/"@ + file
    }
}

/// The label of a directory entry's file name: `Some(stem)` for `<stem>.json`
/// with a non-empty stem (as `Path::extension` and `Path::file_stem` split a
/// name at its last dot, a leading dot not counting).
pub open spec fn json_stem(name: Seq<char>) -> Option<Seq<char>> {
    match last_index(name, '.') {
        Some(i) => if i > 0 && name.skip(i + 1) == "json"@ {
            Some(name.take(i))
        } else {
            None
        },
        None => None,
    }
}

/// Ordering of labels by `String`'s order.
pub open spec fn label_le(a: Seq<char>, b: Seq<char>) -> bool {
    !seq_lt(b, a)
}

/// The stems of the `.json` names, in input order.
pub open spec fn json_stems(names: Seq<Seq<char>>) -> Seq<Seq<char>>
    decreases names.len(),
{
    if names.len() == 0 {
        Seq::empty()
    } else {
        let rest = json_stems(names.drop_last());
        match json_stem(names.last()) {
            Some(s) => rest.push(s),
            None => rest,
        }
    }
}

impl Baseline {
    /// A schema-1 baseline for `run`, stamped with the current UTC time.
    pub fn new(label: &str, run: Run) -> (b: Baseline)
        ensures
            b.schema == 1,
            b.label@ == label@,
            b.run@ == run@,
            exists|reading: Option<u64>| b.created_at@ == iso_text(clock_secs(reading)),
    {
        Baseline { schema: 1, label: copy_str(label), created_at: now_iso_utc(), run }
    }

    /// Validate that `label` is safe to use as a file name: non-empty, at most
    /// 128 bytes, only ASCII letters, digits and `-_.+`, not starting with `.`.
    pub fn validate_label(label: &str) -> (r: Result<(), Error>)
        ensures
            result_view(r) == validate_label_spec(label@),
    {
        let s = chars_of(label);
        if s.len() == 0 {
            return Err(Error::InvalidLabel {
                label: copy_str(label),
                reason: copy_str("label must be non-empty"),
            });
        }
        if utf8_len_exec(&s) > MAX_LABEL_BYTES {
            return Err(Error::InvalidLabel {
                label: copy_str(label),
                reason: copy_str("label too long (max 128)"),
            });
        }
        assert(utf8_len(label@) <= MAX_LABEL_BYTES);
        for i in 0..s.len()
            invariant
                s@ == label@,
                s@.len() > 0,
                utf8_len(label@) <= MAX_LABEL_BYTES,
                forall|j: int| 0 <= j < i ==> label_char_ok(#[trigger] s@[j]),
        {
            let c = s[i];
            let ok = ('0' <= c && c <= '9') || ('A' <= c && c <= 'Z') || ('a' <= c && c <= 'z')
                || c == '-' || c == '_' || c == '.' || c == '+';
            if !ok {
                proof {
                    lemma_first_bad_at(s@, i as int);
                }
                let shown = debug_char(c);
                let mut m = chars_of("character ");
                append_chars(&mut m, &chars_of(shown.as_str()));
                append_lit(&mut m, " not allowed in label");
                return Err(Error::InvalidLabel { label: copy_str(label), reason: string_of(&m) });
            }
        }
        proof {
            lemma_first_bad_none(s@);
        }
        if s[0] == '.' {
            return Err(Error::InvalidLabel {
                label: copy_str(label),
                reason: copy_str("label cannot start with '.'"),
            });
        }
        Ok(())
    }

    /// The path of the baseline file of `label` under `dir`
    /// (`<dir>/<label>.json`), after validating the label.
    pub fn path_for(dir: &str, label: &str) -> (r: Result<String, Error>)
        ensures
            validate_label_spec(label@) matches Err(e) ==> (r matches Err(e2) && e2@ == e),
            validate_label_spec(label@) is Ok ==> (r matches Ok(p) && p@ == join_path(
                dir@,
                label@ + ".json"@,
            )),
    {
        match Self::validate_label(label) {
            Err(e) => Err(e),
            Ok(()) => {
                let d = chars_of(dir);
                let mut p = crate::text::copy_chars(&d);
                if !(d.len() == 0 || d[d.len() - 1] == '/') {
                    append_lit(&mut p, "/");
                }
                append_lit(&mut p, label);
                append_lit(&mut p, ".json");
                Ok(string_of(&p))
            },
        }
    }

    /// Check the schema version of a loaded baseline; only version 1 exists.
    pub fn check_schema(schema: u32) -> (r: Result<(), Error>)
        ensures
            schema == 1 ==> r is Ok,
            schema != 1 ==> (r matches Err(e) && e@ == ErrorView::Parse {
                format: "baseline"@,
                message: "unsupported schema version "@ + decimal(schema as nat),
            }),
    {
        if schema != 1 {
            let mut m = chars_of("unsupported schema version ");
            append_chars(&mut m, &decimal_chars(schema as u64));
            return Err(Error::parse("baseline", string_of(&m).as_str()));
        }
        Ok(())
    }

    /// The labels of the baselines among a directory's file names: the stems
    /// of the `<stem>.json` names, sorted.
    pub fn list(names: &Vec<String>) -> (r: Vec<String>)
        ensures
            r@.map_values(|s: String| s@) == json_stems(names@.map_values(|s: String| s@)).sort_by(
                |a: Seq<char>, b: Seq<char>| label_le(a, b),
            ),
    {
        let ghost nv = names@.map_values(|s: String| s@);
        let mut stems: Vec<Vec<char>> = Vec::new();
        for i in 0..names.len()
            invariant
                nv == names@.map_values(|s: String| s@),
                stems@.map_values(|v: Vec<char>| v@) == json_stems(nv.take(i as int)),
        {
            let c = chars_of(names[i].as_str());
            let st = json_stem_chars(&c);
            assert(nv.take(i + 1).drop_last() == nv.take(i as int));
            assert(nv.take(i + 1).last() == c@);
            match st {
                Some(s) => {
                    let ghost before = stems@;
                    stems.push(s);
                    assert(stems@.map_values(|v: Vec<char>| v@) == before.map_values(|v: Vec<char>| v@).push(s@));
                },
                None => {},
            }
        }
        assert(nv.take(names.len() as int) == nv);
        let sorted = sort_labels(stems);
        let mut out: Vec<String> = Vec::new();
        for k in 0..sorted.len()
            invariant
                out@.len() == k,
                forall|j: int| 0 <= j < k ==> (#[trigger] out@[j])@ == sorted@[j]@,
        {
            out.push(string_of(&sorted[k]));
        }
        assert(out@.map_values(|s: String| s@) =~= sorted@.map_values(|v: Vec<char>| v@));
        out
    }
}

/// A label that passes validation is a safe file name: it is non-empty, does
/// not start with `.`, and every character is an ASCII letter, digit or one of
/// `-_.+`; in particular none of `/ \ : * ? " < > |` occurs, so the file
/// `<label>.json` lies directly in the baseline directory.
pub proof fn law_valid_label_is_safe_file_name(label: Seq<char>)
    requires
        validate_label_spec(label) is Ok,
    ensures
        0 < label.len() <= 128,
        label[0] != '.',
        forall|i: int| 0 <= i < label.len() ==> label_char_ok(#[trigger] label[i]),
        forall|i: int|
            0 <= i < label.len() ==> {
                let c = #[trigger] label[i];
                ||| ('0' <= c && c <= '9')
                ||| ('A' <= c && c <= 'Z')
                ||| ('a' <= c && c <= 'z')
                ||| c == '-' || c == '_' || c == '.' || c == '+'
            },
        forall|i: int|
            0 <= i < label.len() ==> {
                let c = #[trigger] label[i];
                &&& c != '/'
                &&& c != '\\'
                &&& c != ':'
                &&& c != '*'
                &&& c != '?'
                &&& c != '"'
                &&& c != '<'
                &&& c != '>'
                &&& c != '|'
            },
{
    lemma_first_bad_none_all(label);
    lemma_ascii_utf8_len(label);
}

/// Every label made of 1 to 128 ASCII letters (either case), digits and
/// `-_.+`, not starting with `.`, is valid.
pub proof fn law_well_formed_labels_validate(label: Seq<char>)
    requires
        0 < label.len() <= 128,
        label[0] != '.',
        forall|i: int|
            0 <= i < label.len() ==> {
                let c = #[trigger] label[i];
                ||| ('0' <= c && c <= '9')
                ||| ('A' <= c && c <= 'Z')
                ||| ('a' <= c && c <= 'z')
                ||| c == '-' || c == '_' || c == '.' || c == '+'
            },
    ensures
        validate_label_spec(label) is Ok,
{
    lemma_ascii_utf8_len(label);
    assert forall|j: int| 0 <= j < label.len() implies label_char_ok(#[trigger] label[j]) by {
        let c = label[j];
        assert(('0' <= c && c <= '9') || ('A' <= c && c <= 'Z') || ('a' <= c && c <= 'z') || c == '-'
            || c == '_' || c == '.' || c == '+');
    }
    lemma_first_bad_none(label);
}

proof fn lemma_ascii_utf8_len(s: Seq<char>)
    requires
        forall|i: int| 0 <= i < s.len() ==> (#[trigger] s[i] as u32) < 0x80,
    ensures
        utf8_len(s) == s.len(),
    decreases s.len(),
{
    if s.len() > 0 {
        let d = s.drop_first();
        assert forall|i: int| 0 <= i < d.len() implies (#[trigger] d[i] as u32) < 0x80 by {
            assert(d[i] == s[i + 1]);
        }
        lemma_ascii_utf8_len(d);
    }
}

proof fn lemma_first_bad_none_all(s: Seq<char>)
    requires
        first_bad_label_char(s) is None,
    ensures
        forall|i: int| 0 <= i < s.len() ==> label_char_ok(#[trigger] s[i]),
    decreases s.len(),
{
    if s.len() > 0 {
        lemma_first_bad_none_all(s.drop_first());
        assert forall|i: int| 0 <= i < s.len() implies label_char_ok(#[trigger] s[i]) by {
            if i > 0 {
                assert(s[i] == s.drop_first()[i - 1]);
            }
        }
    }
}

proof fn lemma_first_bad_at(s: Seq<char>, i: int)
    requires
        0 <= i < s.len(),
        !label_char_ok(s[i]),
        forall|j: int| 0 <= j < i ==> label_char_ok(#[trigger] s[j]),
    ensures
        first_bad_label_char(s) == Some(i),
    decreases i,
{
    if i > 0 {
        assert(label_char_ok(s[0]));
        assert forall|j: int| 0 <= j < i - 1 implies label_char_ok(#[trigger] s.drop_first()[j]) by {
            assert(s.drop_first()[j] == s[j + 1]);
        }
        lemma_first_bad_at(s.drop_first(), i - 1);
    }
}

proof fn lemma_first_bad_none(s: Seq<char>)
    requires
        forall|j: int| 0 <= j < s.len() ==> label_char_ok(#[trigger] s[j]),
    ensures
        first_bad_label_char(s) is None,
    decreases s.len(),
{
    if s.len() > 0 {
        assert(label_char_ok(s[0]));
        assert forall|j: int| 0 <= j < s.len() - 1 implies label_char_ok(#[trigger] s.drop_first()[j]) by {
            assert(s.drop_first()[j] == s[j + 1]);
        }
        lemma_first_bad_none(s.drop_first());
    }
}

proof fn lemma_last_index_at(s: Seq<char>, c: char, i: int)
    requires
        -1 <= i < s.len(),
        forall|j: int| i < j < s.len() ==> s[j] != c,
        i >= 0 ==> s[i] == c,
    ensures
        last_index(s, c) == if i >= 0 {
            Some(i)
        } else {
            None::<int>
        },
    decreases s.len(),
{
    if s.len() > 0 && i < s.len() - 1 {
        assert forall|j: int| i < j < s.len() - 1 implies s.drop_last()[j] != c by {
            assert(s.drop_last()[j] == s[j]);
        }
        if i >= 0 {
            assert(s.drop_last()[i] == s[i]);
        }
        lemma_last_index_at(s.drop_last(), c, i);
    }
}

fn json_stem_chars(name: &Vec<char>) -> (r: Option<Vec<char>>)
    ensures
        match json_stem(name@) {
            Some(s) => r matches Some(x) && x@ == s,
            None => r is None,
        },
{
    let mut k: usize = name.len();
    while k > 0 && name[k - 1] != '.'
        invariant
            k <= name.len(),
            forall|j: int| k <= j < name.len() ==> name@[j] != '.',
        decreases k,
    {
        k = k - 1;
    }
    if k == 0 {
        proof {
            lemma_last_index_at(name@, '.', -1);
        }
        return None;
    }
    let i = k - 1;
    proof {
        lemma_last_index_at(name@, '.', i as int);
    }
    let ext = subvec(name, i + 1, name.len());
    assert(ext@ == name@.skip(i + 1));
    if i > 0 && eq_lit(&ext, "json") {
        let stem = subvec(name, 0, i);
        assert(stem@ == name@.take(i as int));
        Some(stem)
    } else {
        None
    }
}

proof fn lemma_label_le_total()
    ensures
        vstd::relations::total_ordering(|a: Seq<char>, b: Seq<char>| label_le(a, b)),
{
    let le = |a: Seq<char>, b: Seq<char>| label_le(a, b);
    assert forall|a: Seq<char>| #[trigger] le(a, a) by {
        lemma_seq_lt_irreflexive(a);
    }
    assert forall|a: Seq<char>, b: Seq<char>| #[trigger] le(a, b) && #[trigger] le(b, a) implies a == b by {
        lemma_seq_lt_trichotomy(a, b);
    }
    assert forall|a: Seq<char>, b: Seq<char>, c: Seq<char>|
        #[trigger] le(a, b) && #[trigger] le(b, c) implies le(a, c) by {
        lemma_seq_lt_trichotomy(a, b);
        lemma_seq_lt_trichotomy(b, c);
        lemma_seq_lt_trichotomy(a, c);
        if seq_lt(c, a) {
            if seq_lt(a, b) {
                lemma_seq_lt_transitive(c, a, b);
            }
        }
    }
    assert forall|a: Seq<char>, b: Seq<char>| #[trigger] le(a, b) || le(b, a) by {
        lemma_seq_lt_trichotomy(a, b);
    }
}

/// Insertion sort of labels into `String` order.
fn sort_labels(v: Vec<Vec<char>>) -> (r: Vec<Vec<char>>)
    ensures
        r@.map_values(|x: Vec<char>| x@) == v@.map_values(|x: Vec<char>| x@).sort_by(
            |a: Seq<char>, b: Seq<char>| label_le(a, b),
        ),
{
    let ghost input = v@.map_values(|x: Vec<char>| x@);
    let ghost le = |a: Seq<char>, b: Seq<char>| label_le(a, b);
    let mut out: Vec<Vec<char>> = Vec::new();
    assert(out@.map_values(|x: Vec<char>| x@) =~= input.take(0));
    for i in 0..v.len()
        invariant
            input == v@.map_values(|x: Vec<char>| x@),
            le == (|a: Seq<char>, b: Seq<char>| label_le(a, b)),
            vstd::relations::sorted_by(out@.map_values(|x: Vec<char>| x@), le),
            out@.map_values(|x: Vec<char>| x@).to_multiset() == input.take(i as int).to_multiset(),
    {
        let x = &v[i];
        let ghost ov = out@.map_values(|x: Vec<char>| x@);
        let mut p: usize = 0;
        while p < out.len() && !lt_chars(x, &out[p])
            invariant
                p <= out@.len(),
                ov == out@.map_values(|x: Vec<char>| x@),
                forall|j: int| 0 <= j < p ==> !seq_lt(x@, #[trigger] ov[j]),
            decreases out@.len() - p,
        {
            p = p + 1;
        }
        let xc = crate::text::copy_chars(x);
        out.insert(p, xc);
        proof {
            let nv = out@.map_values(|x: Vec<char>| x@);
            assert(nv =~= ov.insert(p as int, x@));
            assert(input.take(i + 1) =~= input.take(i as int).push(x@));
            vstd::seq_lib::to_multiset_insert(ov, p as int, x@);
            vstd::seq_lib::to_multiset_build(input.take(i as int), x@);
            lemma_insert_sorted(ov, p as int, x@);
        }
    }
    proof {
        assert(input.take(v.len() as int) =~= input);
        lemma_label_le_total();
        input.lemma_sort_by_ensures(le);
        vstd::seq_lib::lemma_sorted_unique(out@.map_values(|x: Vec<char>| x@), input.sort_by(le), le);
    }
    out
}

proof fn lemma_insert_sorted(s: Seq<Seq<char>>, p: int, x: Seq<char>)
    requires
        0 <= p <= s.len(),
        vstd::relations::sorted_by(s, |a: Seq<char>, b: Seq<char>| label_le(a, b)),
        forall|j: int| 0 <= j < p ==> !seq_lt(x, #[trigger] s[j]),
        p < s.len() ==> seq_lt(x, s[p]),
    ensures
        vstd::relations::sorted_by(s.insert(p, x), |a: Seq<char>, b: Seq<char>| label_le(a, b)),
{
    let le = |a: Seq<char>, b: Seq<char>| label_le(a, b);
    let t = s.insert(p, x);
    lemma_label_le_total();
    assert forall|i: int, j: int| 0 <= i < j < t.len() implies #[trigger] le(t[i], t[j]) by {
        if j < p {
            assert(t[i] == s[i] && t[j] == s[j]);
            assert(le(s[i], s[j]));
        } else if j == p {
            assert(t[i] == s[i] && t[j] == x);
        } else if i > p {
            assert(t[i] == s[i - 1] && t[j] == s[j - 1]);
            assert(le(s[i - 1], s[j - 1]));
        } else if i == p {
            assert(t[j] == s[j - 1]);
            if j - 1 > p {
                assert(le(s[p], s[j - 1]));
                lemma_seq_lt_trichotomy(s[p], s[j - 1]);
                if seq_lt(s[p], s[j - 1]) {
                    lemma_seq_lt_transitive(x, s[p], s[j - 1]);
                }
            }
            lemma_seq_lt_trichotomy(x, t[j]);
        } else {
            assert(t[i] == s[i] && t[j] == s[j - 1]);
            assert(le(s[i], s[j - 1]));
        }
    }
}

// ---------------------------------------------------------------------------
// Calendar
// ---------------------------------------------------------------------------

/// Gregorian leap year.
pub open spec fn is_leap(y: int) -> bool {
    y % 4 == 0 && (y % 100 != 0 || y % 400 == 0)
}

pub open spec fn days_in_month(y: int, m: int) -> int {
    if m == 2 {
        if is_leap(y) {
            29
        } else {
            28
        }
    } else if m == 4 || m == 6 || m == 9 || m == 11 {
        30
    } else {
        31
    }
}

/// Number of leap years in `1..=n` (shifted consistently for `n <= 0`).
pub open spec fn leaps_through(n: int) -> int {
    n / 4 - n / 100 + n / 400
}

/// Days of year `y` before the first day of month `m`.
pub open spec fn days_before_month(y: int, m: int) -> int {
    let base: int = if m == 1 {
        0
    } else if m == 2 {
        31
    } else if m == 3 {
        59
    } else if m == 4 {
        90
    } else if m == 5 {
        120
    } else if m == 6 {
        151
    } else if m == 7 {
        181
    } else if m == 8 {
        212
    } else if m == 9 {
        243
    } else if m == 10 {
        273
    } else if m == 11 {
        304
    } else {
        334
    };
    if m > 2 && is_leap(y) {
        base + 1
    } else {
        base
    }
}

/// Days from 1970-01-01 to the given date of the proleptic Gregorian calendar.
pub open spec fn days_from_civil(y: int, m: int, d: int) -> int {
    365 * (y - 1970) + leaps_through(y - 1) - leaps_through(1969) + days_before_month(y, m) + d - 1
}

/// Is `(y, mo, d, h, mi, s)` a valid UTC date and time?
pub open spec fn valid_datetime(y: int, mo: int, d: int, h: int, mi: int, s: int) -> bool {
    &&& 1 <= mo <= 12
    &&& 1 <= d <= days_in_month(y, mo)
    &&& 0 <= h < 24
    &&& 0 <= mi < 60
    &&& 0 <= s < 60
}

/// Seconds since the Unix epoch of a UTC date and time.
pub open spec fn epoch_seconds(y: int, mo: int, d: int, h: int, mi: int, s: int) -> int {
    days_from_civil(y, mo, d) * 86400 + h * 3600 + mi * 60 + s
}

/// Year, month and day of the `doe`-th day of a 400-year era that starts on
/// March 1st of its year 0 (the year is relative to the era).
pub open spec fn civil_from_doe(doe: int) -> (int, int, int) {
    let yoe = (doe - doe / 1460 + doe / 36524 - doe / 146096) / 365;
    let doy = doe - (365 * yoe + yoe / 4 - yoe / 100);
    let mp = (5 * doy + 2) / 153;
    let d = doy - (153 * mp + 2) / 5 + 1;
    let m = if mp < 10 {
        mp + 3
    } else {
        mp - 9
    };
    let yy = if m <= 2 {
        yoe + 1
    } else {
        yoe
    };
    (yy, m, d)
}

/// Year, month, day, hour, minute, second of the second `secs` after the epoch.
pub open spec fn ymdhms(secs: int) -> (int, int, int, int, int, int) {
    let z = secs / 86400 + 719468;
    let (yy, m, d) = civil_from_doe(z % 146097);
    let tod = secs % 86400;
    (400 * (z / 146097) + yy, m, d, tod / 3600, (tod % 3600) / 60, tod % 60)
}

/// Does the year of `secs` fit in an `i32`?
pub open spec fn year_fits(secs: int) -> bool {
    let z = secs / 86400 + 719468;
    &&& i32::MIN <= 400 * (z / 146097)
    &&& 400 * (z / 146097) + 400 <= i32::MAX
}

#[verifier::spinoff_prover]
#[verifier::rlimit(40)]
proof fn lemma_doe(doe: int)
    requires
        0 <= doe <= 146096,
    ensures
        ({
            let (yy, m, d) = civil_from_doe(doe);
            &&& 0 <= yy <= 400
            &&& 1 <= m <= 12
            &&& 1 <= d <= days_in_month(yy, m)
            &&& 365 * yy + leaps_through(yy - 1) + days_before_month(yy, m) + d - 1 == doe + 59
        }),
{
    let yoe = (doe - doe / 1460 + doe / 36524 - doe / 146096) / 365;
    let doy = doe - (365 * yoe + yoe / 4 - yoe / 100);
    assert(0 <= yoe <= 399 && 0 <= doy <= 365);
    assert(doy == 365 ==> is_leap(yoe + 1));
}

proof fn lemma_div_shift(a: int, k: int, m: int)
    requires
        m > 0,
    ensures
        (a * m + k) / m == a + k / m,
        (a * m + k) % m == k % m,
{
    vstd::arithmetic::div_mod::lemma_fundamental_div_mod(k, m);
    assert(a * m + k == (a + k / m) * m + k % m) by (nonlinear_arith)
        requires
            k == m * (k / m) + k % m,
    ;
    vstd::arithmetic::div_mod::lemma_fundamental_div_mod_converse(a * m + k, m, a + k / m, k % m);
}

proof fn lemma_era_shift(era: int, yy: int)
    ensures
        leaps_through(400 * era + yy - 1) == 97 * era + leaps_through(yy - 1),
        is_leap(400 * era + yy) == is_leap(yy),
{
    lemma_div_shift(100 * era, yy - 1, 4);
    lemma_div_shift(4 * era, yy - 1, 100);
    lemma_div_shift(era, yy - 1, 400);
    lemma_div_shift(100 * era, yy, 4);
    lemma_div_shift(4 * era, yy, 100);
    lemma_div_shift(era, yy, 400);
    assert(100 * era * 4 == 400 * era);
    assert(4 * era * 100 == 400 * era);
}

/// The civil date of day number `z` (days since 0000-03-01) is valid, and
/// converting it back gives `z`.
proof fn lemma_civil_inverse(z: int)
    ensures
        ({
            let era = z / 146097;
            let (yy, m, d) = civil_from_doe(z % 146097);
            &&& 1 <= m <= 12
            &&& 1 <= d <= days_in_month(400 * era + yy, m)
            &&& 0 <= yy <= 400
            &&& days_from_civil(400 * era + yy, m, d) == z - 719468
        }),
{
    let era = z / 146097;
    let doe = z % 146097;
    let (yy, m, d) = civil_from_doe(doe);
    lemma_doe(doe);
    lemma_era_shift(era, yy);
    assert(days_before_month(400 * era + yy, m) == days_before_month(yy, m));
    assert(z == era * 146097 + doe);
}

/// Floor division and remainder of `x` by a positive `d`.
fn div_floor(x: i64, d: i64) -> (r: (i64, i64))
    requires
        d > 0,
    ensures
        r.0 == x / d,
        r.1 == x % d,
{
    if x >= 0 {
        (x / d, x % d)
    } else {
        let p: i64 = -(x + 1);
        let q: i64 = -(p / d) - 1;
        let rem: i64 = d - 1 - p % d;
        proof {
            vstd::arithmetic::div_mod::lemma_fundamental_div_mod(p as int, d as int);
            assert(x == q * d + rem) by (nonlinear_arith)
                requires
                    p == d * (p / d) + p % d,
                    x == -(p + 1),
                    q == -(p / d) - 1,
                    rem == d - 1 - p % d,
            ;
            vstd::arithmetic::div_mod::lemma_fundamental_div_mod_converse(
                x as int,
                d as int,
                q as int,
                rem as int,
            );
        }
        (q, rem)
    }
}

fn civil_from_doe_exec(doe: u32) -> (r: (u32, u32, u32))
    requires
        doe <= 146096,
    ensures
        (r.0 as int, r.1 as int, r.2 as int) == civil_from_doe(doe as int),
        r.0 <= 400,
{
    proof {
        lemma_doe(doe as int);
        let yoe = (doe - doe / 1460 + doe / 36524 - doe / 146096) / 365;
        let doy = doe - (365 * yoe + yoe / 4 - yoe / 100);
        assert(0 <= yoe <= 399 && 0 <= doy <= 365);
    }
    let yoe = (doe - doe / 1460 + doe / 36524 - doe / 146_096) / 365;
    let doy = doe - (365 * yoe + yoe / 4 - yoe / 100);
    let mp = (5 * doy + 2) / 153;
    let d = doy - (153 * mp + 2) / 5 + 1;
    let m = if mp < 10 {
        mp + 3
    } else {
        mp - 9
    };
    let yy = if m <= 2 {
        yoe + 1
    } else {
        yoe
    };
    (yy, m, d)
}

/// Converting epoch seconds to a date and time and back gives the same
/// second, and the date and time are valid (month 1 to 12, a day that the
/// month has, hours, minutes and seconds in range), for every second before
/// or after the epoch.
pub proof fn law_epoch_round_trip(secs: int)
    ensures
        ({
            let (y, mo, d, h, mi, s) = ymdhms(secs);
            &&& valid_datetime(y, mo, d, h, mi, s)
            &&& epoch_seconds(y, mo, d, h, mi, s) == secs
        }),
{
    let z = secs / 86400 + 719468;
    lemma_civil_inverse(z);
    let tod = secs % 86400;
    assert(secs == (secs / 86400) * 86400 + tod);
}

/// Days in year `y`.
pub open spec fn year_len(y: int) -> int {
    if is_leap(y) {
        366
    } else {
        365
    }
}

/// `y / m` steps up by one from `y - 1` exactly when `m` divides `y`.
proof fn lemma_div_step(y: int, m: int)
    requires
        m > 0,
    ensures
        y / m - (y - 1) / m == if y % m == 0 {
            1int
        } else {
            0int
        },
{
    vstd::arithmetic::div_mod::lemma_fundamental_div_mod(y, m);
    let q = y / m;
    let r = y % m;
    assert(y == m * q + r);
    assert(0 <= r < m);
    if r == 0 {
        assert((q - 1) * m + (m - 1) == m * q - 1) by (nonlinear_arith);
        vstd::arithmetic::div_mod::lemma_fundamental_div_mod_converse(y - 1, m, q - 1, m - 1);
    } else {
        assert(q * m == m * q) by (nonlinear_arith);
        vstd::arithmetic::div_mod::lemma_fundamental_div_mod_converse(y - 1, m, q, r - 1);
    }
}

#[verifier::spinoff_prover]
proof fn lemma_leap_step(y: int)
    ensures
        leaps_through(y) - leaps_through(y - 1) == if is_leap(y) {
            1int
        } else {
            0int
        },
{
    lemma_div_step(y, 4);
    lemma_div_step(y, 100);
    lemma_div_step(y, 400);
    assert(y % 400 == 0 ==> y % 100 == 0 && y % 4 == 0) by {
        vstd::arithmetic::div_mod::lemma_fundamental_div_mod(y, 400);
        vstd::arithmetic::div_mod::lemma_fundamental_div_mod(y, 100);
        vstd::arithmetic::div_mod::lemma_fundamental_div_mod(y, 4);
        if y % 400 == 0 {
            vstd::arithmetic::div_mod::lemma_fundamental_div_mod_converse(y, 100, 4 * (y / 400), 0);
            vstd::arithmetic::div_mod::lemma_fundamental_div_mod_converse(y, 4, 100 * (y / 400), 0);
        }
    }
    assert(y % 100 == 0 ==> y % 4 == 0) by {
        vstd::arithmetic::div_mod::lemma_fundamental_div_mod(y, 100);
        if y % 100 == 0 {
            vstd::arithmetic::div_mod::lemma_fundamental_div_mod_converse(y, 4, 25 * (y / 100), 0);
        }
    }
}

/// Within a year, a valid month and day fall on distinct day offsets, each
/// less than the length of the year.
proof fn lemma_day_of_year(y: int, m1: int, d1: int, m2: int, d2: int)
    requires
        1 <= m1 <= 12,
        1 <= d1 <= days_in_month(y, m1),
        1 <= m2 <= 12,
        1 <= d2 <= days_in_month(y, m2),
    ensures
        0 <= days_before_month(y, m1) + d1 - 1 < year_len(y),
        days_before_month(y, m1) + d1 == days_before_month(y, m2) + d2 ==> m1 == m2 && d1 == d2,
{
}

/// Year `y2` starts at least a whole year `y1` after `y1` starts.
proof fn lemma_year_starts(y1: int, y2: int)
    requires
        y1 < y2,
    ensures
        days_from_civil(y2, 1, 1) >= days_from_civil(y1, 1, 1) + year_len(y1),
    decreases y2 - y1,
{
    lemma_leap_step(y2 - 1);
    if y1 < y2 - 1 {
        lemma_year_starts(y1, y2 - 1);
    }
}

/// Distinct valid dates and times are distinct seconds.
proof fn lemma_epoch_injective(
    y1: int,
    mo1: int,
    d1: int,
    h1: int,
    mi1: int,
    s1: int,
    y2: int,
    mo2: int,
    d2: int,
    h2: int,
    mi2: int,
    s2: int,
)
    requires
        valid_datetime(y1, mo1, d1, h1, mi1, s1),
        valid_datetime(y2, mo2, d2, h2, mi2, s2),
        epoch_seconds(y1, mo1, d1, h1, mi1, s1) == epoch_seconds(y2, mo2, d2, h2, mi2, s2),
    ensures
        (y1, mo1, d1, h1, mi1, s1) == (y2, mo2, d2, h2, mi2, s2),
{
    let t1 = h1 * 3600 + mi1 * 60 + s1;
    let t2 = h2 * 3600 + mi2 * 60 + s2;
    let e1 = days_from_civil(y1, mo1, d1);
    let e2 = days_from_civil(y2, mo2, d2);
    assert(0 <= t1 < 86400 && 0 <= t2 < 86400);
    lemma_div_shift(e1, t1, 86400);
    lemma_div_shift(e2, t2, 86400);
    assert(e1 == e2 && t1 == t2) by {
        vstd::arithmetic::div_mod::lemma_small_mod(t1 as nat, 86400);
        vstd::arithmetic::div_mod::lemma_small_mod(t2 as nat, 86400);
    }
    lemma_day_of_year(y1, mo1, d1, mo1, d1);
    lemma_day_of_year(y2, mo2, d2, mo2, d2);
    if y1 < y2 {
        lemma_year_starts(y1, y2);
    } else if y2 < y1 {
        lemma_year_starts(y2, y1);
    }
    assert(y1 == y2);
    lemma_day_of_year(y1, mo1, d1, mo2, d2);
}

/// Converting a valid date and time to epoch seconds and back gives it back.
pub proof fn law_datetime_round_trip(y: int, mo: int, d: int, h: int, mi: int, s: int)
    requires
        valid_datetime(y, mo, d, h, mi, s),
    ensures
        ymdhms(epoch_seconds(y, mo, d, h, mi, s)) == (y, mo, d, h, mi, s),
{
    let e = epoch_seconds(y, mo, d, h, mi, s);
    law_epoch_round_trip(e);
    let (y2, mo2, d2, h2, mi2, s2) = ymdhms(e);
    lemma_epoch_injective(y2, mo2, d2, h2, mi2, s2, y, mo, d, h, mi, s);
}

/// Epoch seconds to (year, month, day, hour, minute, second), UTC,
/// proleptic Gregorian calendar.
pub fn epoch_to_ymdhms(secs: i64) -> (r: (i32, u32, u32, u32, u32, u32))
    requires
        year_fits(secs as int),
    ensures
        (r.0 as int, r.1 as int, r.2 as int, r.3 as int, r.4 as int, r.5 as int) == ymdhms(secs as int),
        valid_datetime(r.0 as int, r.1 as int, r.2 as int, r.3 as int, r.4 as int, r.5 as int),
        epoch_seconds(r.0 as int, r.1 as int, r.2 as int, r.3 as int, r.4 as int, r.5 as int)
            == secs,
{
    proof {
        law_epoch_round_trip(secs as int);
    }
    let (days, tod) = div_floor(secs, 86_400);
    let time_of_day = tod as u32;
    let h = time_of_day / 3600;
    let mi = (time_of_day % 3600) / 60;
    let s = time_of_day % 60;
    let z: i64 = days + 719_468;
    let (era, doe_i) = div_floor(z, 146_097);
    let (yy, m, d) = civil_from_doe_exec(doe_i as u32);
    let y: i32 = era as i32 * 400 + yy as i32;
    (y, m, d, h, mi, s)
}

/// Largest clock reading (seconds since the epoch) that is converted: the
/// last second of the last 400-year cycle whose years all fit in an `i32`.
pub const MAX_CLOCK_SECS: i64 = 67_767_974_723_951_999;

/// `YYYY-MM-DDTHH:MM:SSZ` for a non-negative year (the year is padded to at
/// least four digits).
pub open spec fn iso_text(secs: int) -> Seq<char> {
    let (y, mo, d, h, mi, s) = ymdhms(secs);
    date_text(y, mo, d) + "T"@ + time_text(h, mi, s) + "Z"@
}

pub open spec fn date_text(y: int, mo: int, d: int) -> Seq<char> {
    zero_pad(decimal(y as nat), 4) + "-"@ + zero_pad(decimal(mo as nat), 2) + "-"@ + zero_pad(
        decimal(d as nat),
        2,
    )
}

pub open spec fn time_text(h: int, mi: int, s: int) -> Seq<char> {
    zero_pad(decimal(h as nat), 2) + ":"@ + zero_pad(decimal(mi as nat), 2) + ":"@ + zero_pad(
        decimal(s as nat),
        2,
    )
}

#[verifier::external_type_specification]
#[verifier::external_body]
pub struct ExSystemTime(std::time::SystemTime);

/// `std::time::SystemTime::now`: the system clock's reading. Nothing is
/// claimed of it.
#[verifier::external_body]
fn system_now() -> (t: std::time::SystemTime) {
    std::time::SystemTime::now()
}

/// `SystemTime::duration_since(UNIX_EPOCH)`: the time elapsed since the
/// epoch, `None` when the reading is earlier. Nothing is claimed of it.
#[verifier::external_body]
fn since_unix_epoch(t: &std::time::SystemTime) -> (d: Option<core::time::Duration>) {
    match t.duration_since(std::time::UNIX_EPOCH) {
        Ok(d) => Some(d),
        Err(_) => None,
    }
}

/// `Duration::as_secs`: the whole seconds of a duration. Nothing is claimed
/// of it.
#[verifier::external_body]
fn whole_seconds(d: &core::time::Duration) -> (s: u64) {
    d.as_secs()
}

/// Whole seconds since the Unix epoch according to the system clock, `None`
/// when the clock reads before the epoch.
fn clock_reading() -> (r: Option<u64>) {
    let now = system_now();
    match since_unix_epoch(&now) {
        Some(d) => Some(whole_seconds(&d)),
        None => None,
    }
}

fn two_digits(n: u32) -> (r: Vec<char>)
    ensures
        r@ == zero_pad(decimal(n as nat), 2),
{
    zero_pad_chars(decimal_chars(n as u64), 2)
}

fn date_chars(y: u32, mo: u32, d: u32) -> (r: Vec<char>)
    ensures
        r@ == date_text(y as int, mo as int, d as int),
{
    let mut out = zero_pad_chars(decimal_chars(y as u64), 4);
    append_lit(&mut out, "-");
    append_chars(&mut out, &two_digits(mo));
    append_lit(&mut out, "-");
    append_chars(&mut out, &two_digits(d));
    out
}

fn time_chars(h: u32, mi: u32, s: u32) -> (r: Vec<char>)
    ensures
        r@ == time_text(h as int, mi as int, s as int),
{
    let mut out = two_digits(h);
    append_lit(&mut out, ":");
    append_chars(&mut out, &two_digits(mi));
    append_lit(&mut out, ":");
    append_chars(&mut out, &two_digits(s));
    out
}

/// Render seconds since the epoch as `YYYY-MM-DDTHH:MM:SSZ`.
pub fn iso_utc(secs: i64) -> (r: String)
    requires
        0 <= secs <= MAX_CLOCK_SECS,
    ensures
        r@ == iso_text(secs as int),
{
    assert(year_fits(secs as int));
    let (y, mo, d, h, mi, s) = epoch_to_ymdhms(secs);
    assert(y >= 0);
    let mut out = date_chars(y as u32, mo, d);
    append_lit(&mut out, "T");
    append_chars(&mut out, &time_chars(h, mi, s));
    append_lit(&mut out, "Z");
    string_of(&out)
}

/// The second that a clock reading is rendered as: `0` for a reading before
/// the epoch (`None`), the reading itself up to [`MAX_CLOCK_SECS`], and
/// `MAX_CLOCK_SECS` beyond it.
pub open spec fn clock_secs(reading: Option<u64>) -> int {
    match reading {
        None => 0,
        Some(s) => if s > MAX_CLOCK_SECS {
            MAX_CLOCK_SECS as int
        } else {
            s as int
        },
    }
}

/// `YYYY-MM-DDTHH:MM:SSZ` for a clock reading (whole seconds since the epoch,
/// `None` before the epoch).
pub fn iso_utc_of_reading(reading: Option<u64>) -> (r: String)
    ensures
        r@ == iso_text(clock_secs(reading)),
{
    let secs: i64 = match reading {
        None => 0,
        Some(s) => if s > MAX_CLOCK_SECS as u64 {
            MAX_CLOCK_SECS
        } else {
            s as i64
        },
    };
    iso_utc(secs)
}

/// The current UTC time as `YYYY-MM-DDTHH:MM:SSZ` (see [`iso_utc_of_reading`]).
pub fn now_iso_utc() -> (r: String)
    ensures
        exists|reading: Option<u64>| r@ == iso_text(clock_secs(reading)),
{
    let reading = clock_reading();
    iso_utc_of_reading(reading)
}

} // verus!
