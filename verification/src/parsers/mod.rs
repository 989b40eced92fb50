//! Format detection, line splitting and the shared aggregation of samples.
use vstd::prelude::*;
use crate::error::{Error, ErrorView};
use crate::sample::result_view;
use crate::text::{
    ascii_lower, trim, split_on, contains, chars_of, trim_chars, to_ascii_lower, eq_lit,
    split_chars, string_of, copy_str, contains_lit, append_chars,
};

pub mod aggregate;
pub mod criterion;
pub mod csv;
pub mod gobench;
pub mod hyperfine;
pub mod number;

verus! {

/// Known input formats.
#[derive(Debug, Clone, Copy, PartialEq, Eq, Structural)]
pub enum Format {
    Criterion,
    GoBench,
    Hyperfine,
    Csv,
}

pub open spec fn format_text(f: Format) -> Seq<char> {
    match f {
        Format::Criterion => "criterion"@,
        Format::GoBench => "gobench"@,
        Format::Hyperfine => "hyperfine"@,
        Format::Csv => "csv"@,
    }
}

/// The spellings accepted by `Format::parse`, once trimmed and lowercased.
pub open spec fn format_from_text(t: Seq<char>) -> Option<Format> {
    if t == "criterion"@ {
        Some(Format::Criterion)
    } else if t == "gobench"@ || t == "go-bench"@ || t == "go"@ {
        Some(Format::GoBench)
    } else if t == "hyperfine"@ {
        Some(Format::Hyperfine)
    } else if t == "csv"@ {
        Some(Format::Csv)
    } else {
        None
    }
}

pub open spec fn format_parse_spec(s: Seq<char>) -> Result<Format, ErrorView> {
    match format_from_text(ascii_lower(trim(s))) {
        Some(f) => Ok(f),
        None => Err(ErrorView::Parse { format: "format"@, message: "unknown format: "@ + s }),
    }
}

impl Format {
    pub fn as_str(self) -> (r: &'static str)
        ensures
            r@ == format_text(self),
    {
        match self {
            Format::Criterion => "criterion",
            Format::GoBench => "gobench",
            Format::Hyperfine => "hyperfine",
            Format::Csv => "csv",
        }
    }

    /// Parse a format name (case-insensitive, surrounding whitespace ignored).
    pub fn parse(s: &str) -> (r: Result<Format, Error>)
        ensures
            result_view(r) == format_parse_spec(s@),
    {
        let raw = chars_of(s);
        let t = to_ascii_lower(&trim_chars(&raw));
        if eq_lit(&t, "criterion") {
            Ok(Format::Criterion)
        } else if eq_lit(&t, "gobench") || eq_lit(&t, "go-bench") || eq_lit(&t, "go") {
            Ok(Format::GoBench)
        } else if eq_lit(&t, "hyperfine") {
            Ok(Format::Hyperfine)
        } else if eq_lit(&t, "csv") {
            Ok(Format::Csv)
        } else {
            let mut m = chars_of("unknown format: ");
            append_chars(&mut m, &raw);
            Err(Error::Parse { format: copy_str("format"), message: string_of(&m) })
        }
    }
}

/// Parsing the name of a format gives that format back.
pub proof fn law_format_text_round_trip(f: Format)
    ensures
        format_parse_spec(format_text(f)) == Ok::<Format, ErrorView>(f),
{
    reveal_strlit("criterion");
    reveal_strlit("gobench");
    reveal_strlit("go-bench");
    reveal_strlit("go");
    reveal_strlit("hyperfine");
    reveal_strlit("csv");
    crate::text::lemma_plain_word(format_text(f));
}

/// Maximum allowed input file size (256 MB).
pub const MAX_INPUT_BYTES: u64 = 268_435_456;

/// Maximum allowed single-line length in text parsers (1 MB).
pub const MAX_LINE_BYTES: usize = 1_048_576;

/// Accept an input of `bytes` bytes only up to [`MAX_INPUT_BYTES`].
pub fn check_input_size(bytes: u64) -> (r: Result<(), Error>)
    ensures
        bytes <= MAX_INPUT_BYTES ==> r is Ok,
        bytes > MAX_INPUT_BYTES ==> (r matches Err(e) && e@ == ErrorView::InputTooLarge {
            bytes: bytes as nat,
            limit: MAX_INPUT_BYTES as nat,
        }),
{
    if bytes > MAX_INPUT_BYTES {
        Err(Error::InputTooLarge { bytes, limit: MAX_INPUT_BYTES })
    } else {
        Ok(())
    }
}

/// What `detect_format` decides from the file kind and its extension alone;
/// `None` means that a JSON file's content must be looked at.
pub open spec fn format_by_extension(is_dir: bool, ext: Seq<char>) -> Option<Format> {
    if is_dir {
        Some(Format::Criterion)
    } else if ascii_lower(ext) == "csv"@ {
        Some(Format::Csv)
    } else if ascii_lower(ext) == "json"@ {
        None
    } else {
        Some(Format::GoBench)
    }
}

/// How a JSON document is classified: hyperfine output has a `"results"`
/// key; Criterion estimates mention `"mean"` or `"estimate"` (keys compared
/// case-insensitively).
pub open spec fn format_by_json_text(text: Seq<char>) -> Result<Format, ErrorView> {
    let lower = ascii_lower(text);
    if contains(lower, "\"results\""@) {
        Ok(Format::Hyperfine)
    } else if contains(lower, "\"mean\""@) || contains(lower, "\"estimate\""@) {
        Ok(Format::Criterion)
    } else {
        Err(ErrorView::UnknownFormat)
    }
}

/// Does format detection need the file's content? (Only for `.json` files.)
pub fn needs_content(is_dir: bool, extension: &str) -> (r: bool)
    ensures
        r == (format_by_extension(is_dir, extension@) is None),
{
    proof {
        reveal_strlit("csv");
        reveal_strlit("json");
        assert("csv"@ != "json"@) by {
            assert("csv"@.len() != "json"@.len());
        }
    }
    let low = to_ascii_lower(&chars_of(extension));
    !is_dir && eq_lit(&low, "json")
}

/// Guess the format of an input from whether it is a directory, its file
/// extension (empty when it has none) and, for `.json` files, its content:
/// directories are Criterion trees, `.csv` files are CSV, JSON files are
/// peeked at, everything else is Go bench text.
pub fn detect_format(is_dir: bool, extension: &str, content: Option<&str>) -> (r: Result<
    Format,
    Error,
>)
    requires
        format_by_extension(is_dir, extension@) is None ==> content is Some,
    ensures
        result_view(r) == match format_by_extension(is_dir, extension@) {
            Some(f) => Ok(f),
            None => format_by_json_text(content.unwrap()@),
        },
{
    if is_dir {
        return Ok(Format::Criterion);
    }
    let ext = to_ascii_lower(&chars_of(extension));
    if eq_lit(&ext, "csv") {
        return Ok(Format::Csv);
    }
    if eq_lit(&ext, "json") {
        let text = match content {
            Some(t) => t,
            None => {
                assert(false);
                return Err(Error::UnknownFormat);
            },
        };
        let lower = to_ascii_lower(&chars_of(text));
        if contains_lit(&lower, "\"results\"") {
            return Ok(Format::Hyperfine);
        }
        if contains_lit(&lower, "\"mean\"") || contains_lit(&lower, "\"estimate\"") {
            return Ok(Format::Criterion);
        }
        return Err(Error::UnknownFormat);
    }
    Ok(Format::GoBench)
}

/// A line without one trailing carriage return.
pub open spec fn strip_cr(l: Seq<char>) -> Seq<char> {
    if l.len() > 0 && l.last() == '\r' {
        l.drop_last()
    } else {
        l
    }
}

/// The lines of `text`: split at every `'\n'`, one trailing `'\r'` removed
/// from each piece, so LF and CRLF files read alike.
pub open spec fn crlf_lines(text: Seq<char>) -> Seq<Seq<char>> {
    split_on(text, '\n').map_values(|l: Seq<char>| strip_cr(l))
}

/// `text` with every line feed written as a carriage return and a line feed
/// (an LF file saved with Windows line endings).
pub open spec fn to_crlf(text: Seq<char>) -> Seq<char>
    decreases text.len(),
{
    if text.len() == 0 {
        Seq::empty()
    } else if text[0] == '\n' {
        seq!['\r', '\n'] + to_crlf(text.drop_first())
    } else {
        seq![text[0]] + to_crlf(text.drop_first())
    }
}

/// The pieces, each but the last followed by a carriage return.
spec fn with_cr(ps: Seq<Seq<char>>) -> Seq<Seq<char>> {
    Seq::new(
        ps.len(),
        |i: int|
            if i < ps.len() - 1 {
                ps[i].push('\r')
            } else {
                ps[i]
            },
    )
}

proof fn lemma_pieces_avoid(t: Seq<char>, c: char)
    requires
        forall|i: int| 0 <= i < t.len() ==> t[i] != c,
    ensures
        forall|k: int, j: int|
            0 <= k < split_on(t, '\n').len() && 0 <= j < split_on(t, '\n')[k].len()
                ==> split_on(t, '\n')[k][j] != c,
    decreases t.len(),
{
    if t.len() > 0 {
        let r = t.drop_first();
        assert forall|i: int| 0 <= i < r.len() implies r[i] != c by {
            assert(r[i] == t[i + 1]);
        }
        lemma_pieces_avoid(r, c);
        crate::text::lemma_split_on_nonempty(r, '\n');
        let rest = split_on(r, '\n');
        if t[0] != '\n' {
            assert forall|k: int, j: int|
                0 <= k < split_on(t, '\n').len() && 0 <= j < split_on(t, '\n')[k].len()
                    implies split_on(t, '\n')[k][j] != c by {
                if k == 0 && j > 0 {
                    assert(split_on(t, '\n')[0][j] == rest[0][j - 1]);
                }
            }
        }
    }
}

proof fn lemma_split_to_crlf(t: Seq<char>)
    requires
        forall|i: int| 0 <= i < t.len() ==> t[i] != '\r',
    ensures
        split_on(to_crlf(t), '\n') == with_cr(split_on(t, '\n')),
    decreases t.len(),
{
    if t.len() == 0 {
        assert(to_crlf(t) =~= Seq::<char>::empty());
        assert(with_cr(split_on(t, '\n')) =~= split_on(t, '\n'));
    } else {
        let r = t.drop_first();
        assert forall|i: int| 0 <= i < r.len() implies r[i] != '\r' by {
            assert(r[i] == t[i + 1]);
        }
        lemma_split_to_crlf(r);
        crate::text::lemma_split_on_nonempty(r, '\n');
        let x = to_crlf(r);
        let lr = split_on(r, '\n');
        let sx = split_on(x, '\n');
        if t[0] == '\n' {
            let u = seq!['\r', '\n'] + x;
            assert(u.drop_first() =~= seq!['\n'] + x);
            assert((seq!['\n'] + x).drop_first() =~= x);
            assert(split_on(seq!['\n'] + x, '\n') == seq![Seq::<char>::empty()] + sx);
            assert(split_on(u, '\n') =~= seq![seq!['\r']] + sx);
            assert(split_on(t, '\n') == seq![Seq::<char>::empty()] + lr);
            assert(with_cr(seq![Seq::<char>::empty()] + lr) =~= seq![seq!['\r']] + with_cr(lr));
        } else {
            let u = seq![t[0]] + x;
            assert(u.drop_first() =~= x);
            assert(split_on(u, '\n') == sx.update(0, seq![t[0]] + sx[0]));
            assert(split_on(t, '\n') == lr.update(0, seq![t[0]] + lr[0]));
            if lr.len() == 1 {
                assert(with_cr(lr.update(0, seq![t[0]] + lr[0])) =~= with_cr(lr).update(
                    0,
                    seq![t[0]] + with_cr(lr)[0],
                ));
            } else {
                assert((seq![t[0]] + lr[0]).push('\r') =~= seq![t[0]] + lr[0].push('\r'));
                assert(with_cr(lr.update(0, seq![t[0]] + lr[0])) =~= with_cr(lr).update(
                    0,
                    seq![t[0]] + with_cr(lr)[0],
                ));
            }
        }
    }
}

/// CRLF files read like LF files: for a text without carriage returns, the
/// lines of its CRLF form are its lines, and they are exactly the pieces
/// between its line feeds.
pub proof fn law_crlf_reads_like_lf(text: Seq<char>)
    requires
        forall|i: int| 0 <= i < text.len() ==> text[i] != '\r',
    ensures
        crlf_lines(to_crlf(text)) == crlf_lines(text),
        crlf_lines(text) == split_on(text, '\n'),
{
    lemma_split_to_crlf(text);
    lemma_pieces_avoid(text, '\r');
    crate::text::lemma_split_on_nonempty(text, '\n');
    let ps = split_on(text, '\n');
    assert forall|k: int| 0 <= k < ps.len() implies strip_cr(#[trigger] ps[k]) == ps[k] by {
        if ps[k].len() > 0 {
            assert(ps[k][ps[k].len() - 1] != '\r');
        }
    }
    assert forall|k: int| 0 <= k < ps.len() implies strip_cr(#[trigger] with_cr(ps)[k]) == ps[k] by {
        if k < ps.len() - 1 {
            assert(ps[k].push('\r').drop_last() =~= ps[k]);
        } else {
            assert(strip_cr(ps[k]) == ps[k]);
        }
    }
    assert(crlf_lines(text) =~= ps);
    assert(crlf_lines(to_crlf(text)) =~= ps);
}

/// A text has one line more than it has line feeds, and no line holds a line
/// feed.
pub proof fn law_lines_split_at_every_line_feed(text: Seq<char>)
    ensures
        crlf_lines(text).len() == crate::text::count_char(text, '\n') + 1,
        forall|k: int, j: int|
            0 <= k < crlf_lines(text).len() && 0 <= j < crlf_lines(text)[k].len() ==> crlf_lines(
                text,
            )[k][j] != '\n',
{
    crate::text::lemma_split_on_len(text, '\n');
    crate::text::lemma_split_pieces_sep_free(text, '\n');
    let ps = split_on(text, '\n');
    assert forall|k: int, j: int|
        0 <= k < crlf_lines(text).len() && 0 <= j < crlf_lines(text)[k].len() implies crlf_lines(
            text,
        )[k][j] != '\n' by {
        assert(crlf_lines(text)[k] == strip_cr(ps[k]));
        assert(strip_cr(ps[k])[j] == ps[k][j]);
    }
}

pub fn lines_of(text: &Vec<char>) -> (r: Vec<Vec<char>>)
    ensures
        r@.len() == crlf_lines(text@).len(),
        forall|k: int| 0 <= k < r@.len() ==> #[trigger] r@[k]@ == crlf_lines(text@)[k],
{
    let pieces = split_chars(text, '\n');
    let mut out: Vec<Vec<char>> = Vec::new();
    for k in 0..pieces.len()
        invariant
            pieces@.len() == split_on(text@, '\n').len(),
            forall|j: int| 0 <= j < pieces@.len() ==> #[trigger] pieces@[j]@ == split_on(
                text@,
                '\n',
            )[j],
            out@.len() == k,
            forall|j: int| 0 <= j < k ==> #[trigger] out@[j]@ == crlf_lines(text@)[j],
    {
        let p = &pieces[k];
        if p.len() > 0 && p[p.len() - 1] == '\r' {
            out.push(crate::text::subvec(p, 0, p.len() - 1));
        } else {
            out.push(p.clone());
        }
    }
    out
}

/// Split text into lines, trimming a trailing `\r` so Windows CRLF files parse.
pub fn lines_crlf(text: &str) -> (r: Vec<String>)
    ensures
        r@.len() == crlf_lines(text@).len(),
        forall|k: int| 0 <= k < r@.len() ==> #[trigger] r@[k]@ == crlf_lines(text@)[k],
{
    let ls = lines_of(&chars_of(text));
    let mut out: Vec<String> = Vec::new();
    for k in 0..ls.len()
        invariant
            ls@.len() == crlf_lines(text@).len(),
            forall|j: int| 0 <= j < ls@.len() ==> #[trigger] ls@[j]@ == crlf_lines(text@)[j],
            out@.len() == k,
            forall|j: int| 0 <= j < k ==> #[trigger] out@[j]@ == crlf_lines(text@)[j],
    {
        out.push(string_of(&ls[k]));
    }
    out
}

/// Number of bytes of the UTF-8 encoding of `c`.
pub open spec fn utf8_width(c: char) -> nat {
    if (c as u32) < 0x80 {
        1
    } else if (c as u32) < 0x800 {
        2
    } else if (c as u32) < 0x10000 {
        3
    } else {
        4
    }
}

/// Number of bytes of the UTF-8 encoding of `s` (what `str::len` reports).
pub open spec fn utf8_len(s: Seq<char>) -> nat
    decreases s.len(),
{
    if s.len() == 0 {
        0
    } else {
        utf8_width(s[0]) + utf8_len(s.drop_first())
    }
}

pub open spec fn saturating_usize(n: nat) -> usize {
    if n <= usize::MAX {
        n as usize
    } else {
        usize::MAX
    }
}

proof fn lemma_utf8_len_push(s: Seq<char>, c: char)
    ensures
        utf8_len(s.push(c)) == utf8_len(s) + utf8_width(c),
    decreases s.len(),
{
    if s.len() > 0 {
        assert(s.push(c).drop_first() == s.drop_first().push(c));
        assert(s.push(c)[0] == s[0]);
        lemma_utf8_len_push(s.drop_first(), c);
    } else {
        assert(s.push(c).drop_first() == Seq::<char>::empty());
        assert(s.push(c)[0] == c);
        assert(utf8_len(Seq::<char>::empty()) == 0);
    }
}

/// UTF-8 byte length of a line, saturated at `usize::MAX`.
pub fn utf8_len_exec(s: &Vec<char>) -> (r: usize)
    ensures
        r == saturating_usize(utf8_len(s@)),
{
    let mut total: usize = 0;
    let mut saturated = false;
    for i in 0..s.len()
        invariant
            !saturated ==> total as nat == utf8_len(s@.take(i as int)),
            saturated ==> total == usize::MAX && utf8_len(s@.take(i as int)) > usize::MAX,
    {
        let c = s[i];
        let w: usize = if (c as u32) < 0x80 {
            1
        } else if (c as u32) < 0x800 {
            2
        } else if (c as u32) < 0x10000 {
            3
        } else {
            4
        };
        proof {
            assert(s@.take(i + 1) == s@.take(i as int).push(c));
            lemma_utf8_len_push(s@.take(i as int), c);
        }
        if !saturated {
            if total > usize::MAX - w {
                total = usize::MAX;
                saturated = true;
            } else {
                total = total + w;
            }
        }
    }
    assert(s@.take(s.len() as int) == s@);
    total
}

} // verus!
