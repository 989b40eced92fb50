//! `benchdiff.toml` configuration: thresholds, correction, ignore patterns
//! and per-benchmark tolerances.
//!
//! Thresholds are carried as IEEE-754 encodings (see [`crate::ieee`]).
//! Reading the TOML file is done by the caller, which fills a [`Config`].
use vstd::prelude::*;
use crate::ieee::{is_finite, lt, is_finite_exec, lt_exec, ONE_BITS, FIVE_PERCENT_BITS};
use crate::text::{
    starts_with, ends_with, contains, chars_of, eq_lit, copy_str, subvec, contains_chars,
    ends_with_chars, starts_with_chars, eq_chars, occurs_at,
};

verus! {

/// Ignored benchmark name patterns (glob-lite: `*` as prefix, suffix, or both).
#[derive(Debug, Clone)]
pub struct IgnoreConfig {
    pub patterns: Vec<String>,
}

/// Per-benchmark tolerance overrides: a table from benchmark name to the
/// value given for it, `Some(bits)` when that value is a float and `None`
/// when it is of another TOML type.
#[derive(Debug, Clone)]
pub struct ToleranceTable {
    entries: Vec<(String, Option<u64>)>,
}

/// Config knobs for a compare run.
#[derive(Debug, Clone)]
pub struct Config {
    /// Significance level for the t-test (IEEE-754 encoding). Default `0.05`.
    pub alpha: u64,
    /// Minimum absolute relative change to be flagged (IEEE-754 encoding).
    /// Default `0.05`.
    pub min_relative_change: u64,
    /// Multiple-comparison correction: `"none"` or `"bh"`.
    pub correction: String,
    /// Where to save / load baselines.
    pub baseline_dir: String,
    pub ignore: IgnoreConfig,
    pub tolerance: ToleranceTable,
}

/// What `Config::validate` rejects.
#[derive(Debug, Clone, PartialEq, Eq)]
pub enum ConfigProblem {
    /// `alpha` is not a number in the open interval (0, 1); carries its encoding.
    Alpha(u64),
    /// `min_relative_change` is negative, infinite or NaN; carries its encoding.
    MinRelativeChange(u64),
    /// `correction` is neither `"none"` nor `"bh"`.
    Correction(String),
}

/// The value of the first entry named `n`.
pub open spec fn lookup(e: Seq<(String, Option<u64>)>, n: Seq<char>) -> Option<Option<u64>>
    decreases e.len(),
{
    if e.len() == 0 {
        None
    } else if e[0].0@ == n {
        Some(e[0].1)
    } else {
        lookup(e.drop_first(), n)
    }
}

proof fn lemma_lookup_absent(e: Seq<(String, Option<u64>)>, n: Seq<char>)
    requires
        forall|i: int| 0 <= i < e.len() ==> #[trigger] e[i].0@ != n,
    ensures
        lookup(e, n) is None,
    decreases e.len(),
{
    if e.len() > 0 {
        assert forall|i: int| 0 <= i < e.len() - 1 implies #[trigger] e.drop_first()[i].0@ != n by {
            assert(e.drop_first()[i] == e[i + 1]);
        }
        lemma_lookup_absent(e.drop_first(), n);
    }
}

proof fn lemma_lookup_set(e: Seq<(String, Option<u64>)>, i: int, x: (String, Option<u64>), n: Seq<char>)
    requires
        0 <= i < e.len(),
        e[i].0@ == x.0@,
        forall|j: int| 0 <= j < i ==> #[trigger] e[j].0@ != x.0@,
    ensures
        lookup(e.update(i, x), n) == if n == x.0@ {
            Some(x.1)
        } else {
            lookup(e, n)
        },
    decreases i,
{
    if i > 0 {
        assert(e.update(i, x).drop_first() == e.drop_first().update(i - 1, x));
        assert forall|j: int| 0 <= j < i - 1 implies #[trigger] e.drop_first()[j].0@ != x.0@ by {
            assert(e.drop_first()[j] == e[j + 1]);
        }
        lemma_lookup_set(e.drop_first(), i - 1, x, n);
        assert(e.update(i, x)[0] == e[0]);
    } else {
        assert(e.update(i, x).drop_first() == e.drop_first());
    }
}

proof fn lemma_lookup_push(e: Seq<(String, Option<u64>)>, x: (String, Option<u64>), n: Seq<char>)
    ensures
        lookup(e.push(x), n) == match lookup(e, n) {
            Some(v) => Some(v),
            None => if x.0@ == n {
                Some(x.1)
            } else {
                None
            },
        },
    decreases e.len(),
{
    if e.len() > 0 {
        assert(e.push(x).drop_first() == e.drop_first().push(x));
        assert(e.push(x)[0] == e[0]);
        lemma_lookup_push(e.drop_first(), x, n);
    } else {
        assert(e.push(x)[0] == x);
        assert(e.push(x).drop_first().len() == 0);
        assert(lookup(e.push(x).drop_first(), n) is None);
    }
}

impl ToleranceTable {
    /// The value recorded for `name`, if any.
    pub closed spec fn get_spec(self, name: Seq<char>) -> Option<Option<u64>> {
        lookup(self.entries@, name)
    }

    pub fn new() -> (t: ToleranceTable)
        ensures
            forall|n: Seq<char>| #[trigger] t.get_spec(n) is None,
    {
        ToleranceTable { entries: Vec::new() }
    }

    fn index_of(&self, name: &Vec<char>) -> (r: Option<usize>)
        ensures
            r matches Some(i) ==> i < self.entries@.len() && self.entries@[i as int].0@ == name@
                && forall|j: int| 0 <= j < i ==> #[trigger] self.entries@[j].0@ != name@,
            r is None ==> forall|i: int|
                0 <= i < self.entries@.len() ==> #[trigger] self.entries@[i].0@ != name@,
    {
        for i in 0..self.entries.len()
            invariant
                forall|j: int| 0 <= j < i ==> #[trigger] self.entries@[j].0@ != name@,
        {
            let k = chars_of(self.entries[i].0.as_str());
            if eq_chars(&k, name) {
                return Some(i);
            }
        }
        None
    }

    /// The value recorded for `name`, if any.
    pub fn get(&self, name: &str) -> (r: Option<Option<u64>>)
        ensures
            r == self.get_spec(name@),
    {
        let key = chars_of(name);
        match self.index_of(&key) {
            Some(i) => {
                proof {
                    let e = self.entries@;
                    lemma_lookup_set(e, i as int, e[i as int], name@);
                    assert(e.update(i as int, e[i as int]) == e);
                }
                Some(self.entries[i].1)
            },
            None => {
                proof {
                    lemma_lookup_absent(self.entries@, name@);
                }
                None
            },
        }
    }

    /// Record `value` for `name`, replacing what was there.
    pub fn insert(&mut self, name: &str, value: Option<u64>)
        ensures
            forall|n: Seq<char>|
                #[trigger] final(self).get_spec(n) == if n == name@ {
                    Some(value)
                } else {
                    old(self).get_spec(n)
                },
    {
        let key = chars_of(name);
        let x = (copy_str(name), value);
        match self.index_of(&key) {
            Some(i) => {
                let ghost e = self.entries@;
                self.entries.set(i, x);
                proof {
                    assert(self.entries@ == e.update(i as int, x));
                    assert forall|n: Seq<char>| #[trigger] lookup(e.update(i as int, x), n) == if n == name@ {
                        Some(value)
                    } else {
                        lookup(e, n)
                    } by {
                        lemma_lookup_set(e, i as int, x, n);
                    }
                }
            },
            None => {
                let ghost e = self.entries@;
                self.entries.push(x);
                proof {
                    assert forall|n: Seq<char>| #[trigger] lookup(e.push(x), n) == if n == name@ {
                        Some(value)
                    } else {
                        lookup(e, n)
                    } by {
                        lemma_lookup_push(e, x, n);
                        if n == name@ {
                            lemma_lookup_absent(e, n);
                        }
                    }
                }
            },
        }
    }
}

/// Glob-lite matching: `*` at the start, the end, or both; a lone `*` is
/// both and matches every name.
pub open spec fn glob_spec(p: Seq<char>, name: Seq<char>) -> bool {
    let star_start = p.len() > 0 && p[0] == '*';
    let star_end = p.len() > 0 && p.last() == '*';
    if star_start && star_end {
        p.len() == 1 || contains(name, p.subrange(1, p.len() - 1))
    } else if star_start {
        ends_with(name, p.skip(1))
    } else if star_end {
        starts_with(name, p.take(p.len() - 1))
    } else {
        p == name
    }
}

/// Tiny glob matcher: `*x*` matches names containing `x`, `*x` names ending
/// in `x`, `x*` names starting with `x`, and `x` only `x` itself; `*`
/// matches every name.
pub fn glob_match(pattern: &str, name: &str) -> (r: bool)
    ensures
        r == glob_spec(pattern@, name@),
{
    let p = chars_of(pattern);
    let n = chars_of(name);
    let star_start = p.len() > 0 && p[0] == '*';
    let star_end = p.len() > 0 && p[p.len() - 1] == '*';
    if star_start && star_end {
        if p.len() == 1 {
            return true;
        }
        let inner = subvec(&p, 1, p.len() - 1);
        contains_chars(&n, &inner)
    } else if star_start {
        let suffix = subvec(&p, 1, p.len());
        assert(suffix@ == p@.skip(1));
        ends_with_chars(&n, &suffix)
    } else if star_end {
        let prefix = subvec(&p, 0, p.len() - 1);
        assert(prefix@ == p@.take(p.len() - 1));
        starts_with_chars(&n, &prefix)
    } else {
        eq_chars(&p, &n)
    }
}

/// A pattern `*x*` matches exactly the names in which `x` occurs, at any
/// position, the first one included: in particular every `y + x + z`.
pub proof fn law_glob_infix(x: Seq<char>, y: Seq<char>, z: Seq<char>, name: Seq<char>)
    ensures
        glob_spec(seq!['*'] + x + seq!['*'], y + x + z),
        glob_spec(seq!['*'] + x + seq!['*'], name) <==> contains(name, x),
        glob_spec(seq!['*'] + x + seq!['*'], x + z),
{
    let both = seq!['*'] + x + seq!['*'];
    assert(both.subrange(1, both.len() - 1) =~= x);
    let s = y + x + z;
    assert(s.subrange(y.len() as int, (y.len() + x.len()) as int) =~= x);
    assert(occurs_at(s, x, y.len() as int));
    let s2 = x + z;
    assert(s2.subrange(0, x.len() as int) =~= x);
    assert(occurs_at(s2, x, 0));
}

/// What the other pattern forms match, for any non-empty text `x` without
/// stars at its ends: `x*` every name starting with `x`, `*x` every name
/// ending with `x`, `x` only `x` itself; and `*` matches everything.
pub proof fn law_glob_forms(x: Seq<char>, y: Seq<char>, z: Seq<char>, name: Seq<char>)
    requires
        x.len() > 0,
        x[0] != '*',
        x.last() != '*',
    ensures
        glob_spec(x + seq!['*'], x + z),
        glob_spec(seq!['*'] + x, y + x),
        glob_spec(x, name) <==> name == x,
        glob_spec(seq!['*'], name),
{
    let s2 = x + z;
    let pre = x + seq!['*'];
    assert(pre[0] == x[0]);
    assert(pre.take(pre.len() - 1) =~= x);
    assert(s2.take(x.len() as int) =~= x);
    let suf = seq!['*'] + x;
    assert(suf.last() == x.last());
    assert(suf.skip(1) =~= x);
    let s3 = y + x;
    assert(s3.skip(s3.len() - x.len()) =~= x);
}

/// Is some pattern in `ps` matching `name`?
pub open spec fn ignored_by(ps: Seq<Seq<char>>, name: Seq<char>) -> bool {
    exists|i: int| 0 <= i < ps.len() && glob_spec(#[trigger] ps[i], name)
}

pub open spec fn template_text() -> Seq<char> {
    "# benchdiff configuration\nalpha = 0.05\nmin_relative_change = 0.05\ncorrection = \"none\"   # or \"bh\" for Benjamini-Hochberg FDR\nbaseline_dir = \".benchdiff/baselines\"\n\n[ignore]\npatterns = []\n# example: patterns = [\"experimental_*\", \"slow_*\"]\n\n[tolerance]\n# example: \"parse_huge_json\" = 0.15\n"@
}

/// The default significance level, `0.05`.
pub fn default_alpha() -> (r: u64)
    ensures
        r == FIVE_PERCENT_BITS,
{
    FIVE_PERCENT_BITS
}

/// The default minimum relative change, `0.05`.
pub fn default_min_rel() -> (r: u64)
    ensures
        r == FIVE_PERCENT_BITS,
{
    FIVE_PERCENT_BITS
}

pub fn default_correction() -> (r: String)
    ensures
        r@ == "none"@,
{
    copy_str("none")
}

pub fn default_baseline_dir() -> (r: String)
    ensures
        r@ == ".benchdiff/baselines"@,
{
    copy_str(".benchdiff/baselines")
}

impl IgnoreConfig {
    pub open spec fn patterns_view(&self) -> Seq<Seq<char>> {
        self.patterns@.map_values(|p: String| p@)
    }
}

impl Default for IgnoreConfig {
    fn default() -> (r: IgnoreConfig)
        ensures
            r.patterns@.len() == 0,
    {
        IgnoreConfig { patterns: Vec::new() }
    }
}

pub open spec fn alpha_ok(a: u64) -> bool {
    is_finite(a) && lt(0, a) && lt(a, ONE_BITS)
}

pub open spec fn min_change_ok(m: u64) -> bool {
    is_finite(m) && !lt(m, 0)
}

impl Default for Config {
    fn default() -> (r: Config)
        ensures
            r.alpha == FIVE_PERCENT_BITS,
            r.min_relative_change == FIVE_PERCENT_BITS,
            r.correction@ == "none"@,
            r.baseline_dir@ == ".benchdiff/baselines"@,
            r.ignore.patterns@.len() == 0,
            forall|n: Seq<char>| #[trigger] r.tolerance.get_spec(n) is None,
    {
        Config {
            alpha: default_alpha(),
            min_relative_change: default_min_rel(),
            correction: default_correction(),
            baseline_dir: default_baseline_dir(),
            ignore: IgnoreConfig { patterns: Vec::new() },
            tolerance: ToleranceTable::new(),
        }
    }
}

impl Config {
    /// Sanity-check numeric ranges: `alpha` in (0, 1), `min_relative_change`
    /// finite and not negative, `correction` one of `none` / `bh` (checked in
    /// that order).
    pub fn validate(&self) -> (r: Result<(), ConfigProblem>)
        ensures
            !alpha_ok(self.alpha) ==> r == Err::<(), ConfigProblem>(ConfigProblem::Alpha(self.alpha)),
            alpha_ok(self.alpha) && !min_change_ok(self.min_relative_change) ==> r == Err::<(), ConfigProblem>(
                ConfigProblem::MinRelativeChange(self.min_relative_change),
            ),
            alpha_ok(self.alpha) && min_change_ok(self.min_relative_change) ==> (r is Ok <==> (
            self.correction@ == "none"@ || self.correction@ == "bh"@)),
            r matches Err(ConfigProblem::Correction(c)) ==> c@ == self.correction@,
    {
        if !is_finite_exec(self.alpha) || !lt_exec(0, self.alpha) || !lt_exec(self.alpha, ONE_BITS) {
            return Err(ConfigProblem::Alpha(self.alpha));
        }
        if !is_finite_exec(self.min_relative_change) || lt_exec(self.min_relative_change, 0) {
            return Err(ConfigProblem::MinRelativeChange(self.min_relative_change));
        }
        let c = chars_of(self.correction.as_str());
        if !(eq_lit(&c, "none") || eq_lit(&c, "bh")) {
            return Err(ConfigProblem::Correction(self.correction.clone()));
        }
        Ok(())
    }

    /// Is `name` matched by any ignore pattern?
    pub fn is_ignored(&self, name: &str) -> (r: bool)
        ensures
            r == ignored_by(self.ignore.patterns_view(), name@),
    {
        let ghost ps = self.ignore.patterns_view();
        for i in 0..self.ignore.patterns.len()
            invariant
                ps == self.ignore.patterns_view(),
                forall|j: int| 0 <= j < i ==> !glob_spec(#[trigger] ps[j], name@),
        {
            assert(ps[i as int] == self.ignore.patterns@[i as int]@);
            if glob_match(self.ignore.patterns[i].as_str(), name) {
                return true;
            }
        }
        false
    }

    /// Per-benchmark tolerance override: the value recorded for `name` when it
    /// is a float.
    pub fn tolerance_for(&self, name: &str) -> (r: Option<u64>)
        ensures
            r == match self.tolerance.get_spec(name@) {
                Some(Some(v)) => Some(v),
                _ => None::<u64>,
            },
    {
        match self.tolerance.get(name) {
            Some(Some(v)) => Some(v),
            _ => None,
        }
    }

    /// Starter template for `benchdiff init`.
    pub fn template() -> (r: &'static str)
        ensures
            r@ == template_text(),
    {
        "# benchdiff configuration\nalpha = 0.05\nmin_relative_change = 0.05\ncorrection = \"none\"   # or \"bh\" for Benjamini-Hochberg FDR\nbaseline_dir = \".benchdiff/baselines\"\n\n[ignore]\npatterns = []\n# example: patterns = [\"experimental_*\", \"slow_*\"]\n\n[tolerance]\n# example: \"parse_huge_json\" = 0.15\n"
    }
}

} // verus!
