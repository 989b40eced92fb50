//! Aggregation of `(name, value, unit)` observations into benchmarks kept in
//! ascending name order (the order of an ordered map keyed by name).
use vstd::prelude::*;
use crate::ieee::is_finite;
use crate::sample::{Unit, Benchmark, Run, BenchmarkView, all_finite};
use crate::text::{string_of, copy_str};

verus! {

/// Strict lexicographic order on character sequences (the order of `String`).
pub open spec fn seq_lt(a: Seq<char>, b: Seq<char>) -> bool
    decreases a.len(),
{
    if a.len() == 0 {
        b.len() > 0
    } else if b.len() == 0 {
        false
    } else if a[0] != b[0] {
        a[0] < b[0]
    } else {
        seq_lt(a.drop_first(), b.drop_first())
    }
}

pub proof fn lemma_seq_lt_irreflexive(a: Seq<char>)
    ensures
        !seq_lt(a, a),
    decreases a.len(),
{
    if a.len() > 0 {
        lemma_seq_lt_irreflexive(a.drop_first());
    }
}

pub proof fn lemma_seq_lt_trichotomy(a: Seq<char>, b: Seq<char>)
    ensures
        a == b || seq_lt(a, b) || seq_lt(b, a),
        !(seq_lt(a, b) && seq_lt(b, a)),
    decreases a.len(),
{
    if a.len() > 0 && b.len() > 0 {
        lemma_seq_lt_trichotomy(a.drop_first(), b.drop_first());
        if a[0] == b[0] && a.drop_first() == b.drop_first() {
            assert(a == seq![a[0]] + a.drop_first());
            assert(b == seq![b[0]] + b.drop_first());
        }
    } else if a.len() == 0 && b.len() == 0 {
        assert(a == b);
    }
}

pub proof fn lemma_seq_lt_transitive(a: Seq<char>, b: Seq<char>, c: Seq<char>)
    requires
        seq_lt(a, b),
        seq_lt(b, c),
    ensures
        seq_lt(a, c),
    decreases a.len(),
{
    if a.len() > 0 && b.len() > 0 && c.len() > 0 {
        if a[0] == b[0] && b[0] == c[0] {
            lemma_seq_lt_transitive(a.drop_first(), b.drop_first(), c.drop_first());
        }
    }
}

/// Strict lexicographic comparison.
pub fn lt_chars(a: &Vec<char>, b: &Vec<char>) -> (r: bool)
    ensures
        r == seq_lt(a@, b@),
{
    let mut i: usize = 0;
    assert(a@.skip(0) == a@ && b@.skip(0) == b@);
    while i < a.len() && i < b.len()
        invariant
            i <= a.len(),
            i <= b.len(),
            seq_lt(a@, b@) == seq_lt(a@.skip(i as int), b@.skip(i as int)),
        decreases a.len() - i,
    {
        if a[i] != b[i] {
            assert(a@.skip(i as int)[0] == a@[i as int]);
            assert(b@.skip(i as int)[0] == b@[i as int]);
            return a[i] < b[i];
        }
        assert(a@.skip(i as int).drop_first() == a@.skip(i + 1));
        assert(b@.skip(i as int).drop_first() == b@.skip(i + 1));
        i = i + 1;
    }
    i == a.len() && i < b.len()
}

/// One observation: a value of a benchmark, in a unit.
pub struct Obs {
    pub name: Seq<char>,
    pub value: u64,
    pub unit: Unit,
}

/// The values observed for `name`, in order.
pub open spec fn samples_for(obs: Seq<Obs>, name: Seq<char>) -> Seq<u64>
    decreases obs.len(),
{
    if obs.len() == 0 {
        Seq::empty()
    } else {
        let r = samples_for(obs.drop_last(), name);
        if obs.last().name == name {
            r.push(obs.last().value)
        } else {
            r
        }
    }
}

/// The unit of the first observation of `name`.
pub open spec fn first_unit(obs: Seq<Obs>, name: Seq<char>) -> Option<Unit>
    decreases obs.len(),
{
    if obs.len() == 0 {
        None
    } else {
        match first_unit(obs.drop_last(), name) {
            Some(u) => Some(u),
            None => if obs.last().name == name {
                Some(obs.last().unit)
            } else {
                None
            },
        }
    }
}

/// Does observation `i` disagree in unit with an earlier one of the same name?
pub open spec fn unit_conflict_at(obs: Seq<Obs>, i: int) -> bool {
    exists|j: int| 0 <= j < i && #[trigger] obs[j].name == obs[i].name && obs[j].unit != obs[i].unit
}

/// The benchmarks that aggregating `obs` yields when no unit conflicts: one per
/// distinct name, ascending by name, each with its values in order and the
/// unit of its observations.
pub open spec fn aggregated(obs: Seq<Obs>, out: Seq<BenchmarkView>) -> bool {
    &&& forall|i: int, j: int| 0 <= i < j < out.len() ==> seq_lt(out[i].name, out[j].name)
    &&& forall|k: int|
        0 <= k < out.len() ==> {
            &&& #[trigger] first_unit(obs, out[k].name) == Some(out[k].unit)
            &&& out[k].samples == samples_for(obs, out[k].name)
        }
    &&& forall|i: int|
        #![trigger obs[i]]
        0 <= i < obs.len() ==> exists|k: int| 0 <= k < out.len() && #[trigger] out[k].name == obs[i].name
}

/// Observations grouped by name, kept in ascending name order.
pub struct Aggregator {
    names: Vec<Vec<char>>,
    samples: Vec<Vec<u64>>,
    units: Vec<Unit>,
    ghost_obs: Ghost<Seq<Obs>>,
}

impl Aggregator {
    pub closed spec fn obs(&self) -> Seq<Obs> {
        self.ghost_obs@
    }

    pub closed spec fn entries(&self) -> Seq<BenchmarkView> {
        Seq::new(
            self.names@.len(),
            |k: int|
                BenchmarkView {
                    name: self.names@[k]@,
                    samples: self.samples@[k]@,
                    unit: self.units@[k],
                },
        )
    }

    /// The aggregator holds, per distinct name of the observations so far,
    /// their values and their common unit, in ascending name order; no two
    /// observations of a name disagree in unit.
    pub closed spec fn wf(&self) -> bool {
        &&& self.names@.len() == self.samples@.len()
        &&& self.names@.len() == self.units@.len()
        &&& aggregated(self.obs(), self.entries())
        &&& forall|i: int| 0 <= i < self.obs().len() ==> !unit_conflict_at(self.obs(), i)
    }

    pub fn new() -> (r: Aggregator)
        ensures
            r.wf(),
            r.obs() == Seq::<Obs>::empty(),
    {
        Aggregator {
            names: Vec::new(),
            samples: Vec::new(),
            units: Vec::new(),
            ghost_obs: Ghost(Seq::empty()),
        }
    }

    /// Record an observation. Returns `false`, leaving the aggregator as it
    /// was, when `unit` differs from the unit already recorded for `name`.
    pub fn add(&mut self, name: &Vec<char>, value: u64, unit: Unit) -> (ok: bool)
        requires
            old(self).wf(),
        ensures
            ok == !unit_conflict_at(old(self).obs().push(Obs { name: name@, value, unit }), old(self).obs().len() as int),
            ok ==> final(self).wf() && final(self).obs() == old(self).obs().push(Obs { name: name@, value, unit }),
            !ok ==> *final(self) == *old(self),
    {
        let ghost obs0 = self.obs();
        let ghost x = Obs { name: name@, value, unit };
        let ghost obs1 = obs0.push(x);
        proof {
            lemma_push_facts(obs0, x);
        }
        let mut p: usize = 0;
        while p < self.names.len() && lt_chars(&self.names[p], name)
            invariant
                self.wf(),
                self.obs() == obs0,
                p <= self.names@.len(),
                forall|j: int| 0 <= j < p ==> seq_lt(#[trigger] self.entries()[j].name, name@),
            decreases self.names@.len() - p,
        {
            assert(self.entries()[p as int].name == self.names@[p as int]@);
            p = p + 1;
        }
        let ghost es = self.entries();
        if p < self.names.len() && crate::text::eq_chars(&self.names[p], name) {
            // Existing benchmark.
            assert(es[p as int].name == name@);
            let u = self.units[p];
            if u != unit {
                proof {
                    lemma_first_unit_witness(obs0, name@);
                    let j = choose|j: int| 0 <= j < obs0.len() && obs0[j].name == name@ && obs0[j].unit == u;
                    assert(obs1[j] == obs0[j]);
                    assert(obs1[obs0.len() as int] == x);
                    assert(unit_conflict_at(obs1, obs0.len() as int));
                }
                return false;
            }
            proof {
                assert(!unit_conflict_at(obs1, obs0.len() as int)) by {
                    if unit_conflict_at(obs1, obs0.len() as int) {
                        let j = choose|j: int| 0 <= j < obs0.len() && #[trigger] obs1[j].name == obs1[obs0.len() as int].name && obs1[j].unit != obs1[obs0.len() as int].unit;
                        assert(obs1[j] == obs0[j]);
                        lemma_first_unit_all(obs0, name@, j);
                    }
                }
            }
            self.samples[p].push(value);
            self.ghost_obs = Ghost(obs1);
            assert(self.entries() =~= es.update(p as int, BenchmarkView { name: es[p as int].name, samples: es[p as int].samples.push(value), unit: es[p as int].unit }));
            proof {
                self.lemma_wf_after_existing(obs0, es, x, p as int);
            }
            true
        } else {
            // New benchmark, inserted before the first larger name.
            proof {
                if p < es.len() {
                    lemma_seq_lt_trichotomy(es[p as int].name, name@);
                }
                assert forall|j: int| 0 <= j < es.len() implies es[j].name != name@ by {
                    if j < p {
                        lemma_seq_lt_irreflexive(name@);
                    } else if j > p {
                        lemma_seq_lt_transitive(name@, es[p as int].name, es[j].name);
                        lemma_seq_lt_irreflexive(name@);
                    }
                }
                lemma_first_unit_absent(obs0, es, name@);
                assert(!unit_conflict_at(obs1, obs0.len() as int)) by {
                    if unit_conflict_at(obs1, obs0.len() as int) {
                        let j = choose|j: int| 0 <= j < obs0.len() && #[trigger] obs1[j].name == obs1[obs0.len() as int].name && obs1[j].unit != obs1[obs0.len() as int].unit;
                        assert(obs1[j] == obs0[j]);
                        lemma_first_unit_all_some(obs0, name@, j);
                    }
                }
            }
            let mut s: Vec<u64> = Vec::new();
            s.push(value);
            let nm = crate::text::copy_chars(name);
            self.names.insert(p, nm);
            self.samples.insert(p, s);
            self.units.insert(p, unit);
            self.ghost_obs = Ghost(obs1);
            assert(self.entries() =~= es.insert(p as int, BenchmarkView { name: name@, samples: seq![value], unit }));
            proof {
                self.lemma_wf_after_insert(obs0, es, x, p as int);
            }
            true
        }
    }

    proof fn lemma_wf_after_existing(&self, obs0: Seq<Obs>, es: Seq<BenchmarkView>, x: Obs, p: int)
        requires
            aggregated(obs0, es),
            forall|i: int| 0 <= i < obs0.len() ==> !unit_conflict_at(obs0, i),
            !unit_conflict_at(obs0.push(x), obs0.len() as int),
            0 <= p < es.len(),
            es[p].name == x.name,
            es[p].unit == x.unit,
            self.obs() == obs0.push(x),
            self.names@.len() == self.samples@.len(),
            self.names@.len() == self.units@.len(),
            self.entries() == es.update(p, BenchmarkView { name: es[p].name, samples: es[p].samples.push(x.value), unit: es[p].unit }),
        ensures
            self.wf(),
    {
        let obs1 = obs0.push(x);
        let e1 = self.entries();
        lemma_push_facts(obs0, x);
        assert forall|i: int| 0 <= i < obs1.len() implies !unit_conflict_at(obs1, i) by {
            if i < obs0.len() {
                if unit_conflict_at(obs1, i) {
                    let j = choose|j: int| 0 <= j < i && #[trigger] obs1[j].name == obs1[i].name && obs1[j].unit != obs1[i].unit;
                    assert(obs1[j] == obs0[j] && obs1[i] == obs0[i]);
                    assert(unit_conflict_at(obs0, i));
                }
            }
        }
        assert forall|i: int| #![trigger obs1[i]] 0 <= i < obs1.len() implies exists|k: int| 0 <= k < e1.len() && #[trigger] e1[k].name == obs1[i].name by {
            if i < obs0.len() {
                assert(obs1[i] == obs0[i]);
                let k = choose|k: int| 0 <= k < es.len() && #[trigger] es[k].name == obs0[i].name;
                assert(e1[k].name == es[k].name);
            } else {
                assert(e1[p].name == obs1[i].name);
            }
        }
        assert forall|k: int| 0 <= k < e1.len() implies {
            &&& #[trigger] first_unit(obs1, e1[k].name) == Some(e1[k].unit)
            &&& e1[k].samples == samples_for(obs1, e1[k].name)
        } by {
            assert(first_unit(obs0, es[k].name) == Some(es[k].unit));
            if k != p {
                assert(e1[k] == es[k]);
                if k < p {
                    assert(seq_lt(es[k].name, es[p].name));
                } else {
                    assert(seq_lt(es[p].name, es[k].name));
                }
                lemma_seq_lt_irreflexive(es[k].name);
                assert(es[k].name != x.name);
            }
        }
        assert forall|i: int, j: int| 0 <= i < j < e1.len() implies seq_lt(e1[i].name, e1[j].name) by {
            assert(seq_lt(es[i].name, es[j].name));
        }
    }

    proof fn lemma_wf_after_insert(&self, obs0: Seq<Obs>, es: Seq<BenchmarkView>, x: Obs, p: int)
        requires
            aggregated(obs0, es),
            forall|i: int| 0 <= i < obs0.len() ==> !unit_conflict_at(obs0, i),
            !unit_conflict_at(obs0.push(x), obs0.len() as int),
            0 <= p <= es.len(),
            forall|j: int| 0 <= j < p ==> seq_lt(#[trigger] es[j].name, x.name),
            p < es.len() ==> seq_lt(x.name, es[p].name),
            first_unit(obs0, x.name) is None,
            self.obs() == obs0.push(x),
            self.names@.len() == self.samples@.len(),
            self.names@.len() == self.units@.len(),
            self.entries() == es.insert(p, BenchmarkView { name: x.name, samples: seq![x.value], unit: x.unit }),
        ensures
            self.wf(),
    {
        let obs1 = obs0.push(x);
        let e1 = self.entries();
        lemma_push_facts(obs0, x);
        lemma_samples_for_absent(obs0, x.name);
        assert forall|i: int| 0 <= i < obs1.len() implies !unit_conflict_at(obs1, i) by {
            if i < obs0.len() {
                if unit_conflict_at(obs1, i) {
                    let j = choose|j: int| 0 <= j < i && #[trigger] obs1[j].name == obs1[i].name && obs1[j].unit != obs1[i].unit;
                    assert(obs1[j] == obs0[j] && obs1[i] == obs0[i]);
                    assert(unit_conflict_at(obs0, i));
                }
            }
        }
        assert forall|i: int| #![trigger obs1[i]] 0 <= i < obs1.len() implies exists|k: int| 0 <= k < e1.len() && #[trigger] e1[k].name == obs1[i].name by {
            if i < obs0.len() {
                assert(obs1[i] == obs0[i]);
                let k = choose|k: int| 0 <= k < es.len() && #[trigger] es[k].name == obs0[i].name;
                if k < p {
                    assert(e1[k] == es[k]);
                } else {
                    assert(e1[k + 1] == es[k]);
                }
            } else {
                assert(e1[p].name == obs1[i].name);
            }
        }
        assert forall|k: int| 0 <= k < e1.len() implies {
            &&& #[trigger] first_unit(obs1, e1[k].name) == Some(e1[k].unit)
            &&& e1[k].samples == samples_for(obs1, e1[k].name)
        } by {
            if k < p {
                assert(e1[k] == es[k]);
                assert(first_unit(obs0, es[k].name) == Some(es[k].unit));
                lemma_seq_lt_irreflexive(x.name);
            } else if k > p {
                assert(e1[k] == es[k - 1]);
                assert(first_unit(obs0, es[k - 1].name) == Some(es[k - 1].unit));
            } else {
                assert(samples_for(obs1, x.name) == samples_for(obs0, x.name).push(x.value));
                assert(seq![x.value] == Seq::<u64>::empty().push(x.value));
            }
        }
        assert forall|i: int, j: int| 0 <= i < j < e1.len() implies seq_lt(e1[i].name, e1[j].name) by {
            if j < p {
                assert(e1[i] == es[i] && e1[j] == es[j]);
            } else if j == p {
                assert(e1[i] == es[i]);
            } else if i > p {
                assert(e1[i] == es[i - 1] && e1[j] == es[j - 1]);
            } else if i == p {
                assert(e1[j] == es[j - 1]);
                if j - 1 > p {
                    assert(seq_lt(es[p].name, es[j - 1].name));
                    lemma_seq_lt_transitive(x.name, es[p].name, es[j - 1].name);
                }
            } else {
                assert(e1[i] == es[i] && e1[j] == es[j - 1]);
            }
        }
    }

    /// The benchmarks aggregated so far, ascending by name.
    pub fn finish(self, source: &str) -> (r: Run)
        requires
            self.wf(),
        ensures
            aggregated(self.obs(), r@.benchmarks),
            r@.source == source@,
    {
        let ghost es = self.entries();
        let mut out: Vec<Benchmark> = Vec::new();
        let n = self.names.len();
        for k in 0..n
            invariant
                n == self.names@.len(),
                self.wf(),
                es == self.entries(),
                out@.len() == k,
                forall|j: int| 0 <= j < k ==> (#[trigger] out@[j])@ == es[j],
        {
            let b = Benchmark {
                name: string_of(&self.names[k]),
                samples: self.samples[k].clone(),
                unit: self.units[k],
            };
            assert(b@ == es[k as int]);
            out.push(b);
        }
        let r = Run { benchmarks: out, source: copy_str(source) };
        assert(r@.benchmarks =~= es);
        r
    }
}

pub proof fn lemma_push_facts(obs: Seq<Obs>, x: Obs)
    ensures
        forall|n: Seq<char>|
            #[trigger] samples_for(obs.push(x), n) == if x.name == n {
                samples_for(obs, n).push(x.value)
            } else {
                samples_for(obs, n)
            },
        forall|n: Seq<char>|
            #[trigger] first_unit(obs.push(x), n) == match first_unit(obs, n) {
                Some(u) => Some(u),
                None => if x.name == n {
                    Some(x.unit)
                } else {
                    None
                },
            },
{
    assert(obs.push(x).drop_last() == obs);
}

proof fn lemma_first_unit_witness(obs: Seq<Obs>, name: Seq<char>)
    ensures
        first_unit(obs, name) matches Some(u) ==> exists|j: int| 0 <= j < obs.len() && obs[j].name == name && obs[j].unit == u,
    decreases obs.len(),
{
    if obs.len() > 0 {
        lemma_first_unit_witness(obs.drop_last(), name);
        if let Some(u) = first_unit(obs.drop_last(), name) {
            let j = choose|j: int| 0 <= j < obs.drop_last().len() && obs.drop_last()[j].name == name && obs.drop_last()[j].unit == u;
            assert(obs[j] == obs.drop_last()[j]);
        }
    }
}

/// Without unit conflicts, every observation of a name has its first unit.
proof fn lemma_first_unit_all(obs: Seq<Obs>, name: Seq<char>, j: int)
    requires
        forall|i: int| 0 <= i < obs.len() ==> !unit_conflict_at(obs, i),
        0 <= j < obs.len(),
        obs[j].name == name,
    ensures
        first_unit(obs, name) == Some(obs[j].unit),
    decreases obs.len(),
{
    let d = obs.drop_last();
    assert forall|i: int| 0 <= i < d.len() implies !unit_conflict_at(d, i) by {
        if unit_conflict_at(d, i) {
            let k = choose|k: int| 0 <= k < i && #[trigger] d[k].name == d[i].name && d[k].unit != d[i].unit;
            assert(d[k] == obs[k] && d[i] == obs[i]);
            assert(unit_conflict_at(obs, i));
        }
    }
    if j < obs.len() - 1 {
        assert(d[j] == obs[j]);
        lemma_first_unit_all(d, name, j);
    } else {
        match first_unit(d, name) {
            Some(u) => {
                lemma_first_unit_witness(d, name);
                let k = choose|k: int| 0 <= k < d.len() && d[k].name == name && d[k].unit == u;
                assert(d[k] == obs[k]);
                if u != obs[j].unit {
                    assert(unit_conflict_at(obs, j));
                }
            },
            None => {},
        }
    }
}

proof fn lemma_first_unit_all_some(obs: Seq<Obs>, name: Seq<char>, j: int)
    requires
        0 <= j < obs.len(),
        obs[j].name == name,
    ensures
        first_unit(obs, name) is Some,
    decreases obs.len(),
{
    if j < obs.len() - 1 {
        assert(obs.drop_last()[j] == obs[j]);
        lemma_first_unit_all_some(obs.drop_last(), name, j);
    }
}

proof fn lemma_first_unit_absent(obs: Seq<Obs>, es: Seq<BenchmarkView>, name: Seq<char>)
    requires
        aggregated(obs, es),
        forall|j: int| 0 <= j < es.len() ==> es[j].name != name,
    ensures
        first_unit(obs, name) is None,
{
    if first_unit(obs, name) is Some {
        lemma_first_unit_witness(obs, name);
        let j = choose|j: int| 0 <= j < obs.len() && obs[j].name == name && obs[j].unit == first_unit(obs, name).unwrap();
        let k = choose|k: int| 0 <= k < es.len() && #[trigger] es[k].name == obs[j].name;
    }
}

proof fn lemma_samples_for_absent(obs: Seq<Obs>, name: Seq<char>)
    requires
        first_unit(obs, name) is None,
    ensures
        samples_for(obs, name) == Seq::<u64>::empty(),
    decreases obs.len(),
{
    if obs.len() > 0 {
        lemma_samples_for_absent(obs.drop_last(), name);
    }
}

proof fn lemma_samples_for_finite(obs: Seq<Obs>, name: Seq<char>)
    requires
        forall|i: int| 0 <= i < obs.len() ==> is_finite(#[trigger] obs[i].value),
    ensures
        all_finite(samples_for(obs, name)),
    decreases obs.len(),
{
    if obs.len() > 0 {
        let d = obs.drop_last();
        assert forall|i: int| 0 <= i < d.len() implies is_finite(#[trigger] d[i].value) by {
            assert(d[i] == obs[i]);
        }
        lemma_samples_for_finite(d, name);
        assert(is_finite(obs[obs.len() - 1].value));
    }
}

/// Aggregation yields one benchmark per name: no two benchmarks share a name,
/// every sample is one of the observed values, so finite observations give
/// finite samples, and every benchmark has at least one sample.
pub proof fn law_aggregation_one_benchmark_per_name(obs: Seq<Obs>, out: Seq<BenchmarkView>)
    requires
        aggregated(obs, out),
    ensures
        forall|i: int, j: int| 0 <= i < j < out.len() ==> #[trigger] out[i].name != #[trigger] out[j].name,
        (forall|i: int| 0 <= i < obs.len() ==> is_finite(#[trigger] obs[i].value)) ==> forall|k: int|
            0 <= k < out.len() ==> all_finite(#[trigger] out[k].samples),
        forall|k: int| 0 <= k < out.len() ==> (#[trigger] out[k].samples).len() > 0,
{
    assert forall|i: int, j: int| 0 <= i < j < out.len() implies #[trigger] out[i].name != #[trigger] out[j].name by {
        lemma_seq_lt_irreflexive(out[i].name);
    }
    if forall|i: int| 0 <= i < obs.len() ==> is_finite(#[trigger] obs[i].value) {
        assert forall|k: int| 0 <= k < out.len() implies all_finite(#[trigger] out[k].samples) by {
            assert(first_unit(obs, out[k].name) == Some(out[k].unit));
            lemma_samples_for_finite(obs, out[k].name);
        }
    }
    assert forall|k: int| 0 <= k < out.len() implies (#[trigger] out[k].samples).len() > 0 by {
        let name = out[k].name;
        assert(first_unit(obs, name) == Some(out[k].unit));
        lemma_first_unit_witness(obs, name);
        let j = choose|j: int| 0 <= j < obs.len() && obs[j].name == name && obs[j].unit == out[k].unit;
        lemma_samples_for_nonempty(obs, name, j);
    }
}

proof fn lemma_samples_for_nonempty(obs: Seq<Obs>, name: Seq<char>, j: int)
    requires
        0 <= j < obs.len(),
        obs[j].name == name,
    ensures
        samples_for(obs, name).len() > 0,
    decreases obs.len(),
{
    if j < obs.len() - 1 {
        assert(obs.drop_last()[j] == obs[j]);
        lemma_samples_for_nonempty(obs.drop_last(), name, j);
    }
}

/// Two strictly ascending sequences holding the same elements are equal.
proof fn lemma_sorted_same_elements(a: Seq<Seq<char>>, b: Seq<Seq<char>>)
    requires
        forall|i: int, j: int| 0 <= i < j < a.len() ==> seq_lt(#[trigger] a[i], #[trigger] a[j]),
        forall|i: int, j: int| 0 <= i < j < b.len() ==> seq_lt(#[trigger] b[i], #[trigger] b[j]),
        forall|i: int| 0 <= i < a.len() ==> #[trigger] b.contains(a[i]),
        forall|j: int| 0 <= j < b.len() ==> #[trigger] a.contains(b[j]),
    ensures
        a == b,
    decreases a.len(),
{
    if a.len() == 0 {
        if b.len() > 0 {
            assert(a.contains(b[0]));
        }
        assert(a =~= b);
    } else {
        assert(b.contains(a[0]));
        let j = choose|j: int| 0 <= j < b.len() && b[j] == a[0];
        assert(a.contains(b[0]));
        let i = choose|i: int| 0 <= i < a.len() && a[i] == b[0];
        if j > 0 {
            assert(seq_lt(b[0], b[j]));
            if i > 0 {
                assert(seq_lt(a[0], a[i]));
                lemma_seq_lt_transitive(a[0], a[i], a[0]);
                lemma_seq_lt_irreflexive(a[0]);
            } else {
                lemma_seq_lt_irreflexive(a[0]);
            }
        }
        assert(b[0] == a[0]);
        let ta = a.drop_first();
        let tb = b.drop_first();
        assert forall|x: int| 0 <= x < ta.len() implies #[trigger] tb.contains(ta[x]) by {
            assert(ta[x] == a[x + 1]);
            assert(seq_lt(a[0], a[x + 1]));
            assert(b.contains(a[x + 1]));
            let y = choose|y: int| 0 <= y < b.len() && b[y] == a[x + 1];
            if y == 0 {
                lemma_seq_lt_irreflexive(a[0]);
            }
            assert(tb[y - 1] == b[y]);
        }
        assert forall|y: int| 0 <= y < tb.len() implies #[trigger] ta.contains(tb[y]) by {
            assert(tb[y] == b[y + 1]);
            assert(seq_lt(b[0], b[y + 1]));
            assert(a.contains(b[y + 1]));
            let x = choose|x: int| 0 <= x < a.len() && a[x] == b[y + 1];
            if x == 0 {
                lemma_seq_lt_irreflexive(b[0]);
            }
            assert(ta[x - 1] == a[x]);
        }
        assert forall|x: int, y: int| 0 <= x < y < ta.len() implies seq_lt(#[trigger] ta[x], #[trigger] ta[y]) by {
            assert(ta[x] == a[x + 1] && ta[y] == a[y + 1]);
        }
        assert forall|x: int, y: int| 0 <= x < y < tb.len() implies seq_lt(#[trigger] tb[x], #[trigger] tb[y]) by {
            assert(tb[x] == b[x + 1] && tb[y] == b[y + 1]);
        }
        lemma_sorted_same_elements(ta, tb);
        assert(a =~= seq![a[0]] + ta);
        assert(b =~= seq![b[0]] + tb);
    }
}

/// Aggregation has one outcome: the benchmarks are determined by the
/// observations (so a parse is determined by what its scan found and the
/// values decoded from it).
pub proof fn law_aggregation_is_determined(obs: Seq<Obs>, o1: Seq<BenchmarkView>, o2: Seq<BenchmarkView>)
    requires
        aggregated(obs, o1),
        aggregated(obs, o2),
    ensures
        o1 == o2,
{
    let n1 = o1.map_values(|b: BenchmarkView| b.name);
    let n2 = o2.map_values(|b: BenchmarkView| b.name);
    assert forall|i: int| 0 <= i < n1.len() implies #[trigger] n2.contains(n1[i]) by {
        assert(first_unit(obs, o1[i].name) == Some(o1[i].unit));
        lemma_first_unit_witness(obs, o1[i].name);
        let j = choose|j: int| 0 <= j < obs.len() && obs[j].name == o1[i].name && obs[j].unit == o1[i].unit;
        assert(obs[j] == obs[j]);
        let k = choose|k: int| 0 <= k < o2.len() && #[trigger] o2[k].name == obs[j].name;
        assert(n2[k] == n1[i]);
    }
    assert forall|i: int| 0 <= i < n2.len() implies #[trigger] n1.contains(n2[i]) by {
        assert(first_unit(obs, o2[i].name) == Some(o2[i].unit));
        lemma_first_unit_witness(obs, o2[i].name);
        let j = choose|j: int| 0 <= j < obs.len() && obs[j].name == o2[i].name && obs[j].unit == o2[i].unit;
        assert(obs[j] == obs[j]);
        let k = choose|k: int| 0 <= k < o1.len() && #[trigger] o1[k].name == obs[j].name;
        assert(n1[k] == n2[i]);
    }
    assert forall|i: int, j: int| 0 <= i < j < n1.len() implies seq_lt(#[trigger] n1[i], #[trigger] n1[j]) by {}
    assert forall|i: int, j: int| 0 <= i < j < n2.len() implies seq_lt(#[trigger] n2[i], #[trigger] n2[j]) by {}
    lemma_sorted_same_elements(n1, n2);
    assert forall|k: int| 0 <= k < o1.len() implies #[trigger] o1[k] == o2[k] by {
        assert(n1[k] == n2[k]);
        assert(first_unit(obs, o1[k].name) == Some(o1[k].unit));
        assert(first_unit(obs, o2[k].name) == Some(o2[k].unit));
    }
    assert(o1 =~= o2);
}

} // verus!
