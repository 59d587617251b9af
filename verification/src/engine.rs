//! Query expansion and aggregation: alias resolution, term expansion,
//! fan-out planning, and partial-failure-tolerant merging of fetched
//! indicators.

use vstd::prelude::*;

use crate::models::dedup_key;
use crate::models::Indicator;
use crate::models::IndicatorTypeView;
use crate::models::QueryConfig;
use crate::sources::ThreatSource;

verus! {

/// Mathematical image of an alias directory: each entry maps a name to
/// the list of names considered equivalent to it.
pub type AliasTable = Seq<(Seq<char>, Seq<Seq<char>>)>;

/// The alias list stored for `name`, if any: the first entry whose key
/// matches, scanning in directory order.
pub open spec fn lookup(table: AliasTable, name: Seq<char>) -> Option<Seq<Seq<char>>>
    decreases table.len(),
{
    if table.len() == 0 {
        Option::None
    } else if table[0].0 == name {
        Option::Some(table[0].1)
    } else {
        lookup(table.drop_first(), name)
    }
}

/// What `AliasResolver::resolve` returns: the stored alias list with the
/// target appended when the entry omits it, or the singleton target when
/// no entry exists.
pub open spec fn resolve_spec(table: AliasTable, target: Seq<char>) -> Seq<Seq<char>> {
    match lookup(table, target) {
        Option::None => seq![target],
        Option::Some(list) => if list.contains(target) {
            list
        } else {
            list.push(target)
        },
    }
}

/// The directory the engine starts with when none is supplied.
pub open spec fn default_table() -> AliasTable {
    seq![
        ("BlackNevas"@, seq!["Trigona"@, "BlackNevas"@]),
        ("Lazarus"@, seq!["Hidden Cobra"@, "Zinc"@, "Lazarus"@]),
    ]
}

/// A static mapping from a name to the full set of known equivalent
/// names for an entity. Entries are fixed at construction; lookup is
/// case-sensitive and exact-match only.
pub struct AliasResolver {
    entries: Vec<(String, Vec<String>)>,
}

impl View for AliasResolver {
    type V = AliasTable;

    closed spec fn view(&self) -> AliasTable {
        self.entries.deep_view()
    }
}

/// Whether `list` holds a string whose characters equal `term`'s.
fn contains_term(list: &Vec<String>, term: &String) -> (r: bool)
    ensures
        r == list.deep_view().contains(term@),
{
    let mut i: usize = 0;
    while i < list.len()
        invariant
            0 <= i <= list.len(),
            forall|k: int| 0 <= k < i ==> list.deep_view()[k] != term@,
        decreases list.len() - i,
    {
        if list[i] == *term {
            assert(list.deep_view()[i as int] == term@);
            return true;
        }
        i += 1;
    }
    assert(forall|k: int| 0 <= k < list.deep_view().len() ==> list.deep_view()[k] != term@);
    false
}

proof fn lemma_lookup_at(table: AliasTable, name: Seq<char>, i: int)
    requires
        0 <= i < table.len(),
        table[i].0 == name,
        forall|k: int| 0 <= k < i ==> table[k].0 != name,
    ensures
        lookup(table, name) == Option::Some(table[i].1),
    decreases i,
{
    if i > 0 {
        lemma_lookup_at(table.drop_first(), name, i - 1);
    }
}

proof fn lemma_lookup_none(table: AliasTable, name: Seq<char>)
    requires
        forall|k: int| 0 <= k < table.len() ==> table[k].0 != name,
    ensures
        lookup(table, name) is None,
    decreases table.len(),
{
    if table.len() > 0 {
        lemma_lookup_none(table.drop_first(), name);
    }
}

impl AliasResolver {
    /// A directory over the caller's own entries, in the given order.
    pub fn from_entries(entries: Vec<(String, Vec<String>)>) -> (r: AliasResolver)
        ensures
            r@ == entries.deep_view(),
    {
        AliasResolver { entries }
    }

    /// The built-in directory.
    pub fn new() -> (r: AliasResolver)
        ensures
            r@ == default_table(),
    {
        let mut entries: Vec<(String, Vec<String>)> = Vec::new();
        let mut black_nevas: Vec<String> = Vec::new();
        black_nevas.push("Trigona".to_owned());
        black_nevas.push("BlackNevas".to_owned());
        entries.push(("BlackNevas".to_owned(), black_nevas));
        let mut lazarus: Vec<String> = Vec::new();
        lazarus.push("Hidden Cobra".to_owned());
        lazarus.push("Zinc".to_owned());
        lazarus.push("Lazarus".to_owned());
        entries.push(("Lazarus".to_owned(), lazarus));
        let r = AliasResolver { entries };
        proof {
            assert(r@ =~~= default_table());
        }
        r
    }

    /// The ordered list of names equivalent to `target`: the stored
    /// entry (with `target` appended when the entry omits it), or the
    /// singleton `target` when no entry is registered.
    pub fn resolve(&self, target: &str) -> (r: Vec<String>)
        ensures
            r.deep_view() == resolve_spec(self@, target@),
            r.deep_view().contains(target@),
            r@.len() > 0,
            lookup(self@, target@) is None ==> r.deep_view() == seq![target@],
    {
        let target_owned: String = target.to_owned();
        let mut i: usize = 0;
        while i < self.entries.len()
            invariant
                0 <= i <= self.entries.len(),
                target_owned@ == target@,
                self@ == self.entries.deep_view(),
                forall|k: int| 0 <= k < i ==> self@[k].0 != target@,
            decreases self.entries.len() - i,
        {
            if self.entries[i].0 == target_owned {
                proof {
                    lemma_lookup_at(self@, target@, i as int);
                }
                let mut out = self.entries[i].1.clone();
                if !contains_term(&out, &target_owned) {
                    out.push(target_owned);
                    proof {
                        assert(out.deep_view() =~= self@[i as int].1.push(target@));
                        assert(out.deep_view()[out.deep_view().len() - 1] == target@);
                    }
                }
                assert(out.deep_view() == resolve_spec(self@, target@));
                assert(out.deep_view().contains(target@));
                return out;
            }
            i += 1;
        }
        proof {
            lemma_lookup_none(self@, target@);
        }
        let out = vec![target_owned];
        proof {
            assert(out.deep_view() =~= seq![target@]);
            assert(out.deep_view()[0] == target@);
        }
        out
    }
}

/// First-occurrence deduplication of a term list: the order of first
/// appearances is kept, later repeats are dropped.
pub open spec fn dedup_terms(s: Seq<Seq<char>>) -> Seq<Seq<char>>
    decreases s.len(),
{
    if s.len() == 0 {
        Seq::empty()
    } else {
        let prefix = dedup_terms(s.drop_last());
        if prefix.contains(s.last()) {
            prefix
        } else {
            prefix.push(s.last())
        }
    }
}

/// Deduplicating a term list neither adds nor removes terms.
pub proof fn lemma_dedup_terms_membership(s: Seq<Seq<char>>, x: Seq<char>)
    ensures
        dedup_terms(s).contains(x) == s.contains(x),
    decreases s.len(),
{
    if s.len() > 0 {
        let p = s.drop_last();
        let dp = dedup_terms(p);
        let d = dedup_terms(s);
        lemma_dedup_terms_membership(p, x);
        assert(forall|i: int| 0 <= i < p.len() ==> p[i] == s[i]);
        if s.contains(x) {
            let i = choose|i: int| 0 <= i < s.len() && s[i] == x;
            if i < s.len() - 1 {
                assert(p[i] == x);
                assert(p.contains(x));
                let j = choose|j: int| 0 <= j < dp.len() && dp[j] == x;
                assert(d[j] == x);
                assert(d.contains(x));
            } else {
                assert(x == s.last());
                if dp.contains(s.last()) {
                    assert(d.contains(x));
                } else {
                    assert(d[d.len() - 1] == x);
                    assert(d.contains(x));
                }
            }
        } else {
            assert(forall|i: int| 0 <= i < p.len() ==> p[i] != x);
            assert(!p.contains(x));
            assert(x != s.last());
            if !dp.contains(s.last()) {
                assert forall|j: int| 0 <= j < d.len() implies d[j] != x by {
                    if j < dp.len() {
                        assert(d[j] == dp[j]);
                    }
                }
            }
            assert(!d.contains(x));
        }
    }
}

/// The terms a target expands to: its alias resolution with duplicate
/// terms removed, first occurrence first.
pub open spec fn expand_spec(table: AliasTable, target: Seq<char>) -> Seq<Seq<char>> {
    dedup_terms(resolve_spec(table, target))
}

/// The ordered set of unique search terms for `target`: alias
/// resolution followed by first-occurrence deduplication. The result
/// always holds `target`, so it is never empty.
pub fn expand_terms(resolver: &AliasResolver, target: &str) -> (r: Vec<String>)
    ensures
        r.deep_view() == expand_spec(resolver@, target@),
        r.deep_view().contains(target@),
        r@.len() > 0,
        forall|i: int, j: int|
            0 <= i < j < r@.len() ==> r.deep_view()[i] != r.deep_view()[j],
{
    let raw = resolver.resolve(target);
    let mut out: Vec<String> = Vec::new();
    let mut i: usize = 0;
    while i < raw.len()
        invariant
            0 <= i <= raw.len(),
            out.deep_view() == dedup_terms(raw.deep_view().take(i as int)),
            forall|p: int, q: int|
                0 <= p < q < out@.len() ==> out.deep_view()[p] != out.deep_view()[q],
        decreases raw.len() - i,
    {
        let ghost prefix = raw.deep_view().take(i as int);
        let ghost next = raw.deep_view().take(i as int + 1);
        proof {
            assert(next.drop_last() =~= prefix);
            assert(next.last() == raw.deep_view()[i as int]);
        }
        if !contains_term(&out, &raw[i]) {
            out.push(raw[i].clone());
            proof {
                assert(out.deep_view() =~= dedup_terms(prefix).push(raw.deep_view()[i as int]));
            }
        }
        i += 1;
    }
    proof {
        assert(raw.deep_view().take(raw@.len() as int) =~= raw.deep_view());
        lemma_dedup_terms_membership(raw.deep_view(), target@);
    }
    out
}

/// One planned fetch: a feed (by name) and the term to query it with.
pub struct FetchTask {
    pub source: String,
    pub term: String,
}

impl DeepView for FetchTask {
    type V = (Seq<char>, Seq<char>);

    open spec fn deep_view(&self) -> (Seq<char>, Seq<char>) {
        (self.source@, self.term@)
    }
}

/// All tasks for one feed, term-minor: one per term, in term order.
pub open spec fn task_row(source: Seq<char>, terms: Seq<Seq<char>>) -> Seq<(Seq<char>, Seq<char>)> {
    Seq::new(terms.len(), |j: int| (source, terms[j]))
}

/// The full task set for a run, feed-major and term-minor: every feed's
/// row of terms, in feed registration order.
pub open spec fn cross_tasks(sources: Seq<Seq<char>>, terms: Seq<Seq<char>>) -> Seq<
    (Seq<char>, Seq<char>),
>
    decreases sources.len(),
{
    if sources.len() == 0 {
        Seq::empty()
    } else {
        cross_tasks(sources.drop_last(), terms) + task_row(sources.last(), terms)
    }
}

/// Fan-out size: for F feeds and T terms, exactly F times T tasks are
/// planned.
pub proof fn lemma_cross_tasks_len(sources: Seq<Seq<char>>, terms: Seq<Seq<char>>)
    ensures
        cross_tasks(sources, terms).len() == sources.len() * terms.len(),
    decreases sources.len(),
{
    if sources.len() > 0 {
        lemma_cross_tasks_len(sources.drop_last(), terms);
        assert((sources.len() - 1) * terms.len() + terms.len() == sources.len() * terms.len())
            by (nonlinear_arith);
    }
}

/// The task set is laid out feed-major and term-minor: the task for
/// feed `i` and term `j` stands at position `i * terms.len() + j`.
pub proof fn lemma_cross_tasks_index(sources: Seq<Seq<char>>, terms: Seq<Seq<char>>, i: int, j: int)
    requires
        0 <= i < sources.len(),
        0 <= j < terms.len(),
    ensures
        cross_tasks(sources, terms)[i * terms.len() + j] == (sources[i], terms[j]),
    decreases sources.len(),
{
    let p = sources.drop_last();
    lemma_cross_tasks_len(p, terms);
    lemma_cross_tasks_len(sources, terms);
    assert(0 <= i * terms.len() + j < sources.len() * terms.len()) by (nonlinear_arith)
        requires
            0 <= i < sources.len(),
            0 <= j < terms.len(),
    ;
    if i < sources.len() - 1 {
        lemma_cross_tasks_index(p, terms, i, j);
        assert(i * terms.len() + j < p.len() * terms.len()) by (nonlinear_arith)
            requires
                0 <= i < p.len(),
                0 <= j < terms.len(),
        ;
        assert(cross_tasks(sources, terms)[i * terms.len() + j] == cross_tasks(p, terms)[i
            * terms.len() + j]);
    } else {
        assert(sources.last() == sources[i]);
        let base = p.len() * terms.len();
        assert(i == p.len());
        assert(i * terms.len() == base);
        assert(i * terms.len() + j == base + j);
        assert(cross_tasks(sources, terms)[base + j] == task_row(sources.last(), terms)[j]);
    }
}

/// The planned task list: one task per (feed, term) pair, feed-major
/// and term-minor. Its length is the fan-out size, feeds times terms.
pub fn build_tasks(sources: &Vec<String>, terms: &Vec<String>) -> (r: Vec<FetchTask>)
    ensures
        r.deep_view() == cross_tasks(sources.deep_view(), terms.deep_view()),
        r@.len() == sources@.len() * terms@.len(),
{
    let mut out: Vec<FetchTask> = Vec::new();
    let mut i: usize = 0;
    while i < sources.len()
        invariant
            0 <= i <= sources.len(),
            out.deep_view() == cross_tasks(sources.deep_view().take(i as int), terms.deep_view()),
        decreases sources.len() - i,
    {
        let ghost s_prefix = sources.deep_view().take(i as int);
        let ghost s_next = sources.deep_view().take(i as int + 1);
        proof {
            assert(s_next.drop_last() =~= s_prefix);
            assert(s_next.last() == sources.deep_view()[i as int]);
        }
        let mut j: usize = 0;
        while j < terms.len()
            invariant
                0 <= j <= terms.len(),
                i < sources.len(),
                s_prefix == sources.deep_view().take(i as int),
                out.deep_view() == cross_tasks(s_prefix, terms.deep_view()) + task_row(
                    sources.deep_view()[i as int],
                    terms.deep_view().take(j as int),
                ),
            decreases terms.len() - j,
        {
            let ghost prev = out.deep_view();
            let task = FetchTask { source: sources[i].clone(), term: terms[j].clone() };
            proof {
                assert(task.deep_view() == (
                    sources.deep_view()[i as int],
                    terms.deep_view()[j as int],
                ));
            }
            out.push(task);
            proof {
                assert(out.deep_view() =~= prev.push((
                    sources.deep_view()[i as int],
                    terms.deep_view()[j as int],
                )));
                assert(task_row(
                    sources.deep_view()[i as int],
                    terms.deep_view().take(j as int + 1),
                ) =~= task_row(
                    sources.deep_view()[i as int],
                    terms.deep_view().take(j as int),
                ).push((sources.deep_view()[i as int], terms.deep_view()[j as int])));
                assert(out.deep_view() =~= cross_tasks(s_prefix, terms.deep_view()) + task_row(
                    sources.deep_view()[i as int],
                    terms.deep_view().take(j as int + 1),
                ));
            }
            j += 1;
        }
        proof {
            assert(terms.deep_view().take(terms@.len() as int) =~= terms.deep_view());
            assert(out.deep_view() == cross_tasks(s_next, terms.deep_view()));
        }
        i += 1;
    }
    proof {
        assert(sources.deep_view().take(sources@.len() as int) =~= sources.deep_view());
        lemma_cross_tasks_len(sources.deep_view(), terms.deep_view());
    }
    out
}

/// What one task came back with: the task's identity together with the
/// feed's answer, a list of indicators or a failure detail.
pub struct TaskResult {
    pub source: String,
    pub term: String,
    pub outcome: Result<Vec<Indicator>, String>,
}

/// A recorded per-task failure: which feed, for which term, and the
/// failure detail it reported.
pub struct FetchFailure {
    pub source: String,
    pub term: String,
    pub detail: String,
}

/// The indicators a task contributes: its list on success, nothing on
/// failure.
pub open spec fn ok_indicators(tr: TaskResult) -> Seq<Indicator> {
    match tr.outcome {
        Ok(list) => list@,
        Err(_) => Seq::empty(),
    }
}

/// All indicators of the succeeding tasks, concatenated in task order.
/// Failed tasks contribute nothing and remove nothing.
pub open spec fn successes(outs: Seq<TaskResult>) -> Seq<Indicator>
    decreases outs.len(),
{
    if outs.len() == 0 {
        Seq::empty()
    } else {
        successes(outs.drop_last()) + ok_indicators(outs.last())
    }
}

/// The recorded failures, one per failed task, in task order.
pub open spec fn failures_of(outs: Seq<TaskResult>) -> Seq<FetchFailure>
    decreases outs.len(),
{
    if outs.len() == 0 {
        Seq::empty()
    } else {
        let rest = failures_of(outs.drop_last());
        match outs.last().outcome {
            Ok(_) => rest,
            Err(e) => rest.push(
                (FetchFailure { source: outs.last().source, term: outs.last().term, detail: e }),
            ),
        }
    }
}

/// Whether some indicator in `s` has the deduplication key `k`.
pub open spec fn contains_key(s: Seq<Indicator>, k: (Seq<char>, IndicatorTypeView)) -> bool {
    exists|i: int| 0 <= i < s.len() && dedup_key(s[i]) == k
}

/// First-seen-wins deduplication: of all indicators sharing a key, only
/// the first in sequence order is kept; order of the kept ones is
/// preserved.
pub open spec fn dedup_indicators(s: Seq<Indicator>) -> Seq<Indicator>
    decreases s.len(),
{
    if s.len() == 0 {
        Seq::empty()
    } else {
        let prefix = dedup_indicators(s.drop_last());
        if contains_key(prefix, dedup_key(s.last())) {
            prefix
        } else {
            prefix.push(s.last())
        }
    }
}

/// No two indicators of `s` share a deduplication key.
pub open spec fn unique_keys(s: Seq<Indicator>) -> bool {
    forall|i: int, j: int| 0 <= i < j < s.len() ==> dedup_key(s[i]) != dedup_key(s[j])
}

/// Deduplication neither invents nor loses keys: the deduplicated list
/// has an indicator with key `k` exactly when the given list has.
pub proof fn lemma_dedup_preserves_keys(s: Seq<Indicator>, k: (Seq<char>, IndicatorTypeView))
    ensures
        contains_key(dedup_indicators(s), k) == contains_key(s, k),
    decreases s.len(),
{
    if s.len() > 0 {
        let p = s.drop_last();
        let dp = dedup_indicators(p);
        let d = dedup_indicators(s);
        lemma_dedup_preserves_keys(p, k);
        assert(forall|i: int| 0 <= i < p.len() ==> p[i] == s[i]);
        if contains_key(s, k) {
            let i = choose|i: int| 0 <= i < s.len() && dedup_key(s[i]) == k;
            if i < s.len() - 1 {
                assert(dedup_key(p[i]) == k);
                assert(contains_key(p, k));
                let j = choose|j: int| 0 <= j < dp.len() && dedup_key(dp[j]) == k;
                assert(dedup_key(d[j]) == k);
                assert(contains_key(d, k));
            } else {
                if contains_key(dp, dedup_key(s.last())) {
                    assert(contains_key(d, k));
                } else {
                    assert(dedup_key(d[d.len() - 1]) == k);
                    assert(contains_key(d, k));
                }
            }
        } else {
            assert(forall|i: int| 0 <= i < p.len() ==> dedup_key(p[i]) != k);
            assert(!contains_key(p, k));
            assert(dedup_key(s.last()) != k);
            if !contains_key(dp, dedup_key(s.last())) {
                assert forall|j: int| 0 <= j < d.len() implies dedup_key(d[j]) != k by {
                    if j < dp.len() {
                        assert(d[j] == dp[j]);
                    }
                }
            }
            assert(!contains_key(d, k));
        }
    }
}

/// The deduplicated list never holds two indicators with one key.
pub proof fn lemma_dedup_unique_keys(s: Seq<Indicator>)
    ensures
        unique_keys(dedup_indicators(s)),
    decreases s.len(),
{
    if s.len() > 0 {
        let p = s.drop_last();
        let dp = dedup_indicators(p);
        let d = dedup_indicators(s);
        lemma_dedup_unique_keys(p);
        if !contains_key(dp, dedup_key(s.last())) {
            assert forall|i: int, j: int| 0 <= i < j < d.len() implies dedup_key(d[i])
                != dedup_key(d[j]) by {
                if j < dp.len() {
                    assert(dedup_key(dp[i]) != dedup_key(dp[j]));
                } else {
                    assert(d[j] == s.last());
                    assert(d[i] == dp[i]);
                    assert(dedup_key(dp[i]) != dedup_key(s.last()));
                }
            }
        }
    }
}

/// A list whose keys are already unique is its own deduplication.
pub proof fn lemma_dedup_of_unique_is_identity(s: Seq<Indicator>)
    requires
        unique_keys(s),
    ensures
        dedup_indicators(s) == s,
    decreases s.len(),
{
    if s.len() > 0 {
        let p = s.drop_last();
        assert(forall|i: int| 0 <= i < p.len() ==> p[i] == s[i]);
        lemma_dedup_of_unique_is_identity(p);
        if contains_key(p, dedup_key(s.last())) {
            let i = choose|i: int| 0 <= i < p.len() && dedup_key(p[i]) == dedup_key(s.last());
            assert(dedup_key(s[i]) == dedup_key(s[s.len() - 1]));
            assert(false);
        }
        assert(dedup_indicators(s) =~= s);
    }
}

/// Deduplication is idempotent: running it twice over one merged list
/// yields the same sequence as running it once.
pub proof fn lemma_dedup_idempotent(s: Seq<Indicator>)
    ensures
        dedup_indicators(dedup_indicators(s)) == dedup_indicators(s),
{
    lemma_dedup_unique_keys(s);
    lemma_dedup_of_unique_is_identity(dedup_indicators(s));
}

/// `s[i]` is the first indicator in `s` that carries its key.
pub open spec fn first_with_key(s: Seq<Indicator>, i: int) -> bool {
    forall|h: int| 0 <= h < i ==> dedup_key(s[h]) != dedup_key(s[i])
}

/// Every first carrier of a key survives deduplication.
pub proof fn lemma_dedup_keeps_first(s: Seq<Indicator>, i: int)
    requires
        0 <= i < s.len(),
        first_with_key(s, i),
    ensures
        dedup_indicators(s).contains(s[i]),
    decreases s.len(),
{
    let p = s.drop_last();
    let dp = dedup_indicators(p);
    let d = dedup_indicators(s);
    assert(forall|h: int| 0 <= h < p.len() ==> p[h] == s[h]);
    if i < s.len() - 1 {
        lemma_dedup_keeps_first(p, i);
        let j = choose|j: int| 0 <= j < dp.len() && dp[j] == p[i];
        assert(d[j] == s[i]);
        assert(d.contains(s[i]));
    } else {
        lemma_dedup_preserves_keys(p, dedup_key(s.last()));
        if contains_key(p, dedup_key(s.last())) {
            let h = choose|h: int| 0 <= h < p.len() && dedup_key(p[h]) == dedup_key(s.last());
            assert(dedup_key(s[h]) == dedup_key(s[i]));
            assert(false);
        }
        assert(d[d.len() - 1] == s[i]);
        assert(d.contains(s[i]));
    }
}

/// Every survivor of deduplication is the first carrier of its key.
pub proof fn lemma_dedup_members_are_first(s: Seq<Indicator>, j: int)
    requires
        0 <= j < dedup_indicators(s).len(),
    ensures
        exists|i: int|
            0 <= i < s.len() && #[trigger] first_with_key(s, i) && dedup_indicators(s)[j] == s[i],
    decreases s.len(),
{
    let p = s.drop_last();
    let dp = dedup_indicators(p);
    let d = dedup_indicators(s);
    assert(forall|h: int| 0 <= h < p.len() ==> p[h] == s[h]);
    if j < dp.len() {
        lemma_dedup_members_are_first(p, j);
        let i = choose|i: int| 0 <= i < p.len() && #[trigger] first_with_key(p, i) && dp[j] == p[i];
        assert(first_with_key(s, i));
        assert(d[j] == s[i]);
    } else {
        assert(!contains_key(dp, dedup_key(s.last())));
        lemma_dedup_preserves_keys(p, dedup_key(s.last()));
        let i = s.len() - 1;
        assert(forall|h: int| 0 <= h < i ==> dedup_key(s[h]) != dedup_key(s[i]));
        assert(first_with_key(s, i));
        assert(d[j] == s[i]);
    }
}

/// Key correctness of deduplication: when two indicators share a
/// deduplication key, the earlier one (the first carrier of the key in
/// task order) is kept and the later one is discarded, however their
/// other fields differ.
pub proof fn lemma_dedup_key_correctness(s: Seq<Indicator>, i: int, j: int)
    requires
        0 <= i < j < s.len(),
        dedup_key(s[i]) == dedup_key(s[j]),
        first_with_key(s, i),
    ensures
        dedup_indicators(s).contains(s[i]),
        s[j] != s[i] ==> !dedup_indicators(s).contains(s[j]),
{
    lemma_dedup_keeps_first(s, i);
    if s[j] != s[i] && dedup_indicators(s).contains(s[j]) {
        let jj = choose|jj: int|
            0 <= jj < dedup_indicators(s).len() && dedup_indicators(s)[jj] == s[j];
        lemma_dedup_members_are_first(s, jj);
        let m = choose|m: int|
            0 <= m < s.len() && #[trigger] first_with_key(s, m) && dedup_indicators(s)[jj] == s[m];
        assert(dedup_key(s[m]) == dedup_key(s[i]));
        if m < i {
            assert(dedup_key(s[m]) != dedup_key(s[i]));
        }
        if m > i {
            assert(dedup_key(s[i]) != dedup_key(s[m]));
        }
        assert(m == i);
        assert(false);
    }
}

/// The task results whose outcome was a success, in task order.
pub open spec fn successful_only(outs: Seq<TaskResult>) -> Seq<TaskResult>
    decreases outs.len(),
{
    if outs.len() == 0 {
        Seq::empty()
    } else {
        let rest = successful_only(outs.drop_last());
        if outs.last().outcome is Ok {
            rest.push(outs.last())
        } else {
            rest
        }
    }
}

/// No short-circuit: failed tasks neither add nor remove indicators.
/// The succeeding tasks alone determine the merged sequence, so every
/// indicator a succeeding task produced is returned whatever the other
/// tasks did.
pub proof fn lemma_failures_do_not_affect_indicators(outs: Seq<TaskResult>)
    ensures
        successes(outs) == successes(successful_only(outs)),
        dedup_indicators(successes(outs)) == dedup_indicators(successes(successful_only(outs))),
    decreases outs.len(),
{
    if outs.len() > 0 {
        let p = outs.drop_last();
        lemma_failures_do_not_affect_indicators(p);
        if outs.last().outcome is Ok {
            let grown = successful_only(p).push(outs.last());
            assert(grown.drop_last() =~= successful_only(p));
            assert(successes(grown) == successes(successful_only(p)) + ok_indicators(outs.last()));
            assert(successes(outs) =~= successes(successful_only(outs)));
        } else {
            assert(ok_indicators(outs.last()) =~= Seq::<Indicator>::empty());
            assert(successes(outs) =~= successes(p));
        }
    }
}

/// Whether `inds` already holds an indicator with `ind`'s key.
fn contains_indicator_key(inds: &Vec<Indicator>, ind: &Indicator) -> (r: bool)
    ensures
        r == contains_key(inds@, dedup_key(*ind)),
{
    let mut i: usize = 0;
    while i < inds.len()
        invariant
            0 <= i <= inds.len(),
            forall|k: int| 0 <= k < i ==> dedup_key(inds@[k]) != dedup_key(*ind),
        decreases inds.len() - i,
    {
        if inds[i].same_key(ind) {
            return true;
        }
        i += 1;
    }
    false
}

/// Merges completed task results in task order: indicators of
/// succeeding tasks are kept under first-seen-wins deduplication, and
/// every failed task is recorded, so no failure discards another task's
/// results.
pub fn merge_results(outcomes: Vec<TaskResult>) -> (r: (Vec<Indicator>, Vec<FetchFailure>))
    ensures
        r.0@ == dedup_indicators(successes(outcomes@)),
        r.1@ == failures_of(outcomes@),
        unique_keys(r.0@),
{
    let ghost orig = outcomes@;
    let mut rest = outcomes;
    let mut inds: Vec<Indicator> = Vec::new();
    let mut fails: Vec<FetchFailure> = Vec::new();
    let ghost mut k: int = 0;
    while rest.len() > 0
        invariant
            0 <= k <= orig.len(),
            rest@ == orig.skip(k),
            inds@ == dedup_indicators(successes(orig.take(k))),
            fails@ == failures_of(orig.take(k)),
            unique_keys(inds@),
        decreases rest@.len(),
    {
        let tr = rest.remove(0);
        proof {
            assert(orig.skip(k).remove(0) =~= orig.skip(k + 1));
            assert(tr == orig[k]);
            assert(orig.take(k + 1).drop_last() =~= orig.take(k));
        }
        let ghost done = orig.take(k);
        match tr.outcome {
            Ok(list) => {
                let ghost whole = list@;
                let mut items = list;
                let ghost mut m: int = 0;
                while items.len() > 0
                    invariant
                        0 <= m <= whole.len(),
                        items@ == whole.skip(m),
                        inds@ == dedup_indicators(successes(done) + whole.take(m)),
                        unique_keys(inds@),
                    decreases items@.len(),
                {
                    let ind = items.remove(0);
                    proof {
                        assert(whole.skip(m).remove(0) =~= whole.skip(m + 1));
                        assert(ind == whole[m]);
                        let grown = successes(done) + whole.take(m + 1);
                        assert(grown.drop_last() =~= successes(done) + whole.take(m));
                        assert(grown.last() == ind);
                    }
                    if !contains_indicator_key(&inds, &ind) {
                        proof {
                            assert(forall|p: int|
                                0 <= p < inds@.len() ==> dedup_key(inds@[p]) != dedup_key(ind));
                        }
                        inds.push(ind);
                    }
                    proof {
                        m = m + 1;
                    }
                }
                proof {
                    assert(whole.take(whole.len() as int) =~= whole);
                    assert(successes(orig.take(k + 1)) =~= successes(done) + whole);
                    assert(failures_of(orig.take(k + 1)) == failures_of(done));
                }
            },
            Err(detail) => {
                fails.push(FetchFailure { source: tr.source, term: tr.term, detail });
                proof {
                    assert(successes(orig.take(k + 1)) =~= successes(done));
                }
            },
        }
        proof {
            k = k + 1;
        }
    }
    proof {
        assert(orig.take(orig.len() as int) =~= orig);
    }
    (inds, fails)
}

/// The tasks come in feed-major blocks: one block of `terms.len()`
/// consecutive tasks per feed name, term-minor within the block.
pub open spec fn tasks_grouped_by_feed(
    outs: Seq<TaskResult>,
    names: Seq<Seq<char>>,
    terms: Seq<Seq<char>>,
) -> bool {
    forall|x: int|
        0 <= x < outs.len() ==> {
            &&& (#[trigger] outs[x].source@) == names[x / (terms.len() as int)]
            &&& outs[x].term@ == terms[x % (terms.len() as int)]
        }
}

/// What one engine run leaves behind: one completed task per (feed,
/// term) pair — feed-count blocks of term-count tasks, each block under
/// one feed's name, term-minor within it — the returned indicators are
/// the first-seen-wins deduplication of everything the succeeding tasks
/// produced, and the returned failures are exactly the failed tasks'
/// records.
pub open spec fn run_reflects_outcomes(
    count: nat,
    table: AliasTable,
    target: Seq<char>,
    outs: Seq<TaskResult>,
    inds: Seq<Indicator>,
    fails: Seq<FetchFailure>,
) -> bool {
    let terms = expand_spec(table, target);
    &&& outs.len() == count * terms.len()
    &&& (exists|names: Seq<Seq<char>>|
        names.len() == count && #[trigger] tasks_grouped_by_feed(outs, names, terms))
    &&& inds == dedup_indicators(successes(outs))
    &&& fails == failures_of(outs)
}

/// With zero feeds registered there are zero tasks, so a run returns an
/// empty indicator list and records no failures, whatever the target.
pub proof fn lemma_run_with_zero_feeds_is_empty(
    table: AliasTable,
    target: Seq<char>,
    outs: Seq<TaskResult>,
    inds: Seq<Indicator>,
    fails: Seq<FetchFailure>,
)
    requires
        run_reflects_outcomes(0, table, target, outs, inds, fails),
    ensures
        inds == Seq::<Indicator>::empty(),
        fails == Seq::<FetchFailure>::empty(),
{
    assert(outs.len() == 0);
    assert(outs =~= Seq::<TaskResult>::empty());
}

/// The aggregation engine: a list of registered feeds and an alias
/// directory. One `run` expands the target into terms, queries every
/// feed with every term, and merges the answers.
pub struct Engine {
    sources: Vec<Box<dyn ThreatSource>>,
    resolver: AliasResolver,
}

impl Engine {
    /// The registered feeds, in registration order. That order is what
    /// fixes the feed-major task order of a run.
    pub closed spec fn sources_seq(&self) -> Seq<Box<dyn ThreatSource>> {
        self.sources@
    }

    /// How many feeds are registered.
    pub open spec fn source_count(&self) -> nat {
        self.sources_seq().len()
    }

    /// The alias directory the engine expands targets with.
    pub closed spec fn directory(&self) -> AliasTable {
        self.resolver@
    }

    /// An engine over the given feeds, with the built-in alias
    /// directory.
    pub fn new(sources: Vec<Box<dyn ThreatSource>>) -> (r: Engine)
        ensures
            r.sources_seq() == sources@,
            r.source_count() == sources@.len(),
            r.directory() == default_table(),
    {
        Engine { sources, resolver: AliasResolver::new() }
    }

    /// An engine over the given feeds and the given alias directory.
    pub fn with_resolver(sources: Vec<Box<dyn ThreatSource>>, resolver: AliasResolver) -> (r:
        Engine)
        ensures
            r.sources_seq() == sources@,
            r.source_count() == sources@.len(),
            r.directory() == resolver@,
    {
        Engine { sources, resolver }
    }

    /// One aggregation run: every registered feed is queried with every
    /// expanded term, no task's failure discards another task's answer,
    /// and the merged indicators are deduplicated first-seen-wins in
    /// feed-major, term-minor task order. Failures are returned beside
    /// the indicators, never instead of them.
    pub fn run(&self, config: &QueryConfig) -> (r: (Vec<Indicator>, Vec<FetchFailure>))
        ensures
            unique_keys(r.0@),
            exists|outs: Seq<TaskResult>|
                #[trigger] run_reflects_outcomes(
                    self.source_count(),
                    self.directory(),
                    config.target_name@,
                    outs,
                    r.0@,
                    r.1@,
                ),
    {
        let terms = expand_terms(&self.resolver, config.target_name.as_str());
        let ghost t: int = terms@.len() as int;
        let ghost term_views = expand_spec(self.directory(), config.target_name@);
        let ghost mut names: Seq<Seq<char>> = Seq::empty();
        let mut outcomes: Vec<TaskResult> = Vec::new();
        let mut i: usize = 0;
        while i < self.sources.len()
            invariant
                0 <= i <= self.sources@.len(),
                outcomes@.len() == i * t,
                t == terms@.len(),
                t > 0,
                terms.deep_view() == term_views,
                names.len() == i,
                tasks_grouped_by_feed(outcomes@, names, term_views),
            decreases self.sources@.len() - i,
        {
            let name = self.sources[i].name();
            let source_name: String = name.to_owned();
            proof {
                let names_prev = names;
                names = names.push(source_name@);
                assert forall|x: int| 0 <= x < outcomes@.len() implies {
                    &&& (#[trigger] outcomes@[x].source@) == names[x / t]
                    &&& outcomes@[x].term@ == term_views[x % t]
                } by {
                    assert(0 <= x / t < i) by (nonlinear_arith)
                        requires
                            0 <= x < i * t,
                            t > 0,
                    ;
                    assert(outcomes@[x].source@ == names_prev[x / t]);
                    assert(names[x / t] == names_prev[x / t]);
                }
            }
            let mut j: usize = 0;
            while j < terms.len()
                invariant
                    0 <= j <= terms@.len(),
                    i < self.sources@.len(),
                    outcomes@.len() == i * t + j,
                    t == terms@.len(),
                    t > 0,
                    terms.deep_view() == term_views,
                    names.len() == i + 1,
                    names[i as int] == source_name@,
                    tasks_grouped_by_feed(outcomes@, names, term_views),
                decreases terms@.len() - j,
            {
                let outcome = self.sources[i].fetch(terms[j].as_str());
                outcomes.push(
                    TaskResult { source: source_name.clone(), term: terms[j].clone(), outcome },
                );
                proof {
                    assert((i * t + j) % t == j && (i * t + j) / t == i) by (nonlinear_arith)
                        requires
                            0 <= j < t,
                            0 <= i,
                    ;
                    assert(outcomes@[outcomes@.len() - 1].term@ == term_views[j as int]);
                    assert(outcomes@[outcomes@.len() - 1].source@ == names[i as int]);
                }
                j += 1;
            }
            proof {
                assert(i * t + t == (i + 1) * t) by (nonlinear_arith);
            }
            i += 1;
        }
        let ghost outs = outcomes@;
        let (inds, fails) = merge_results(outcomes);
        proof {
            assert(names.len() == self.source_count());
            assert(run_reflects_outcomes(
                self.source_count(),
                self.directory(),
                config.target_name@,
                outs,
                inds@,
                fails@,
            ));
        }
        (inds, fails)
    }
}

} // verus!
