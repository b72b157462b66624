//! Candidate selection: which safelisted sites have too few recent visits,
//! and the removal of their exception entries from the preferences document.

use vstd::prelude::*;
use crate::history::{VisitedModel, VisitedSite};
use crate::is_prefix_of;
use crate::json::{
    parse_json, parsed_json, pretty, remove_exceptions, remove_exceptions_model, to_pretty_string,
    PreferencesError,
};
use crate::preferences::{SiteModel, SiteWithJs};

verus! {

broadcast use vstd::std_specs::vec::group_vec_axioms, vstd::seq::group_seq_axioms;

/// The visits that `history` contributes to the safelisted origin `origin`:
/// the sum of the visit counts of every visited URL that extends `origin` as
/// a literal string prefix.
pub open spec fn total_visits(history: Seq<VisitedModel>, origin: Seq<char>) -> int
    decreases history.len(),
{
    if history.len() == 0 {
        0
    } else {
        total_visits(history.drop_last(), origin) + if is_prefix_of(
            origin,
            history.last().url,
        ) {
            history.last().visits as int
        } else {
            0
        }
    }
}

/// A visit total is never negative.
pub proof fn lemma_total_visits_nonneg(history: Seq<VisitedModel>, origin: Seq<char>)
    ensures
        total_visits(history, origin) >= 0,
    decreases history.len(),
{
    if history.len() > 0 {
        lemma_total_visits_nonneg(history.drop_last(), origin);
    }
}

/// Visit totals aggregate over the history: what two parts of the history
/// contribute to an origin is the sum of what each part contributes, so
/// several visited URLs under one origin add their counts up before the
/// threshold comparison.
pub proof fn lemma_total_visits_additive(
    h1: Seq<VisitedModel>,
    h2: Seq<VisitedModel>,
    origin: Seq<char>,
)
    ensures
        total_visits(h1 + h2, origin) == total_visits(h1, origin) + total_visits(h2, origin),
    decreases h2.len(),
{
    if h2.len() == 0 {
        assert(h1 + h2 =~= h1);
    } else {
        lemma_total_visits_additive(h1, h2.drop_last(), origin);
        assert((h1 + h2).drop_last() =~= h1 + h2.drop_last());
        assert((h1 + h2).last() == h2.last());
    }
}

/// `x` clamped into the range of a machine count.
pub open spec fn clamped(x: int) -> int {
    if x <= u64::MAX as int {
        x
    } else {
        u64::MAX as int
    }
}

/// The visits that `history` contributes to the origin `origin`, clamped at
/// the largest machine count.
fn visits_for(history: &Vec<VisitedSite>, origin: &str) -> (r: u64)
    ensures
        r as int == clamped(total_visits(history.deep_view(), origin@)),
{
    let ghost model = history.deep_view();
    let n = history.len();
    let mut sum: u64 = 0;
    let mut i: usize = 0;
    proof {
        assert(model.take(0) =~= Seq::<VisitedModel>::empty());
    }
    while i < n
        invariant
            0 <= i <= n,
            n == history@.len(),
            model == history.deep_view(),
            model.len() == n,
            forall|j: int| 0 <= j < n ==> model[j] == history@[j]@,
            sum as int == clamped(total_visits(model.take(i as int), origin@)),
        decreases n - i,
    {
        let site = &history[i];
        proof {
            assert(model.take(i + 1).drop_last() =~= model.take(i as int));
            assert(model.take(i + 1).last() == model[i as int]);
            lemma_total_visits_nonneg(model.take(i as int), origin@);
        }
        if crate::starts_with(site.url.as_str(), origin) {
            if sum <= u64::MAX - site.visits {
                sum = sum + site.visits;
            } else {
                sum = u64::MAX;
            }
        }
        i = i + 1;
    }
    proof {
        assert(model.take(n as int) =~= model);
    }
    sum
}

/// The sequence with every repetition of an earlier element dropped: each
/// value keeps its first occurrence, in order.
pub open spec fn first_occurrences(s: Seq<SiteModel>) -> Seq<SiteModel>
    decreases s.len(),
{
    if s.len() == 0 {
        Seq::empty()
    } else {
        let rest = first_occurrences(s.drop_last());
        if s.drop_last().contains(s.last()) {
            rest
        } else {
            rest.push(s.last())
        }
    }
}

/// Dropping repetitions keeps exactly the values of the sequence.
pub proof fn lemma_first_occurrences_contains(s: Seq<SiteModel>, x: SiteModel)
    ensures
        first_occurrences(s).contains(x) <==> s.contains(x),
    decreases s.len(),
{
    if s.len() > 0 {
        lemma_first_occurrences_contains(s.drop_last(), x);
        let rest = first_occurrences(s.drop_last());
        let last = s.last();
        assert(s.contains(x) <==> s.drop_last().contains(x) || x == last) by {
            if s.contains(x) {
                let i = choose|i: int| 0 <= i < s.len() && s[i] == x;
                if i < s.len() - 1 {
                    assert(s.drop_last()[i] == x);
                }
            }
            if s.drop_last().contains(x) {
                let i = choose|i: int| 0 <= i < s.drop_last().len() && s.drop_last()[i] == x;
                assert(s[i] == x);
            }
            if x == last {
                assert(s[s.len() - 1] == x);
            }
        }
        if !s.drop_last().contains(last) {
            assert(rest.push(last).contains(x) <==> rest.contains(x) || x == last) by {
                if rest.contains(x) {
                    let i = choose|i: int| 0 <= i < rest.len() && rest[i] == x;
                    assert(rest.push(last)[i] == x);
                }
                if x == last {
                    assert(rest.push(last)[rest.len() as int] == x);
                }
                if rest.push(last).contains(x) {
                    let i = choose|i: int| 0 <= i < rest.push(last).len() && rest.push(last)[i]
                        == x;
                    if i < rest.len() {
                        assert(rest[i] == x);
                    }
                }
            }
        }
    }
}

/// Dropping repetitions leaves no two equal elements.
pub proof fn lemma_first_occurrences_no_duplicates(s: Seq<SiteModel>)
    ensures
        first_occurrences(s).no_duplicates(),
    decreases s.len(),
{
    if s.len() > 0 {
        lemma_first_occurrences_no_duplicates(s.drop_last());
        let rest = first_occurrences(s.drop_last());
        let last = s.last();
        if !s.drop_last().contains(last) {
            lemma_first_occurrences_contains(s.drop_last(), last);
            assert(!rest.contains(last));
            assert forall|i: int, j: int|
                0 <= i < rest.push(last).len() && 0 <= j < rest.push(last).len() && i
                    != j implies rest.push(last)[i] != rest.push(last)[j] by {
                if i < rest.len() && j < rest.len() {
                    assert(rest.push(last)[i] == rest[i]);
                    assert(rest.push(last)[j] == rest[j]);
                } else if j == rest.len() {
                    assert(rest.push(last)[i] == rest[i]);
                    if rest[i] == last {
                        assert(rest.contains(last));
                    }
                } else {
                    assert(rest.push(last)[j] == rest[j]);
                    if rest[j] == last {
                        assert(rest.contains(last));
                    }
                }
            }
        }
    }
}

/// The safelisted entries whose visit total falls strictly below the
/// threshold, in safelist order, each distinct entry at most once: the
/// aggregation is keyed by the full (url, key) identity, so a repeated
/// safelist entry contributes one candidate.
pub open spec fn candidates(
    safelist: Seq<SiteModel>,
    history: Seq<VisitedModel>,
    threshold: u64,
) -> Seq<SiteModel> {
    first_occurrences(safelist.filter(|s: SiteModel| total_visits(history, s.url) < threshold))
}

/// Whether `sites` holds an entry equal to `s`.
fn site_in(sites: &Vec<SiteWithJs>, s: &SiteWithJs) -> (r: bool)
    ensures
        r == sites.deep_view().contains(s@),
{
    let n = sites.len();
    let mut i: usize = 0;
    while i < n
        invariant
            0 <= i <= n,
            n == sites@.len(),
            forall|j: int| 0 <= j < i ==> sites.deep_view()[j] != s@,
        decreases n - i,
    {
        if crate::str_eq(sites[i].url.as_str(), s.url.as_str()) && crate::str_eq(
            sites[i].json_key.as_str(),
            s.json_key.as_str(),
        ) {
            proof {
                assert(sites.deep_view()[i as int] == s@);
            }
            return true;
        }
        i = i + 1;
    }
    proof {
        assert(forall|j: int|
            0 <= j < sites.deep_view().len() ==> sites.deep_view()[j] != s@);
    }
    false
}

/// Selects the safelisted sites that are safe to revoke: those whose visited
/// URLs, each matched by literal string prefix against the safelisted origin
/// and summed over the whole history, stay strictly below `threshold`.  Each
/// distinct entry appears at most once, even where the safelist repeats it.
pub fn sites_to_remove(
    safelist: Vec<SiteWithJs>,
    history: Vec<VisitedSite>,
    threshold: u64,
) -> (r: Vec<SiteWithJs>)
    ensures
        r.deep_view() == candidates(safelist.deep_view(), history.deep_view(), threshold),
{
    let ghost orig_v = safelist@;
    let ghost orig = safelist.deep_view();
    let ghost hmodel = history.deep_view();
    let ghost pred = |s: SiteModel| total_visits(hmodel, s.url) < threshold;
    let mut rest = safelist;
    let mut out: Vec<SiteWithJs> = Vec::new();
    proof {
        assert(orig.take(0) =~= Seq::<SiteModel>::empty());
        assert(out.deep_view() =~= Seq::<SiteModel>::empty());
        reveal_with_fuel(Seq::filter, 1);
    }
    let ghost mut done: int = 0;
    while rest.len() > 0
        invariant
            0 <= done <= orig.len(),
            orig.len() == orig_v.len(),
            forall|j: int| 0 <= j < orig.len() ==> orig[j] == orig_v[j]@,
            hmodel == history.deep_view(),
            rest@ =~= orig_v.subrange(done, orig_v.len() as int),
            out.deep_view() =~= first_occurrences(orig.take(done).filter(pred)),
            pred == (|s: SiteModel| total_visits(hmodel, s.url) < threshold),
        decreases rest@.len(),
    {
        let site = rest.remove(0);
        proof {
            assert(site == orig_v[done]);
            assert(site@ == orig[done]);
        }
        let ghost q = site@;
        let ghost filtered = orig.take(done).filter(pred);
        proof {
            Seq::<SiteModel>::lemma_take_succ(orig, done);
            Seq::<SiteModel>::filter_distributes_over_add(orig.take(done), seq![q], pred);
            reveal_with_fuel(Seq::filter, 2);
            assert(seq![q].filter(pred) =~= (if pred(q) {
                seq![q]
            } else {
                Seq::<SiteModel>::empty()
            }));
            lemma_total_visits_nonneg(hmodel, q.url);
            assert(orig.take(done + 1) =~= orig.take(done) + seq![q]);
            assert(orig.take(done + 1).filter(pred) == filtered + seq![q].filter(pred));
        }
        let visits = visits_for(&history, site.url.as_str());
        if visits < threshold {
            let seen = site_in(&out, &site);
            proof {
                lemma_first_occurrences_contains(filtered, q);
                assert((filtered + seq![q]).drop_last() =~= filtered);
                assert((filtered + seq![q]).last() == q);
            }
            if !seen {
                let ghost out_before = out.deep_view();
                out.push(site);
                proof {
                    assert(out.deep_view() =~= out_before + seq![q]);
                    assert(out.deep_view() =~= first_occurrences(filtered).push(q));
                }
            }
            proof {
                assert(out.deep_view() =~= first_occurrences(filtered + seq![q]));
            }
        } else {
            proof {
                assert(filtered + Seq::<SiteModel>::empty() =~= filtered);
            }
        }
        proof {
            assert(out.deep_view() =~= first_occurrences(orig.take(done + 1).filter(pred)));
            done = done + 1;
        }
    }
    proof {
        assert(orig.take(orig.len() as int) =~= orig);
    }
    out
}

/// The candidate list holds each entry at most once, whatever the safelist
/// holds: two equal candidates never come out.
pub proof fn lemma_candidates_distinct(
    safelist: Seq<SiteModel>,
    history: Seq<VisitedModel>,
    threshold: u64,
)
    ensures
        candidates(safelist, history, threshold).no_duplicates(),
{
    let pred = |s: SiteModel| total_visits(history, s.url) < threshold;
    lemma_first_occurrences_no_duplicates(safelist.filter(pred));
}

/// The exception keys under which the sites of `sites` are stored.
pub open spec fn site_keys(sites: Seq<SiteModel>) -> Seq<Seq<char>> {
    sites.map_values(|s: SiteModel| s.json_key)
}

/// Rewrites a preferences text with the exception entries of
/// `sites_to_remove` deleted: the text is parsed, the keys are removed from
/// the per-site exception map, everything else is kept in place, and the
/// document is serialized again.  Fails where the text is not JSON or lacks
/// the exception structure.
pub fn remove_entries_from_json(sites_to_remove: Vec<SiteWithJs>, preferences_json: &str) -> (r:
    Result<String, PreferencesError>)
    ensures
        match r {
            Ok(out) => {
                &&& parsed_json(preferences_json@) is Some
                &&& remove_exceptions_model(
                    parsed_json(preferences_json@)->Some_0,
                    site_keys(sites_to_remove.deep_view()),
                ) is Some
                &&& out@ == pretty(
                    remove_exceptions_model(
                        parsed_json(preferences_json@)->Some_0,
                        site_keys(sites_to_remove.deep_view()),
                    )->Some_0,
                    0,
                )
            },
            Err(PreferencesError::Unparsable) => parsed_json(preferences_json@) is None,
            Err(PreferencesError::SchemaMismatch) => parsed_json(preferences_json@) is Some
                && remove_exceptions_model(
                parsed_json(preferences_json@)->Some_0,
                site_keys(sites_to_remove.deep_view()),
            ) is None,
        },
{
    let ghost keys_model = site_keys(sites_to_remove.deep_view());
    let n = sites_to_remove.len();
    let mut keys: Vec<String> = Vec::new();
    let mut i: usize = 0;
    while i < n
        invariant
            0 <= i <= n,
            n == sites_to_remove@.len(),
            keys_model == site_keys(sites_to_remove.deep_view()),
            keys_model.len() == n,
            keys.deep_view() =~= keys_model.take(i as int),
        decreases n - i,
    {
        let ghost keys_before = keys.deep_view();
        keys.push(sites_to_remove[i].json_key.clone());
        proof {
            assert(keys.deep_view() =~= keys_before.push(sites_to_remove@[i as int].json_key@));
            assert(keys.deep_view() =~= keys_model.take(i + 1));
        }
        i = i + 1;
    }
    proof {
        assert(keys.deep_view() =~= keys_model);
    }
    let doc = match parse_json(preferences_json) {
        Ok(doc) => doc,
        Err(_) => {
            return Err(PreferencesError::Unparsable);
        },
    };
    match remove_exceptions(doc, &keys) {
        Ok(new_doc) => Ok(to_pretty_string(&new_doc)),
        Err(_) => Err(PreferencesError::SchemaMismatch),
    }
}

/// A safelisted entry with no matching recent visits is always a removal
/// candidate when the threshold is positive.
pub proof fn lemma_zero_visits_is_candidate(
    safelist: Seq<SiteModel>,
    history: Seq<VisitedModel>,
    threshold: u64,
    i: int,
)
    requires
        0 <= i < safelist.len(),
        total_visits(history, safelist[i].url) == 0,
        threshold > 0,
    ensures
        candidates(safelist, history, threshold).contains(safelist[i]),
{
    let pred = |s: SiteModel| total_visits(history, s.url) < threshold;
    safelist.lemma_filter_contains(pred, i);
    lemma_first_occurrences_contains(safelist.filter(pred), safelist[i]);
}

/// A visit total exactly at the threshold keeps the entry off the candidate
/// list; a total one below the threshold puts it on.
pub proof fn lemma_threshold_boundary(
    safelist: Seq<SiteModel>,
    history: Seq<VisitedModel>,
    threshold: u64,
    i: int,
)
    requires
        0 <= i < safelist.len(),
    ensures
        total_visits(history, safelist[i].url) == threshold ==> !candidates(
            safelist,
            history,
            threshold,
        ).contains(safelist[i]),
        total_visits(history, safelist[i].url) == threshold - 1 ==> candidates(
            safelist,
            history,
            threshold,
        ).contains(safelist[i]),
{
    let pred = |s: SiteModel| total_visits(history, s.url) < threshold;
    let filtered = safelist.filter(pred);
    if total_visits(history, safelist[i].url) == threshold {
        lemma_first_occurrences_contains(filtered, safelist[i]);
        if filtered.contains(safelist[i]) {
            let j = choose|j: int| 0 <= j < filtered.len() && filtered[j] == safelist[i];
            safelist.lemma_filter_pred(pred, j);
        }
    }
    if total_visits(history, safelist[i].url) == threshold - 1 {
        safelist.lemma_filter_contains(pred, i);
        lemma_first_occurrences_contains(filtered, safelist[i]);
    }
}

/// A candidate always comes off the safelist: selection invents no entry.
pub proof fn lemma_candidates_from_safelist(
    safelist: Seq<SiteModel>,
    history: Seq<VisitedModel>,
    threshold: u64,
    s: SiteModel,
)
    requires
        candidates(safelist, history, threshold).contains(s),
    ensures
        safelist.contains(s),
        total_visits(history, s.url) < threshold,
{
    let pred = |se: SiteModel| total_visits(history, se.url) < threshold;
    let filtered = safelist.filter(pred);
    lemma_first_occurrences_contains(filtered, s);
    safelist.lemma_filter_contains_rev(pred, s);
    let j = choose|j: int| 0 <= j < filtered.len() && filtered[j] == s;
    safelist.lemma_filter_pred(pred, j);
}

/// An exception key that does not match `<address>:<port>,<rest>` never
/// appears among the removal candidates, whatever the history and threshold.
pub proof fn lemma_unmatched_key_never_candidate(
    entries: Seq<(Seq<char>, crate::json::JsonModel)>,
    history: Seq<VisitedModel>,
    threshold: u64,
    k: Seq<char>,
)
    requires
        !crate::preferences::key_matches(k),
    ensures
        forall|s: SiteModel|
            candidates(crate::preferences::safelist_of(entries), history, threshold).contains(s)
                ==> s.json_key != k,
{
    let safelist = crate::preferences::safelist_of(entries);
    crate::preferences::lemma_unmatched_key_excluded(entries, k);
    assert forall|s: SiteModel|
        candidates(safelist, history, threshold).contains(s) implies s.json_key != k by {
        lemma_candidates_from_safelist(safelist, history, threshold, s);
    }
}

} // verus!
