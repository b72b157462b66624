//! The JavaScript safelist: per-site exception entries whose setting allows
//! script execution, read out of the preferences document.

use vstd::prelude::*;
use crate::json::{
    entries_model, exceptions, exceptions_of, obj_find, obj_index_of, parse_json, parsed_json,
    Json, JsonModel, PreferencesError,
};

verus! {

broadcast use vstd::std_specs::vec::group_vec_axioms, vstd::seq::group_seq_axioms;

/// A site whose exception entry allows script execution: the origin granted
/// the permission, and the exact key its entry is stored under.
#[derive(Debug, PartialEq, Eq, Hash)]
pub struct SiteWithJs {
    pub url: String,
    pub json_key: String,
}

/// Model of a safelisted site.
pub struct SiteModel {
    pub url: Seq<char>,
    pub json_key: Seq<char>,
}

impl View for SiteWithJs {
    type V = SiteModel;

    open spec fn view(&self) -> SiteModel {
        SiteModel { url: self.url@, json_key: self.json_key@ }
    }
}

impl DeepView for SiteWithJs {
    type V = SiteModel;

    open spec fn deep_view(&self) -> SiteModel {
        self@
    }
}

impl Clone for SiteWithJs {
    fn clone(&self) -> (r: Self)
        ensures
            r == *self,
    {
        SiteWithJs { url: self.url.clone(), json_key: self.json_key.clone() }
    }
}

/// A decimal digit.
pub open spec fn is_digit(c: char) -> bool {
    48 <= c as u32 <= 57
}

/// The key splits at `i`: a `:` there, then one or more digits, then a `,`.
pub open spec fn splits_at(s: Seq<char>, i: int) -> bool {
    &&& 0 <= i < s.len()
    &&& s[i] == ':'
    &&& exists|j: int|
        i + 1 < j < s.len() && #[trigger] s[j] == ',' && (forall|t: int|
            i < t < j ==> is_digit(#[trigger] s[t]))
}

/// The key has the form `<address>:<port>,<rest>`.
pub open spec fn key_matches(s: Seq<char>) -> bool {
    exists|i: int| splits_at(s, i)
}

/// The last index below `hi` at which the key splits, or -1 where none.
pub open spec fn last_split_below(s: Seq<char>, hi: int) -> int
    decreases hi,
{
    if hi <= 0 {
        -1
    } else if splits_at(s, hi - 1) {
        hi - 1
    } else {
        last_split_below(s, hi - 1)
    }
}

/// The address part of a matching key: everything before the last split, as
/// the greedy match takes it.
pub open spec fn address_of(s: Seq<char>) -> Seq<char> {
    s.take(last_split_below(s, s.len() as int))
}

/// `last_split_below` is the greatest split index below `hi`.
pub proof fn lemma_last_split(s: Seq<char>, hi: int)
    requires
        0 <= hi,
    ensures
        -1 <= last_split_below(s, hi) < hi,
        last_split_below(s, hi) >= 0 ==> splits_at(s, last_split_below(s, hi)),
        forall|t: int| last_split_below(s, hi) < t < hi ==> !splits_at(s, t),
    decreases hi,
{
    if hi > 0 && !splits_at(s, hi - 1) {
        lemma_last_split(s, hi - 1);
    }
}

/// Whether the key splits at position `i`.
fn check_split(s: &str, i: usize) -> (r: bool)
    requires
        i < s@.len(),
    ensures
        r == splits_at(s@, i as int),
{
    let n = s.unicode_len();
    if (s.get_char(i) as u32) != 58 {
        assert(!splits_at(s@, i as int));
        return false;
    }
    assert(s@[i as int] == ':') by {
        assert(s@[i as int] as u32 == 58);
        assert(':' as u32 == 58);
    }
    let mut j: usize = i + 1;
    while j < n
        invariant
            i + 1 <= j <= n,
            n == s@.len(),
            i < n,
            forall|t: int| i < t < j ==> is_digit(#[trigger] s@[t]),
        ensures
            i + 1 <= j <= n,
            forall|t: int| i < t < j ==> is_digit(#[trigger] s@[t]),
            j < n ==> !is_digit(s@[j as int]),
        decreases n - j,
    {
        let c = s.get_char(j) as u32;
        if c < 48 || c > 57 {
            break ;
        }
        j = j + 1;
    }
    if j < n && i + 1 < j {
        let c = s.get_char(j) as u32;
        if c == 44 {
            assert(splits_at(s@, i as int)) by {
                assert(s@[j as int] == ',') by {
                    assert(',' as u32 == 44);
                }
                assert(i + 1 < j < s@.len() && s@[j as int] == ',' && (forall|t: int|
                    i < t < j ==> is_digit(#[trigger] s@[t])));
            }
            return true;
        }
    }
    proof {
        if splits_at(s@, i as int) {
            let j2 = choose|j2: int|
                i + 1 < j2 < s@.len() && #[trigger] s@[j2] == ',' && (forall|t: int|
                    i < t < j2 ==> is_digit(#[trigger] s@[t]));
            assert(',' as u32 == 44);
            assert(!is_digit(','));
            if j2 < j {
                assert(is_digit(s@[j2]));
            } else if j2 > j {
                assert(j < n);
                assert(is_digit(s@[j as int]));
            }
        }
    }
    false
}

/// Parses a safelisted site out of an exception key of the form
/// `<address>:<port>,<rest>`, the address taken greedily; `None` where the
/// key does not match.
pub fn parse_site_from_key(json_key: String) -> (r: Option<SiteWithJs>)
    ensures
        match r {
            Some(site) => key_matches(json_key@) && site.json_key@ == json_key@ && site.url@
                == address_of(json_key@),
            None => !key_matches(json_key@),
        },
{
    let s = json_key.as_str();
    let n = s.unicode_len();
    let mut i: usize = n;
    while i > 0
        invariant
            0 <= i <= n,
            n == s@.len(),
            s@ == json_key@,
            forall|t: int| i <= t < n ==> !splits_at(s@, t),
        decreases i,
    {
        i = i - 1;
        if check_split(s, i) {
            proof {
                lemma_last_split(s@, n as int);
                let l = last_split_below(s@, n as int);
                assert(l == i) by {
                    if l < i as int {
                        assert(!splits_at(s@, i as int));
                    }
                    if l > i as int {
                        assert(!splits_at(s@, l));
                    }
                }
            }
            let address = s.substring_char(0, i);
            let url = address.to_owned();
            return Some(SiteWithJs { url, json_key });
        }
    }
    proof {
        if key_matches(s@) {
            let w = choose|w: int| splits_at(s@, w);
            assert(!splits_at(s@, w));
        }
    }
    None
}

/// The entry's settings object allows script execution: its `setting` field
/// is the number 1.
pub open spec fn setting_allowed(m: JsonModel) -> bool {
    match m {
        JsonModel::Obj(e) => {
            let i = obj_index_of(e, "setting"@);
            i >= 0 && e[i].1 == JsonModel::Num("1"@)
        },
        _ => false,
    }
}

/// Whether the settings object `v` allows script execution.
pub fn is_on_javascript_safelist(v: &Json) -> (r: bool)
    ensures
        r == setting_allowed(v@),
{
    match v {
        Json::Obj(entries) => {
            proof {
                crate::json::lemma_entries_model(entries@);
                crate::json::lemma_obj_index_of(entries_model(entries@), "setting"@);
            }
            match obj_find(entries, "setting") {
                Some(i) => match &entries[i].1 {
                    Json::Num(t) => crate::str_eq(t.as_str(), "1"),
                    _ => false,
                },
                None => false,
            }
        },
        _ => false,
    }
}

/// The safelisted site that exception entry `p` contributes: its key parsed
/// as `<address>:<port>,<rest>`, provided its settings object allows script
/// execution; `None` where the setting forbids or the key does not match.
pub open spec fn site_of_entry(p: (Seq<char>, JsonModel)) -> Option<SiteModel> {
    if setting_allowed(p.1) && key_matches(p.0) {
        Some(SiteModel { url: address_of(p.0), json_key: p.0 })
    } else {
        None
    }
}

/// The safelist read out of the exception map's entry list, in entry order.
pub open spec fn safelist_of(entries: Seq<(Seq<char>, JsonModel)>) -> Seq<SiteModel> {
    entries.filter_map(|p: (Seq<char>, JsonModel)| site_of_entry(p))
}

/// Reads the safelist out of a preferences text: one site per exception
/// entry whose settings object allows script execution and whose key matches
/// `<address>:<port>,<rest>`; other entries are left out.  Fails where the
/// text is not JSON or lacks the exception structure.
pub fn sites_on_javascript_safelist(input: &str) -> (r: Result<Vec<SiteWithJs>, PreferencesError>)
    ensures
        match r {
            Ok(sites) => {
                &&& parsed_json(input@) is Some
                &&& exceptions_of(parsed_json(input@)->Some_0) is Some
                &&& sites.deep_view() == safelist_of(
                    exceptions_of(parsed_json(input@)->Some_0)->Some_0,
                )
            },
            Err(PreferencesError::Unparsable) => parsed_json(input@) is None,
            Err(PreferencesError::SchemaMismatch) => parsed_json(input@) is Some && exceptions_of(
                parsed_json(input@)->Some_0,
            ) is None,
        },
{
    let doc = match parse_json(input) {
        Ok(doc) => doc,
        Err(_) => {
            return Err(PreferencesError::Unparsable);
        },
    };
    let entries = match exceptions(&doc) {
        Some(entries) => entries,
        None => {
            return Err(PreferencesError::SchemaMismatch);
        },
    };
    let ghost model = entries_model(entries@);
    let ghost f = |p: (Seq<char>, JsonModel)| site_of_entry(p);
    proof {
        crate::json::lemma_entries_model(entries@);
        assert(model.take(0).filter_map(f) =~= Seq::<SiteModel>::empty());
    }
    let n = entries.len();
    let mut out: Vec<SiteWithJs> = Vec::new();
    let mut i: usize = 0;
    while i < n
        invariant
            0 <= i <= n,
            n == entries@.len(),
            model == entries_model(entries@),
            model.len() == n,
            forall|j: int| 0 <= j < n ==> model[j] == (entries@[j].0@, entries@[j].1.deep()),
            f == (|p: (Seq<char>, JsonModel)| site_of_entry(p)),
            out.deep_view() =~= model.take(i as int).filter_map(f),
        decreases n - i,
    {
        let ghost out_before = out.deep_view();
        let allowed = is_on_javascript_safelist(&entries[i].1);
        if allowed {
            match parse_site_from_key(entries[i].0.clone()) {
                Some(site) => {
                    proof {
                        assert(site@ == site_of_entry(model[i as int])->Some_0);
                    }
                    out.push(site);
                    proof {
                        assert(out.deep_view() =~= out_before + seq![site@]);
                    }
                },
                None => {
                    proof {
                        assert(site_of_entry(model[i as int]) is None);
                    }
                },
            }
        } else {
            proof {
                assert(site_of_entry(model[i as int]) is None);
            }
        }
        proof {
            model.lemma_filter_map_take_succ(f, i as int);
        }
        i = i + 1;
    }
    proof {
        assert(model.take(n as int) =~= model);
    }
    Ok(out)
}

/// An exception key that does not match `<address>:<port>,<rest>` never
/// appears in the parsed safelist.
pub proof fn lemma_unmatched_key_excluded(entries: Seq<(Seq<char>, JsonModel)>, k: Seq<char>)
    requires
        !key_matches(k),
    ensures
        forall|s: SiteModel| safelist_of(entries).contains(s) ==> s.json_key != k,
{
    let f = |p: (Seq<char>, JsonModel)| site_of_entry(p);
    assert forall|s: SiteModel| safelist_of(entries).contains(s) implies s.json_key != k by {
        entries.lemma_filter_map_contains(f, s);
        let t = choose|t: (Seq<char>, JsonModel)| #[trigger] entries.contains(t) && f(t) == Some(
            s,
        );
        assert(key_matches(t.0));
        assert(s.json_key == t.0);
    }
}

} // verus!
