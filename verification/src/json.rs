//! The configuration document: a JSON-shaped key/value tree.
//!
//! The document is held in a tree type of the crate's own, `Json`, whose
//! mathematical model is `JsonModel`.  Object entries keep their order, so a
//! rewritten document leaves unrelated parts as they were.  A number holds its
//! decimal text, which the serializer emits unchanged.

use vstd::prelude::*;

verus! {

broadcast use vstd::std_specs::vec::group_vec_axioms, vstd::seq::group_seq_axioms;

/// Mathematical model of a document tree.  Object entries are an ordered
/// sequence of key/value pairs.
pub enum JsonModel {
    Null,
    Bool(bool),
    Num(Seq<char>),
    Str(Seq<char>),
    Arr(Seq<JsonModel>),
    Obj(Seq<(Seq<char>, JsonModel)>),
}

/// A JSON document tree.  `Num` carries the number's decimal text exactly as
/// it is to appear in the serialized document.
pub enum Json {
    Null,
    Bool(bool),
    Num(String),
    Str(String),
    Arr(Vec<Json>),
    Obj(Vec<(String, Json)>),
}

/// Model of a sequence of trees: each taken to its model.
pub open spec fn elems_model(v: Seq<Json>) -> Seq<JsonModel>
    decreases v,
{
    if v.len() == 0 {
        Seq::empty()
    } else {
        seq![v[0].deep()] + elems_model(v.drop_first())
    }
}

/// Model of an object's entry list: each key and value taken to its model.
pub open spec fn entries_model(v: Seq<(String, Json)>) -> Seq<(Seq<char>, JsonModel)>
    decreases v,
{
    if v.len() == 0 {
        Seq::empty()
    } else {
        seq![(v[0].0@, v[0].1.deep())] + entries_model(v.drop_first())
    }
}

impl Json {
    /// The model of this tree.
    pub open spec fn deep(self) -> JsonModel
        decreases self,
    {
        match self {
            Json::Null => JsonModel::Null,
            Json::Bool(b) => JsonModel::Bool(b),
            Json::Num(s) => JsonModel::Num(s@),
            Json::Str(s) => JsonModel::Str(s@),
            Json::Arr(v) => JsonModel::Arr(elems_model(v@)),
            Json::Obj(v) => JsonModel::Obj(entries_model(v@)),
        }
    }
}

/// `elems_model` maps the sequence pointwise.
pub broadcast proof fn lemma_elems_model(v: Seq<Json>)
    ensures
        #[trigger] elems_model(v).len() == v.len(),
        forall|i: int| 0 <= i < v.len() ==> elems_model(v)[i] == v[i].deep(),
    decreases v.len(),
{
    if v.len() > 0 {
        lemma_elems_model(v.drop_first());
    }
}

/// `entries_model` maps the entry list pointwise.
pub broadcast proof fn lemma_entries_model(v: Seq<(String, Json)>)
    ensures
        #[trigger] entries_model(v).len() == v.len(),
        forall|i: int|
            0 <= i < v.len() ==> entries_model(v)[i] == (v[i].0@, v[i].1.deep()),
    decreases v.len(),
{
    if v.len() > 0 {
        lemma_entries_model(v.drop_first());
    }
}

impl View for Json {
    type V = JsonModel;

    open spec fn view(&self) -> JsonModel {
        self.deep()
    }
}

/// Index of the first entry of `entries` whose key is `k`, or -1 when no
/// entry has that key.
pub open spec fn obj_index_of(entries: Seq<(Seq<char>, JsonModel)>, k: Seq<char>) -> int
    decreases entries.len(),
{
    if entries.len() == 0 {
        -1
    } else if entries[0].0 == k {
        0
    } else {
        let r = obj_index_of(entries.drop_first(), k);
        if r < 0 {
            -1
        } else {
            r + 1
        }
    }
}

/// `obj_index_of` finds the first entry with the key, and -1 means absence.
pub broadcast proof fn lemma_obj_index_of(entries: Seq<(Seq<char>, JsonModel)>, k: Seq<char>)
    ensures
        -1 <= #[trigger] obj_index_of(entries, k) < entries.len(),
        obj_index_of(entries, k) >= 0 ==> entries[obj_index_of(entries, k)].0 == k,
        forall|j: int|
            0 <= j < entries.len() && (j < obj_index_of(entries, k) || obj_index_of(entries, k)
                == -1) ==> (#[trigger] entries[j]).0 != k,
    decreases entries.len(),
{
    if entries.len() > 0 && entries[0].0 != k {
        lemma_obj_index_of(entries.drop_first(), k);
        let r = obj_index_of(entries, k);
        assert forall|j: int| 0 <= j < entries.len() && (j < r || r == -1) implies (
        #[trigger] entries[j]).0 != k by {
            if j > 0 {
                assert(entries.drop_first()[j - 1] == entries[j]);
            }
        }
    }
}

/// The fixed path from the document root down to the per-site exception map.
pub open spec fn exceptions_path() -> Seq<Seq<char>> {
    seq!["profile"@, "content_settings"@, "exceptions"@, "javascript"@]
}

/// The entry list of the exception map reached from `m` by following
/// `exceptions_path()` from depth `d` on, or `None` where a path segment is
/// missing or a value on it is not an object.
pub open spec fn exceptions_of_at(m: JsonModel, d: int) -> Option<Seq<(Seq<char>, JsonModel)>>
    decreases 4 - d,
{
    if d < 0 || d >= 4 {
        match m {
            JsonModel::Obj(e) => Some(e),
            _ => None,
        }
    } else {
        match m {
            JsonModel::Obj(e) => {
                let i = obj_index_of(e, exceptions_path()[d]);
                if i < 0 {
                    None
                } else {
                    exceptions_of_at(e[i].1, d + 1)
                }
            },
            _ => None,
        }
    }
}

/// The entry list of the per-site exception map of document `m`.
pub open spec fn exceptions_of(m: JsonModel) -> Option<Seq<(Seq<char>, JsonModel)>> {
    exceptions_of_at(m, 0)
}

/// The entry list with every entry whose key occurs in `ks` removed; all
/// other entries stay, in their order.
pub open spec fn remove_keys(
    entries: Seq<(Seq<char>, JsonModel)>,
    ks: Seq<Seq<char>>,
) -> Seq<(Seq<char>, JsonModel)> {
    entries.filter(|p: (Seq<char>, JsonModel)| !ks.contains(p.0))
}

/// The document `m` with the keys `ks` removed from the exception map that
/// `exceptions_path()` reaches from depth `d` on.  Everything outside that
/// map is kept as it is; `None` where the path does not lead to an object.
pub open spec fn remove_exceptions_at(m: JsonModel, d: int, ks: Seq<Seq<char>>) -> Option<
    JsonModel,
>
    decreases 4 - d,
{
    if d < 0 || d >= 4 {
        match m {
            JsonModel::Obj(e) => Some(JsonModel::Obj(remove_keys(e, ks))),
            _ => None,
        }
    } else {
        match m {
            JsonModel::Obj(e) => {
                let i = obj_index_of(e, exceptions_path()[d]);
                if i < 0 {
                    None
                } else {
                    match remove_exceptions_at(e[i].1, d + 1, ks) {
                        Some(sub) => Some(JsonModel::Obj(e.update(i, (e[i].0, sub)))),
                        None => None,
                    }
                }
            },
            _ => None,
        }
    }
}

/// The document `m` with the keys `ks` removed from its per-site exception
/// map, or `None` where the document lacks the expected structure.
pub open spec fn remove_exceptions_model(m: JsonModel, ks: Seq<Seq<char>>) -> Option<JsonModel> {
    remove_exceptions_at(m, 0, ks)
}

/// Removal succeeds exactly where the exception map is reachable, so the
/// remover and the safelist reader reject the same documents.
pub proof fn lemma_remove_defined(m: JsonModel, d: int, ks: Seq<Seq<char>>)
    ensures
        remove_exceptions_at(m, d, ks) is Some <==> exceptions_of_at(m, d) is Some,
    decreases 4 - d,
{
    if 0 <= d < 4 {
        match m {
            JsonModel::Obj(e) => {
                let i = obj_index_of(e, exceptions_path()[d]);
                if i >= 0 {
                    lemma_obj_index_of(e, exceptions_path()[d]);
                    lemma_remove_defined(e[i].1, d + 1, ks);
                }
            },
            _ => {},
        }
    }
}

/// A filter applied twice is the filter applied once.
proof fn lemma_filter_idem<A>(s: Seq<A>, p: spec_fn(A) -> bool)
    ensures
        s.filter(p).filter(p) == s.filter(p),
    decreases s.len(),
{
    reveal(Seq::filter);
    if s.len() > 0 {
        lemma_filter_idem(s.drop_last(), p);
        let f = s.drop_last().filter(p);
        if p(s.last()) {
            Seq::<A>::filter_distributes_over_add(f, seq![s.last()], p);
            assert(f.push(s.last()) =~= f + seq![s.last()]);
            reveal_with_fuel(Seq::filter, 2);
            assert(seq![s.last()].filter(p) =~= seq![s.last()]);
            assert(s.filter(p).filter(p) == f.filter(p) + seq![s.last()].filter(p));
            assert(s.filter(p).filter(p) =~= s.filter(p));
        }
    }
}

/// Replacing an entry's value, keeping its key, moves no key search.
proof fn lemma_index_of_update(
    entries: Seq<(Seq<char>, JsonModel)>,
    i: int,
    v: JsonModel,
    k: Seq<char>,
)
    requires
        0 <= i < entries.len(),
    ensures
        obj_index_of(entries.update(i, (entries[i].0, v)), k) == obj_index_of(entries, k),
    decreases entries.len(),
{
    let e2 = entries.update(i, (entries[i].0, v));
    if i == 0 {
        assert(e2[0].0 == entries[0].0);
        if entries[0].0 != k {
            assert(e2.drop_first() =~= entries.drop_first());
        }
    } else {
        assert(e2[0] == entries[0]);
        if entries[0].0 != k {
            lemma_index_of_update(entries.drop_first(), i - 1, v, k);
            assert(e2.drop_first() =~= entries.drop_first().update(
                i - 1,
                (entries.drop_first()[i - 1].0, v),
            ));
        }
    }
}

/// Removal from depth `d` on is idempotent.
proof fn lemma_remove_idempotent_at(m: JsonModel, d: int, ks: Seq<Seq<char>>)
    requires
        0 <= d <= 4,
        remove_exceptions_at(m, d, ks) is Some,
    ensures
        remove_exceptions_at(remove_exceptions_at(m, d, ks)->Some_0, d, ks)
            == remove_exceptions_at(m, d, ks),
    decreases 4 - d,
{
    let out = remove_exceptions_at(m, d, ks)->Some_0;
    if d >= 4 {
        match m {
            JsonModel::Obj(e) => {
                lemma_filter_idem(e, |p: (Seq<char>, JsonModel)| !ks.contains(p.0));
            },
            _ => {},
        }
    } else {
        match m {
            JsonModel::Obj(e) => {
                let key = exceptions_path()[d];
                let i = obj_index_of(e, key);
                lemma_obj_index_of(e, key);
                let sub = remove_exceptions_at(e[i].1, d + 1, ks)->Some_0;
                let e2 = e.update(i, (e[i].0, sub));
                lemma_index_of_update(e, i, sub, key);
                assert(obj_index_of(e2, key) == i);
                assert(e2[i].1 == sub);
                lemma_remove_idempotent_at(e[i].1, d + 1, ks);
                assert(remove_exceptions_at(sub, d + 1, ks) == Some(sub));
                assert(e2.update(i, (e2[i].0, sub)) =~= e2);
            },
            _ => {},
        }
    }
}

/// Removing the same keys a second time from the removal's own output is a
/// no-op: the document comes back unchanged.
pub proof fn lemma_remove_exceptions_idempotent(m: JsonModel, ks: Seq<Seq<char>>)
    requires
        remove_exceptions_model(m, ks) is Some,
    ensures
        remove_exceptions_model(remove_exceptions_model(m, ks)->Some_0, ks)
            == remove_exceptions_model(m, ks),
{
    lemma_remove_idempotent_at(m, 0, ks);
}

/// Removal from depth `d` on rewrites exactly the exception map.
proof fn lemma_removal_rewrites_at(m: JsonModel, d: int, ks: Seq<Seq<char>>)
    requires
        0 <= d <= 4,
        remove_exceptions_at(m, d, ks) is Some,
    ensures
        exceptions_of_at(m, d) is Some,
        exceptions_of_at(remove_exceptions_at(m, d, ks)->Some_0, d) == Some(
            remove_keys(exceptions_of_at(m, d)->Some_0, ks),
        ),
    decreases 4 - d,
{
    lemma_remove_defined(m, d, ks);
    if 0 <= d < 4 {
        match m {
            JsonModel::Obj(e) => {
                let key = exceptions_path()[d];
                let i = obj_index_of(e, key);
                lemma_obj_index_of(e, key);
                let sub = remove_exceptions_at(e[i].1, d + 1, ks)->Some_0;
                let e2 = e.update(i, (e[i].0, sub));
                lemma_index_of_update(e, i, sub, key);
                lemma_removal_rewrites_at(e[i].1, d + 1, ks);
            },
            _ => {},
        }
    }
}

/// Removal rewrites exactly the exception map: the rewritten document's map
/// holds the old entries with every listed key dropped, in their order, and
/// nothing else of the document moves the map.
pub proof fn lemma_removal_rewrites_the_map(m: JsonModel, ks: Seq<Seq<char>>)
    requires
        remove_exceptions_model(m, ks) is Some,
    ensures
        exceptions_of(m) is Some,
        exceptions_of(remove_exceptions_model(m, ks)->Some_0) == Some(
            remove_keys(exceptions_of(m)->Some_0, ks),
        ),
{
    lemma_removal_rewrites_at(m, 0, ks);
}

/// `m2` equals `m` everywhere outside the exception map reached from depth
/// `d` on: at each level both are objects of the same length, every entry
/// off the fixed path keeps its key and value, the entry on the path keeps
/// its key, and at the path's end only the map's listed keys are dropped.
pub open spec fn unchanged_outside_map(m: JsonModel, m2: JsonModel, d: int, ks: Seq<Seq<char>>) -> bool
    decreases 4 - d,
{
    if d < 0 || d >= 4 {
        m matches JsonModel::Obj(e) && m2 == JsonModel::Obj(remove_keys(e, ks))
    } else {
        &&& m matches JsonModel::Obj(e)
        &&& m2 matches JsonModel::Obj(e2)
        &&& m->Obj_0.len() == m2->Obj_0.len()
        &&& obj_index_of(m->Obj_0, exceptions_path()[d]) >= 0
        &&& {
            let e = m->Obj_0;
            let e2 = m2->Obj_0;
            let i = obj_index_of(e, exceptions_path()[d]);
            &&& forall|j: int| 0 <= j < e.len() && j != i ==> e2[j] == e[j]
            &&& e2[i].0 == e[i].0
            &&& unchanged_outside_map(e[i].1, e2[i].1, d + 1, ks)
        }
    }
}

/// Removal changes nothing outside the exception map: every object entry off
/// the fixed path, anywhere in the document, keeps its key and its value
/// exactly, and at the path's end only the listed keys leave the map.
pub proof fn lemma_removal_changes_nothing_else(m: JsonModel, ks: Seq<Seq<char>>)
    requires
        remove_exceptions_model(m, ks) is Some,
    ensures
        unchanged_outside_map(m, remove_exceptions_model(m, ks)->Some_0, 0, ks),
{
    lemma_removal_changes_nothing_else_at(m, 0, ks);
}

/// Removal from depth `d` on changes nothing outside the exception map.
proof fn lemma_removal_changes_nothing_else_at(m: JsonModel, d: int, ks: Seq<Seq<char>>)
    requires
        0 <= d <= 4,
        remove_exceptions_at(m, d, ks) is Some,
    ensures
        unchanged_outside_map(m, remove_exceptions_at(m, d, ks)->Some_0, d, ks),
    decreases 4 - d,
{
    if 0 <= d < 4 {
        match m {
            JsonModel::Obj(e) => {
                let key = exceptions_path()[d];
                let i = obj_index_of(e, key);
                lemma_obj_index_of(e, key);
                lemma_removal_changes_nothing_else_at(e[i].1, d + 1, ks);
            },
            _ => {},
        }
    }
}

/// A removed key is gone: no entry of the rewritten map carries a listed
/// key.
pub proof fn lemma_removed_key_absent(
    entries: Seq<(Seq<char>, JsonModel)>,
    ks: Seq<Seq<char>>,
    k: Seq<char>,
)
    requires
        ks.contains(k),
    ensures
        obj_index_of(remove_keys(entries, ks), k) == -1,
{
    let pred = |p: (Seq<char>, JsonModel)| !ks.contains(p.0);
    let kept = remove_keys(entries, ks);
    lemma_obj_index_of(kept, k);
    let r = obj_index_of(kept, k);
    if r >= 0 {
        entries.lemma_filter_pred(pred, r);
    }
}

/// An entry whose key is not listed stays in the rewritten map.
pub proof fn lemma_unlisted_entry_kept(
    entries: Seq<(Seq<char>, JsonModel)>,
    ks: Seq<Seq<char>>,
    i: int,
)
    requires
        0 <= i < entries.len(),
        !ks.contains(entries[i].0),
    ensures
        remove_keys(entries, ks).contains(entries[i]),
{
    let pred = |p: (Seq<char>, JsonModel)| !ks.contains(p.0);
    entries.lemma_filter_contains(pred, i);
}

/// The lower hex digit for a value below 16.
pub open spec fn hex_digit(n: u32) -> char {
    if n == 0 {
        '0'
    } else if n == 1 {
        '1'
    } else if n == 2 {
        '2'
    } else if n == 3 {
        '3'
    } else if n == 4 {
        '4'
    } else if n == 5 {
        '5'
    } else if n == 6 {
        '6'
    } else if n == 7 {
        '7'
    } else if n == 8 {
        '8'
    } else if n == 9 {
        '9'
    } else if n == 10 {
        'a'
    } else if n == 11 {
        'b'
    } else if n == 12 {
        'c'
    } else if n == 13 {
        'd'
    } else if n == 14 {
        'e'
    } else {
        'f'
    }
}

/// How one character of a string value appears in serialized form.
pub open spec fn escape_char(c: char) -> Seq<char> {
    if c == '"' {
        seq!['\\', '"']
    } else if c == '\\' {
        seq!['\\', '\\']
    } else if c == '\n' {
        seq!['\\', 'n']
    } else if c == '\r' {
        seq!['\\', 'r']
    } else if c == '\t' {
        seq!['\\', 't']
    } else if c == '\u{8}' {
        seq!['\\', 'b']
    } else if c == '\u{c}' {
        seq!['\\', 'f']
    } else if (c as u32) < 32 {
        seq!['\\', 'u', '0', '0', hex_digit((c as u32) / 16), hex_digit((c as u32) % 16)]
    } else {
        seq![c]
    }
}

/// A string value's characters in serialized form.
pub open spec fn escape_string(s: Seq<char>) -> Seq<char>
    decreases s.len(),
{
    if s.len() == 0 {
        Seq::empty()
    } else {
        escape_string(s.drop_last()) + escape_char(s.last())
    }
}

/// `n` spaces.
pub open spec fn spaces(n: int) -> Seq<char> {
    Seq::new(
        if n >= 0 {
            n as nat
        } else {
            0
        },
        |i: int| ' ',
    )
}

/// The indentation of the next nesting level.
pub open spec fn step(ind: int) -> int {
    if ind + 2 <= usize::MAX as int {
        ind + 2
    } else {
        ind
    }
}

/// The serialized text of a document subtree standing at indentation `ind`:
/// objects and arrays spread over lines, two more spaces per level, a number
/// as its stored text, a string quoted and escaped.
pub open spec fn pretty(m: JsonModel, ind: int) -> Seq<char>
    decreases m,
{
    match m {
        JsonModel::Null => "null"@,
        JsonModel::Bool(b) => if b {
            "true"@
        } else {
            "false"@
        },
        JsonModel::Num(t) => t,
        JsonModel::Str(s) => seq!['"'] + escape_string(s) + seq!['"'],
        JsonModel::Arr(elems) => if elems.len() == 0 {
            "[]"@
        } else {
            seq!['['] + pretty_elems(elems, step(ind)) + seq!['\n'] + spaces(ind) + seq![']']
        },
        JsonModel::Obj(entries) => if entries.len() == 0 {
            "{}"@
        } else {
            seq!['{'] + pretty_entries(entries, step(ind)) + seq!['\n'] + spaces(ind) + seq!['}']
        },
    }
}

/// The lines of an array's elements, each on its own line at indentation
/// `ind`, separated by commas.
pub open spec fn pretty_elems(elems: Seq<JsonModel>, ind: int) -> Seq<char>
    decreases elems,
{
    if elems.len() == 0 {
        Seq::empty()
    } else if elems.len() == 1 {
        seq!['\n'] + spaces(ind) + pretty(elems[0], ind)
    } else {
        pretty_elems(elems.drop_last(), ind) + seq![','] + seq!['\n'] + spaces(ind) + pretty(
            elems.last(),
            ind,
        )
    }
}

/// The lines of an object's entries, each `"key": value` on its own line at
/// indentation `ind`, separated by commas.
pub open spec fn pretty_entries(entries: Seq<(Seq<char>, JsonModel)>, ind: int) -> Seq<char>
    decreases entries,
{
    if entries.len() == 0 {
        Seq::empty()
    } else if entries.len() == 1 {
        seq!['\n'] + spaces(ind) + pretty_entry(entries[0], ind)
    } else {
        pretty_entries(entries.drop_last(), ind) + seq![','] + seq!['\n'] + spaces(ind)
            + pretty_entry(entries.last(), ind)
    }
}

/// One `"key": value` entry.
pub open spec fn pretty_entry(entry: (Seq<char>, JsonModel), ind: int) -> Seq<char>
    decreases entry,
{
    seq!['"'] + escape_string(entry.0) + seq!['"', ':', ' '] + pretty(entry.1, ind)
}

/// Why a preferences document could not be rewritten.
#[derive(Debug, PartialEq, Eq, Clone, Copy)]
pub enum PreferencesError {
    /// The text is not a well-formed JSON document.
    Unparsable,
    /// The document lacks the expected nested exception structure.
    SchemaMismatch,
}

/// Finds the first entry of `entries` whose key equals `key`.
pub(crate) fn obj_find(entries: &Vec<(String, Json)>, key: &str) -> (r: Option<usize>)
    ensures
        match r {
            Some(i) => obj_index_of(entries_model(entries@), key@) == i,
            None => obj_index_of(entries_model(entries@), key@) == -1,
        },
{
    proof {
        lemma_entries_model(entries@);
        lemma_obj_index_of(entries_model(entries@), key@);
    }
    let n = entries.len();
    let mut i: usize = 0;
    while i < n
        invariant
            0 <= i <= n,
            n == entries@.len(),
            forall|j: int| 0 <= j < i ==> entries_model(entries@)[j].0 != key@,
            entries_model(entries@).len() == n,
            forall|j: int|
                0 <= j < n ==> entries_model(entries@)[j] == (entries@[j].0@, entries@[j].1.deep()),
            -1 <= obj_index_of(entries_model(entries@), key@) < n,
            obj_index_of(entries_model(entries@), key@) >= 0 ==> entries_model(entries@)[obj_index_of(
                entries_model(entries@),
                key@,
            )].0 == key@,
            forall|j: int|
                0 <= j < n && (j < obj_index_of(entries_model(entries@), key@) || obj_index_of(
                    entries_model(entries@),
                    key@,
                ) == -1) ==> (#[trigger] entries_model(entries@)[j]).0 != key@,
        decreases n - i,
    {
        if crate::str_eq(entries[i].0.as_str(), key) {
            proof {
                let model = entries_model(entries@);
                let r = obj_index_of(model, key@);
                assert(model[i as int].0 == key@);
                if r == -1 || r > i {
                    assert((#[trigger] model[i as int]).0 != key@);
                }
                if 0 <= r < i {
                    assert(model[r].0 != key@);
                }
            }
            return Some(i);
        }
        i = i + 1;
    }
    None
}

/// True when some element of `keys` equals `k`.
fn key_listed(keys: &Vec<String>, k: &String) -> (r: bool)
    ensures
        r == keys.deep_view().contains(k@),
{
    let n = keys.len();
    let mut i: usize = 0;
    while i < n
        invariant
            0 <= i <= n,
            n == keys@.len(),
            forall|j: int| 0 <= j < i ==> keys.deep_view()[j] != k@,
        decreases n - i,
    {
        if crate::str_eq(keys[i].as_str(), k.as_str()) {
            assert(keys.deep_view()[i as int] == k@);
            return true;
        }
        i = i + 1;
    }
    assert(forall|j: int| 0 <= j < keys.deep_view().len() ==> keys.deep_view()[j] != k@);
    false
}

/// Removes from `entries` every entry whose key occurs in `keys`.
fn remove_listed(entries: Vec<(String, Json)>, keys: &Vec<String>) -> (r: Vec<(String, Json)>)
    ensures
        entries_model(r@) == remove_keys(entries_model(entries@), keys.deep_view()),
{
    let ghost orig = entries@;
    let ghost pred = |p: (Seq<char>, JsonModel)| !keys.deep_view().contains(p.0);
    let mut rest = entries;
    let mut out: Vec<(String, Json)> = Vec::new();
    proof {
        assert(entries_model(orig).take(0) =~= Seq::<(Seq<char>, JsonModel)>::empty());
        assert(entries_model(out@) =~= Seq::<(Seq<char>, JsonModel)>::empty());
        reveal_with_fuel(Seq::filter, 1);
    }
    let ghost mut done: int = 0;
    while rest.len() > 0
        invariant
            0 <= done <= orig.len(),
            rest@ =~= orig.subrange(done, orig.len() as int),
            entries_model(out@) =~= entries_model(orig).take(done).filter(pred),
            pred == (|p: (Seq<char>, JsonModel)| !keys.deep_view().contains(p.0)),
        decreases rest@.len(),
    {
        let p = rest.remove(0);
        proof {
            lemma_entries_model(orig);
            assert(p == orig[done]);
        }
        let ghost m = entries_model(orig);
        let ghost q = (p.0@, p.1.deep());
        proof {
            assert(m[done] == q);
            Seq::<(Seq<char>, JsonModel)>::lemma_take_succ(m, done);
            Seq::<(Seq<char>, JsonModel)>::filter_distributes_over_add(m.take(done), seq![q], pred);
            reveal_with_fuel(Seq::filter, 2);
            assert(seq![q].filter(pred) =~= (if pred(q) { seq![q] } else { Seq::<(
                Seq<char>,
                JsonModel,
            )>::empty() }));
        }
        let keep = !key_listed(keys, &p.0);
        if keep {
            let ghost out_before = out@;
            out.push(p);
            proof {
                lemma_entries_model(out_before);
                lemma_entries_model(out@);
                assert(entries_model(out@) =~= entries_model(out_before) + seq![q]);
                assert(entries_model(out@) =~= m.take(done).filter(pred) + seq![q]);
            }
        }
        proof {
            assert(m.take(done + 1) =~= m.take(done) + seq![q]);
            assert(m.take(done + 1).filter(pred) == m.take(done).filter(pred) + seq![q].filter(
                pred,
            ));
            done = done + 1;
        }
    }
    proof {
        assert(entries_model(orig).take(orig.len() as int) =~= entries_model(orig)) by {
            lemma_entries_model(orig);
        }
    }
    out
}

/// Appends the characters of `s` to `out`.
fn push_str_chars(out: &mut Vec<char>, s: &str)
    ensures
        final(out)@ == old(out)@ + s@,
{
    let n = s.unicode_len();
    let mut i: usize = 0;
    while i < n
        invariant
            0 <= i <= n,
            n == s@.len(),
            out@ =~= old(out)@ + s@.take(i as int),
        decreases n - i,
    {
        let c = s.get_char(i);
        out.push(c);
        proof {
            assert(old(out)@ + s@.take(i + 1) =~= (old(out)@ + s@.take(i as int)).push(s@[i as int]));
        }
        i = i + 1;
    }
    proof {
        assert(s@.take(n as int) =~= s@);
    }
}

/// Appends `n` spaces to `out`.
fn push_spaces(out: &mut Vec<char>, n: usize)
    ensures
        final(out)@ == old(out)@ + spaces(n as int),
{
    let mut i: usize = 0;
    while i < n
        invariant
            0 <= i <= n,
            out@ =~= old(out)@ + spaces(i as int),
        decreases n - i,
    {
        out.push(' ');
        proof {
            assert(old(out)@ + spaces(i + 1) =~= (old(out)@ + spaces(i as int)).push(' '));
        }
        i = i + 1;
    }
    proof {
        assert(out@ =~= old(out)@ + spaces(n as int));
    }
}

/// The lower hex digit for a value below 16.
fn hex_digit_char(n: u32) -> (r: char)
    requires
        n < 16,
    ensures
        r == hex_digit(n),
{
    if n == 0 {
        '0'
    } else if n == 1 {
        '1'
    } else if n == 2 {
        '2'
    } else if n == 3 {
        '3'
    } else if n == 4 {
        '4'
    } else if n == 5 {
        '5'
    } else if n == 6 {
        '6'
    } else if n == 7 {
        '7'
    } else if n == 8 {
        '8'
    } else if n == 9 {
        '9'
    } else if n == 10 {
        'a'
    } else if n == 11 {
        'b'
    } else if n == 12 {
        'c'
    } else if n == 13 {
        'd'
    } else if n == 14 {
        'e'
    } else {
        'f'
    }
}

/// Appends the serialized form of the string value `s` to `out`, without the
/// surrounding quotes.
fn push_escaped(out: &mut Vec<char>, s: &str)
    ensures
        final(out)@ == old(out)@ + escape_string(s@),
{
    let n = s.unicode_len();
    let mut i: usize = 0;
    proof {
        assert(escape_string(s@.take(0)) =~= Seq::<char>::empty());
        assert(out@ =~= old(out)@ + escape_string(s@.take(0)));
    }
    while i < n
        invariant
            0 <= i <= n,
            n == s@.len(),
            out@ =~= old(out)@ + escape_string(s@.take(i as int)),
        decreases n - i,
    {
        let c = s.get_char(i);
        let ghost before = out@;
        if c == '"' {
            out.push('\\');
            out.push('"');
        } else if c == '\\' {
            out.push('\\');
            out.push('\\');
        } else if c == '\n' {
            out.push('\\');
            out.push('n');
        } else if c == '\r' {
            out.push('\\');
            out.push('r');
        } else if c == '\t' {
            out.push('\\');
            out.push('t');
        } else if c == '\u{8}' {
            out.push('\\');
            out.push('b');
        } else if c == '\u{c}' {
            out.push('\\');
            out.push('f');
        } else if (c as u32) < 32 {
            out.push('\\');
            out.push('u');
            out.push('0');
            out.push('0');
            out.push(hex_digit_char((c as u32) / 16));
            out.push(hex_digit_char((c as u32) % 16));
        } else {
            out.push(c);
        }
        proof {
            assert(out@ =~= before + escape_char(c));
            assert(s@.take(i + 1).drop_last() =~= s@.take(i as int));
            assert(s@.take(i + 1).last() == c);
            assert(out@ =~= old(out)@ + escape_string(s@.take(i + 1)));
        }
        i = i + 1;
    }
    proof {
        assert(s@.take(n as int) =~= s@);
    }
}

/// Relies on `String::from_iter` over characters: the returned string holds
/// exactly the characters of `v`, in order.
#[verifier::external_body]
fn chars_to_string(v: &Vec<char>) -> (r: String)
    ensures
        r@ == v@,
{
    v.iter().collect()
}

/// Appends the element lines of an array, at indentation `ind`, to `out`.
fn write_elems(elems: &Vec<Json>, ind: usize, out: &mut Vec<char>)
    ensures
        final(out)@ == old(out)@ + pretty_elems(elems_model(elems@), ind as int),
    decreases elems,
{
    let ghost start = out@;
    let ghost model = elems_model(elems@);
    proof {
        lemma_elems_model(elems@);
    }
    let n = elems.len();
    let mut i: usize = 0;
    while i < n
        invariant
            0 <= i <= n,
            n == elems@.len(),
            model == elems_model(elems@),
            model.len() == n,
            forall|j: int| 0 <= j < n ==> model[j] == elems@[j].deep(),
            out@ =~= start + pretty_elems(model.take(i as int), ind as int),
        decreases n - i,
    {
        if i > 0 {
            out.push(',');
        }
        out.push('\n');
        push_spaces(out, ind);
        proof {
            assert(decreases_to!(*elems => elems@));
            assert(decreases_to!(elems@ => elems@[i as int]));
        }
        write_json(&elems[i], ind, out);
        proof {
            assert(model.take(i + 1).drop_last() =~= model.take(i as int));
            assert(model.take(i + 1).last() == model[i as int]);
            assert(out@ =~= start + pretty_elems(model.take(i + 1), ind as int));
        }
        i = i + 1;
    }
    proof {
        assert(model.take(n as int) =~= model);
    }
}

/// Appends the `"key": value` lines of an object, at indentation `ind`, to
/// `out`.
fn write_entries(entries: &Vec<(String, Json)>, ind: usize, out: &mut Vec<char>)
    ensures
        final(out)@ == old(out)@ + pretty_entries(entries_model(entries@), ind as int),
    decreases entries,
{
    let ghost start = out@;
    let ghost model = entries_model(entries@);
    proof {
        lemma_entries_model(entries@);
    }
    let n = entries.len();
    let mut i: usize = 0;
    while i < n
        invariant
            0 <= i <= n,
            n == entries@.len(),
            model == entries_model(entries@),
            model.len() == n,
            forall|j: int| 0 <= j < n ==> model[j] == (entries@[j].0@, entries@[j].1.deep()),
            out@ =~= start + pretty_entries(model.take(i as int), ind as int),
        decreases n - i,
    {
        if i > 0 {
            out.push(',');
        }
        out.push('\n');
        push_spaces(out, ind);
        out.push('"');
        push_escaped(out, entries[i].0.as_str());
        out.push('"');
        out.push(':');
        out.push(' ');
        proof {
            assert(decreases_to!(*entries => entries@));
            assert(decreases_to!(entries@ => entries@[i as int]));
            assert(decreases_to!(entries@[i as int] => entries@[i as int].1));
        }
        write_json(&entries[i].1, ind, out);
        proof {
            assert(model.take(i + 1).drop_last() =~= model.take(i as int));
            assert(model.take(i + 1).last() == model[i as int]);
            assert(pretty_entry(model[i as int], ind as int) == seq!['"'] + escape_string(
                entries@[i as int].0@,
            ) + seq!['"', ':', ' '] + pretty(entries@[i as int].1.deep(), ind as int));
            assert(out@ =~= start + pretty_entries(model.take(i + 1), ind as int));
        }
        i = i + 1;
    }
    proof {
        assert(model.take(n as int) =~= model);
    }
}

/// Appends the serialized text of `v`, standing at indentation `ind`, to
/// `out`.
fn write_json(v: &Json, ind: usize, out: &mut Vec<char>)
    ensures
        final(out)@ == old(out)@ + pretty(v@, ind as int),
    decreases v,
{
    match v {
        Json::Null => {
            push_str_chars(out, "null");
        },
        Json::Bool(b) => {
            if *b {
                push_str_chars(out, "true");
            } else {
                push_str_chars(out, "false");
            }
        },
        Json::Num(t) => {
            push_str_chars(out, t.as_str());
        },
        Json::Str(s) => {
            let ghost start = out@;
            out.push('"');
            push_escaped(out, s.as_str());
            out.push('"');
            proof {
                assert(out@ =~= start + pretty(v@, ind as int));
            }
        },
        Json::Arr(elems) => {
            if elems.len() == 0 {
                push_str_chars(out, "[]");
            } else {
                let ghost start = out@;
                let next = if ind <= usize::MAX - 2 {
                    ind + 2
                } else {
                    ind
                };
                out.push('[');
                write_elems(elems, next, out);
                out.push('\n');
                push_spaces(out, ind);
                out.push(']');
                proof {
                    assert(out@ =~= start + (seq!['['] + pretty_elems(
                        elems_model(elems@),
                        next as int,
                    ) + seq!['\n'] + spaces(ind as int) + seq![']']));
                }
            }
        },
        Json::Obj(entries) => {
            if entries.len() == 0 {
                push_str_chars(out, "{}");
            } else {
                let ghost start = out@;
                let next = if ind <= usize::MAX - 2 {
                    ind + 2
                } else {
                    ind
                };
                out.push('{');
                write_entries(entries, next, out);
                out.push('\n');
                push_spaces(out, ind);
                out.push('}');
                proof {
                    assert(out@ =~= start + (seq!['{'] + pretty_entries(
                        entries_model(entries@),
                        next as int,
                    ) + seq!['\n'] + spaces(ind as int) + seq!['}']));
                }
            }
        },
    }
}

/// The serialized, pretty-printed text of the document `doc`.
pub fn to_pretty_string(doc: &Json) -> (r: String)
    ensures
        r@ == pretty(doc@, 0),
{
    let mut out: Vec<char> = Vec::new();
    write_json(doc, 0, &mut out);
    proof {
        assert(out@ =~= pretty(doc@, 0));
    }
    chars_to_string(&out)
}

/// The path segment at depth `d`.
fn path_key(d: usize) -> (r: &'static str)
    requires
        d < 4,
    ensures
        r@ == exceptions_path()[d as int],
{
    if d == 0 {
        "profile"
    } else if d == 1 {
        "content_settings"
    } else if d == 2 {
        "exceptions"
    } else {
        "javascript"
    }
}

/// Removes the keys from the exception map that `exceptions_path()` reaches
/// from depth `d` on, rebuilding the surrounding document unchanged.
fn remove_at(v: Json, d: usize, keys: &Vec<String>) -> (r: Result<Json, PreferencesError>)
    requires
        d <= 4,
    ensures
        match r {
            Ok(out) => remove_exceptions_at(v@, d as int, keys.deep_view()) == Some(out@),
            Err(e) => remove_exceptions_at(v@, d as int, keys.deep_view()) is None && e
                == PreferencesError::SchemaMismatch,
        },
    decreases 4 - d,
{
    match v {
        Json::Obj(mut entries) => {
            let ghost orig = entries@;
            if d == 4 {
                let out = remove_listed(entries, keys);
                Ok(Json::Obj(out))
            } else {
                let key = path_key(d);
                match obj_find(&entries, key) {
                    Some(i) => {
                        proof {
                            lemma_obj_index_of(entries_model(orig), key@);
                            lemma_entries_model(orig);
                        }
                        let pair = entries.remove(i);
                        match remove_at(pair.1, d + 1, keys) {
                            Ok(new_sub) => {
                                proof {
                                    lemma_obj_index_of(entries_model(orig), key@);
                                }
                                entries.insert(i, (pair.0, new_sub));
                                proof {
                                    lemma_entries_model(orig);
                                    lemma_entries_model(entries@);
                                    assert(entries@ =~= orig.update(
                                        i as int,
                                        (orig[i as int].0, entries@[i as int].1),
                                    ));
                                    assert(entries_model(entries@) =~= entries_model(orig).update(
                                        i as int,
                                        (entries_model(orig)[i as int].0, new_sub@),
                                    ));
                                }
                                Ok(Json::Obj(entries))
                            },
                            Err(e) => Err(e),
                        }
                    },
                    None => Err(PreferencesError::SchemaMismatch),
                }
            }
        },
        _ => Err(PreferencesError::SchemaMismatch),
    }
}

/// The document `doc` with every key of `keys` removed from its per-site
/// exception map; all other entries and all unrelated parts of the document
/// are kept exactly as they are.  Fails with `SchemaMismatch` where the
/// fixed path to that map is missing or not made of objects.
pub fn remove_exceptions(doc: Json, keys: &Vec<String>) -> (r: Result<Json, PreferencesError>)
    ensures
        match r {
            Ok(out) => remove_exceptions_model(doc@, keys.deep_view()) == Some(out@),
            Err(e) => remove_exceptions_model(doc@, keys.deep_view()) is None && e
                == PreferencesError::SchemaMismatch,
        },
{
    remove_at(doc, 0, keys)
}

/// The entry list of the per-site exception map of `doc`, reached by the
/// fixed path, or `None` where the document lacks that structure.
pub fn exceptions(doc: &Json) -> (r: Option<&Vec<(String, Json)>>)
    ensures
        match r {
            Some(e) => exceptions_of(doc@) == Some(entries_model(e@)),
            None => exceptions_of(doc@) is None,
        },
{
    let mut cur: &Json = doc;
    let mut d: usize = 0;
    while d < 4
        invariant
            d <= 4,
            exceptions_of_at(cur@, d as int) == exceptions_of(doc@),
        decreases 4 - d,
    {
        match cur {
            Json::Obj(entries) => {
                let key = path_key(d);
                match obj_find(entries, key) {
                    Some(i) => {
                        proof {
                            lemma_obj_index_of(entries_model(entries@), key@);
                            lemma_entries_model(entries@);
                        }
                        cur = &entries[i].1;
                        d = d + 1;
                    },
                    None => {
                        return None;
                    },
                }
            },
            _ => {
                return None;
            },
        }
    }
    match cur {
        Json::Obj(entries) => Some(entries),
        _ => None,
    }
}

/// Declares `serde_json`'s value type so that the conversion below can take
/// it; the crate's code never looks inside such a value.
#[verifier::external_type_specification]
#[verifier::external_body]
pub struct ExValue(serde_json::Value);

/// What `serde_json::from_str` parses a text into, as a document model:
/// `None` exactly where the text is not well-formed JSON.
pub uninterp spec fn parsed_json(s: Seq<char>) -> Option<JsonModel>;

/// Relies on the shape of `serde_json::Value`: one arm per variant, children
/// converted the same way; a number becomes its decimal text, an object keeps
/// its entry order.
#[verifier::external_body]
fn json_of_value(v: serde_json::Value) -> Json {
    match v {
        serde_json::Value::Null => Json::Null,
        serde_json::Value::Bool(b) => Json::Bool(b),
        serde_json::Value::Number(n) => Json::Num(n.to_string()),
        serde_json::Value::String(s) => Json::Str(s),
        serde_json::Value::Array(a) => Json::Arr(a.into_iter().map(json_of_value).collect()),
        serde_json::Value::Object(m) => Json::Obj(
            m.into_iter().map(|p: (String, serde_json::Value)| (p.0, json_of_value(p.1))).collect(),
        ),
    }
}

/// Relies on `serde_json::from_str`: the same text always parses to the same
/// value tree, and parsing fails exactly where the text is not well-formed
/// JSON.  The parsed tree, converted by `json_of_value`, is what
/// `parsed_json` names.
#[verifier::external_body]
pub(crate) fn parse_json(s: &str) -> (r: Result<Json, PreferencesError>)
    ensures
        match r {
            Ok(doc) => parsed_json(s@) == Some(doc@),
            Err(e) => parsed_json(s@) is None && e == PreferencesError::Unparsable,
        },
{
    match serde_json::from_str::<serde_json::Value>(s) {
        Ok(v) => Ok(json_of_value(v)),
        Err(_) => Err(PreferencesError::Unparsable),
    }
}

} // verus!
