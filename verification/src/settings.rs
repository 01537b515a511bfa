//! The read-side settings view: the flattened configuration store, the
//! reconstruction of multivalue groups from index-suffixed keys, and the
//! type-directed rendering of stored values for display.

use vstd::prelude::*;
use crate::form::{Field, FieldType, SelectType, Source};
use crate::text::{
    all_digits, dec_val, is_prefix_of, lex_le, lex_le_antisymmetric, lex_le_total,
    lex_le_transitive, parse_u64, str_eq, str_starts_with, str_lex_le,
};
use crate::units::{
    format_duration, format_duration_spec, format_rate, format_rate_spec, parse_duration,
    parse_duration_spec, parse_rate, parse_rate_spec,
};
use crate::update::kv_view;

verus! {

#[verifier::external_type_specification]
#[verifier::external_body]
pub struct ExRandomState(ahash::RandomState);

#[verifier::external_type_specification]
#[verifier::external_body]
#[verifier::reject_recursive_types(K)]
#[verifier::reject_recursive_types(V)]
#[verifier::reject_recursive_types(S)]
pub struct ExAHashMap<K, V, S>(ahash::AHashMap<K, V, S>);

/// What the backing hash map holds, as a map from key characters to value
/// characters.
pub uninterp spec fn settings_entries(m: ahash::AHashMap<String, String, ahash::RandomState>) -> Map<Seq<char>, Seq<char>>;

/// The empty store.
pub open spec fn no_entries() -> Map<Seq<char>, Seq<char>> {
    Map::empty()
}

/// Relies on ahash: a newly created `AHashMap` holds nothing.
#[verifier::external_body]
fn map_new() -> (r: Settings)
    ensures
        r@ == no_entries(),
{
    Settings { map: ahash::AHashMap::new() }
}

/// Relies on ahash's `AHashMap`, a `HashMap` with its own hasher:
/// `insert` replaces whatever the key held by the given value.
#[verifier::external_body]
fn map_insert(m: &mut ahash::AHashMap<String, String, ahash::RandomState>, k: String, v: String)
    ensures
        settings_entries(*final(m)) == settings_entries(*old(m)).insert(k@, v@),
{
    m.insert(k, v);
}

/// Relies on ahash's `AHashMap`: `get` returns the value the key holds.
#[verifier::external_body]
fn map_get<'a>(
    m: &'a ahash::AHashMap<String, String, ahash::RandomState>,
    k: &str,
) -> (r: Option<&'a String>)
    ensures
        r is Some <==> settings_entries(*m).contains_key(k@),
        r matches Some(v) ==> v@ == settings_entries(*m)[k@],
{
    m.get(k)
}

/// Relies on ahash's `AHashMap`: `iter` yields every entry exactly once,
/// in no particular order.
#[verifier::external_body]
fn map_pairs<'a>(
    m: &'a ahash::AHashMap<String, String, ahash::RandomState>,
) -> (r: Vec<(&'a str, &'a str)>)
    ensures
        forall|i: int|
            0 <= i < r@.len() ==> settings_entries(*m).contains_key((#[trigger] r@[i]).0@)
                && settings_entries(*m)[r@[i].0@] == r@[i].1@,
        forall|k: Seq<char>|
            settings_entries(*m).contains_key(k) ==> exists|i: int|
                0 <= i < r@.len() && (#[trigger] r@[i]).0@ == k,
        forall|i: int, j: int|
            0 <= i < j < r@.len() ==> (#[trigger] r@[i]).0@ != (#[trigger] r@[j]).0@,
{
    m.iter().map(|(k, v)| (k.as_str(), v.as_str())).collect()
}

/// The flattened configuration store: string keys, globally unique, each
/// holding one string value.
pub struct Settings {
    map: ahash::AHashMap<String, String, ahash::RandomState>,
}

impl View for Settings {
    type V = Map<Seq<char>, Seq<char>>;

    closed spec fn view(&self) -> Map<Seq<char>, Seq<char>> {
        settings_entries(self.map)
    }
}

impl Settings {
    pub fn new() -> (r: Self)
        ensures
            r@ == Map::<Seq<char>, Seq<char>>::empty(),
    {
        map_new()
    }

    pub fn insert(&mut self, key: String, value: String)
        ensures
            final(self)@ == old(self)@.insert(key@, value@),
    {
        map_insert(&mut self.map, key, value);
    }

    pub fn get<'a>(&'a self, key: &str) -> (r: Option<&'a String>)
        ensures
            r is Some <==> self@.contains_key(key@),
            r matches Some(v) ==> v@ == self@[key@],
    {
        map_get(&self.map, key)
    }
}

/// `k` belongs to the group of `key`: it is the key itself or one of its
/// dot-suffixed children present in the store.
pub open spec fn key_selected(m: Map<Seq<char>, Seq<char>>, key: Seq<char>, k: Seq<char>) -> bool {
    m.contains_key(k) && (k == key || is_prefix_of(key + seq!['.'], k))
}

/// `k` is the lexicographically least key of the group of `key`.
pub open spec fn is_min_selected(
    m: Map<Seq<char>, Seq<char>>,
    key: Seq<char>,
    k: Seq<char>,
) -> bool {
    key_selected(m, key, k) && forall|k2: Seq<char>|
        #[trigger] key_selected(m, key, k2) ==> lex_le(k, k2)
}

/// The value under the least key of the group, or empty when the group is
/// empty. Summary views render only this first grouped value.
pub open spec fn array_summary(m: Map<Seq<char>, Seq<char>>, key: Seq<char>) -> Seq<char> {
    if exists|k: Seq<char>| is_min_selected(m, key, k) {
        m[choose|k: Seq<char>| is_min_selected(m, key, k)]
    } else {
        Seq::empty()
    }
}

/// The display label a static select table gives a stored value: the
/// label of its first match, or the raw stored value itself.
pub open spec fn select_label(items: Seq<(Seq<char>, Seq<char>)>, stored: Seq<char>) -> Seq<char>
    decreases items.len(),
{
    if items.len() == 0 {
        stored
    } else if items[0].0 == stored {
        items[0].1
    } else {
        select_label(items.drop_first(), stored)
    }
}

proof fn select_label_match(items: Seq<(Seq<char>, Seq<char>)>, stored: Seq<char>, i: int)
    requires
        0 <= i < items.len(),
        items[i].0 == stored,
        forall|j: int| 0 <= j < i ==> items[j].0 != stored,
    ensures
        select_label(items, stored) == items[i].1,
    decreases i,
{
    if i == 0 {
    } else {
        assert(items.drop_first()[i - 1] == items[i]);
        assert(forall|j: int| 0 <= j < i - 1 ==> items.drop_first()[j] == items[j + 1]);
        select_label_match(items.drop_first(), stored, i - 1);
    }
}

proof fn select_label_no_match(items: Seq<(Seq<char>, Seq<char>)>, stored: Seq<char>)
    requires
        forall|j: int| 0 <= j < items.len() ==> items[j].0 != stored,
    ensures
        select_label(items, stored) == stored,
    decreases items.len(),
{
    if items.len() == 0 {
    } else {
        assert(forall|j: int|
            0 <= j < items.len() - 1 ==> items.drop_first()[j] == items[j + 1]);
        select_label_no_match(items.drop_first(), stored);
    }
}

/// A stored string that parses as an unsigned byte count.
pub open spec fn is_size_value(s: Seq<char>) -> bool {
    s.len() > 0 && all_digits(s) && dec_val(s) <= u64::MAX
}

/// How a field's stored value is rendered for display: total, with every
/// unparsable or absent value degrading to the empty string.
pub open spec fn format_spec(m: Map<Seq<char>, Seq<char>>, field: Field) -> Seq<char> {
    match field.typ {
        FieldType::Select { source: Source::Static(items), typ: SelectType::Single } => {
            let stored = if m.contains_key(field.id@) {
                m[field.id@]
            } else {
                Seq::empty()
            };
            select_label(kv_view(items@), stored)
        },
        FieldType::Array => array_summary(m, field.id@),
        FieldType::Boolean => {
            if m.contains_key(field.id@) && m[field.id@] == seq!['t', 'r', 'u', 'e'] {
                seq!['Y', 'e', 's']
            } else {
                seq!['N', 'o']
            }
        },
        FieldType::Duration => {
            if m.contains_key(field.id@) {
                match parse_duration_spec(m[field.id@]) {
                    Some(ms) => format_duration_spec(ms),
                    None => Seq::empty(),
                }
            } else {
                Seq::empty()
            }
        },
        FieldType::Rate => {
            if m.contains_key(field.id@) {
                match parse_rate_spec(m[field.id@]) {
                    Some(r) => format_rate_spec(r.0, r.1),
                    None => Seq::empty(),
                }
            } else {
                Seq::empty()
            }
        },
        FieldType::Size => {
            if m.contains_key(field.id@) && is_size_value(m[field.id@]) {
                size_display(dec_val(m[field.id@]) as u64)
            } else {
                Seq::empty()
            }
        },
        _ => {
            if m.contains_key(field.id@) {
                m[field.id@]
            } else {
                Seq::empty()
            }
        },
    }
}

/// What humansize renders for a byte count under decimal units is named
/// here.
pub uninterp spec fn size_display(n: u64) -> Seq<char>;

/// Relies on humansize: `format_size` under the `DECIMAL` options is a
/// pure function of the number, and always writes at least the digits of
/// the scaled value.
#[verifier::external_body]
fn human_size(n: u64) -> (r: String)
    ensures
        r@ == size_display(n),
        r@.len() > 0,
{
    humansize::format_size(n, humansize::DECIMAL)
}

/// Inserts `e` into a key-sorted pair list, keeping it sorted.
fn insert_sorted<'a>(sorted: &mut Vec<(&'a str, &'a str)>, e: (&'a str, &'a str))
    requires
        forall|a: int, b: int|
            0 <= a < b < old(sorted)@.len() ==> lex_le(
                (#[trigger] old(sorted)@[a]).0@,
                (#[trigger] old(sorted)@[b]).0@,
            ) && old(sorted)@[a].0@ != old(sorted)@[b].0@,
        forall|a: int| 0 <= a < old(sorted)@.len() ==> (#[trigger] old(sorted)@[a]).0@ != e.0@,
    ensures
        exists|p: int|
            0 <= p <= old(sorted)@.len() && final(sorted)@ == old(sorted)@.insert(p, e),
        forall|a: int, b: int|
            0 <= a < b < final(sorted)@.len() ==> lex_le(
                (#[trigger] final(sorted)@[a]).0@,
                (#[trigger] final(sorted)@[b]).0@,
            ) && final(sorted)@[a].0@ != final(sorted)@[b].0@,
{
    let n = sorted.len();
    let mut p: usize = 0;
    while p < n && str_lex_le(sorted[p].0, e.0)
        invariant
            0 <= p <= n,
            n == sorted@.len(),
            forall|j: int| 0 <= j < p ==> lex_le((#[trigger] sorted@[j]).0@, e.0@),
        decreases n - p,
    {
        p += 1;
    }
    proof {
        if p < n {
            lex_le_total(sorted@[p as int].0@, e.0@);
        }
    }
    let ghost prev = sorted@;
    sorted.insert(p, e);
    proof {
        assert(sorted@ == prev.insert(p as int, e));
        assert(forall|j: int| 0 <= j < p ==> sorted@[j] == prev[j]);
        assert(sorted@[p as int] == e);
        assert(forall|j: int| p < j < sorted@.len() ==> sorted@[j] == prev[j - 1]);
        assert forall|a: int, b: int| 0 <= a < b < sorted@.len() implies lex_le(
            (#[trigger] sorted@[a]).0@,
            (#[trigger] sorted@[b]).0@,
        ) && sorted@[a].0@ != sorted@[b].0@ by {
            if a < p && b == p {
            } else if a == p && b > p {
                if b - 1 > p as int - 1 && p < prev.len() {
                    if b - 1 == p {
                    } else {
                        lex_le_transitive(e.0@, prev[p as int].0@, prev[b - 1].0@);
                    }
                }
            } else {
            }
        }
    }
}

/// Read-side operations on the flattened store.
pub trait SettingsValues {
    spec fn entries(&self) -> Map<Seq<char>, Seq<char>>;

    /// Every pair whose key is `key` itself or a dot-suffixed child of
    /// it, sorted lexicographically by key.
    fn array_values<'a>(&'a self, key: &str) -> (r: Vec<(&'a str, &'a str)>)
        ensures
            forall|i: int|
                0 <= i < r@.len() ==> key_selected(self.entries(), key@, (#[trigger] r@[i]).0@)
                    && self.entries()[r@[i].0@] == r@[i].1@,
            forall|k: Seq<char>|
                key_selected(self.entries(), key@, k) ==> exists|i: int|
                    0 <= i < r@.len() && (#[trigger] r@[i]).0@ == k,
            forall|i: int, j: int|
                0 <= i < j < r@.len() ==> lex_le((#[trigger] r@[i]).0@, (#[trigger] r@[j]).0@)
                    && r@[i].0@ != r@[j].0@,
    ;

    /// Renders a field's stored value for display; absent or unparsable
    /// values degrade to the empty string, never to an error, and a size
    /// that does parse renders as a non-empty human-readable figure.
    fn format(&self, field: &Field) -> (r: String)
        ensures
            r@ == format_spec(self.entries(), *field),
            (field.typ matches FieldType::Size && self.entries().contains_key(field.id@)
                && is_size_value(self.entries()[field.id@])) ==> r@.len() > 0,
    ;
}

impl SettingsValues for Settings {
    open spec fn entries(&self) -> Map<Seq<char>, Seq<char>> {
        self@
    }

    fn array_values<'a>(&'a self, key: &str) -> (r: Vec<(&'a str, &'a str)>) {
        proof {
            reveal_strlit(".");
            assert("."@ =~= seq!['.']);
        }
        let mut prefix = String::from_str(key);
        prefix.append(".");
        let pairs = map_pairs(&self.map);
        let ghost m = settings_entries(self.map);
        let n = pairs.len();
        let mut selected: Vec<(&str, &str)> = Vec::new();
        let mut i: usize = 0;
        while i < n
            invariant
                0 <= i <= n,
                n == pairs@.len(),
                prefix@ == key@ + seq!['.'],
                m == settings_entries(self.map),
                forall|l: int|
                    0 <= l < selected@.len() ==> key_selected(m, key@, (#[trigger] selected@[l]).0@)
                        && m[selected@[l].0@] == selected@[l].1@,
                forall|l: int|
                    0 <= l < selected@.len() ==> pairs@.take(i as int).contains(
                        #[trigger] selected@[l],
                    ),
                forall|a: int, b: int|
                    0 <= a < b < selected@.len() ==> (#[trigger] selected@[a]).0@ != (
                    #[trigger] selected@[b]).0@,
                forall|j: int|
                    0 <= j < i && key_selected(m, key@, (#[trigger] pairs@[j]).0@)
                        ==> selected@.contains(pairs@[j]),
                forall|i0: int, j0: int|
                    0 <= i0 < j0 < pairs@.len() ==> (#[trigger] pairs@[i0]).0@ != (
                    #[trigger] pairs@[j0]).0@,
                forall|i0: int|
                    0 <= i0 < pairs@.len() ==> m.contains_key((#[trigger] pairs@[i0]).0@)
                        && m[pairs@[i0].0@] == pairs@[i0].1@,
            decreases n - i,
        {
            let pr = pairs[i];
            let ghost prevsel = selected@;
            if str_eq(pr.0, key) || str_starts_with(pr.0, prefix.as_str()) {
                proof {
                    assert forall|a: int| 0 <= a < prevsel.len() implies (
                    #[trigger] prevsel[a]).0@ != pairs@[i as int].0@ by {
                        let jb = choose|jb: int|
                            0 <= jb < pairs@.take(i as int).len() && (#[trigger] pairs@.take(
                                i as int,
                            )[jb]) == prevsel[a];
                        assert(pairs@[jb] == prevsel[a]);
                    }
                }
                selected.push(pr);
            }
            i += 1;
            proof {
                assert forall|j: int|
                    0 <= j < i && key_selected(m, key@, (#[trigger] pairs@[j]).0@)
                        implies selected@.contains(pairs@[j]) by {
                    if j < i - 1 {
                        let l0 = choose|l0: int|
                            0 <= l0 < prevsel.len() && (#[trigger] prevsel[l0]) == pairs@[j];
                        assert(selected@[l0] == pairs@[j]);
                    } else {
                        assert(selected@.last() == pairs@[j]);
                    }
                }
                assert forall|l: int| 0 <= l < selected@.len() implies pairs@.take(
                    i as int,
                ).contains(#[trigger] selected@[l]) by {
                    if l < prevsel.len() {
                        let jb = choose|jb: int|
                            0 <= jb < pairs@.take(i as int - 1).len() && (#[trigger] pairs@.take(
                                i as int - 1,
                            )[jb]) == prevsel[l];
                        assert(pairs@.take(i as int)[jb] == selected@[l]);
                    } else {
                        assert(pairs@.take(i as int)[i - 1] == selected@[l]);
                    }
                }
            }
        }
        proof {
            assert forall|l: int| 0 <= l < selected@.len() implies selected@.take(
                selected@.len() as int,
            ).contains(#[trigger] selected@[l]) by {
                assert(selected@.take(selected@.len() as int)[l] == selected@[l]);
            }
        }
        let sn = selected.len();
        let mut sorted: Vec<(&str, &str)> = Vec::new();
        let mut l: usize = 0;
        while l < sn
            invariant
                0 <= l <= sn,
                sn == selected@.len(),
                m == settings_entries(self.map),
                forall|a: int|
                    0 <= a < selected@.len() ==> key_selected(
                        m,
                        key@,
                        (#[trigger] selected@[a]).0@,
                    ) && m[selected@[a].0@] == selected@[a].1@,
                forall|a: int, b: int|
                    0 <= a < b < selected@.len() ==> (#[trigger] selected@[a]).0@ != (
                    #[trigger] selected@[b]).0@,
                forall|a: int|
                    0 <= a < sorted@.len() ==> selected@.take(l as int).contains(
                        #[trigger] sorted@[a],
                    ),
                forall|b: int| 0 <= b < l ==> sorted@.contains(#[trigger] selected@[b]),
                forall|a: int, b: int|
                    0 <= a < b < sorted@.len() ==> lex_le(
                        (#[trigger] sorted@[a]).0@,
                        (#[trigger] sorted@[b]).0@,
                    ) && sorted@[a].0@ != sorted@[b].0@,
            decreases sn - l,
        {
            let e = selected[l];
            proof {
                assert forall|a: int| 0 <= a < sorted@.len() implies (#[trigger] sorted@[a]).0@
                    != e.0@ by {
                    let b = choose|b: int|
                        0 <= b < selected@.take(l as int).len() && (#[trigger] selected@.take(
                            l as int,
                        )[b]) == sorted@[a];
                    assert(selected@[b] == sorted@[a]);
                    assert(selected@[b].0@ != selected@[l as int].0@);
                }
            }
            let ghost prevsorted = sorted@;
            insert_sorted(&mut sorted, e);
            l += 1;
            proof {
                let p = choose|p: int|
                    0 <= p <= prevsorted.len() && sorted@ == prevsorted.insert(p, e);
                assert forall|a: int| 0 <= a < sorted@.len() implies selected@.take(
                    l as int,
                ).contains(#[trigger] sorted@[a]) by {
                    if a < p {
                        assert(sorted@[a] == prevsorted[a]);
                        let b = choose|b: int|
                            0 <= b < selected@.take(l as int - 1).len() && (#[trigger] selected@.take(
                                l as int - 1,
                            )[b]) == prevsorted[a];
                        assert(selected@.take(l as int)[b] == sorted@[a]);
                    } else if a == p {
                        assert(sorted@[a] == e);
                        assert(selected@.take(l as int)[l - 1] == e);
                    } else {
                        assert(sorted@[a] == prevsorted[a - 1]);
                        let b = choose|b: int|
                            0 <= b < selected@.take(l as int - 1).len() && (#[trigger] selected@.take(
                                l as int - 1,
                            )[b]) == prevsorted[a - 1];
                        assert(selected@.take(l as int)[b] == sorted@[a]);
                    }
                }
                assert forall|b: int| 0 <= b < l implies sorted@.contains(
                    #[trigger] selected@[b],
                ) by {
                    if b == l - 1 {
                        assert(sorted@[p] == e);
                    } else {
                        let a0 = choose|a0: int|
                            0 <= a0 < prevsorted.len() && (#[trigger] prevsorted[a0])
                                == selected@[b];
                        if a0 < p {
                            assert(sorted@[a0] == prevsorted[a0]);
                        } else {
                            assert(sorted@[a0 + 1] == prevsorted[a0]);
                        }
                    }
                }
            }
        }
        proof {
            assert forall|a: int| 0 <= a < sorted@.len() implies key_selected(
                self.entries(),
                key@,
                (#[trigger] sorted@[a]).0@,
            ) && self.entries()[sorted@[a].0@] == sorted@[a].1@ by {
                let b = choose|b: int|
                    0 <= b < selected@.take(sn as int).len() && (#[trigger] selected@.take(
                        sn as int,
                    )[b]) == sorted@[a];
                assert(selected@[b] == sorted@[a]);
            }
            assert forall|k: Seq<char>| key_selected(self.entries(), key@, k) implies exists|i0: int|
                0 <= i0 < sorted@.len() && (#[trigger] sorted@[i0]).0@ == k by {
                let j = choose|j: int| 0 <= j < pairs@.len() && (#[trigger] pairs@[j]).0@ == k;
                assert(key_selected(m, key@, pairs@[j].0@));
                assert(selected@.contains(pairs@[j]));
                let a = choose|a: int|
                    0 <= a < selected@.len() && (#[trigger] selected@[a]) == pairs@[j];
                assert(sorted@.contains(selected@[a]));
                let i0 = choose|i0: int|
                    0 <= i0 < sorted@.len() && (#[trigger] sorted@[i0]) == selected@[a];
                assert(sorted@[i0].0@ == k);
            }
        }
        sorted
    }

    #[verifier::loop_isolation(false)]
    fn format(&self, field: &Field) -> (r: String) {
        match &field.typ {
            FieldType::Select { source: Source::Static(items), typ: SelectType::Single } => {
                let stored: String = match self.get(field.id.as_str()) {
                    Some(v) => v.clone(),
                    None => String::new(),
                };
                proof {
                    assert(format_spec(self.entries(), *field) == select_label(
                        kv_view(items@),
                        stored@,
                    ));
                }
                let n = items.len();
                let mut i: usize = 0;
                while i < n
                    invariant
                        0 <= i <= n,
                        n == items@.len(),
                        forall|j: int| 0 <= j < i ==> (#[trigger] items@[j]).0@ != stored@,
                    decreases n - i,
                {
                    if str_eq(items[i].0.as_str(), stored.as_str()) {
                        proof {
                            assert forall|j: int| 0 <= j < i implies (#[trigger] kv_view(
                                items@,
                            )[j]).0 != stored@ by {
                                assert(kv_view(items@)[j].0 == items@[j].0@);
                            }
                            assert(kv_view(items@)[i as int] == (
                                items@[i as int].0@,
                                items@[i as int].1@,
                            ));
                            select_label_match(kv_view(items@), stored@, i as int);
                        }
                        return items[i].1.clone();
                    }
                    i += 1;
                }
                proof {
                    assert forall|j: int| 0 <= j < kv_view(items@).len() implies (#[trigger] kv_view(
                        items@,
                    )[j]).0 != stored@ by {
                        assert(kv_view(items@)[j].0 == items@[j].0@);
                    }
                    select_label_no_match(kv_view(items@), stored@);
                }
                stored
            },
            FieldType::Array => {
                proof {
                    assert(format_spec(self.entries(), *field) == array_summary(
                        self.entries(),
                        field.id@,
                    ));
                }
                let vals = self.array_values(field.id.as_str());
                if vals.len() > 0 {
                    proof {
                        let first = vals@[0];
                        assert forall|k2: Seq<char>|
                            #[trigger] key_selected(self.entries(), field.id@, k2) implies lex_le(
                            first.0@,
                            k2,
                        ) by {
                            let i0 = choose|i0: int|
                                0 <= i0 < vals@.len() && (#[trigger] vals@[i0]).0@ == k2;
                            if i0 == 0 {
                                lex_le_total(first.0@, k2);
                            }
                        }
                        assert(is_min_selected(self.entries(), field.id@, first.0@));
                        let k0 = choose|k: Seq<char>|
                            is_min_selected(self.entries(), field.id@, k);
                        lex_le_antisymmetric(k0, first.0@);
                    }
                    String::from_str(vals[0].1)
                } else {
                    proof {
                        if exists|k: Seq<char>| is_min_selected(self.entries(), field.id@, k) {
                            let k0 = choose|k: Seq<char>|
                                is_min_selected(self.entries(), field.id@, k);
                            assert(key_selected(self.entries(), field.id@, k0));
                        }
                    }
                    String::new()
                }
            },
            FieldType::Boolean => {
                proof {
                    reveal_strlit("true");
                    reveal_strlit("Yes");
                    reveal_strlit("No");
                    assert("true"@ =~= seq!['t', 'r', 'u', 'e']);
                    assert("Yes"@ =~= seq!['Y', 'e', 's']);
                    assert("No"@ =~= seq!['N', 'o']);
                }
                match self.get(field.id.as_str()) {
                    Some(v) => {
                        if str_eq(v.as_str(), "true") {
                            String::from_str("Yes")
                        } else {
                            String::from_str("No")
                        }
                    },
                    None => String::from_str("No"),
                }
            },
            FieldType::Duration => {
                match self.get(field.id.as_str()) {
                    Some(v) => match parse_duration(v.as_str()) {
                        Some(ms) => format_duration(ms),
                        None => String::new(),
                    },
                    None => String::new(),
                }
            },
            FieldType::Rate => {
                match self.get(field.id.as_str()) {
                    Some(v) => match parse_rate(v.as_str()) {
                        Some(rate) => format_rate(rate.0, rate.1),
                        None => String::new(),
                    },
                    None => String::new(),
                }
            },
            FieldType::Size => {
                match self.get(field.id.as_str()) {
                    Some(v) => match parse_u64(v.as_str()) {
                        Some(bytes) => human_size(bytes),
                        None => String::new(),
                    },
                    None => String::new(),
                }
            },
            _ => {
                match self.get(field.id.as_str()) {
                    Some(v) => v.clone(),
                    None => String::new(),
                }
            },
        }
    }
}

} // verus!
