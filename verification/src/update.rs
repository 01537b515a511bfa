//! The update-set builder: turns a populated form into an ordered sequence
//! of store mutations, flattening multivalue fields into index-suffixed
//! keys. Destructive mutations always precede the constructive insert.

use vstd::prelude::*;
use crate::form::{
    Field, FormData, FormValue, IfThen, SchemaType, form_value_is_empty, spec_value_as_str,
    spec_value_is_empty,
};
use crate::text::{dec_rep, zero_padded_dec, is_internal_key};

verus! {

/// One mutation against the flattened key-value store.
#[derive(Debug, Clone, PartialEq, Eq)]
pub enum UpdateSettings {
    Delete { keys: Vec<String> },
    Clear { prefix: String, filter: Option<String> },
    Insert { prefix: Option<String>, values: Vec<(String, String)>, assert_empty: bool },
}

/// A warning the backend reports for one key after applying mutations.
#[derive(Debug, Clone, PartialEq, Eq)]
pub enum ConfigWarning {
    Missing,
    AppliedDefault { default: String },
    Unread { value: String },
    Build { error: String },
    Parse { error: String },
}

/// An error the backend reports for one key after applying mutations.
#[derive(Debug, Clone, PartialEq, Eq)]
pub enum ConfigError {
    Parse { error: String },
    Build { error: String },
    Macro { error: String },
}

/// The backend's apply result: warnings and errors, each keyed by the
/// affected setting.
#[derive(Debug, Clone, PartialEq, Eq, Default)]
pub struct ReloadSettings {
    pub warnings: Vec<(String, ConfigWarning)>,
    pub errors: Vec<(String, ConfigError)>,
}

/// The mathematical shape of one mutation.
#[verifier::ext_equal]
pub enum UpdateView {
    Delete { keys: Seq<Seq<char>> },
    Clear { prefix: Seq<char>, filter: Option<Seq<char>> },
    Insert { prefix: Option<Seq<char>>, values: Seq<(Seq<char>, Seq<char>)>, assert_empty: bool },
}

pub open spec fn kv_view(s: Seq<(String, String)>) -> Seq<(Seq<char>, Seq<char>)> {
    s.map_values(|p: (String, String)| (p.0@, p.1@))
}

pub open spec fn str_seq_view(s: Seq<String>) -> Seq<Seq<char>> {
    s.map_values(|x: String| x@)
}

impl View for UpdateSettings {
    type V = UpdateView;

    open spec fn view(&self) -> UpdateView {
        match self {
            UpdateSettings::Delete { keys } => UpdateView::Delete { keys: str_seq_view(keys@) },
            UpdateSettings::Clear { prefix, filter } => UpdateView::Clear {
                prefix: prefix@,
                filter: match filter {
                    Some(f) => Some(f@),
                    None => None,
                },
            },
            UpdateSettings::Insert { prefix, values, assert_empty } => UpdateView::Insert {
                prefix: match prefix {
                    Some(p) => Some(p@),
                    None => None,
                },
                values: kv_view(values@),
                assert_empty: *assert_empty,
            },
        }
    }
}

pub open spec fn updates_view(s: Seq<UpdateSettings>) -> Seq<UpdateView> {
    s.map_values(|u: UpdateSettings| u@)
}

/// `a`, a dot, then `b`.
pub open spec fn dotted(a: Seq<char>, b: Seq<char>) -> Seq<char> {
    a + seq!['.'] + b
}

/// The key of an indexed element: the base key, a dot, and the index
/// zero-padded to `w` characters.
pub open spec fn idx_key(key: Seq<char>, i: nat, w: nat) -> Seq<char> {
    dotted(key, zero_padded_dec(i, w))
}

/// Index suffixes of an array are padded to the digit width of the last
/// index, `count - 1`.
pub open spec fn array_pad_width(n: nat) -> nat
    recommends
        n >= 1,
{
    dec_rep((n - 1) as nat).len()
}

/// Index suffixes of an expression are padded to the digit width of the
/// unreduced arm count itself, leaving room for the trailing `else` index.
pub open spec fn expr_pad_width(n: nat) -> nat {
    dec_rep(n).len()
}

/// The flattened pairs of an array value: one pair per element under an
/// index-suffixed key, except that a singleton keeps the bare key.
pub open spec fn array_pairs(key: Seq<char>, vals: Seq<Seq<char>>) -> Seq<
    (Seq<char>, Seq<char>),
> {
    if vals.len() == 0 {
        Seq::empty()
    } else if vals.len() == 1 {
        seq![(key, vals[0])]
    } else {
        Seq::new(vals.len(), |i: int| (idx_key(key, i as nat, array_pad_width(vals.len())), vals[i]))
    }
}

pub open spec fn it_view(s: Seq<IfThen>) -> Seq<(Seq<char>, Seq<char>)> {
    s.map_values(|x: IfThen| (x.if_@, x.then_@))
}

/// The `if`/`then` pairs of the first `i` arms of an expression.
pub open spec fn expr_arm_pairs(
    key: Seq<char>,
    it: Seq<(Seq<char>, Seq<char>)>,
    w: nat,
    i: int,
) -> Seq<(Seq<char>, Seq<char>)>
    decreases i,
{
    if i <= 0 {
        Seq::empty()
    } else {
        expr_arm_pairs(key, it, w, i - 1) + seq![
            (idx_key(key, (i - 1) as nat, w) + seq!['.', 'i', 'f'], it[i - 1].0),
            (idx_key(key, (i - 1) as nat, w) + seq!['.', 't', 'h', 'e', 'n'], it[i - 1].1),
        ]
    }
}

/// The flattened pairs of an expression value: `if`/`then` pairs per arm in
/// order, then the `else` under index = arm count; with no arms, the bare
/// key holds the `else` value.
pub open spec fn expr_pairs(
    key: Seq<char>,
    it: Seq<(Seq<char>, Seq<char>)>,
    else_: Seq<char>,
) -> Seq<(Seq<char>, Seq<char>)> {
    if it.len() == 0 {
        seq![(key, else_)]
    } else {
        let w = expr_pad_width(it.len());
        expr_arm_pairs(key, it, w, it.len() as int) + seq![
            (idx_key(key, it.len(), w) + seq!['.', 'e', 'l', 's', 'e'], else_),
        ]
    }
}

/// The flattened pairs contributed by one stored form value; empty values
/// contribute nothing.
pub open spec fn value_pairs(key: Seq<char>, v: FormValue) -> Seq<(Seq<char>, Seq<char>)> {
    if form_value_is_empty(v) {
        Seq::empty()
    } else {
        match v {
            FormValue::Value(s) => seq![(key, s@)],
            FormValue::Array(a) => array_pairs(key, a@.map_values(|x: String| x@)),
            FormValue::Expression(e) => expr_pairs(key, it_view(e.if_thens@), e.else_@),
        }
    }
}

/// The pairs contributed by the first `i` stored values, skipping internal
/// (underscore-prefixed) keys.
pub open spec fn insert_pairs_upto(values: Seq<(String, FormValue)>, i: int) -> Seq<
    (Seq<char>, Seq<char>),
>
    decreases i,
{
    if i <= 0 {
        Seq::empty()
    } else {
        insert_pairs_upto(values, i - 1) + (if is_internal_key(values[i - 1].0@) {
            Seq::empty()
        } else {
            value_pairs(values[i - 1].0@, values[i - 1].1)
        })
    }
}

pub open spec fn insert_pairs(values: Seq<(String, FormValue)>) -> Seq<(Seq<char>, Seq<char>)> {
    insert_pairs_upto(values, values.len() as int)
}

/// The `Clear` mutations emitted for the first `i` declared fields of a
/// `List` schema being edited: one per multivalue field, in schema order.
pub open spec fn list_clears_upto(fields: Seq<Field>, i: int) -> Seq<UpdateView>
    decreases i,
{
    if i <= 0 {
        Seq::empty()
    } else {
        list_clears_upto(fields, i - 1) + (if fields[i - 1].multivalue {
            seq![
                UpdateView::Clear {
                    prefix: fields[i - 1].id@ + seq!['.'],
                    filter: None::<Seq<char>>,
                },
            ]
        } else {
            Seq::empty()
        })
    }
}

/// The ids marked for deletion among the first `i` declared fields of a
/// `List` schema being edited: multivalue fields and fields whose stored
/// value is empty.
pub open spec fn list_delete_keys_upto(
    fields: Seq<Field>,
    values: Seq<(String, FormValue)>,
    i: int,
) -> Seq<Seq<char>>
    decreases i,
{
    if i <= 0 {
        Seq::empty()
    } else {
        list_delete_keys_upto(fields, values, i - 1) + (if fields[i - 1].multivalue
            || spec_value_is_empty(values, fields[i - 1].id@) {
            seq![fields[i - 1].id@]
        } else {
            Seq::empty()
        })
    }
}

/// The trailing `Insert`, emitted only when some pair was produced.
pub open spec fn insert_tail(
    prefix: Option<Seq<char>>,
    pairs: Seq<(Seq<char>, Seq<char>)>,
    assert_empty: bool,
) -> Seq<UpdateView> {
    if pairs.len() > 0 {
        seq![UpdateView::Insert { prefix, values: pairs, assert_empty }]
    } else {
        Seq::empty()
    }
}

pub open spec fn id_key() -> Seq<char> {
    seq!['_', 'i', 'd']
}

pub open spec fn value_key() -> Seq<char> {
    seq!['_', 'v', 'a', 'l', 'u', 'e']
}

/// The prefix carried by the trailing `Insert`: only a `Record` schema
/// addresses its pairs under a common prefix.
pub open spec fn spec_insert_prefix(form: FormData) -> Option<Seq<char>> {
    match form.schema.typ {
        SchemaType::Record { prefix } => Some(
            dotted(prefix@, spec_value_as_str(form.values@, id_key())->0),
        ),
        _ => None,
    }
}

/// The trailing `Insert` asserts emptiness only when a `Record` is being
/// created rather than edited.
pub open spec fn spec_assert_empty(form: FormData) -> bool {
    match form.schema.typ {
        SchemaType::Record { .. } => !form.is_update,
        _ => false,
    }
}

/// The destructive mutations that precede the trailing `Insert`.
pub open spec fn spec_head(form: FormData) -> Seq<UpdateView> {
    match form.schema.typ {
        SchemaType::Record { .. } => {
            if form.is_update {
                seq![
                    UpdateView::Clear {
                        prefix: spec_insert_prefix(form)->0 + seq!['.'],
                        filter: None::<Seq<char>>,
                    },
                ]
            } else {
                Seq::empty()
            }
        },
        SchemaType::Entry { .. } => Seq::empty(),
        SchemaType::List => {
            if form.is_update {
                let nf = form.schema.fields@.len() as int;
                let dels = list_delete_keys_upto(form.schema.fields@, form.values@, nf);
                list_clears_upto(form.schema.fields@, nf) + (if dels.len() > 0 {
                    seq![UpdateView::Delete { keys: dels }]
                } else {
                    Seq::empty()
                })
            } else {
                Seq::empty()
            }
        },
    }
}

/// The full sequence of mutations produced for a populated form:
/// destructive mutations first, then one `Insert` holding every flattened
/// pair. An `Entry` schema short-circuits into a single `Insert` of its
/// one value, consulting no other field.
pub open spec fn build_update_spec(form: FormData) -> Seq<UpdateView> {
    match form.schema.typ {
        SchemaType::Entry { prefix } => {
            let id = spec_value_as_str(form.values@, id_key())->0;
            let v = match spec_value_as_str(form.values@, value_key()) {
                Some(s) => s,
                None => Seq::empty(),
            };
            seq![
                UpdateView::Insert {
                    prefix: None::<Seq<char>>,
                    values: seq![(dotted(prefix@, id), v)],
                    assert_empty: !form.is_update,
                },
            ]
        },
        _ => spec_head(form) + insert_tail(
            spec_insert_prefix(form),
            insert_pairs(form.values@),
            spec_assert_empty(form),
        ),
    }
}

pub open spec fn opt_str_view(o: Option<String>) -> Option<Seq<char>> {
    match o {
        Some(s) => Some(s@),
        None => None,
    }
}

/// Builds the key of one indexed element.
fn indexed_key(key: &String, idx: u64, width: usize) -> (r: String)
    ensures
        r@ == idx_key(key@, idx as nat, width as nat),
{
    proof {
        reveal_strlit(".");
        assert("."@ =~= seq!['.']);
    }
    let mut s = key.clone();
    s.append(".");
    let p = crate::text::zero_padded_dec_string(idx, width);
    s.append(p.as_str());
    s
}

/// Appends the flattened pairs of one stored form value to `out`.
fn push_value_pairs(out: &mut Vec<(String, String)>, key: &String, value: &FormValue)
    ensures
        kv_view(final(out)@) == kv_view(old(out)@) + value_pairs(key@, *value),
{
    match value {
        FormValue::Value(s) => {
            if s.as_str().unicode_len() > 0 {
                out.push((key.clone(), s.clone()));
                proof {
                    assert(kv_view(out@) =~= kv_view(old(out)@) + value_pairs(key@, *value));
                }
            } else {
                proof {
                    assert(kv_view(out@) =~= kv_view(old(out)@) + value_pairs(key@, *value));
                }
            }
        },
        FormValue::Array(values) => {
            let total = values.len();
            if total == 0 {
                proof {
                    assert(kv_view(out@) =~= kv_view(old(out)@) + value_pairs(key@, *value));
                }
            } else if total == 1 {
                out.push((key.clone(), values[0].clone()));
                proof {
                    assert(values@.map_values(|x: String| x@)[0] == values@[0]@);
                    assert(kv_view(out@) =~= kv_view(old(out)@) + value_pairs(key@, *value));
                }
            } else {
                let ghost vals = values@.map_values(|x: String| x@);
                let wstr = crate::text::dec_string((total - 1) as u64);
                let w = wstr.as_str().unicode_len();
                proof {
                    assert(w as nat == array_pad_width(total as nat));
                }
                let mut idx: usize = 0;
                proof {
                    assert(array_pairs(key@, vals).take(0) =~= Seq::empty());
                }
                while idx < total
                    invariant
                        0 <= idx <= total,
                        total == values@.len(),
                        total > 1,
                        vals == values@.map_values(|x: String| x@),
                        w as nat == array_pad_width(total as nat),
                        kv_view(out@) == kv_view(old(out)@) + array_pairs(key@, vals).take(
                            idx as int,
                        ),
                    decreases total - idx,
                {
                    let ghost prevout = out@;
                    let k = indexed_key(key, idx as u64, w);
                    let cv = values[idx].clone();
                    out.push((k, cv));
                    idx += 1;
                    proof {
                        let ap = array_pairs(key@, vals);
                        assert(ap[idx - 1] == (
                            idx_key(key@, (idx - 1) as nat, w as nat),
                            vals[idx - 1],
                        ));
                        assert(vals[idx - 1] == values@[idx - 1]@);
                        assert(out@.len() == prevout.len() + 1);
                        assert(out@.last().0@ == idx_key(key@, (idx - 1) as nat, w as nat));
                        assert(out@.last().1@ == values@[idx - 1]@);
                        assert(kv_view(out@) =~~= kv_view(prevout).push(
                            (out@.last().0@, out@.last().1@),
                        ));
                        assert(ap.take(idx as int) =~~= ap.take(idx as int - 1).push(
                            ap[idx - 1],
                        ));
                        assert(kv_view(out@) =~~= kv_view(old(out)@) + ap.take(idx as int));
                    }
                }
                proof {
                    assert(array_pairs(key@, vals).take(total as int) =~= array_pairs(key@, vals));
                    assert(value_pairs(key@, *value) == array_pairs(key@, vals));
                }
            }
        },
        FormValue::Expression(e) => {
            proof {
                reveal_strlit(".if");
                reveal_strlit(".then");
                reveal_strlit(".else");
                assert(".if"@ =~= seq!['.', 'i', 'f']);
                assert(".then"@ =~= seq!['.', 't', 'h', 'e', 'n']);
                assert(".else"@ =~= seq!['.', 'e', 'l', 's', 'e']);
            }
            let nt = e.if_thens.len();
            let ghost it = it_view(e.if_thens@);
            if nt > 0 {
                let wstr = crate::text::dec_string(nt as u64);
                let w = wstr.as_str().unicode_len();
                proof {
                    assert(w as nat == expr_pad_width(nt as nat));
                }
                let mut idx: usize = 0;
                while idx < nt
                    invariant
                        0 <= idx <= nt,
                        nt == e.if_thens@.len(),
                        nt > 0,
                        it == it_view(e.if_thens@),
                        w as nat == expr_pad_width(nt as nat),
                        ".if"@ == seq!['.', 'i', 'f'],
                        ".then"@ == seq!['.', 't', 'h', 'e', 'n'],
                        kv_view(out@) == kv_view(old(out)@) + expr_arm_pairs(
                            key@,
                            it,
                            w as nat,
                            idx as int,
                        ),
                    decreases nt - idx,
                {
                    let ghost prevout = out@;
                    let base = indexed_key(key, idx as u64, w);
                    let mut kif = base.clone();
                    kif.append(".if");
                    let mut kth = base;
                    kth.append(".then");
                    out.push((kif, e.if_thens[idx].if_.clone()));
                    out.push((kth, e.if_thens[idx].then_.clone()));
                    idx += 1;
                    proof {
                        let ik = idx_key(key@, (idx - 1) as nat, w as nat);
                        assert(it[idx - 1] == (e.if_thens@[idx - 1].if_@, e.if_thens@[idx - 1].then_@));
                        assert(out@.len() == prevout.len() + 2);
                        assert(out@[out@.len() - 2].0@ == ik + seq!['.', 'i', 'f']);
                        assert(out@[out@.len() - 2].1@ == e.if_thens@[idx - 1].if_@);
                        assert(out@.last().0@ == ik + seq!['.', 't', 'h', 'e', 'n']);
                        assert(out@.last().1@ == e.if_thens@[idx - 1].then_@);
                        assert(forall|j: int| 0 <= j < prevout.len() ==> out@[j] == prevout[j]);
                        assert(expr_arm_pairs(key@, it, w as nat, idx as int) == expr_arm_pairs(
                            key@,
                            it,
                            w as nat,
                            idx as int - 1,
                        ) + seq![(ik + seq!['.', 'i', 'f'], it[idx - 1].0), (ik + seq!['.', 't', 'h', 'e', 'n'], it[idx - 1].1)]);
                        assert(kv_view(out@) =~~= kv_view(prevout) + seq![
                            (out@[out@.len() - 2].0@, out@[out@.len() - 2].1@),
                            (out@.last().0@, out@.last().1@),
                        ]);
                        assert(kv_view(out@) =~~= kv_view(old(out)@) + expr_arm_pairs(
                            key@,
                            it,
                            w as nat,
                            idx as int,
                        ));
                    }
                }
                let ghost prevout = out@;
                let mut kel = indexed_key(key, nt as u64, w);
                kel.append(".else");
                out.push((kel, e.else_.clone()));
                proof {
                    assert(out@.len() == prevout.len() + 1);
                    assert(out@.last().0@ == idx_key(key@, nt as nat, w as nat) + seq!['.', 'e', 'l', 's', 'e']);
                    assert(out@.last().1@ == e.else_@);
                    assert(forall|j: int| 0 <= j < prevout.len() ==> out@[j] == prevout[j]);
                    assert(value_pairs(key@, *value) == expr_pairs(key@, it, e.else_@));
                    assert(kv_view(out@) =~~= kv_view(prevout).push(
                        (out@.last().0@, out@.last().1@),
                    ));
                    assert(kv_view(out@) =~~= kv_view(old(out)@) + expr_pairs(key@, it, e.else_@));
                }
            } else {
                if e.else_.as_str().unicode_len() > 0 {
                    out.push((key.clone(), e.else_.clone()));
                    proof {
                        assert(kv_view(out@) =~= kv_view(old(out)@) + value_pairs(key@, *value));
                    }
                } else {
                    proof {
                        assert(kv_view(out@) =~= kv_view(old(out)@) + value_pairs(key@, *value));
                    }
                }
            }
        },
    }
}

impl FormData {
    /// Builds the ordered mutation sequence for this form. It never fails;
    /// a form with nothing to write yields an empty sequence. A `Record` or
    /// `Entry` schema requires the `_id` discriminator to be present as a
    /// plain string value, and an `Entry` additionally requires `_value`:
    /// their absence is a contract violation, not a recoverable error.
    pub fn build_update(&self) -> (r: Vec<UpdateSettings>)
        requires
            !(self.schema.typ matches SchemaType::List) ==> spec_value_as_str(
                self.values@,
                id_key(),
            ) is Some,
            self.schema.typ matches SchemaType::Entry { .. } ==> spec_value_as_str(
                self.values@,
                value_key(),
            ) is Some,
        ensures
            updates_view(r@) == build_update_spec(*self),
    {
        proof {
            reveal_strlit("_id");
            reveal_strlit("_value");
            reveal_strlit(".");
            assert("_id"@ =~= id_key());
            assert("_value"@ =~= value_key());
            assert("."@ =~= seq!['.']);
        }
        let mut key_values: Vec<(String, String)> = Vec::new();
        let n = self.values.len();
        let mut i: usize = 0;
        proof {
            assert(kv_view(key_values@) =~= insert_pairs_upto(self.values@, 0));
        }
        while i < n
            invariant
                0 <= i <= n,
                n == self.values@.len(),
                kv_view(key_values@) == insert_pairs_upto(self.values@, i as int),
            decreases n - i,
        {
            let ghost prevkv = kv_view(key_values@);
            let p = &self.values[i];
            if !crate::text::str_is_internal_key(p.0.as_str()) {
                push_value_pairs(&mut key_values, &p.0, &p.1);
            } else {
                proof {
                    assert(kv_view(key_values@) =~= prevkv + Seq::<(Seq<char>, Seq<char>)>::empty());
                }
            }
            i += 1;
        }
        proof {
            assert(kv_view(key_values@) == insert_pairs(self.values@));
        }
        let mut updates: Vec<UpdateSettings> = Vec::new();
        let mut insert_prefix: Option<String> = None;
        let mut assert_empty = false;
        match &self.schema.typ {
            SchemaType::Record { prefix } => {
                let id = self.value_as_str("_id").unwrap();
                let mut ip = prefix.clone();
                ip.append(".");
                ip.append(id.as_str());
                proof {
                    assert(ip@ == spec_insert_prefix(*self)->0);
                }
                if self.is_update {
                    let mut cp = ip.clone();
                    cp.append(".");
                    updates.push(UpdateSettings::Clear { prefix: cp, filter: None });
                    proof {
                        assert(updates_view(updates@) =~~= spec_head(*self));
                    }
                } else {
                    assert_empty = true;
                    proof {
                        assert(updates_view(updates@) =~~= spec_head(*self));
                    }
                }
                insert_prefix = Some(ip);
                proof {
                    assert(opt_str_view(insert_prefix) == spec_insert_prefix(*self));
                    assert(assert_empty == spec_assert_empty(*self));
                }
            },
            SchemaType::Entry { prefix } => {
                let id = self.value_as_str("_id").unwrap();
                let mut k = prefix.clone();
                k.append(".");
                k.append(id.as_str());
                let v: String = match self.value_as_str("_value") {
                    Some(s) => s.clone(),
                    None => String::new(),
                };
                let ghost gk = k@;
                let ghost gv = v@;
                let mut vals: Vec<(String, String)> = Vec::new();
                vals.push((k, v));
                let ghost gvals = vals@;
                updates.push(
                    UpdateSettings::Insert {
                        prefix: None,
                        values: vals,
                        assert_empty: !self.is_update,
                    },
                );
                proof {
                    assert(kv_view(gvals) =~= seq![(gk, gv)]);
                    assert(updates@[0]@ =~~= build_update_spec(*self)[0]);
                    assert(updates_view(updates@) =~~= build_update_spec(*self));
                }
                return updates;
            },
            SchemaType::List => {
                if self.is_update {
                    let mut delete_keys: Vec<String> = Vec::new();
                    let nf = self.schema.fields.len();
                    let mut j: usize = 0;
                    proof {
                        assert(updates_view(updates@) =~= list_clears_upto(
                            self.schema.fields@,
                            0,
                        ));
                        assert(str_seq_view(delete_keys@) =~= list_delete_keys_upto(
                            self.schema.fields@,
                            self.values@,
                            0,
                        ));
                    }
                    while j < nf
                        invariant
                            0 <= j <= nf,
                            nf == self.schema.fields@.len(),
                            "."@ == seq!['.'],
                            updates_view(updates@) == list_clears_upto(
                                self.schema.fields@,
                                j as int,
                            ),
                            str_seq_view(delete_keys@) == list_delete_keys_upto(
                                self.schema.fields@,
                                self.values@,
                                j as int,
                            ),
                        decreases nf - j,
                    {
                        let field = &self.schema.fields[j];
                        if field.is_multivalue() {
                            let mut cp = field.id.clone();
                            cp.append(".");
                            updates.push(UpdateSettings::Clear { prefix: cp, filter: None });
                            delete_keys.push(field.id.clone());
                        } else if self.value_is_empty(field.id.as_str()) {
                            delete_keys.push(field.id.clone());
                        }
                        j += 1;
                        proof {
                            assert(updates_view(updates@) =~~= list_clears_upto(
                                self.schema.fields@,
                                j as int,
                            ));
                            assert(str_seq_view(delete_keys@) =~~= list_delete_keys_upto(
                                self.schema.fields@,
                                self.values@,
                                j as int,
                            ));
                        }
                    }
                    if delete_keys.len() > 0 {
                        updates.push(UpdateSettings::Delete { keys: delete_keys });
                        proof {
                            assert(updates_view(updates@) =~~= spec_head(*self));
                        }
                    } else {
                        proof {
                            assert(updates_view(updates@) =~~= spec_head(*self));
                        }
                    }
                } else {
                    proof {
                        assert(updates_view(updates@) =~= spec_head(*self));
                    }
                }
                proof {
                    assert(opt_str_view(insert_prefix) == spec_insert_prefix(*self));
                    assert(assert_empty == spec_assert_empty(*self));
                }
            },
        }
        let ghost head = updates_view(updates@);
        proof {
            assert(head == spec_head(*self));
            assert(opt_str_view(insert_prefix) == spec_insert_prefix(*self));
            assert(assert_empty == spec_assert_empty(*self));
        }
        if key_values.len() > 0 {
            updates.push(
                UpdateSettings::Insert { prefix: insert_prefix, values: key_values, assert_empty },
            );
            proof {
                assert(updates@.last()@ == UpdateView::Insert {
                    prefix: spec_insert_prefix(*self),
                    values: insert_pairs(self.values@),
                    assert_empty: spec_assert_empty(*self),
                });
                assert(updates_view(updates@) =~~= head.push(updates@.last()@));
                assert(updates_view(updates@) =~~= build_update_spec(*self));
            }
        } else {
            proof {
                assert(updates_view(updates@) =~~= build_update_spec(*self));
            }
        }
        updates
    }
}

proof fn list_clears_contains_from(fields: Seq<Field>, i: int, j: int)
    requires
        0 <= i < j <= fields.len(),
        fields[i].multivalue,
    ensures
        list_clears_upto(fields, j).contains(
            UpdateView::Clear { prefix: fields[i].id@ + seq!['.'], filter: None::<Seq<char>> },
        ),
    decreases j,
{
    let c = UpdateView::Clear { prefix: fields[i].id@ + seq!['.'], filter: None::<Seq<char>> };
    if j == i + 1 {
        assert(list_clears_upto(fields, j)[list_clears_upto(fields, i).len() as int] == c);
    } else {
        list_clears_contains_from(fields, i, j - 1);
        let k = choose|k: int|
            0 <= k < list_clears_upto(fields, j - 1).len() && #[trigger] list_clears_upto(
                fields,
                j - 1,
            )[k] == c;
        assert(list_clears_upto(fields, j)[k] == c);
    }
}

proof fn list_delete_keys_contains_from(
    fields: Seq<Field>,
    values: Seq<(String, FormValue)>,
    i: int,
    j: int,
)
    requires
        0 <= i < j <= fields.len(),
        fields[i].multivalue || spec_value_is_empty(values, fields[i].id@),
    ensures
        list_delete_keys_upto(fields, values, j).contains(fields[i].id@),
    decreases j,
{
    if j == i + 1 {
        assert(list_delete_keys_upto(fields, values, j)[list_delete_keys_upto(
            fields,
            values,
            i,
        ).len() as int] == fields[i].id@);
    } else {
        list_delete_keys_contains_from(fields, values, i, j - 1);
        let k = choose|k: int|
            0 <= k < list_delete_keys_upto(fields, values, j - 1).len()
                && #[trigger] list_delete_keys_upto(fields, values, j - 1)[k] == fields[i].id@;
        assert(list_delete_keys_upto(fields, values, j)[k] == fields[i].id@);
    }
}

proof fn list_clears_all_clear(fields: Seq<Field>, n: int)
    ensures
        forall|i: int|
            0 <= i < list_clears_upto(fields, n).len() ==> #[trigger] list_clears_upto(
                fields,
                n,
            )[i] matches UpdateView::Clear { .. },
    decreases n,
{
    if n <= 0 {
    } else {
        list_clears_all_clear(fields, n - 1);
        assert forall|i: int| 0 <= i < list_clears_upto(fields, n).len() implies (
        #[trigger] list_clears_upto(fields, n)[i]) matches UpdateView::Clear { .. } by {
            if i < list_clears_upto(fields, n - 1).len() {
                assert(list_clears_upto(fields, n)[i] == list_clears_upto(fields, n - 1)[i]);
            }
        }
    }
}

/// Destructive mutations always precede the constructive insert: in a
/// produced sequence, an `Insert` can only stand last, so clear-then-write
/// application is always possible.
pub proof fn lemma_insert_stands_last(form: FormData, i: int)
    requires
        0 <= i < build_update_spec(form).len(),
        build_update_spec(form)[i] matches UpdateView::Insert { .. },
    ensures
        i == build_update_spec(form).len() - 1,
{
    let spec = build_update_spec(form);
    match form.schema.typ {
        SchemaType::Entry { .. } => {},
        _ => {
            let head = spec_head(form);
            if i < head.len() {
                match form.schema.typ {
                    SchemaType::Record { .. } => {
                        assert(!(head[i] matches UpdateView::Insert { .. }));
                    },
                    SchemaType::List => {
                        if form.is_update {
                            let nf = form.schema.fields@.len() as int;
                            let clears = list_clears_upto(form.schema.fields@, nf);
                            list_clears_all_clear(form.schema.fields@, nf);
                            if i < clears.len() {
                                assert(head[i] == clears[i]);
                            }
                        }
                        assert(!(head[i] matches UpdateView::Insert { .. }));
                    },
                    _ => {},
                }
                assert(spec[i] == head[i]);
                assert(false);
            }
        },
    }
}

/// `u` is a `Delete` whose key set holds `id`.
pub open spec fn is_delete_containing(u: UpdateView, id: Seq<char>) -> bool {
    u matches UpdateView::Delete { keys } && keys.contains(id)
}

/// A `List` schema edited in place wipes an empty multivalue field: the
/// produced mutations hold a `Clear` for the field's dotted prefix, and a
/// `Delete` whose key set holds the field id.
pub proof fn lemma_list_update_handles_empty_multivalue(form: FormData, i: int)
    requires
        form.schema.typ matches SchemaType::List,
        form.is_update,
        0 <= i < form.schema.fields@.len(),
        form.schema.fields@[i].multivalue,
        spec_value_is_empty(form.values@, form.schema.fields@[i].id@),
    ensures
        build_update_spec(form).contains(
            UpdateView::Clear {
                prefix: form.schema.fields@[i].id@ + seq!['.'],
                filter: None::<Seq<char>>,
            },
        ),
        exists|j: int|
            0 <= j < build_update_spec(form).len() && is_delete_containing(
                #[trigger] build_update_spec(form)[j],
                form.schema.fields@[i].id@,
            ),
{
    let fields = form.schema.fields@;
    let nf = fields.len() as int;
    list_clears_contains_from(fields, i, nf);
    list_delete_keys_contains_from(fields, form.values@, i, nf);
    let dels = list_delete_keys_upto(fields, form.values@, nf);
    let clears = list_clears_upto(fields, nf);
    assert(dels.len() > 0);
    let spec = build_update_spec(form);
    assert(spec_head(form) == clears + seq![UpdateView::Delete { keys: dels }]);
    let c = UpdateView::Clear {
        prefix: fields[i].id@ + seq!['.'],
        filter: None::<Seq<char>>,
    };
    let k = choose|k: int| 0 <= k < clears.len() && clears[k] == c;
    assert(spec[k] == c);
    assert(spec[clears.len() as int] == UpdateView::Delete { keys: dels });
    assert(is_delete_containing(spec[clears.len() as int], fields[i].id@));
}

} // verus!
