//! The layout of a metadata record as the attributes of a group, and the
//! record that a group's attributes stand for.
//!
//! The library handles no floating-point values itself: a numeric attribute
//! entry is carried as its decimal text, and the container layer converts it
//! to and from a 32-bit float when it writes or reads the attribute.
use crate::annotations::{
    annotation_at, annotation_entries, annotation_insert, annotations_len, annotations_new,
    entry_keys, inserted, keys_unique, lemma_inserted_unique,
};
use crate::descriptor::{pack, packed, unpack, unpacked};
use crate::identity::{compose_identity, composite, identity_fields, parse_identity};
use crate::meta::{DotthzMetaData, MetaModel};
use crate::text::{chars_of, decimal, decimal_above, decimal_text, lemma_decimal_digits};
use vstd::prelude::*;
use vstd::string::*;

verus! {

/// What one attribute of a group holds.
#[derive(Debug, Clone)]
pub enum AttrValue {
    /// A scalar UTF-8 text.
    Text(String),
    /// A scalar 32-bit float, given by its decimal text.
    Number(String),
    /// A one-dimensional list of UTF-8 texts.
    TextList(Vec<String>),
    /// A one-dimensional list of 32-bit floats, each given by its decimal text.
    NumberList(Vec<String>),
}

/// What an `AttrValue` holds, as mathematical values.
pub enum Stored {
    Text(Seq<char>),
    Number(Seq<char>),
    TextList(Seq<Seq<char>>),
    NumberList(Seq<Seq<char>>),
}

impl View for AttrValue {
    type V = Stored;

    open spec fn view(&self) -> Stored {
        match self {
            AttrValue::Text(s) => Stored::Text(s@),
            AttrValue::Number(s) => Stored::Number(s@),
            AttrValue::TextList(v) => Stored::TextList(v.deep_view()),
            AttrValue::NumberList(v) => Stored::NumberList(v.deep_view()),
        }
    }
}

/// A named attribute of a group.
#[derive(Debug, Clone)]
pub struct Attribute {
    /// The attribute's name within its group.
    pub name: String,
    /// What it holds.
    pub value: AttrValue,
}

impl View for Attribute {
    type V = (Seq<char>, Stored);

    open spec fn view(&self) -> (Seq<char>, Stored) {
        (self.name@, self.value@)
    }
}

/// The attributes of a group as (name, content) pairs.
pub open spec fn table(attrs: Seq<Attribute>) -> Seq<(Seq<char>, Stored)> {
    attrs.map_values(|a: Attribute| a@)
}

/// Name of the attribute holding the free-text description.
pub open spec fn description_name() -> Seq<char> {
    "description"@
}

/// Name of the attribute holding the measurement date.
pub open spec fn date_name() -> Seq<char> {
    "date"@
}

/// Name of the attribute holding the instrument.
pub open spec fn instrument_name() -> Seq<char> {
    "instrument"@
}

/// Name of the attribute holding the measurement mode.
pub open spec fn mode_name() -> Seq<char> {
    "mode"@
}

/// Name of the attribute holding the format version.
pub open spec fn version_name() -> Seq<char> {
    "thzVer"@
}

/// Name of the attribute holding the measurement time.
pub open spec fn time_name() -> Seq<char> {
    "time"@
}

/// Name of the attribute holding the identity composite.
pub open spec fn user_name() -> Seq<char> {
    "user"@
}

/// Name of the descriptor attribute listing the annotation keys.
pub open spec fn md_descriptor_name() -> Seq<char> {
    "mdDescription"@
}

/// Name of the descriptor attribute listing the dataset labels.
pub open spec fn ds_descriptor_name() -> Seq<char> {
    "dsDescription"@
}

/// Name of the attribute holding the annotation value at position `pos`,
/// counted from 1.
pub open spec fn md_name(pos: nat) -> Seq<char> {
    "md"@ + decimal(pos)
}

/// Content of the first attribute of `t` named `name`, if any.
pub open spec fn lookup(t: Seq<(Seq<char>, Stored)>, name: Seq<char>) -> Option<Stored>
    decreases t.len(),
{
    if t.len() == 0 {
        None
    } else if t[0].0 == name {
        Some(t[0].1)
    } else {
        lookup(t.drop_first(), name)
    }
}

/// The entries of an attribute read as text: none where it is absent or numeric.
pub open spec fn text_entries(v: Option<Stored>) -> Seq<Seq<char>> {
    match v {
        Some(Stored::Text(s)) => seq![s],
        Some(Stored::TextList(l)) => l,
        _ => Seq::empty(),
    }
}

/// The entries of an attribute read as numbers: none where it is absent or text.
pub open spec fn number_entries(v: Option<Stored>) -> Seq<Seq<char>> {
    match v {
        Some(Stored::Number(s)) => seq![s],
        Some(Stored::NumberList(l)) => l,
        _ => Seq::empty(),
    }
}

/// The first text entry of the attribute `name`, or empty text.
pub open spec fn text_field(t: Seq<(Seq<char>, Stored)>, name: Seq<char>) -> Seq<char> {
    let e = text_entries(lookup(t, name));
    if e.len() > 0 {
        e[0]
    } else {
        Seq::empty()
    }
}

/// The value of the annotation at position `pos` (from 1): the first entry of
/// its attribute read as a number, else read as text; none if neither reads.
pub open spec fn annotation_value(t: Seq<(Seq<char>, Stored)>, pos: nat) -> Option<Seq<char>> {
    let v = lookup(t, md_name(pos));
    if number_entries(v).len() > 0 {
        Some(number_entries(v)[0])
    } else if text_entries(v).len() > 0 {
        Some(text_entries(v)[0])
    } else {
        None
    }
}

/// The annotations read for the first `n` keys, each inserted in turn under
/// its key when its value reads.
pub open spec fn decoded_annotations(keys: Seq<Seq<char>>, t: Seq<(Seq<char>, Stored)>, n: nat) -> Seq<
    (Seq<char>, Seq<char>),
>
    decreases n,
{
    if n == 0 {
        Seq::empty()
    } else {
        let prev = decoded_annotations(keys, t, (n - 1) as nat);
        match annotation_value(t, n) {
            Some(v) => inserted(prev, keys[n - 1], v),
            None => prev,
        }
    }
}

/// The keys listed by the annotations descriptor of `t`.
pub open spec fn annotation_keys(t: Seq<(Seq<char>, Stored)>) -> Seq<Seq<char>> {
    unpacked(text_entries(lookup(t, md_descriptor_name())))
}

/// The record that the attributes `t` of a group stand for. An attribute that
/// is absent leaves its field empty.
pub open spec fn decoded(t: Seq<(Seq<char>, Stored)>) -> MetaModel {
    let id = identity_fields(text_field(t, user_name()));
    let keys = annotation_keys(t);
    MetaModel {
        user: id.1,
        email: id.2,
        orcid: id.0,
        institution: id.3,
        description: text_field(t, description_name()),
        md: decoded_annotations(keys, t, keys.len()),
        ds_description: unpacked(text_entries(lookup(t, ds_descriptor_name()))),
        version: text_field(t, version_name()),
        mode: text_field(t, mode_name()),
        instrument: text_field(t, instrument_name()),
        time: text_field(t, time_name()),
        date: text_field(t, date_name()),
    }
}

/// The attribute for an annotation value: numeric when it reads as a float.
pub open spec fn annotation_attr(value: Seq<char>, numeric: bool) -> Stored {
    if numeric {
        Stored::Number(value)
    } else {
        Stored::Text(value)
    }
}

/// The attributes that encode `m`, in the order they are written; `numeric`
/// says of each annotation value whether it reads as a 32-bit float.
pub open spec fn encoded(m: MetaModel, numeric: Seq<bool>) -> Seq<(Seq<char>, Stored)> {
    seq![
        (description_name(), Stored::Text(m.description)),
        (date_name(), Stored::Text(m.date)),
        (instrument_name(), Stored::Text(m.instrument)),
        (mode_name(), Stored::Text(m.mode)),
        (version_name(), Stored::Text(m.version)),
        (time_name(), Stored::Text(m.time)),
        (user_name(), Stored::Text(composite(m.orcid, m.user, m.email, m.institution))),
        (md_descriptor_name(), Stored::TextList(seq![packed(entry_keys(m.md))])),
    ] + Seq::new(
        m.md.len(),
        |i: int| (md_name((i + 1) as nat), annotation_attr(m.md[i].1, numeric[i])),
    ) + seq![(ds_descriptor_name(), Stored::TextList(seq![packed(m.ds_description)]))]
}

/// The name `md{pos}` as text.
fn md_name_text(pos: usize) -> (r: String)
    ensures
        r@ == md_name(pos as nat),
{
    let mut r = String::from_str("md");
    let d = decimal_text(pos);
    r.append(d.as_str());
    r
}

/// A scalar text attribute.
fn text_attr(name: &str, value: &String) -> (r: Attribute)
    ensures
        r@ == (name@, Stored::Text(value@)),
{
    Attribute { name: String::from_str(name), value: AttrValue::Text(value.clone()) }
}

/// A one-entry text list attribute.
fn single_list_attr(name: &str, entry: String) -> (r: Attribute)
    ensures
        r@ == (name@, Stored::TextList(seq![entry@])),
{
    let mut v: Vec<String> = Vec::new();
    v.push(entry);
    assert(v.deep_view() =~= seq![entry@]);
    Attribute { name: String::from_str(name), value: AttrValue::TextList(v) }
}

/// The attributes that encode `meta`, in the order they are to be written,
/// each overwriting an attribute of the same name; `numeric[i]` says whether
/// the value of the `i`-th annotation reads as a 32-bit float, which is then
/// stored as a number.
pub fn encode_meta_data(meta: &DotthzMetaData, numeric: &Vec<bool>) -> (r: Vec<Attribute>)
    requires
        numeric@.len() == meta@.md.len(),
    ensures
        table(r@) == encoded(meta@, numeric@),
{
    let mut r: Vec<Attribute> = Vec::new();
    r.push(text_attr("description", &meta.description));
    r.push(text_attr("date", &meta.date));
    r.push(text_attr("instrument", &meta.instrument));
    r.push(text_attr("mode", &meta.mode));
    r.push(text_attr("thzVer", &meta.version));
    r.push(text_attr("time", &meta.time));
    let id = compose_identity(meta.orcid.as_str(), meta.user.as_str(), meta.email.as_str(), meta.institution.as_str());
    r.push(Attribute { name: String::from_str("user"), value: AttrValue::Text(id) });

    let ghost e = meta@.md;
    let n = annotations_len(&meta.md);
    let mut keys: Vec<String> = Vec::new();
    let mut values: Vec<Attribute> = Vec::new();
    for i in 0..n
        invariant
            n == e.len(),
            e == annotation_entries(meta.md),
            numeric@.len() == n,
            keys.deep_view() == entry_keys(e).subrange(0, i as int),
            table(values@) == Seq::new(
                i as nat,
                |j: int| (md_name((j + 1) as nat), annotation_attr(e[j].1, numeric@[j])),
            ),
    {
        if let Some((k, v)) = annotation_at(&meta.md, i) {
            let ghost keys_before = keys.deep_view();
            let ghost values_before = table(values@);
            keys.push(k.clone());
            let value = if numeric[i] {
                AttrValue::Number(v.clone())
            } else {
                AttrValue::Text(v.clone())
            };
            let a = Attribute { name: md_name_text(i + 1), value };
            assert(a@ == (md_name((i + 1) as nat), annotation_attr(e[i as int].1, numeric@[i as int])));
            values.push(a);
            assert(keys.deep_view() =~= keys_before.push(k@));
            assert(table(values@) =~= values_before.push(a@));
            assert(keys.deep_view() =~= entry_keys(e).subrange(0, i + 1));
            assert(table(values@) =~= Seq::new(
                (i + 1) as nat,
                |j: int| (md_name((j + 1) as nat), annotation_attr(e[j].1, numeric@[j])),
            ));
        }
    }
    assert(entry_keys(e).subrange(0, n as int) =~= entry_keys(e));
    r.push(single_list_attr("mdDescription", pack(&keys)));
    r.append(&mut values);
    r.push(single_list_attr("dsDescription", pack(&meta.ds_description)));
    assert(table(r@) =~= encoded(meta@, numeric@));
    r
}

/// What `v` holds, if anything.
pub open spec fn stored_of(v: Option<&AttrValue>) -> Option<Stored> {
    match v {
        Some(a) => Some(a@),
        None => None,
    }
}

/// The first attribute of `attrs` named `name`.
fn find<'a>(attrs: &'a Vec<Attribute>, name: &String) -> (r: Option<&'a AttrValue>)
    ensures
        stored_of(r) == lookup(table(attrs@), name@),
{
    let ghost t = table(attrs@);
    let n = attrs.len();
    let mut i: usize = 0;
    assert(t.subrange(0, n as int) == t);
    while i < n
        invariant
            n == attrs@.len(),
            t == table(attrs@),
            i <= n,
            lookup(t, name@) == lookup(t.subrange(i as int, n as int), name@),
        decreases n - i,
    {
        let ghost rest = t.subrange(i as int, n as int);
        assert(rest[0] == attrs@[i as int]@);
        if attrs[i].name == *name {
            return Some(&attrs[i].value);
        }
        assert(rest.drop_first() == t.subrange(i + 1, n as int));
        i = i + 1;
    }
    None
}

/// The entries of `v` read as text.
fn text_entries_of(v: Option<&AttrValue>) -> (r: Vec<String>)
    ensures
        r.deep_view() == text_entries(stored_of(v)),
{
    match v {
        Some(AttrValue::Text(s)) => {
            let mut r: Vec<String> = Vec::new();
            r.push(s.clone());
            assert(r.deep_view() =~= seq![s@]);
            r
        },
        Some(AttrValue::TextList(l)) => l.clone(),
        _ => {
            let r: Vec<String> = Vec::new();
            assert(r.deep_view() =~= Seq::<Seq<char>>::empty());
            r
        },
    }
}

/// The first entry of `v` read as a number, if there is one.
fn first_number_of(v: Option<&AttrValue>) -> (r: Option<String>)
    ensures
        r is Some <==> number_entries(stored_of(v)).len() > 0,
        r is Some ==> r->0@ == number_entries(stored_of(v))[0],
{
    match v {
        Some(AttrValue::Number(s)) => Some(s.clone()),
        Some(AttrValue::NumberList(l)) => {
            if l.len() > 0 {
                Some(l[0].clone())
            } else {
                None
            }
        },
        _ => None,
    }
}

/// The first entry of `v` read as text, if there is one.
fn first_text_of(v: Option<&AttrValue>) -> (r: Option<String>)
    ensures
        r is Some <==> text_entries(stored_of(v)).len() > 0,
        r is Some ==> r->0@ == text_entries(stored_of(v))[0],
{
    match v {
        Some(AttrValue::Text(s)) => Some(s.clone()),
        Some(AttrValue::TextList(l)) => {
            if l.len() > 0 {
                Some(l[0].clone())
            } else {
                None
            }
        },
        _ => None,
    }
}

/// The first text entry of the attribute `name`, or empty text.
fn text_field_of(attrs: &Vec<Attribute>, name: &str) -> (r: String)
    ensures
        r@ == text_field(table(attrs@), name@),
{
    match first_text_of(find(attrs, &String::from_str(name))) {
        Some(s) => s,
        None => String::new(),
    }
}

/// The value of the annotation at position `pos`, counted from 1.
fn annotation_value_of(attrs: &Vec<Attribute>, pos: usize) -> (r: Option<String>)
    ensures
        r is Some <==> annotation_value(table(attrs@), pos as nat) is Some,
        r is Some ==> r->0@ == annotation_value(table(attrs@), pos as nat)->0,
{
    let v = find(attrs, &md_name_text(pos));
    match first_number_of(v) {
        Some(x) => Some(x),
        None => first_text_of(v),
    }
}

/// The record that the attributes of a group stand for. An attribute that is
/// absent, or does not read as what its field needs, leaves the field empty;
/// an annotation whose value does not read is left out.
pub fn decode_meta_data(attrs: &Vec<Attribute>) -> (r: DotthzMetaData)
    ensures
        r@ == decoded(table(attrs@)),
        r.wf(),
{
    let ghost t = table(attrs@);
    let composite_text = text_field_of(attrs, "user");
    let (orcid, user, email, institution) = parse_identity(composite_text.as_str());

    let keys = unpack(&text_entries_of(find(attrs, &String::from_str("mdDescription"))));
    let mut md = annotations_new();
    let n = keys.len();
    for i in 0..n
        invariant
            n == keys.len(),
            annotation_entries(md) == decoded_annotations(keys.deep_view(), t, i as nat),
            keys_unique(annotation_entries(md)),
            t == table(attrs@),
    {
        if let Some(v) = annotation_value_of(attrs, i + 1) {
            proof {
                lemma_inserted_unique(annotation_entries(md), keys[i as int]@, v@);
            }
            annotation_insert(&mut md, keys[i].clone(), v);
        }
    }
    let ds_description = unpack(&text_entries_of(find(attrs, &String::from_str("dsDescription"))));
    DotthzMetaData {
        user,
        email,
        orcid,
        institution,
        description: text_field_of(attrs, "description"),
        md,
        ds_description,
        version: text_field_of(attrs, "thzVer"),
        mode: text_field_of(attrs, "mode"),
        instrument: text_field_of(attrs, "instrument"),
        time: text_field_of(attrs, "time"),
        date: text_field_of(attrs, "date"),
    }
}

/// `name` is the name of an annotation value at a position past `n`.
pub open spec fn is_stale_name(name: Seq<char>, n: nat) -> bool {
    exists|p: nat| p > n && name == md_name(p)
}

/// The names among `names` that hold annotation values at positions past
/// `n`, in their order.
pub open spec fn stale_names(names: Seq<Seq<char>>, n: nat) -> Seq<Seq<char>>
    decreases names.len(),
{
    if names.len() == 0 {
        Seq::empty()
    } else {
        let prev = stale_names(names.drop_last(), n);
        if is_stale_name(names.last(), n) {
            prev.push(names.last())
        } else {
            prev
        }
    }
}

/// Whether `name` holds an annotation value at a position past `n`.
fn is_stale(name: &String, n: usize) -> (r: bool)
    ensures
        r == is_stale_name(name@, n as nat),
{
    let cs = chars_of(name.as_str());
    proof {
        reveal_strlit("md");
    }
    if cs.len() < 2 || cs[0] != 'm' || cs[1] != 'd' {
        proof {
            assert forall|p: nat| p > n implies name@ != #[trigger] md_name(p) by {
                lemma_decimal_digits(p);
                assert(md_name(p)[0] == 'm' && md_name(p)[1] == 'd');
            }
        }
        return false;
    }
    let r = decimal_above(&cs, 2, n);
    proof {
        let rest = name@.subrange(2, name@.len() as int);
        assert(name@ == "md"@ + rest);
        assert forall|p: nat| name@ == md_name(p) <==> decimal(p) == rest by {
            if decimal(p) == rest {
                assert(md_name(p) == "md"@ + rest);
            }
            if name@ == md_name(p) {
                assert(md_name(p).subrange(2, md_name(p).len() as int) == decimal(p));
            }
        }
        if r {
            let p = choose|p: nat| p > n && decimal(p) == rest;
            assert(name@ == md_name(p));
        } else {
            assert forall|p: nat| p > n implies name@ != #[trigger] md_name(p) by {}
        }
    }
    r
}

/// The names among `existing` (the attributes a group holds) that hold
/// annotation values at positions past the annotations of `meta`, in their
/// order. Writing `meta` over the group in place is only as good as writing
/// it to a fresh group once these are deleted.
pub fn stale_annotation_names(existing: &Vec<String>, meta: &DotthzMetaData) -> (r: Vec<String>)
    ensures
        r.deep_view() == stale_names(existing.deep_view(), meta@.md.len()),
{
    let n = annotations_len(&meta.md);
    let mut r: Vec<String> = Vec::new();
    let len = existing.len();
    for i in 0..len
        invariant
            len == existing.len(),
            n == meta@.md.len(),
            r.deep_view() == stale_names(existing.deep_view().subrange(0, i as int), n as nat),
    {
        let ghost names = existing.deep_view().subrange(0, i + 1);
        assert(names.drop_last() == existing.deep_view().subrange(0, i as int));
        assert(names.last() == existing[i as int]@);
        if is_stale(&existing[i], n) {
            let ghost before = r.deep_view();
            r.push(existing[i].clone());
            assert(r.deep_view() =~= before.push(existing[i as int]@));
        }
    }
    assert(existing.deep_view().subrange(0, len as int) == existing.deep_view());
    r
}

} // verus!
