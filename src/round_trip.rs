//! What reading a group back gives, for a group whose attributes were written
//! from a record, and for a group that lacks attributes.
use crate::annotations::{entry_keys, keys_unique, lemma_insert_new};
use crate::codec::{
    annotation_attr, annotation_keys, annotation_value, date_name, decoded, decoded_annotations,
    description_name, ds_descriptor_name, encoded, instrument_name, lookup, md_descriptor_name, md_name,
    mode_name, time_name, user_name, version_name, Stored,
};
use crate::descriptor::{descriptor_separator, lemma_dual_descriptor, packed, unpacked};
use crate::identity::{composite, identity_separator, lemma_identity_round_trip};
use crate::meta::MetaModel;
use crate::text::{contains, decimal, is_digit, lemma_decimal_digits, lemma_decimal_injective, split_on};
use vstd::prelude::*;

verus! {

/// The first attribute named `name` is the one at `i` when no earlier one
/// has that name.
pub proof fn lemma_lookup_at(t: Seq<(Seq<char>, Stored)>, name: Seq<char>, i: int)
    requires
        0 <= i < t.len(),
        t[i].0 == name,
        forall|j: int| 0 <= j < i ==> #[trigger] t[j].0 != name,
    ensures
        lookup(t, name) == Some(t[i].1),
    decreases i,
{
    if i > 0 {
        let d = t.drop_first();
        assert forall|j: int| 0 <= j < i - 1 implies #[trigger] d[j].0 != name by {
            assert(d[j] == t[j + 1]);
        }
        lemma_lookup_at(d, name, i - 1);
    }
}

/// No attribute named `name` is found where none has that name.
pub proof fn lemma_lookup_absent(t: Seq<(Seq<char>, Stored)>, name: Seq<char>)
    requires
        forall|j: int| 0 <= j < t.len() ==> #[trigger] t[j].0 != name,
    ensures
        lookup(t, name) is None,
    decreases t.len(),
{
    if t.len() > 0 {
        let d = t.drop_first();
        assert forall|j: int| 0 <= j < d.len() implies #[trigger] d[j].0 != name by {
            assert(d[j] == t[j + 1]);
        }
        lemma_lookup_absent(d, name);
    }
}

/// The fixed attribute names differ pairwise: by length, or else by their
/// first character.
proof fn lemma_fixed_names()
    ensures
        description_name().len() == 11 && description_name()[0] == 'd',
        date_name().len() == 4 && date_name()[0] == 'd',
        instrument_name().len() == 10 && instrument_name()[0] == 'i',
        mode_name().len() == 4 && mode_name()[0] == 'm',
        version_name().len() == 6 && version_name()[0] == 't',
        time_name().len() == 4 && time_name()[0] == 't',
        user_name().len() == 4 && user_name()[0] == 'u',
        md_descriptor_name().len() == 13 && md_descriptor_name()[0] == 'm',
        ds_descriptor_name().len() == 13 && ds_descriptor_name()[0] == 'd',
{
    reveal_strlit("description");
    reveal_strlit("date");
    reveal_strlit("instrument");
    reveal_strlit("mode");
    reveal_strlit("thzVer");
    reveal_strlit("time");
    reveal_strlit("user");
    reveal_strlit("mdDescription");
    reveal_strlit("dsDescription");
}

/// An annotation value name differs from every fixed attribute name.
proof fn lemma_md_name_distinct(p: nat)
    ensures
        md_name(p) != description_name(),
        md_name(p) != date_name(),
        md_name(p) != instrument_name(),
        md_name(p) != mode_name(),
        md_name(p) != version_name(),
        md_name(p) != time_name(),
        md_name(p) != user_name(),
        md_name(p) != md_descriptor_name(),
        md_name(p) != ds_descriptor_name(),
{
    reveal_strlit("md");
    reveal_strlit("description");
    reveal_strlit("date");
    reveal_strlit("instrument");
    reveal_strlit("mode");
    reveal_strlit("thzVer");
    reveal_strlit("time");
    reveal_strlit("user");
    reveal_strlit("mdDescription");
    reveal_strlit("dsDescription");
    lemma_decimal_digits(p);
    let s = md_name(p);
    assert(s[0] == 'm');
    assert(s[1] == 'd');
    assert(s[2] == decimal(p)[0]);
    assert(is_digit(s[2]));
}

/// Annotation value names at different positions differ.
proof fn lemma_md_name_injective(p: nat, q: nat)
    requires
        md_name(p) == md_name(q),
    ensures
        p == q,
{
    reveal_strlit("md");
    let s = md_name(p);
    assert(s.subrange(2, s.len() as int) == decimal(p));
    assert(md_name(q).subrange(2, md_name(q).len() as int) == decimal(q));
    lemma_decimal_injective(p, q);
}

/// Where each name is found among the attributes that encode a record.
pub proof fn lemma_encoded_lookups(m: MetaModel, numeric: Seq<bool>)
    requires
        numeric.len() == m.md.len(),
    ensures
        lookup(encoded(m, numeric), description_name()) == Some(Stored::Text(m.description)),
        lookup(encoded(m, numeric), date_name()) == Some(Stored::Text(m.date)),
        lookup(encoded(m, numeric), instrument_name()) == Some(Stored::Text(m.instrument)),
        lookup(encoded(m, numeric), mode_name()) == Some(Stored::Text(m.mode)),
        lookup(encoded(m, numeric), version_name()) == Some(Stored::Text(m.version)),
        lookup(encoded(m, numeric), time_name()) == Some(Stored::Text(m.time)),
        lookup(encoded(m, numeric), user_name()) == Some(
            Stored::Text(composite(m.orcid, m.user, m.email, m.institution)),
        ),
        lookup(encoded(m, numeric), md_descriptor_name()) == Some(
            Stored::TextList(seq![packed(entry_keys(m.md))]),
        ),
        lookup(encoded(m, numeric), ds_descriptor_name()) == Some(
            Stored::TextList(seq![packed(m.ds_description)]),
        ),
        forall|p: nat|
            1 <= p <= m.md.len() ==> #[trigger] lookup(encoded(m, numeric), md_name(p)) == Some(
                annotation_attr(m.md[p - 1].1, numeric[p - 1]),
            ),
        forall|p: nat| p > m.md.len() ==> #[trigger] lookup(encoded(m, numeric), md_name(p)) is None,
{
    reveal_strlit("description");
    reveal_strlit("date");
    reveal_strlit("instrument");
    reveal_strlit("mode");
    reveal_strlit("thzVer");
    reveal_strlit("time");
    reveal_strlit("user");
    reveal_strlit("mdDescription");
    reveal_strlit("dsDescription");
    lemma_fixed_names();
    let t = encoded(m, numeric);
    let n = m.md.len() as int;
    assert(t.len() == 9 + n);
    assert forall|i: int| 0 <= i < n implies #[trigger] t[8 + i] == (
        md_name((i + 1) as nat),
        annotation_attr(m.md[i].1, numeric[i]),
    ) by {}
    assert forall|i: int| 8 <= i < 8 + n implies #[trigger] t[i].0 == md_name((i - 7) as nat) by {
        assert(t[8 + (i - 8)] == t[i]);
    }
    assert forall|i: int| 8 <= i < 8 + n implies #[trigger] t[i].0 != ds_descriptor_name() by {
        lemma_md_name_distinct((i - 7) as nat);
    }
    lemma_lookup_at(t, description_name(), 0);
    lemma_lookup_at(t, date_name(), 1);
    lemma_lookup_at(t, instrument_name(), 2);
    lemma_lookup_at(t, mode_name(), 3);
    lemma_lookup_at(t, version_name(), 4);
    lemma_lookup_at(t, time_name(), 5);
    lemma_lookup_at(t, user_name(), 6);
    lemma_lookup_at(t, md_descriptor_name(), 7);
    lemma_lookup_at(t, ds_descriptor_name(), 8 + n);
    assert forall|p: nat| 1 <= p <= m.md.len() implies #[trigger] lookup(t, md_name(p)) == Some(
        annotation_attr(m.md[p - 1].1, numeric[p - 1]),
    ) by {
        lemma_md_name_distinct(p);
        assert forall|j: int| 0 <= j < 7 + p implies #[trigger] t[j].0 != md_name(p) by {
            if j >= 8 {
                if t[j].0 == md_name(p) {
                    lemma_md_name_injective((j - 7) as nat, p);
                }
            }
        }
        assert(t[7 + p as int] == t[8 + (p - 1)]);
        lemma_lookup_at(t, md_name(p), 7 + p as int);
    }
    assert forall|p: nat| p > m.md.len() implies #[trigger] lookup(t, md_name(p)) is None by {
        lemma_md_name_distinct(p);
        assert forall|j: int| 0 <= j < t.len() implies #[trigger] t[j].0 != md_name(p) by {
            if 8 <= j < 8 + n {
                if t[j].0 == md_name(p) {
                    lemma_md_name_injective((j - 7) as nat, p);
                }
            }
        }
        lemma_lookup_absent(t, md_name(p));
    }
}

/// Reading back the attributes written for a record gives every text field
/// of the record as it was: description, date, instrument, mode, time,
/// version, and the four identity fields, as long as no identity field holds
/// the `/` that separates them in their composite.
pub proof fn lemma_scalar_fields_round_trip(m: MetaModel, numeric: Seq<bool>)
    requires
        numeric.len() == m.md.len(),
        !contains(m.orcid, identity_separator()),
        !contains(m.user, identity_separator()),
        !contains(m.email, identity_separator()),
        !contains(m.institution, identity_separator()),
    ensures
        decoded(encoded(m, numeric)).description == m.description,
        decoded(encoded(m, numeric)).date == m.date,
        decoded(encoded(m, numeric)).instrument == m.instrument,
        decoded(encoded(m, numeric)).mode == m.mode,
        decoded(encoded(m, numeric)).time == m.time,
        decoded(encoded(m, numeric)).version == m.version,
        decoded(encoded(m, numeric)).orcid == m.orcid,
        decoded(encoded(m, numeric)).user == m.user,
        decoded(encoded(m, numeric)).email == m.email,
        decoded(encoded(m, numeric)).institution == m.institution,
{
    lemma_encoded_lookups(m, numeric);
    lemma_identity_round_trip(m.orcid, m.user, m.email, m.institution);
}

/// The annotations read back from the attributes written for `m`, for the
/// first `k` keys, are the first `k` pairs of `m`.
proof fn lemma_annotations_prefix(m: MetaModel, numeric: Seq<bool>, k: nat)
    requires
        numeric.len() == m.md.len(),
        keys_unique(m.md),
        k <= m.md.len(),
    ensures
        decoded_annotations(entry_keys(m.md), encoded(m, numeric), k) == m.md.subrange(0, k as int),
    decreases k,
{
    let t = encoded(m, numeric);
    if k == 0 {
        assert(m.md.subrange(0, 0) =~= Seq::<(Seq<char>, Seq<char>)>::empty());
    } else {
        lemma_annotations_prefix(m, numeric, (k - 1) as nat);
        lemma_encoded_lookups(m, numeric);
        let prev = m.md.subrange(0, k - 1);
        let e = m.md[k - 1];
        assert(lookup(t, md_name(k)) == Some(annotation_attr(e.1, numeric[k - 1])));
        assert(annotation_value(t, k) == Some(e.1));
        assert forall|i: int, j: int| 0 <= i < prev.len() && 0 <= j < prev.len() && i != j implies #[trigger] prev[i].0
            != #[trigger] prev[j].0 by {
            assert(prev[i] == m.md[i] && prev[j] == m.md[j]);
        }
        assert forall|i: int| 0 <= i < prev.len() implies #[trigger] prev[i].0 != e.0 by {
            assert(prev[i] == m.md[i]);
        }
        lemma_insert_new(prev, e.0, e.1);
        assert(entry_keys(m.md)[k - 1] == e.0);
        assert(prev.push((e.0, e.1)) =~= m.md.subrange(0, k as int));
    }
}

/// Reading back the attributes written for a record gives the record itself,
/// whichever annotation values were stored as numbers, as long as no identity
/// field holds `/`, no annotation key and no dataset label holds ", ", the
/// annotation keys are unique, and there is at least one dataset label.
pub proof fn lemma_record_round_trip(m: MetaModel, numeric: Seq<bool>)
    requires
        numeric.len() == m.md.len(),
        !contains(m.orcid, identity_separator()),
        !contains(m.user, identity_separator()),
        !contains(m.email, identity_separator()),
        !contains(m.institution, identity_separator()),
        keys_unique(m.md),
        forall|i: int| 0 <= i < m.md.len() ==> !contains(#[trigger] m.md[i].0, descriptor_separator()),
        m.ds_description.len() >= 1,
        forall|i: int|
            0 <= i < m.ds_description.len() ==> !contains(#[trigger] m.ds_description[i], descriptor_separator()),
    ensures
        decoded(encoded(m, numeric)) == m,
{
    let t = encoded(m, numeric);
    lemma_scalar_fields_round_trip(m, numeric);
    lemma_encoded_lookups(m, numeric);
    lemma_dual_descriptor(m.ds_description);
    let keys = annotation_keys(t);
    assert(keys == unpacked(seq![packed(entry_keys(m.md))]));
    if m.md.len() >= 1 {
        let ks = entry_keys(m.md);
        assert forall|i: int| 0 <= i < ks.len() implies !contains(#[trigger] ks[i], descriptor_separator()) by {
            assert(ks[i] == m.md[i].0);
        }
        lemma_dual_descriptor(ks);
        lemma_annotations_prefix(m, numeric, m.md.len());
        assert(m.md.subrange(0, m.md.len() as int) == m.md);
    } else {
        assert(packed(entry_keys(m.md)) == Seq::<char>::empty());
        assert(keys == split_on(Seq::<char>::empty(), descriptor_separator()));
        assert(keys.len() == 1);
        assert(lookup(t, md_name(1)) is None);
        assert(decoded_annotations(keys, t, 0) == Seq::<(Seq<char>, Seq<char>)>::empty());
        assert(m.md =~= Seq::<(Seq<char>, Seq<char>)>::empty());
    }
    assert(decoded(t).md == m.md);
}

/// Reading back the annotations of two groups whose attributes at positions
/// `1..=k` read alike gives the same pairs for the first `k` keys.
proof fn lemma_annotations_agree(keys: Seq<Seq<char>>, t: Seq<(Seq<char>, Stored)>, u: Seq<(Seq<char>, Stored)>, k: nat)
    requires
        forall|p: nat| 1 <= p <= k ==> #[trigger] lookup(u, md_name(p)) == lookup(t, md_name(p)),
    ensures
        decoded_annotations(keys, u, k) == decoded_annotations(keys, t, k),
    decreases k,
{
    if k > 0 {
        lemma_annotations_agree(keys, t, u, (k - 1) as nat);
        assert(lookup(u, md_name(k)) == lookup(t, md_name(k)));
    }
}

/// Writing a record over a group in place is as good as writing it to a fresh
/// group: a group in which every attribute that the record is written as
/// reads as written, and which keeps no annotation value at a position past
/// the record's annotations (see `stale_annotation_names`), reads back as the
/// same record as a group holding only the written attributes, whatever else
/// it kept from before.
pub proof fn lemma_rewrite_in_place(u: Seq<(Seq<char>, Stored)>, m: MetaModel, numeric: Seq<bool>)
    requires
        numeric.len() == m.md.len(),
        forall|j: int|
            0 <= j < encoded(m, numeric).len() ==> lookup(u, #[trigger] encoded(m, numeric)[j].0) == lookup(
                encoded(m, numeric),
                encoded(m, numeric)[j].0,
            ),
        forall|p: nat| p > m.md.len() ==> #[trigger] lookup(u, md_name(p)) is None,
    ensures
        decoded(u) == decoded(encoded(m, numeric)),
{
    let t = encoded(m, numeric);
    let n = m.md.len() as int;
    assert(t[0].0 == description_name());
    assert(t[1].0 == date_name());
    assert(t[2].0 == instrument_name());
    assert(t[3].0 == mode_name());
    assert(t[4].0 == version_name());
    assert(t[5].0 == time_name());
    assert(t[6].0 == user_name());
    assert(t[7].0 == md_descriptor_name());
    assert(t[8 + n].0 == ds_descriptor_name());
    lemma_encoded_lookups(m, numeric);
    let ks = annotation_keys(t);
    assert(annotation_keys(u) == ks);
    assert forall|p: nat| 1 <= p <= ks.len() implies #[trigger] lookup(u, md_name(p)) == lookup(t, md_name(p)) by {
        if p <= n {
            assert(t[7 + p as int] == t[8 + (p - 1)]);
            assert(t[7 + p as int].0 == md_name(p));
        }
    }
    lemma_annotations_agree(ks, t, u, ks.len());
}

/// A field whose attribute is absent from a group reads back as empty text,
/// and absent descriptors give no annotations and no dataset labels.
pub proof fn lemma_absent_attributes(t: Seq<(Seq<char>, Stored)>)
    ensures
        lookup(t, description_name()) is None ==> decoded(t).description == Seq::<char>::empty(),
        lookup(t, date_name()) is None ==> decoded(t).date == Seq::<char>::empty(),
        lookup(t, instrument_name()) is None ==> decoded(t).instrument == Seq::<char>::empty(),
        lookup(t, mode_name()) is None ==> decoded(t).mode == Seq::<char>::empty(),
        lookup(t, version_name()) is None ==> decoded(t).version == Seq::<char>::empty(),
        lookup(t, time_name()) is None ==> decoded(t).time == Seq::<char>::empty(),
        lookup(t, user_name()) is None ==> decoded(t).orcid == Seq::<char>::empty() && decoded(t).user
            == Seq::<char>::empty() && decoded(t).email == Seq::<char>::empty() && decoded(t).institution
            == Seq::<char>::empty(),
        lookup(t, md_descriptor_name()) is None ==> decoded(t).md.len() == 0,
        lookup(t, ds_descriptor_name()) is None ==> decoded(t).ds_description.len() == 0,
{
    let empty = Seq::<char>::empty();
    assert(split_on(empty, identity_separator()) == seq![empty]);
}

} // verus!
