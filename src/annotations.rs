//! The ordered key/value annotations of a record, held in an `IndexMap`.
use indexmap::IndexMap;
use vstd::prelude::*;

verus! {

#[verifier::external_type_specification]
#[verifier::external_body]
#[verifier::reject_recursive_types(K)]
#[verifier::reject_recursive_types(V)]
#[verifier::reject_recursive_types(S)]
pub struct ExIndexMap<K, V, S>(IndexMap<K, V, S>);

/// Relies on `IndexMap`'s `Clone`, which a record's derived `Clone` calls;
/// nothing is assumed of the copy.
pub assume_specification<K, V, S>[ <IndexMap<K, V, S> as Clone>::clone ](m: &IndexMap<K, V, S>) -> IndexMap<K, V, S>
    where
        K: Clone,
        V: Clone,
        S: Clone,
;

/// The key/value pairs that an annotation map holds, in the map's order.
pub uninterp spec fn annotation_entries(m: IndexMap<String, String>) -> Seq<(Seq<char>, Seq<char>)>;

/// The keys of `e`, in order.
pub open spec fn entry_keys(e: Seq<(Seq<char>, Seq<char>)>) -> Seq<Seq<char>> {
    e.map_values(|p: (Seq<char>, Seq<char>)| p.0)
}

/// No key comes twice in `e`.
pub open spec fn keys_unique(e: Seq<(Seq<char>, Seq<char>)>) -> bool {
    forall|i: int, j: int| 0 <= i < e.len() && 0 <= j < e.len() && i != j ==> #[trigger] e[i].0 != #[trigger] e[j].0
}

/// The position of the first pair of `e` whose key is `k`, or -1.
pub open spec fn key_position(e: Seq<(Seq<char>, Seq<char>)>, k: Seq<char>) -> int
    decreases e.len(),
{
    if e.len() == 0 {
        -1
    } else {
        let p = key_position(e.drop_last(), k);
        if p >= 0 {
            p
        } else if e.last().0 == k {
            e.len() - 1
        } else {
            -1
        }
    }
}

/// `e` after inserting `v` under `k`: a key already there keeps its place and
/// takes the new value; a new key goes last.
pub open spec fn inserted(e: Seq<(Seq<char>, Seq<char>)>, k: Seq<char>, v: Seq<char>) -> Seq<(Seq<char>, Seq<char>)> {
    let p = key_position(e, k);
    if p >= 0 {
        e.update(p, (k, v))
    } else {
        e.push((k, v))
    }
}

/// `key_position` finds exactly the keys that are there.
pub proof fn lemma_key_position(e: Seq<(Seq<char>, Seq<char>)>, k: Seq<char>)
    ensures
        -1 <= key_position(e, k) < e.len(),
        key_position(e, k) >= 0 ==> e[key_position(e, k)].0 == k,
        key_position(e, k) < 0 <==> (forall|i: int| 0 <= i < e.len() ==> #[trigger] e[i].0 != k),
    decreases e.len(),
{
    if e.len() > 0 {
        lemma_key_position(e.drop_last(), k);
        assert forall|i: int| 0 <= i < e.len() - 1 implies #[trigger] e.drop_last()[i] == e[i] by {}
        if key_position(e.drop_last(), k) < 0 && e.last().0 != k {
            assert forall|i: int| 0 <= i < e.len() implies #[trigger] e[i].0 != k by {
                if i < e.len() - 1 {
                    assert(e.drop_last()[i] == e[i]);
                }
            }
        }
    }
}

/// Inserting a key that is not there appends the pair, and keeps the keys
/// unique.
pub proof fn lemma_insert_new(e: Seq<(Seq<char>, Seq<char>)>, k: Seq<char>, v: Seq<char>)
    requires
        keys_unique(e),
        forall|i: int| 0 <= i < e.len() ==> #[trigger] e[i].0 != k,
    ensures
        inserted(e, k, v) == e.push((k, v)),
        keys_unique(e.push((k, v))),
{
    lemma_key_position(e, k);
    let f = e.push((k, v));
    assert forall|i: int, j: int| 0 <= i < f.len() && 0 <= j < f.len() && i != j implies #[trigger] f[i].0 != #[trigger] f[j].0 by {
        if i < e.len() && j < e.len() {
            assert(f[i] == e[i] && f[j] == e[j]);
        } else if i < e.len() {
            assert(f[i] == e[i]);
        } else {
            assert(f[j] == e[j]);
        }
    }
}

/// Inserting keeps the keys unique.
pub proof fn lemma_inserted_unique(e: Seq<(Seq<char>, Seq<char>)>, k: Seq<char>, v: Seq<char>)
    requires
        keys_unique(e),
    ensures
        keys_unique(inserted(e, k, v)),
{
    lemma_key_position(e, k);
    let p = key_position(e, k);
    if p >= 0 {
        let f = e.update(p, (k, v));
        assert forall|i: int, j: int| 0 <= i < f.len() && 0 <= j < f.len() && i != j implies #[trigger] f[i].0
            != #[trigger] f[j].0 by {
            assert(f[i].0 == e[i].0 && f[j].0 == e[j].0);
        }
    } else {
        lemma_insert_new(e, k, v);
    }
}

/// Relies on `IndexMap::new`: a new map is empty.
#[verifier::external_body]
pub(crate) fn annotations_new() -> (r: IndexMap<String, String>)
    ensures
        annotation_entries(r) == Seq::<(Seq<char>, Seq<char>)>::empty(),
{
    IndexMap::new()
}

/// Relies on `IndexMap::len`: the number of pairs.
#[verifier::external_body]
pub(crate) fn annotations_len(m: &IndexMap<String, String>) -> (r: usize)
    ensures
        r == annotation_entries(*m).len(),
{
    m.len()
}

/// Relies on `IndexMap::get_index`: the pair at a position of the map's order,
/// if the position is in range.
#[verifier::external_body]
pub(crate) fn annotation_at(m: &IndexMap<String, String>, i: usize) -> (r: Option<(&String, &String)>)
    ensures
        r is Some <==> i < annotation_entries(*m).len(),
        r is Some ==> (r->0).0@ == annotation_entries(*m)[i as int].0,
        r is Some ==> (r->0).1@ == annotation_entries(*m)[i as int].1,
{
    m.get_index(i)
}

/// Relies on `IndexMap::insert`: a key already there keeps its place and takes
/// the new value; a new key goes last.
#[verifier::external_body]
pub(crate) fn annotation_insert(m: &mut IndexMap<String, String>, k: String, v: String)
    ensures
        annotation_entries(*final(m)) == inserted(annotation_entries(*old(m)), k@, v@),
{
    m.insert(k, v);
}

} // verus!
