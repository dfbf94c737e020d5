//! Descriptor attributes: an ordered list of labels kept in one attribute,
//! either as one entry joined with ", " or as one entry per label.
use crate::text::{contains, join, joined, lemma_split_joined, split, split_on};
use vstd::prelude::*;

verus! {

/// The text between two labels of a joined descriptor.
pub open spec fn descriptor_separator() -> Seq<char> {
    seq![',', ' ']
}

/// The single entry under which a writer stores `labels`.
pub open spec fn packed(labels: Seq<Seq<char>>) -> Seq<char> {
    joined(labels, descriptor_separator())
}

/// The labels that the stored entries of a descriptor stand for: a single
/// entry is split on the separator, any other number of entries is taken as
/// the labels themselves.
pub open spec fn unpacked(stored: Seq<Seq<char>>) -> Seq<Seq<char>> {
    if stored.len() == 1 {
        split_on(stored[0], descriptor_separator())
    } else {
        stored
    }
}

/// The separator as text.
fn separator_text() -> (r: &'static str)
    ensures
        r@ == descriptor_separator(),
{
    proof {
        reveal_strlit(", ");
    }
    ", "
}

/// Joins `labels` into the single entry of a descriptor.
pub fn pack(labels: &Vec<String>) -> (r: String)
    ensures
        r@ == packed(labels.deep_view()),
{
    join(labels, separator_text())
}

/// The labels that the stored entries of a descriptor stand for, whichever
/// of the two shapes was written.
pub fn unpack(stored: &Vec<String>) -> (r: Vec<String>)
    ensures
        r.deep_view() == unpacked(stored.deep_view()),
{
    if stored.len() == 1 {
        split(stored[0].as_str(), separator_text())
    } else {
        stored.clone()
    }
}

/// A descriptor written as one joined entry and one written as one entry per
/// label read back as the same labels, those that were written, when there is
/// at least one label and no label holds the separator.
pub proof fn lemma_dual_descriptor(labels: Seq<Seq<char>>)
    requires
        labels.len() >= 1,
        forall|i: int| 0 <= i < labels.len() ==> !contains(#[trigger] labels[i], descriptor_separator()),
    ensures
        unpacked(seq![packed(labels)]) == labels,
        unpacked(labels) == labels,
{
    lemma_split_joined(labels, descriptor_separator());
    if labels.len() == 1 {
        assert(joined(labels, descriptor_separator()) == labels[0]);
    }
}

} // verus!
