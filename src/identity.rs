//! The identity of the person behind a measurement, kept in one attribute as
//! `orcid/user/email/institution`.
use crate::text::{contains, joined, lemma_split_joined, split, split_on};
use vstd::prelude::*;
use vstd::string::*;

verus! {

/// The text between two fields of the identity composite.
pub open spec fn identity_separator() -> Seq<char> {
    seq!['/']
}

/// The composite text for an identity, fields in the order orcid, user,
/// email, institution.
pub open spec fn composite(orcid: Seq<char>, user: Seq<char>, email: Seq<char>, institution: Seq<char>) -> Seq<char> {
    joined(seq![orcid, user, email, institution], identity_separator())
}

/// Piece `k` of `parts`, or empty text where there is none.
pub open spec fn part_or_empty(parts: Seq<Seq<char>>, k: int) -> Seq<char> {
    if 0 <= k < parts.len() {
        parts[k]
    } else {
        Seq::empty()
    }
}

/// The four fields (orcid, user, email, institution) read from a composite:
/// its pieces between separators, by position, missing ones empty and any
/// beyond the fourth ignored.
pub open spec fn identity_fields(s: Seq<char>) -> (Seq<char>, Seq<char>, Seq<char>, Seq<char>) {
    let parts = split_on(s, identity_separator());
    (part_or_empty(parts, 0), part_or_empty(parts, 1), part_or_empty(parts, 2), part_or_empty(parts, 3))
}

/// The separator as text.
fn separator_text() -> (r: &'static str)
    ensures
        r@ == identity_separator(),
{
    proof {
        reveal_strlit("/");
    }
    "/"
}

/// The composite text for an identity.
pub fn compose_identity(orcid: &str, user: &str, email: &str, institution: &str) -> (r: String)
    ensures
        r@ == composite(orcid@, user@, email@, institution@),
{
    let sep = separator_text();
    let mut r = String::from_str(orcid);
    r.append(sep);
    r.append(user);
    r.append(sep);
    r.append(email);
    r.append(sep);
    r.append(institution);
    proof {
        let s = identity_separator();
        let from_institution = seq![institution@];
        let from_email = seq![email@, institution@];
        let from_user = seq![user@, email@, institution@];
        let all_fields = seq![orcid@, user@, email@, institution@];
        assert(from_email.drop_first() == from_institution);
        assert(from_user.drop_first() == from_email);
        assert(all_fields.drop_first() == from_user);
        assert(joined(from_institution, s) == institution@);
        assert(joined(from_email, s) == email@ + s + institution@);
        assert(joined(from_user, s) == user@ + s + (email@ + s + institution@));
        assert(r@ =~= orcid@ + s + (user@ + s + (email@ + s + institution@)));
    }
    r
}

/// The piece at `k`, or empty text.
fn piece(parts: &Vec<String>, k: usize) -> (r: String)
    ensures
        r@ == part_or_empty(parts.deep_view(), k as int),
{
    if k < parts.len() {
        parts[k].clone()
    } else {
        String::new()
    }
}

/// The four fields (orcid, user, email, institution) read from a composite.
pub fn parse_identity(s: &str) -> (r: (String, String, String, String))
    ensures
        (r.0@, r.1@, r.2@, r.3@) == identity_fields(s@),
{
    let parts = split(s, separator_text());
    (piece(&parts, 0), piece(&parts, 1), piece(&parts, 2), piece(&parts, 3))
}

/// Reading the composite of an identity gives back its four fields, when none
/// of them holds the separator.
pub proof fn lemma_identity_round_trip(orcid: Seq<char>, user: Seq<char>, email: Seq<char>, institution: Seq<char>)
    requires
        !contains(orcid, identity_separator()),
        !contains(user, identity_separator()),
        !contains(email, identity_separator()),
        !contains(institution, identity_separator()),
    ensures
        identity_fields(composite(orcid, user, email, institution)) == (orcid, user, email, institution),
{
    let p = seq![orcid, user, email, institution];
    assert forall|i: int| 0 <= i < p.len() implies !contains(#[trigger] p[i], identity_separator()) by {
        if i == 0 {
        } else if i == 1 {
        } else if i == 2 {
        } else {
        }
    }
    lemma_split_joined(p, identity_separator());
}

} // verus!
