//! The metadata record of one measurement group.
use crate::annotations::{annotation_entries, annotations_new, keys_unique};
use indexmap::IndexMap;
use vstd::prelude::*;

verus! {

/// Metadata associated with a dotThz measurement.
#[derive(Debug, Clone, PartialEq)]
pub struct DotthzMetaData {
    /// The user responsible for the measurement.
    pub user: String,
    /// The email of the user.
    pub email: String,
    /// The ORCID identifier for the user.
    pub orcid: String,
    /// The institution of the user.
    pub institution: String,
    /// The description of the measurement.
    pub description: String,
    /// Additional metadata stored as key-value pairs, in insertion order.
    pub md: IndexMap<String, String>,
    /// One label per stored dataset, in dataset order.
    pub ds_description: Vec<String>,
    /// dotThz version.
    pub version: String,
    /// The mode of measurement.
    pub mode: String,
    /// The instrument used for measurement.
    pub instrument: String,
    /// The time of measurement.
    pub time: String,
    /// The date of measurement.
    pub date: String,
}

/// What a `DotthzMetaData` holds, as mathematical values.
pub struct MetaModel {
    pub user: Seq<char>,
    pub email: Seq<char>,
    pub orcid: Seq<char>,
    pub institution: Seq<char>,
    pub description: Seq<char>,
    pub md: Seq<(Seq<char>, Seq<char>)>,
    pub ds_description: Seq<Seq<char>>,
    pub version: Seq<char>,
    pub mode: Seq<char>,
    pub instrument: Seq<char>,
    pub time: Seq<char>,
    pub date: Seq<char>,
}

impl View for DotthzMetaData {
    type V = MetaModel;

    open spec fn view(&self) -> MetaModel {
        MetaModel {
            user: self.user@,
            email: self.email@,
            orcid: self.orcid@,
            institution: self.institution@,
            description: self.description@,
            md: annotation_entries(self.md),
            ds_description: self.ds_description.deep_view(),
            version: self.version@,
            mode: self.mode@,
            instrument: self.instrument@,
            time: self.time@,
            date: self.date@,
        }
    }
}

impl DotthzMetaData {
    /// A record is well formed when no annotation key comes twice, as in any
    /// map.
    pub open spec fn wf(&self) -> bool {
        keys_unique(self@.md)
    }
}

/// The record whose every field is empty.
pub open spec fn empty_model() -> MetaModel {
    MetaModel {
        user: Seq::empty(),
        email: Seq::empty(),
        orcid: Seq::empty(),
        institution: Seq::empty(),
        description: Seq::empty(),
        md: Seq::empty(),
        ds_description: Seq::empty(),
        version: Seq::empty(),
        mode: Seq::empty(),
        instrument: Seq::empty(),
        time: Seq::empty(),
        date: Seq::empty(),
    }
}

impl Default for DotthzMetaData {
    fn default() -> (r: Self)
        ensures
            r@ == empty_model(),
            r.wf(),
    {
        let r = DotthzMetaData {
            user: String::new(),
            email: String::new(),
            orcid: String::new(),
            institution: String::new(),
            description: String::new(),
            md: annotations_new(),
            ds_description: Vec::new(),
            version: String::new(),
            mode: String::new(),
            instrument: String::new(),
            time: String::new(),
            date: String::new(),
        };
        assert(r.ds_description.deep_view() =~= Seq::<Seq<char>>::empty());
        r
    }
}

} // verus!
