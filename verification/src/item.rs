//! Bibliographic items and the kinds of document they are told from.

use crate::text::strip_prefix;
use vstd::prelude::*;

verus! {

#[derive(Debug)]
pub struct Author {
    pub first_name: String,
    pub last_name: String,
}

#[derive(Debug)]
pub enum GlobalId {
    DOI(String),
    ISBN(String),
    ARXIV(String),
    CITEER(String),
    HAL(String),
}

#[derive(Debug)]
pub struct Item {
    pub title: String,
    pub authors: Vec<Author>,
    pub publisher: Option<String>,
    pub pub_date: Option<u32>,
    pub global_id: Option<GlobalId>,
}

#[derive(Clone, Copy, Debug, PartialEq, Eq, Structural)]
pub enum ItemType {
    Unknown,
    Named,
    Arxiv,
    Springer,
}

impl ItemType {
    /// The marker with which a report line of this kind begins.
    pub open spec fn marker(self) -> Seq<char> {
        match self {
            ItemType::Unknown => "unknown: "@,
            ItemType::Named => "named: "@,
            ItemType::Arxiv => "arxiv: "@,
            ItemType::Springer => "springer: "@,
        }
    }
}

/// A line begins with the marker of at most one kind.
pub proof fn lemma_marker_unique(s: Seq<char>, t: ItemType, u: ItemType)
    requires
        t.marker().is_prefix_of(s),
        u.marker().is_prefix_of(s),
    ensures
        t == u,
{
    reveal_strlit("unknown: ");
    reveal_strlit("named: ");
    reveal_strlit("arxiv: ");
    reveal_strlit("springer: ");
    assert(s.subrange(0, t.marker().len() as int)[0] == s[0]);
    assert(s.subrange(0, u.marker().len() as int)[0] == s[0]);
}

/// A line that begins with the marker of a kind begins with that of no other.
pub proof fn lemma_marker_only(s: Seq<char>, t: ItemType)
    requires
        t.marker().is_prefix_of(s),
    ensures
        forall|u: ItemType| (#[trigger] u.marker()).is_prefix_of(s) ==> u == t,
{
    assert forall|u: ItemType| (#[trigger] u.marker()).is_prefix_of(s) implies u == t by {
        lemma_marker_unique(s, t, u);
    }
}

/// The kind of a report line and what follows its marker; `None` for a line
/// that begins with no marker.
pub fn item_type(s: &str) -> (r: Option<(&'static ItemType, &str)>)
    ensures
        match r {
            Some((t, rest)) => {
                &&& t.marker().is_prefix_of(s@)
                &&& rest@ == s@.skip(t.marker().len() as int)
                &&& forall|u: ItemType| (#[trigger] u.marker()).is_prefix_of(s@) ==> u == *t
            },
            None => forall|t: ItemType| !(#[trigger] t.marker()).is_prefix_of(s@),
        },
{
    if let Some(rest) = strip_prefix(s, "unknown: ") {
        proof {
            lemma_marker_only(s@, ItemType::Unknown);
        }
        return Some((&ItemType::Unknown, rest));
    }
    if let Some(rest) = strip_prefix(s, "named: ") {
        proof {
            lemma_marker_only(s@, ItemType::Named);
        }
        return Some((&ItemType::Named, rest));
    }
    if let Some(rest) = strip_prefix(s, "arxiv: ") {
        proof {
            lemma_marker_only(s@, ItemType::Arxiv);
        }
        return Some((&ItemType::Arxiv, rest));
    }
    if let Some(rest) = strip_prefix(s, "springer: ") {
        proof {
            lemma_marker_only(s@, ItemType::Springer);
        }
        return Some((&ItemType::Springer, rest));
    }
    None
}

} // verus!
