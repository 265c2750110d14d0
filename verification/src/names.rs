//! Reading authors and title from the name of a file, of the form
//! `Last. First, Last. First -- Title -- Publisher`.

use crate::item::{Author, Item};
use crate::text::{split, split_spec, strs, trim, trimmed};
use vstd::prelude::*;
use vstd::string::StringExecFns;

verus! {

/// The first and the last name that a piece of the form `Last. First`
/// holds, each without the white space around it; `None` where the piece
/// does not consist of two parts with a full stop between them.
pub open spec fn author_of(piece: Seq<char>) -> Option<(Seq<char>, Seq<char>)> {
    let t = split_spec(piece, "."@);
    if t.len() == 2 {
        Some((trimmed(t[1]), trimmed(t[0])))
    } else {
        None
    }
}

/// `v` holds the authors of the pieces of `s` between commas, in order.
pub open spec fn are_authors(v: Seq<Author>, s: Seq<char>) -> bool {
    let pieces = split_spec(s, ","@);
    &&& v.len() == pieces.len()
    &&& forall|k: int|
        0 <= k < v.len() ==> author_of(pieces[k]) == Some(
            ((#[trigger] v[k]).first_name@, v[k].last_name@),
        )
}

/// Some piece of `s` between commas holds no author.
pub open spec fn authors_malformed(s: Seq<char>) -> bool {
    let pieces = split_spec(s, ","@);
    exists|k: int| 0 <= k < pieces.len() && author_of(#[trigger] pieces[k]) is None
}

/// `s` has three parts between `--`, and the first holds authors.
pub open spec fn names_item(s: Seq<char>) -> bool {
    split_spec(s, "--"@).len() == 3 && !authors_malformed(split_spec(s, "--"@)[0])
}

/// The name has three parts between `--`, or three parts between `..`.
pub open spec fn is_named(s: Seq<char>) -> bool {
    split_spec(s, "--"@).len() == 3 || split_spec(s, ".."@).len() == 3
}

/// The authors that `s` lists, separated by commas, each as `Last. First`;
/// `None` where a piece between commas is not of that form.
pub fn get_authors(s: &str) -> (r: Option<Vec<Author>>)
    ensures
        match r {
            Some(v) => are_authors(v@, s@),
            None => authors_malformed(s@),
        },
{
    proof {
        reveal_strlit(",");
        reveal_strlit(".");
    }
    let mut result: Vec<Author> = Vec::new();
    let authors = split(s, ",");
    let ghost pieces = split_spec(s@, ","@);
    for i in 0..authors.len()
        invariant
            "."@.len() > 0,
            strs(authors@) == pieces,
            pieces == split_spec(s@, ","@),
            result.len() == i,
            forall|k: int|
                0 <= k < i ==> author_of(pieces[k]) == Some(
                    ((#[trigger] result@[k]).first_name@, result@[k].last_name@),
                ),
    {
        let author = authors[i];
        assert(author@ == pieces[i as int]);
        let t = split(author, ".");
        if t.len() != 2 {
            return None;
        }
        assert(strs(t@)[0] == t@[0]@ && strs(t@)[1] == t@[1]@);
        let r = Author {
            first_name: String::from_str(trim(t[1])),
            last_name: String::from_str(trim(t[0])),
        };
        result.push(r);
    }
    Some(result)
}

/// The publisher and the year of publication in `s`: none is read.
pub fn get_publisher(_s: &str) -> (r: (Option<String>, Option<u32>))
    ensures
        r.0 is None,
        r.1 is None,
{
    (None, None)
}

/// The item that the name `s` describes: its authors from the first of three
/// parts between `--`, its title from the second; `None` where the name has
/// not three parts or the first holds no authors.
pub fn get_item(s: &str) -> (r: Option<Item>)
    ensures
        r is Some <==> names_item(s@),
        r matches Some(item) ==> {
            &&& item.title@ == trimmed(split_spec(s@, "--"@)[1])
            &&& are_authors(item.authors@, split_spec(s@, "--"@)[0])
            &&& item.publisher is None
            &&& item.pub_date is None
            &&& item.global_id is None
        },
{
    proof {
        reveal_strlit("--");
    }
    let v = split(s, "--");
    if v.len() != 3 {
        return None;
    }
    assert(strs(v@)[0] == v@[0]@ && strs(v@)[1] == v@[1]@);
    let (p, d) = get_publisher(v[2]);
    let authors = match get_authors(v[0]) {
        None => {
            return None;
        },
        Some(authors) => authors,
    };
    proof {
        let pieces = split_spec(v@[0]@, ","@);
        assert forall|k: int| 0 <= k < pieces.len() implies author_of(
            #[trigger] pieces[k],
        ) is Some by {
            assert(author_of(pieces[k]) == Some(
                (authors@[k].first_name@, authors@[k].last_name@),
            ));
        }
    }
    Some(
        Item {
            title: String::from_str(trim(v[1])),
            authors,
            publisher: p,
            pub_date: d,
            global_id: None,
        },
    )
}

/// Whether the name of a file is of a form that names its item: three parts
/// between `--`, or three parts between `..`.
pub fn named(s: &str) -> (b: bool)
    ensures
        b == is_named(s@),
{
    proof {
        reveal_strlit("--");
        reveal_strlit("..");
    }
    let v1 = split(s, "--");
    if v1.len() == 3 {
        return true;
    }
    let v2 = split(s, "..");
    v2.len() == 3
}

} // verus!
