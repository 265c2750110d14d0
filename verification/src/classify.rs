//! Telling the kind of a document from the data of its first page.

use crate::item::ItemType;
use crate::page::{
    newlines, newlines_upto, page_consistent, validate_page, PageError, Rect, TextAttr,
};
use crate::text::{starts_with, substr, to_chars};
use vstd::prelude::*;
use vstd::string::StrSliceExecFns;

verus! {

/// Among the first `i` runs, the first of those with the largest font size.
pub open spec fn largest_upto(attr: Seq<TextAttr>, i: int) -> int
    decreases i,
{
    if i <= 1 {
        0
    } else {
        let b = largest_upto(attr, i - 1);
        if attr[i - 1].font_size > attr[b].font_size {
            i - 1
        } else {
            b
        }
    }
}

/// The first of the runs with the largest font size.
pub open spec fn largest(attr: Seq<TextAttr>) -> int {
    largest_upto(attr, attr.len() as int)
}

/// The characters of the first run in the largest font, as far as the text holds them.
pub open spec fn headline(text: Seq<char>, attr: Seq<TextAttr>) -> Seq<char> {
    let run = attr[largest(attr)];
    if run.start_index <= run.end_index && run.end_index < text.len() {
        text.subrange(run.start_index as int, run.end_index + 1)
    } else {
        seq![]
    }
}

/// The number of lines of the text: one for each line feed, and one more
/// for what follows the last of them, if anything does.
pub open spec fn line_count(text: Seq<char>) -> int {
    newlines(text).len() + if text.len() > 0 && text.last() != '\n' {
        1int
    } else {
        0int
    }
}

/// The document has two pages or more and the first run in the largest font
/// of its first page begins with `arXiv`.
pub open spec fn is_arxiv(n_pages: int, text: Seq<char>, attr: Seq<TextAttr>) -> bool {
    n_pages >= 2 && attr.len() > 0 && "arXiv"@.is_prefix_of(headline(text, attr))
}

/// The document has two pages or more, its first page has ten lines or more,
/// and the second of them begins with `DOI`.
pub open spec fn is_springer(n_pages: int, text: Seq<char>) -> bool {
    n_pages >= 2 && line_count(text) >= 10 && "DOI"@.is_prefix_of(
        text.skip(newlines(text)[0] + 1),
    )
}

/// The largest run is a run, none is set larger, and none before it as large.
pub proof fn lemma_largest_upto(attr: Seq<TextAttr>, i: int)
    requires
        1 <= i <= attr.len(),
    ensures
        0 <= largest_upto(attr, i) < i,
        forall|j: int|
            0 <= j < i ==> (#[trigger] attr[j]).font_size <= attr[largest_upto(attr, i)].font_size,
        forall|j: int|
            0 <= j < largest_upto(attr, i) ==> (#[trigger] attr[j]).font_size < attr[largest_upto(
                attr,
                i,
            )].font_size,
    decreases i,
{
    if i > 1 {
        lemma_largest_upto(attr, i - 1);
    }
}

/// The font size, the start and the end of the first of the runs with the
/// largest font size.
pub fn max_font(v: &[TextAttr]) -> (r: (u64, usize, usize))
    requires
        v.len() > 0,
    ensures
        r.0 == v@[largest(v@)].font_size,
        r.1 == v@[largest(v@)].start_index,
        r.2 == v@[largest(v@)].end_index,
        0 <= largest(v@) < v.len(),
        forall|j: int| 0 <= j < v.len() ==> (#[trigger] v@[j]).font_size <= r.0,
        forall|j: int| 0 <= j < largest(v@) ==> (#[trigger] v@[j]).font_size < r.0,
{
    proof {
        lemma_largest_upto(v@, v.len() as int);
    }
    let mut acc = (v[0].font_size, v[0].start_index, v[0].end_index);
    for i in 1..v.len()
        invariant
            acc.0 == v@[largest_upto(v@, i as int)].font_size,
            acc.1 == v@[largest_upto(v@, i as int)].start_index,
            acc.2 == v@[largest_upto(v@, i as int)].end_index,
    {
        if v[i].font_size > acc.0 {
            acc = (v[i].font_size, v[i].start_index, v[i].end_index);
        }
    }
    acc
}

/// Whether the first page is that of a preprint: see `is_arxiv`. Data that
/// do not fit together are refused.
pub fn arxiv(n_pages: usize, text: &str, attr: &[TextAttr], layout: &[Rect]) -> (r: Result<
    bool,
    PageError,
>)
    ensures
        match r {
            Ok(b) => b == is_arxiv(n_pages as int, text@, attr@) && (n_pages < 2
                || page_consistent(text@, attr@, layout@)),
            Err(e) => e == PageError::PageInvariantViolation && n_pages >= 2 && !page_consistent(
                text@,
                attr@,
                layout@,
            ),
        },
{
    if n_pages < 2 {
        return Ok(false);
    }
    match validate_page(text, attr, layout) {
        Err(e) => {
            return Err(e);
        },
        Ok(()) => {},
    }
    if attr.len() == 0 {
        return Ok(false);
    }
    let (_, s, e) = max_font(attr);
    if e < s || e >= text.unicode_len() {
        proof {
            reveal_strlit("arXiv");
        }
        return Ok(false);
    }
    let yy = substr(text, s, e - s + 1);
    assert(yy@ =~= headline(text@, attr@));
    Ok(starts_with(yy.as_str(), "arXiv"))
}

/// Whether the first page is that of a journal article: see `is_springer`.
/// Data that do not fit together are refused.
pub fn springer(n_pages: usize, text: &str, attr: &[TextAttr], layout: &[Rect]) -> (r: Result<
    bool,
    PageError,
>)
    ensures
        match r {
            Ok(b) => b == is_springer(n_pages as int, text@) && (n_pages < 2 || page_consistent(
                text@,
                attr@,
                layout@,
            )),
            Err(e) => e == PageError::PageInvariantViolation && n_pages >= 2 && !page_consistent(
                text@,
                attr@,
                layout@,
            ),
        },
{
    if n_pages < 2 {
        return Ok(false);
    }
    match validate_page(text, attr, layout) {
        Err(e) => {
            return Err(e);
        },
        Ok(()) => {},
    }
    let chars = to_chars(text);
    let n = chars.len();
    let mut feeds: usize = 0;
    let mut first: usize = 0;
    for i in 0..n
        invariant
            n == text@.len(),
            chars@ == text@,
            feeds == newlines_upto(text@, i as int).len(),
            feeds <= i,
            feeds > 0 ==> first == newlines_upto(text@, i as int)[0] && first < i,
    {
        if chars[i] == '\n' {
            if feeds == 0 {
                first = i;
            }
            feeds = feeds + 1;
        }
    }
    let lines = if n > 0 && chars[n - 1] != '\n' {
        feeds as u128 + 1
    } else {
        feeds as u128
    };
    if lines < 10 {
        return Ok(false);
    }
    let rest = text.substring_char(first + 1, n);
    assert(rest@ =~= text@.skip(first + 1));
    Ok(starts_with(rest, "DOI"))
}

/// The kind of a document whose name does not tell it: a preprint, a journal
/// article, or unknown.
pub fn classify(n_pages: usize, text: &str, attr: &[TextAttr], layout: &[Rect]) -> (r: Result<
    ItemType,
    PageError,
>)
    ensures
        match r {
            Ok(t) => {
                &&& n_pages < 2 || page_consistent(text@, attr@, layout@)
                &&& t == if is_arxiv(n_pages as int, text@, attr@) {
                    ItemType::Arxiv
                } else if is_springer(n_pages as int, text@) {
                    ItemType::Springer
                } else {
                    ItemType::Unknown
                }
            },
            Err(e) => e == PageError::PageInvariantViolation && n_pages >= 2 && !page_consistent(
                text@,
                attr@,
                layout@,
            ),
        },
{
    if arxiv(n_pages, text, attr, layout)? {
        return Ok(ItemType::Arxiv);
    }
    if springer(n_pages, text, attr, layout)? {
        return Ok(ItemType::Springer);
    }
    Ok(ItemType::Unknown)
}

} // verus!
