//! From the raw data of a page (its text, one rectangle for each character,
//! and the font runs over the characters) to fragments, one for each line.

use crate::fragment::Fragment;
use crate::geometry::{is_envelope, lemma_envelope_valid, BBox};
use crate::text::to_chars;
use vstd::prelude::*;
use vstd::slice::slice_subrange;
use vstd::string::{StrSliceExecFns, StringExecFns};

verus! {

/// The rectangle of one character: `(x1, y1)` is its upper left corner.
#[derive(Clone, Copy, Debug, PartialEq, Eq, Structural)]
pub struct Rect {
    pub x1: i64,
    pub y1: i64,
    pub x2: i64,
    pub y2: i64,
}

/// A run of characters, from `start_index` to `end_index` inclusive, that are
/// set in one font.
#[derive(Debug)]
pub struct TextAttr {
    pub font_name: Option<String>,
    pub font_size: u64,
    pub start_index: usize,
    pub end_index: usize,
}

/// Why a page is refused.
#[derive(Clone, Copy, Debug, PartialEq, Eq, Structural)]
pub enum PageError {
    /// The text, the rectangles and the font runs do not fit together, or a
    /// line has a box that is inside out.
    PageInvariantViolation,
    /// No font run with a name covers any character of the line with this number.
    MissingFontAttribute { line: usize },
    /// Two lines overlap without a clean order, and the policy is to fail.
    AmbiguousOverlap,
}

/// The number of positions that the intervals from `x1` to `y1` and from
/// `x2` to `y2`, ends included, have in common.
pub open spec fn overlap(x1: int, y1: int, x2: int, y2: int) -> int {
    let lo = if x1 < x2 {
        x2
    } else {
        x1
    };
    let hi = if y1 < y2 {
        y1
    } else {
        y2
    };
    if hi < lo {
        0
    } else {
        hi - lo + 1
    }
}

/// The number of characters from `from` to `to`, ends included, that the run covers.
pub open spec fn run_overlap(a: TextAttr, from: int, to: int) -> int {
    overlap(a.start_index as int, a.end_index as int, from, to)
}

/// Among the first `i` runs, the one that covers most of the characters from
/// `from` to `to`; of several such, the last.
pub open spec fn best_upto(attr: Seq<TextAttr>, from: int, to: int, i: int) -> int
    decreases i,
{
    if i <= 1 {
        0
    } else {
        let b = best_upto(attr, from, to, i - 1);
        if run_overlap(attr[i - 1], from, to) >= run_overlap(attr[b], from, to) {
            i - 1
        } else {
            b
        }
    }
}

/// The run that covers most of the characters from `from` to `to`; of
/// several such, the last.
pub open spec fn best_run(attr: Seq<TextAttr>, from: int, to: int) -> int {
    best_upto(attr, from, to, attr.len() as int)
}

/// The largest end of a run, and -1 where there is no run.
pub open spec fn max_end(attr: Seq<TextAttr>) -> int
    decreases attr.len(),
{
    if attr.len() == 0 {
        -1
    } else if attr.last().end_index >= max_end(attr.drop_last()) {
        attr.last().end_index as int
    } else {
        max_end(attr.drop_last())
    }
}

/// There is one rectangle for each character, and the font runs end with the
/// last character.
pub open spec fn page_consistent(text: Seq<char>, attr: Seq<TextAttr>, layout: Seq<Rect>) -> bool {
    text.len() == layout.len() && text.len() == max_end(attr) + 1
}

/// The rectangles as boxes.
pub open spec fn rect_boxes(p: Seq<Rect>) -> Seq<BBox> {
    Seq::new(p.len(), |k: int| BBox { top: p[k].y1, left: p[k].x1, bottom: p[k].y2, right: p[k].x2 })
}

/// The places of the line feeds among the first `i` characters, in order.
pub open spec fn newlines_upto(text: Seq<char>, i: int) -> Seq<int>
    decreases i,
{
    if i <= 0 {
        seq![]
    } else if text[i - 1] == '\n' {
        newlines_upto(text, i - 1).push(i - 1)
    } else {
        newlines_upto(text, i - 1)
    }
}

/// The places of the line feeds of the text, in order. Line `k` ends with
/// the `k`-th of them.
pub open spec fn newlines(text: Seq<char>) -> Seq<int> {
    newlines_upto(text, text.len() as int)
}

/// The place of the first character of line `k`.
pub open spec fn line_start(ends: Seq<int>, k: int) -> int {
    if k == 0 {
        0
    } else {
        ends[k - 1] + 1
    }
}

/// The characters from `from` to `to` have no font: there is no run, the
/// best run covers none of them, or it has no font name.
pub open spec fn font_missing(attr: Seq<TextAttr>, from: int, to: int) -> bool {
    ||| attr.len() == 0
    ||| run_overlap(attr[best_run(attr, from, to)], from, to) == 0
    ||| attr[best_run(attr, from, to)].font_name is None
}

/// `f` is the line whose characters stand from `from` up to the line feed at
/// `to`: its text is these characters without the line feed, its box is the
/// envelope of their rectangles with that of the line feed, and its font is
/// that of the best run.
pub open spec fn is_line(
    f: Fragment,
    text: Seq<char>,
    attr: Seq<TextAttr>,
    layout: Seq<Rect>,
    from: int,
    to: int,
) -> bool {
    let run = attr[best_run(attr, from, to)];
    &&& f.text@ == text.subrange(from, to)
    &&& is_envelope(f.bbox, rect_boxes(layout.subrange(from, to + 1)))
    &&& run.font_name is Some
    &&& f.font_name@ == run.font_name->Some_0@
    &&& f.font_size == run.font_size
}

/// Line `k` of the text has no font.
pub open spec fn line_missing(text: Seq<char>, attr: Seq<TextAttr>, k: int) -> bool {
    font_missing(attr, line_start(newlines(text), k), newlines(text)[k])
}

/// `v` holds the lines of the page, each with a font.
pub open spec fn are_lines(
    v: Seq<Fragment>,
    text: Seq<char>,
    attr: Seq<TextAttr>,
    layout: Seq<Rect>,
) -> bool {
    &&& v.len() == newlines(text).len()
    &&& forall|k: int|
        0 <= k < v.len() ==> !line_missing(text, attr, k) && is_line(
            #[trigger] v[k],
            text,
            attr,
            layout,
            line_start(newlines(text), k),
            newlines(text)[k],
        )
}

/// Line `line` is the first line of the text that has no font.
pub open spec fn first_missing(text: Seq<char>, attr: Seq<TextAttr>, line: int) -> bool {
    &&& 0 <= line < newlines(text).len()
    &&& line_missing(text, attr, line)
    &&& forall|k: int| 0 <= k < line ==> !line_missing(text, attr, k)
}

/// The best run is a run, none covers more than it, and none behind it covers as much.
pub proof fn lemma_best_upto(attr: Seq<TextAttr>, from: int, to: int, i: int)
    requires
        1 <= i <= attr.len(),
    ensures
        0 <= best_upto(attr, from, to, i) < i,
        forall|j: int|
            0 <= j < i ==> run_overlap(#[trigger] attr[j], from, to) <= run_overlap(
                attr[best_upto(attr, from, to, i)],
                from,
                to,
            ),
        forall|j: int|
            best_upto(attr, from, to, i) < j < i ==> run_overlap(#[trigger] attr[j], from, to)
                < run_overlap(attr[best_upto(attr, from, to, i)], from, to),
    decreases i,
{
    if i > 1 {
        lemma_best_upto(attr, from, to, i - 1);
    }
}

/// The largest end is the end of a run and no run ends behind it.
pub proof fn lemma_max_end(attr: Seq<TextAttr>)
    ensures
        forall|j: int| 0 <= j < attr.len() ==> (#[trigger] attr[j]).end_index <= max_end(attr),
        attr.len() > 0 ==> exists|j: int|
            0 <= j < attr.len() && (#[trigger] attr[j]).end_index == max_end(attr),
        attr.len() == 0 ==> max_end(attr) == -1,
    decreases attr.len(),
{
    if attr.len() > 0 {
        let rest = attr.drop_last();
        lemma_max_end(rest);
        assert forall|j: int| 0 <= j < attr.len() implies (#[trigger] attr[j]).end_index
            <= max_end(attr) by {
            if j < rest.len() {
                assert(attr[j] == rest[j]);
            }
        }
        if attr.last().end_index >= max_end(rest) {
            assert(attr[attr.len() - 1].end_index == max_end(attr));
        } else {
            let j = choose|j: int| 0 <= j < rest.len() && (#[trigger] rest[j]).end_index == max_end(
                rest,
            );
            assert(attr[j] == rest[j]);
        }
    }
}

/// The line feeds among the first `i` characters are the first of those
/// among the first `j`, each of them stands before `i`, and they grow.
pub proof fn lemma_newlines_prefix(text: Seq<char>, i: int, j: int)
    requires
        0 <= i <= j <= text.len(),
    ensures
        newlines_upto(text, i).len() <= newlines_upto(text, j).len(),
        newlines_upto(text, i) == newlines_upto(text, j).take(newlines_upto(text, i).len() as int),
        forall|k: int|
            0 <= k < newlines_upto(text, i).len() ==> 0 <= (#[trigger] newlines_upto(text, i)[k])
                < i && text[newlines_upto(text, i)[k]] == '\n',
        forall|k: int, l: int|
            0 <= k < l < newlines_upto(text, i).len() ==> newlines_upto(text, i)[k]
                < newlines_upto(text, i)[l],
    decreases j,
{
    if i < j {
        lemma_newlines_prefix(text, i, j - 1);
        assert(newlines_upto(text, i) =~= newlines_upto(text, j).take(
            newlines_upto(text, i).len() as int,
        ));
    } else {
        if i > 0 {
            lemma_newlines_prefix(text, i - 1, i - 1);
        }
        assert(newlines_upto(text, i) =~= newlines_upto(text, j).take(
            newlines_upto(text, i).len() as int,
        ));
    }
}

/// Whether the text, the font runs and the rectangles of a page fit together.
pub fn validate_page(s: &str, attr: &[TextAttr], layout: &[Rect]) -> (r: Result<(), PageError>)
    ensures
        r is Ok <==> page_consistent(s@, attr@, layout@),
        r is Err ==> r->Err_0 == PageError::PageInvariantViolation,
        r is Ok ==> forall|j: int| 0 <= j < attr.len() ==> (#[trigger] attr@[j]).end_index < s@.len(),
{
    proof {
        lemma_max_end(attr@);
    }
    let char_cnt = s.unicode_len();
    let layout_len = layout.len();
    let mut seen = false;
    let mut end_attr: usize = 0;
    for i in 0..attr.len()
        invariant
            seen == (i > 0),
            max_end(attr@.take(i as int)) == if seen {
                end_attr as int
            } else {
                -1
            },
    {
        assert(attr@.take(i + 1).drop_last() =~= attr@.take(i as int));
        if !seen || attr[i].end_index >= end_attr {
            end_attr = attr[i].end_index;
        }
        seen = true;
    }
    assert(attr@.take(attr.len() as int) =~= attr@);
    let fits = if seen {
        char_cnt > 0 && char_cnt - 1 == end_attr
    } else {
        char_cnt == 0
    };
    if char_cnt == layout_len && fits {
        Ok(())
    } else {
        Err(PageError::PageInvariantViolation)
    }
}

/// The number of positions that two intervals, ends included, have in common.
pub fn intersect_intervals(x1: usize, y1: usize, x2: usize, y2: usize) -> (n: usize)
    requires
        overlap(x1 as int, y1 as int, x2 as int, y2 as int) <= usize::MAX,
    ensures
        n == overlap(x1 as int, y1 as int, x2 as int, y2 as int),
{
    let lo = if x1 < x2 {
        x2
    } else {
        x1
    };
    let hi = if y1 < y2 {
        y1
    } else {
        y2
    };
    if hi < lo {
        0
    } else {
        hi - lo + 1
    }
}

/// The font run that covers most of the characters from `from` to `to`; of
/// several such, the last.
pub fn font(attr: &[TextAttr], from: usize, to: usize) -> (r: &TextAttr)
    requires
        attr.len() > 0,
        to < usize::MAX,
    ensures
        *r == attr@[best_run(attr@, from as int, to as int)],
        0 <= best_run(attr@, from as int, to as int) < attr.len(),
        forall|j: int|
            0 <= j < attr.len() ==> run_overlap(#[trigger] attr@[j], from as int, to as int)
                <= run_overlap(*r, from as int, to as int),
        forall|j: int|
            best_run(attr@, from as int, to as int) < j < attr.len() ==> run_overlap(
                #[trigger] attr@[j],
                from as int,
                to as int,
            ) < run_overlap(*r, from as int, to as int),
{
    proof {
        lemma_best_upto(attr@, from as int, to as int, attr.len() as int);
    }
    let mut best: usize = 0;
    let mut most = intersect_intervals(attr[0].start_index, attr[0].end_index, from, to);
    for i in 1..attr.len()
        invariant
            to < usize::MAX,
            best == best_upto(attr@, from as int, to as int, i as int),
            best < i,
            most == run_overlap(attr@[best as int], from as int, to as int),
    {
        let l = intersect_intervals(attr[i].start_index, attr[i].end_index, from, to);
        if l >= most {
            most = l;
            best = i;
        }
    }
    &attr[best]
}

/// The envelope of the rectangles.
pub fn b_box(p: &[Rect]) -> (e: BBox)
    requires
        p.len() > 0,
    ensures
        is_envelope(e, rect_boxes(p@)),
        (forall|k: int| 0 <= k < p.len() ==> (#[trigger] rect_boxes(p@)[k]).wf()) ==> e.wf(),
{
    let mut top = p[0].y1;
    let mut bottom = p[0].y2;
    let mut left = p[0].x1;
    let mut right = p[0].x2;
    let ghost bs = rect_boxes(p@);
    let ghost mut kt = 0int;
    let ghost mut kb = 0int;
    let ghost mut kl = 0int;
    let ghost mut kr = 0int;
    for i in 1..p.len()
        invariant
            bs == rect_boxes(p@),
            0 <= kt < i && bs[kt].top == top,
            0 <= kb < i && bs[kb].bottom == bottom,
            0 <= kl < i && bs[kl].left == left,
            0 <= kr < i && bs[kr].right == right,
            forall|k: int|
                0 <= k < i ==> top <= (#[trigger] bs[k]).top && left <= bs[k].left && bs[k].bottom
                    <= bottom && bs[k].right <= right,
    {
        assert(bs[i as int].top == p@[i as int].y1);
        if top > p[i].y1 {
            top = p[i].y1;
            proof {
                kt = i as int;
            }
        }
        if bottom < p[i].y2 {
            bottom = p[i].y2;
            proof {
                kb = i as int;
            }
        }
        if left > p[i].x1 {
            left = p[i].x1;
            proof {
                kl = i as int;
            }
        }
        if right < p[i].x2 {
            right = p[i].x2;
            proof {
                kr = i as int;
            }
        }
    }
    let e = BBox { top, left, bottom, right };
    proof {
        if forall|k: int| 0 <= k < p.len() ==> (#[trigger] rect_boxes(p@)[k]).wf() {
            lemma_envelope_valid(e, bs);
        }
    }
    e
}

/// The margins of a page: the outermost left, right, top and bottom of its rectangles.
pub fn get_margins(p: &[Rect]) -> (m: (i64, i64, i64, i64))
    requires
        p.len() > 0,
    ensures
        is_envelope(BBox { top: m.2, left: m.0, bottom: m.3, right: m.1 }, rect_boxes(p@)),
{
    let e = b_box(p);
    (e.left, e.right, e.top, e.bottom)
}

/// The lines of a page as fragments: one for each line feed of the text,
/// with the characters before it, the envelope of the rectangles of the line,
/// and the font of the run that covers most of the line.
pub fn page_lines(text: &str, attr: &[TextAttr], layout: &[Rect]) -> (r: Result<
    Vec<Fragment>,
    PageError,
>)
    ensures
        match r {
            Ok(v) => page_consistent(text@, attr@, layout@) && are_lines(
                v@,
                text@,
                attr@,
                layout@,
            ),
            Err(PageError::PageInvariantViolation) => !page_consistent(text@, attr@, layout@),
            Err(PageError::MissingFontAttribute { line }) => page_consistent(
                text@,
                attr@,
                layout@,
            ) && first_missing(text@, attr@, line as int),
            Err(PageError::AmbiguousOverlap) => false,
        },
{
    match validate_page(text, attr, layout) {
        Err(e) => {
            return Err(e);
        },
        Ok(()) => {},
    }
    let n = text.unicode_len();
    let chars = to_chars(text);
    let ghost ends = newlines(text@);
    let mut out: Vec<Fragment> = Vec::new();
    let mut from: usize = 0;
    for i in 0..n
        invariant
            n == text@.len(),
            n == layout.len(),
            page_consistent(text@, attr@, layout@),
            chars@ == text@,
            ends == newlines(text@),
            out.len() == newlines_upto(text@, i as int).len(),
            out.len() <= ends.len(),
            from == line_start(ends, out.len() as int),
            from <= i,
            forall|k: int| 0 <= k < out.len() ==> !#[trigger] line_missing(text@, attr@, k),
            forall|k: int|
                0 <= k < out.len() ==> is_line(
                    #[trigger] out@[k],
                    text@,
                    attr@,
                    layout@,
                    line_start(ends, k),
                    ends[k],
                ),
    {
        proof {
            lemma_newlines_prefix(text@, i as int, n as int);
            lemma_newlines_prefix(text@, i + 1, n as int);
        }
        if chars[i] == '\n' {
            let line = out.len();
            proof {
                let upto = newlines_upto(text@, i + 1);
                assert(upto == newlines_upto(text@, i as int).push(i as int));
                assert(upto[line as int] == i);
                assert(upto == ends.take(upto.len() as int));
                assert(ends.take(upto.len() as int)[line as int] == ends[line as int]);
            }
            if attr.len() == 0 {
                return Err(PageError::MissingFontAttribute { line });
            }
            let f = font(attr, from, i);
            if intersect_intervals(f.start_index, f.end_index, from, i) == 0 {
                return Err(PageError::MissingFontAttribute { line });
            }
            let font_name = match &f.font_name {
                None => {
                    return Err(PageError::MissingFontAttribute { line });
                },
                Some(name) => name.clone(),
            };
            let fragment = Fragment {
                text: String::from_str(text.substring_char(from, i)),
                bbox: b_box(slice_subrange(layout, from, i + 1)),
                font_name,
                font_size: f.font_size,
            };
            out.push(fragment);
            from = i + 1;
        }
    }
    proof {
        assert(newlines_upto(text@, n as int) == ends);
    }
    Ok(out)
}

} // verus!
