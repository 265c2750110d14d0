//! Cutting chains where the font changes or where the gap between two
//! neighbours is large.

use crate::fragment::{in_range, same_font, Fragment};
use crate::geometry::OverlapPolicy;
use vstd::prelude::*;
use vstd::seq_lib::lemma_flatten_concat;
use vstd::slice::slice_subrange;

verus! {

/// A ratio of two whole numbers.
#[derive(Clone, Copy, Debug, PartialEq, Eq, Structural)]
pub struct Ratio {
    pub num: u32,
    pub den: u32,
}

/// The tunables of the refinement.
#[derive(Clone, Copy, Debug, PartialEq, Eq, Structural)]
pub struct Config {
    /// A chain is cut where a gap is more than this part of the vertical
    /// extent of the chain's first member.
    pub gap_ratio: Ratio,
    /// What to do with boxes that overlap without a clean order.
    pub overlap: OverlapPolicy,
}

impl Default for Config {
    /// Two fifths, and ambiguous overlaps are incomparable.
    fn default() -> (c: Config)
        ensures
            c == (Config {
                gap_ratio: Ratio { num: 2, den: 5 },
                overlap: OverlapPolicy::TreatAsIncomparable,
            }),
    {
        Config { gap_ratio: Ratio { num: 2, den: 5 }, overlap: OverlapPolicy::TreatAsIncomparable }
    }
}

/// `gap` is more than the part `ratio` of `extent`.
pub open spec fn exceeds(gap: int, extent: int, ratio: Ratio) -> bool {
    gap * ratio.den > extent * ratio.num
}

/// The pieces of the first `i` entries of `c` when it is cut between every
/// two neighbours that `differ`.
pub open spec fn runs_upto(c: Seq<usize>, differ: spec_fn(usize, usize) -> bool, i: int) -> Seq<
    Seq<usize>,
>
    decreases i,
{
    if i <= 0 {
        seq![]
    } else if i == 1 {
        seq![seq![c[0]]]
    } else {
        let before = runs_upto(c, differ, i - 1);
        if differ(c[i - 2], c[i - 1]) {
            before.push(seq![c[i - 1]])
        } else {
            before.drop_last().push(before.last().push(c[i - 1]))
        }
    }
}

/// The pieces of `c` when it is cut between every two neighbours that `differ`.
pub open spec fn runs(c: Seq<usize>, differ: spec_fn(usize, usize) -> bool) -> Seq<Seq<usize>> {
    runs_upto(c, differ, c.len() as int)
}

/// No piece is empty, the pieces in order make up `c`, the neighbours inside
/// a piece do not differ, and the last entry of a piece differs from the
/// first of the next.
pub open spec fn is_split(
    r: Seq<Seq<usize>>,
    c: Seq<usize>,
    differ: spec_fn(usize, usize) -> bool,
) -> bool {
    &&& r.flatten() == c
    &&& forall|k: int| 0 <= k < r.len() ==> (#[trigger] r[k]).len() > 0
    &&& forall|k: int, j: int|
        0 <= k < r.len() && 0 < j < r[k].len() ==> !differ(r[k][j - 1], #[trigger] r[k][j])
    &&& forall|k: int| 0 < k < r.len() ==> differ(r[k - 1].last(), (#[trigger] r[k])[0])
}

/// Two fragments that are not set in the same font at the same size.
pub open spec fn font_differs(x: Seq<Fragment>) -> spec_fn(usize, usize) -> bool {
    |a: usize, b: usize| !same_font(x[a as int], x[b as int])
}

/// Two fragments with a gap between them that is more than the part `ratio`
/// of the vertical extent of the fragment `first`.
pub open spec fn gap_differs(x: Seq<Fragment>, first: usize, ratio: Ratio) -> spec_fn(
    usize,
    usize,
) -> bool {
    |a: usize, b: usize|
        exceeds(x[a as int].bbox.gap(x[b as int].bbox), x[first as int].bbox.span(), ratio)
}

/// The chain cut wherever the font changes.
pub open spec fn font_runs(x: Seq<Fragment>, c: Seq<usize>) -> Seq<Seq<usize>> {
    runs(c, font_differs(x))
}

/// The chain cut wherever a gap is more than the part `ratio` of the
/// vertical extent of its first member; a chain of fewer than two members
/// as it is.
pub open spec fn gap_runs(x: Seq<Fragment>, c: Seq<usize>, ratio: Ratio) -> Seq<Seq<usize>> {
    if c.len() < 2 {
        seq![c]
    } else {
        runs(c, gap_differs(x, c[0], ratio))
    }
}

/// The chains that a list of slices holds.
pub open spec fn slices(r: Seq<&[usize]>) -> Seq<Seq<usize>> {
    Seq::new(r.len(), |k: int| r[k]@)
}

/// The shape of the pieces of the first `i` entries of a chain.
pub proof fn lemma_runs_upto(c: Seq<usize>, differ: spec_fn(usize, usize) -> bool, i: int)
    requires
        1 <= i <= c.len(),
    ensures
        is_split(runs_upto(c, differ, i), c.take(i), differ),
        runs_upto(c, differ, i).len() > 0,
        runs_upto(c, differ, i).last().last() == c[i - 1],
    decreases i,
{
    broadcast use {Seq::lemma_flatten_push, Seq::lemma_flatten_singleton};

    let r = runs_upto(c, differ, i);
    if i == 1 {
        assert(r.flatten() =~= c.take(i));
    } else {
        lemma_runs_upto(c, differ, i - 1);
        let before = runs_upto(c, differ, i - 1);
        assert(before =~= before.drop_last().push(before.last()));
        assert(before.flatten() =~= before.drop_last().flatten() + before.last());
        assert(c.take(i) =~= c.take(i - 1).push(c[i - 1]));
        if differ(c[i - 2], c[i - 1]) {
            assert(r.flatten() =~= c.take(i));
        } else {
            assert(r.flatten() =~= before.drop_last().flatten() + before.last().push(c[i - 1]));
            assert(r.flatten() =~= c.take(i));
        }
    }
}

/// The pieces of a chain that is not empty: none is empty, in order they make
/// up the chain, neighbours inside a piece do not differ, and neighbours
/// across a cut do.
pub proof fn lemma_runs(c: Seq<usize>, differ: spec_fn(usize, usize) -> bool)
    requires
        c.len() > 0,
    ensures
        is_split(runs(c, differ), c, differ),
{
    lemma_runs_upto(c, differ, c.len() as int);
    assert(c.take(c.len() as int) =~= c);
}

/// The pieces of a chain hold indices of the chain only.
pub proof fn lemma_split_in_range(r: Seq<Seq<usize>>, c: Seq<usize>, n: int)
    requires
        r.flatten() == c,
        in_range(c, n),
    ensures
        forall|k: int| 0 <= k < r.len() ==> in_range(#[trigger] r[k], n),
    decreases r.len(),
{
    if r.len() > 0 {
        let rest = r.drop_first();
        assert(c =~= r.first() + rest.flatten());
        assert forall|k: int| 0 <= k < rest.flatten().len() implies (#[trigger] rest.flatten()[k])
            < n by {
            assert(rest.flatten()[k] == c[r.first().len() + k]);
        }
        lemma_split_in_range(rest, rest.flatten(), n);
        assert forall|k: int| 0 <= k < r.len() implies in_range(#[trigger] r[k], n) by {
            if k == 0 {
                assert forall|j: int| 0 <= j < r[0].len() implies (#[trigger] r[0][j]) < n by {
                    assert(r[0][j] == c[j]);
                }
            } else {
                assert(r[k] == rest[k - 1]);
            }
        }
    }
}

/// Cuts the chain `c` wherever the font name or the font size changes.
pub fn split_by_font<'a>(x: &[Fragment], c: &'a [usize]) -> (r: Vec<&'a [usize]>)
    requires
        in_range(c@, x.len() as int),
    ensures
        slices(r@) == font_runs(x@, c@),
        slices(r@).flatten() == c@,
        c.len() > 0 ==> is_split(slices(r@), c@, font_differs(x@)),
{
    let mut r: Vec<&'a [usize]> = Vec::new();
    if c.len() == 0 {
        assert(slices(r@) =~= font_runs(x@, c@));
        assert(slices(r@).flatten() =~= c@);
        return r;
    }
    let ghost differ = font_differs(x@);
    let mut from: usize = 0;
    assert(slices(r@).push(c@.subrange(0, 1)) =~~= runs_upto(c@, differ, 1));
    for i in 1..c.len()
        invariant
            in_range(c@, x.len() as int),
            differ == font_differs(x@),
            from < i <= c.len(),
            forall|k: int| from <= k < i ==> same_font(x@[c@[k] as int], x@[c@[from as int] as int]),
            slices(r@).push(c@.subrange(from as int, i as int)) == runs_upto(c@, differ, i as int),
    {
        let ghost done = slices(r@);
        let ghost open = c@.subrange(from as int, i as int);
        assert(open.last() == c@[i - 1]);
        if !x[c[i]].has_font_of(&x[c[from]]) {
            r.push(slice_subrange(c, from, i));
            from = i;
            assert(slices(r@) =~= done.push(open));
            assert(c@.subrange(from as int, i + 1) =~= seq![c@[i as int]]);
        } else {
            assert(done.push(open).drop_last() =~= done);
            assert(c@.subrange(from as int, i + 1) =~= open.push(c@[i as int]));
        }
    }
    let ghost done = slices(r@);
    r.push(slice_subrange(c, from, c.len()));
    proof {
        assert(slices(r@) =~= done.push(c@.subrange(from as int, c.len() as int)));
        lemma_runs(c@, differ);
    }
    r
}

/// Cuts the chain `c` wherever the gap between two neighbours is more than
/// the configured part of the vertical extent of the chain's first member. A
/// chain of fewer than two members comes back as it is.
pub fn split_by_distance<'a>(x: &[Fragment], c: &'a [usize], config: &Config) -> (r: Vec<
    &'a [usize],
>)
    requires
        in_range(c@, x.len() as int),
    ensures
        slices(r@) == gap_runs(x@, c@, config.gap_ratio),
        slices(r@).flatten() == c@,
        c.len() > 0 ==> is_split(slices(r@), c@, gap_differs(x@, c@[0], config.gap_ratio)),
{
    broadcast use Seq::lemma_flatten_singleton;

    let mut r: Vec<&'a [usize]> = Vec::new();
    if c.len() < 2 {
        r.push(c);
        assert(slices(r@) =~= seq![c@]);
        return r;
    }
    let ratio = config.gap_ratio;
    let ghost differ = gap_differs(x@, c@[0], ratio);
    let first = &x[c[0]].bbox;
    let extent: i128 = first.bottom as i128 - first.top as i128;
    assert(-0x1_0000_0000_0000_0000_0000_0000 < extent * ratio.num
        < 0x1_0000_0000_0000_0000_0000_0000)
        by (nonlinear_arith)
        requires
            -0x1_0000_0000_0000_0000 < extent < 0x1_0000_0000_0000_0000,
            0 <= ratio.num < 0x1_0000_0000,
    ;
    let limit: i128 = extent * (ratio.num as i128);
    let mut from: usize = 0;
    assert(slices(r@).push(c@.subrange(0, 1)) =~~= runs_upto(c@, differ, 1));
    for i in 1..c.len()
        invariant
            in_range(c@, x.len() as int),
            differ == gap_differs(x@, c@[0], ratio),
            limit == x@[c@[0] as int].bbox.span() * ratio.num,
            from < i <= c.len(),
            slices(r@).push(c@.subrange(from as int, i as int)) == runs_upto(c@, differ, i as int),
    {
        let ghost done = slices(r@);
        let ghost open = c@.subrange(from as int, i as int);
        let gap = x[c[i - 1]].bbox.dist(&x[c[i]].bbox);
        assert(0 <= gap * ratio.den < 0x1_0000_0000_0000_0000_0000_0000) by (nonlinear_arith)
            requires
                0 <= gap < 0x1_0000_0000_0000_0000,
                0 <= ratio.den < 0x1_0000_0000,
        ;
        if (gap as i128) * (ratio.den as i128) > limit {
            r.push(slice_subrange(c, from, i));
            from = i;
            assert(slices(r@) =~= done.push(open));
            assert(c@.subrange(from as int, i + 1) =~= seq![c@[i as int]]);
        } else {
            assert(done.push(open).drop_last() =~= done);
            assert(c@.subrange(from as int, i + 1) =~= open.push(c@[i as int]));
        }
    }
    let ghost done = slices(r@);
    r.push(slice_subrange(c, from, c.len()));
    proof {
        assert(slices(r@) =~= done.push(c@.subrange(from as int, c.len() as int)));
        lemma_runs(c@, differ);
    }
    r
}

/// The font runs of the chain, each cut again by distance, in order.
pub open spec fn refined(x: Seq<Fragment>, c: Seq<usize>, ratio: Ratio) -> Seq<Seq<usize>> {
    font_runs(x, c).map_values(|run: Seq<usize>| gap_runs(x, run, ratio)).flatten()
}

/// Refines one chain: cuts it where the font changes, and each of the
/// resulting runs where a gap is large against the first member of that run.
pub fn refine_chain<'a>(x: &[Fragment], c: &'a [usize], config: &Config) -> (r: Vec<&'a [usize]>)
    requires
        in_range(c@, x.len() as int),
    ensures
        slices(r@) == refined(x@, c@, config.gap_ratio),
        slices(r@).flatten() == c@,
        forall|k: int|
            0 <= k < r.len() ==> (#[trigger] r@[k])@.len() > 0 && in_range(r@[k]@, x.len() as int),
{
    let ratio = config.gap_ratio;
    let fonts = split_by_font(x, c);
    let ghost cut = |run: Seq<usize>| gap_runs(x@, run, ratio);
    let mut r: Vec<&'a [usize]> = Vec::new();
    proof {
        if c.len() > 0 {
            lemma_runs(c@, font_differs(x@));
        }
        lemma_split_in_range(slices(fonts@), c@, x.len() as int);
        assert(slices(fonts@).take(0).map_values(cut) =~= Seq::<Seq<Seq<usize>>>::empty());
        assert(slices(fonts@).take(0) =~= Seq::<Seq<usize>>::empty());
        assert(slices(r@) =~= Seq::<Seq<usize>>::empty());
    }
    for b in 0..fonts.len()
        invariant
            cut == |run: Seq<usize>| gap_runs(x@, run, ratio),
            ratio == config.gap_ratio,
            slices(fonts@).flatten() == c@,
            forall|k: int|
                0 <= k < fonts.len() ==> (#[trigger] slices(fonts@)[k]).len() > 0 && in_range(
                    slices(fonts@)[k],
                    x.len() as int,
                ),
            slices(r@) == slices(fonts@).take(b as int).map_values(cut).flatten(),
            slices(r@).flatten() == slices(fonts@).take(b as int).flatten(),
            forall|k: int|
                0 <= k < r.len() ==> (#[trigger] r@[k])@.len() > 0 && in_range(
                    r@[k]@,
                    x.len() as int,
                ),
    {
        let run: &'a [usize] = fonts[b];
        assert(run@ == slices(fonts@)[b as int]);
        let mut pieces = split_by_distance(x, run, config);
        let ghost had = r@;
        let ghost added = pieces@;
        proof {
            lemma_split_in_range(slices(added), run@, x.len() as int);
            assert forall|k: int| 0 <= k < added.len() implies (#[trigger] added[k])@.len() > 0
                && in_range(added[k]@, x.len() as int) by {
                assert(slices(added)[k] == added[k]@);
            }
        }
        r.append(&mut pieces);
        proof {
            let done = slices(fonts@).take(b as int);
            assert(r@ == had + added);
            assert(slices(r@) =~= slices(had) + slices(added));
            assert(slices(fonts@).take(b + 1) =~= done.push(run@));
            assert(done.push(run@).map_values(cut) =~= done.map_values(cut).push(cut(run@)));
            done.map_values(cut).lemma_flatten_push(cut(run@));
            done.lemma_flatten_push(run@);
            lemma_flatten_concat(slices(had), slices(added));
        }
    }
    proof {
        assert(slices(fonts@).take(fonts.len() as int) =~= slices(fonts@));
    }
    r
}

} // verus!
