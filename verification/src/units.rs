//! From the fragments of a page to its logical units, in reading order.

use crate::chains::{chains_of, lemma_chains_of};
use crate::fragment::{all_valid, check_valid, in_range, Fragment};
use crate::geometry::{AmbiguousOverlap, OverlapPolicy};
use crate::page::{
    are_lines, first_missing, page_consistent, page_lines, PageError, Rect, TextAttr,
};
use crate::merge::{is_unit, merge_tt};
use crate::partition::covers_once;
use crate::poset::{has_ambiguous, Poset};
use crate::refine::{refine_chain, refined, slices, Config, Ratio};
use vstd::prelude::*;

verus! {

/// The refined pieces of all chains, in the order of the chains.
pub open spec fn groups(x: Seq<Fragment>, chains: Seq<Seq<usize>>, ratio: Ratio) -> Seq<
    Seq<usize>,
> {
    chains.map_values(|c: Seq<usize>| refined(x, c, ratio)).flatten()
}

/// There is one unit for each group, and it is the merge of that group.
pub open spec fn are_units(units: Seq<Fragment>, x: Seq<Fragment>, g: Seq<Seq<usize>>) -> bool {
    &&& units.len() == g.len()
    &&& forall|k: int| 0 <= k < g.len() ==> is_unit(#[trigger] units[k], x, g[k])
}

/// The fragments are refused under the policy `Fail` when some two of them
/// overlap without a clean order, and under no other condition.
pub open spec fn refused(x: Seq<Fragment>, config: Config) -> bool {
    config.overlap == OverlapPolicy::Fail && has_ambiguous(x)
}

/// `units` are the merged groups of the chains of the fragments `x`.
pub open spec fn are_units_of(units: Seq<Fragment>, x: Seq<Fragment>, ratio: Ratio) -> bool {
    are_units(units, x, groups(x, chains_of(x), ratio))
}

/// The logical units of a page: the chains of the cover graph of its
/// fragments, each refined by font and by distance, each piece merged.
pub fn logical_units(x: &[Fragment], config: &Config) -> (r: Result<
    Vec<Fragment>,
    AmbiguousOverlap,
>)
    requires
        all_valid(x@),
    ensures
        r is Err <==> refused(x@, *config),
        r is Ok ==> are_units_of(r->Ok_0@, x@, config.gap_ratio),
{
    let ratio = config.gap_ratio;
    let p = match Poset::create_poset_with(x, config.overlap) {
        Err(e) => {
            return Err(e);
        },
        Ok(p) => p,
    };
    let mut it = p.chain_iter();
    let mut units: Vec<Fragment> = Vec::new();
    let ghost refine = |c: Seq<usize>| refined(x@, c, ratio);
    proof {
        p.lemma_chains_partition();
        assert(p.chains().take(0).map_values(refine) =~= Seq::<Seq<Seq<usize>>>::empty());
    }
    loop
        invariant
            p.wf(),
            p.size() == x.len(),
            ratio == config.gap_ratio,
            refine == |c: Seq<usize>| refined(x@, c, ratio),
            covers_once(p.chains(), p.size()),
            it.wf(),
            it.poset() == p,
            it.emitted() <= p.chains().len(),
            are_units(units@, x@, groups(x@, p.chains().take(it.emitted() as int), ratio)),
        ensures
            it.emitted() == p.chains().len(),
        decreases p.chains().len() - it.emitted(),
    {
        let ghost at = it.emitted() as int;
        let next = it.next();
        let chain = match next {
            None => {
                break ;
            },
            Some(chain) => chain,
        };
        let ghost done = p.chains().take(at);
        let ghost before = groups(x@, done, ratio);
        proof {
            assert(chain@ == p.chains()[at]);
            assert(in_range(chain@, x.len() as int)) by {
                assert forall|k: int| 0 <= k < chain@.len() implies (#[trigger] chain@[k])
                    < x.len() by {
                    assert(p.chains()[at][k] < p.size());
                }
            }
            assert(p.chains().take(at + 1) =~= done.push(chain@));
            assert(done.push(chain@).map_values(refine) =~= done.map_values(refine).push(
                refine(chain@),
            ));
            done.map_values(refine).lemma_flatten_push(refine(chain@));
            assert(groups(x@, p.chains().take(at + 1), ratio) =~= before + refined(
                x@,
                chain@,
                ratio,
            ));
        }
        let pieces = refine_chain(x, chain.as_slice(), config);
        for j in 0..pieces.len()
            invariant
                slices(pieces@) == refined(x@, chain@, ratio),
                forall|k: int|
                    0 <= k < pieces.len() ==> (#[trigger] pieces@[k])@.len() > 0 && in_range(
                        pieces@[k]@,
                        x.len() as int,
                    ),
                are_units(units@, x@, before + slices(pieces@).take(j as int)),
        {
            let ghost had = before + slices(pieces@).take(j as int);
            let unit = merge_tt(x, pieces[j]);
            units.push(unit);
            proof {
                let have = before + slices(pieces@).take(j + 1);
                assert(have =~= had.push(pieces@[j as int]@));
                assert forall|k: int| 0 <= k < have.len() implies is_unit(
                    #[trigger] units@[k],
                    x@,
                    have[k],
                ) by {
                    if k < had.len() {
                        assert(have[k] == had[k]);
                    }
                }
            }
        }
        assert(slices(pieces@).take(pieces.len() as int) =~= slices(pieces@));
    }
    proof {
        assert(p.chains().take(p.chains().len() as int) =~= p.chains());
        lemma_chains_of(&p, x@);
    }
    Ok(units)
}

/// The logical units of a page from its raw data. The page is refused when
/// its data do not fit together, when a line has no font, when the box of a
/// line is inside out, and under the policy `Fail` when two lines overlap
/// without a clean order.
pub fn process_page(text: &str, attr: &[TextAttr], layout: &[Rect], config: &Config) -> (r: Result<
    Vec<Fragment>,
    PageError,
>)
    ensures
        match r {
            Ok(units) => page_consistent(text@, attr@, layout@) && exists|lines: Seq<Fragment>|
                are_lines(lines, text@, attr@, layout@) && all_valid(lines) && !refused(
                    lines,
                    *config,
                ) && are_units_of(units@, lines, config.gap_ratio),
            Err(PageError::PageInvariantViolation) => !page_consistent(text@, attr@, layout@)
                || exists|lines: Seq<Fragment>|
                are_lines(lines, text@, attr@, layout@) && !all_valid(lines),
            Err(PageError::MissingFontAttribute { line }) => page_consistent(
                text@,
                attr@,
                layout@,
            ) && first_missing(text@, attr@, line as int),
            Err(PageError::AmbiguousOverlap) => page_consistent(text@, attr@, layout@)
                && exists|lines: Seq<Fragment>|
                are_lines(lines, text@, attr@, layout@) && all_valid(lines) && refused(
                    lines,
                    *config,
                ),
        },
{
    let lines = match page_lines(text, attr, layout) {
        Err(e) => {
            return Err(e);
        },
        Ok(lines) => lines,
    };
    if !check_valid(lines.as_slice()) {
        return Err(PageError::PageInvariantViolation);
    }
    match logical_units(lines.as_slice(), config) {
        Err(_) => Err(PageError::AmbiguousOverlap),
        Ok(units) => Ok(units),
    }
}

} // verus!
