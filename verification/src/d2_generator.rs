use vstd::prelude::*;

use crate::links::{
    dep_map_sorted, dep_pairs, graph_lines, lemma_rendering_lists_every_link, link_lt, pair_lines, render_links,
    DepMap,
};

verus! {

/// The D2 text of a dependency map: one line `component -> dependency` per
/// link, components in increasing order and each component's dependencies
/// in increasing order.
pub open spec fn d2_text(keys: Seq<Seq<char>>, vals: Seq<Seq<Seq<char>>>) -> Seq<char> {
    graph_lines(keys, vals, " -> "@)
}

/// Renders the links as a D2 diagram.
pub fn generate_d2(links: DepMap) -> (out: String)
    requires
        dep_map_sorted(&links),
    ensures
        out@ == d2_text(links.keys_view(), links.vals_view()),
{
    render_links(&links, " -> ")
}


/// The text lists every link of the map exactly once and nothing else:
/// one line `a -> b` per link, by increasing source, then target.
pub proof fn lemma_d2_lists_every_link(links: &DepMap)
    requires
        dep_map_sorted(links),
    ensures
        exists|ps: Seq<(Seq<char>, Seq<char>)>|
            {
                &&& ps.to_set() == dep_pairs(links)
                &&& ps.no_duplicates()
                &&& forall|p: int, q: int| 0 <= p < q < ps.len() ==> link_lt(#[trigger] ps[p], #[trigger] ps[q])
                &&& d2_text(links.keys_view(), links.vals_view()) == #[trigger] pair_lines(ps, " -> "@)
            },
{
    lemma_rendering_lists_every_link(links, " -> "@);
}

} // verus!
