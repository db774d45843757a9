use vstd::prelude::*;

use crate::links::{
    dep_map_sorted, dep_pairs, graph_lines, lemma_rendering_lists_every_link, link_lt, pair_lines, render_links,
    DepMap,
};
use vstd::string::StringExecFns;

verus! {

/// The Mermaid text of a dependency map: the header `graph TD;` on a line
/// of its own, then one line `component-->dependency` per link, components
/// in increasing order and each component's dependencies in increasing order.
pub open spec fn mermaid_text(keys: Seq<Seq<char>>, vals: Seq<Seq<Seq<char>>>) -> Seq<char> {
    "graph TD;\n"@ + graph_lines(keys, vals, "-->"@)
}

/// Renders the links as a Mermaid flowchart.
pub fn generate_mermaid(links: DepMap) -> (out: String)
    requires
        dep_map_sorted(&links),
    ensures
        out@ == mermaid_text(links.keys_view(), links.vals_view()),
{
    let body = render_links(&links, "-->");
    let mut out = String::from_str("graph TD;\n");
    out.append(body.as_str());
    out
}


/// The text lists every link of the map exactly once and nothing else:
/// the header, then one line `a-->b` per link, by increasing source, then target.
pub proof fn lemma_mermaid_lists_every_link(links: &DepMap)
    requires
        dep_map_sorted(links),
    ensures
        exists|ps: Seq<(Seq<char>, Seq<char>)>|
            {
                &&& ps.to_set() == dep_pairs(links)
                &&& ps.no_duplicates()
                &&& forall|p: int, q: int| 0 <= p < q < ps.len() ==> link_lt(#[trigger] ps[p], #[trigger] ps[q])
                &&& mermaid_text(links.keys_view(), links.vals_view()) == "graph TD;\n"@ + #[trigger] pair_lines(ps, "-->"@)
            },
{
    lemma_rendering_lists_every_link(links, "-->"@);
}

} // verus!
