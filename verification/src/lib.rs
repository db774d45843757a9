use vstd::prelude::*;

pub mod config;
pub mod d2_generator;
pub mod links;
pub mod mermaid_generator;
pub mod parse_from_cargo_tree;
pub mod parse_from_toml;
pub mod sorted;
pub mod text;
pub mod utils;

use crate::config::{Config, GeneratorType, ParserType};
use crate::d2_generator::{d2_text, generate_d2};
use crate::links::{dep_map_sorted, dep_map_wf, dep_pairs, DepMap};
use crate::mermaid_generator::{generate_mermaid, mermaid_text};
use crate::parse_from_toml::{
    activated_links, activation, crate_fails, graph_dump, is_first_error, is_tree_error,
    is_tree_graph, parse_deps_from_toml, reachable, seed_seq, stop_error, tree_walk,
    workspace_wf, Graph, NodeView, TomlError, Walk, Workspace,
};
use crate::sorted::SortedSet;
use crate::text::str_eq;
use crate::utils::{arceos_crate_path, find_arceos_crate, CrateIndex, Roots};
use vstd::string::StringExecFns;

verus! {

/// Why no graph was produced.
pub enum DeptoolError {
    /// The request was refused with this message.
    Message(String),
    /// The manifests of the tree could not be made into a graph.
    Toml(TomlError),
}

/// What a run produces: the listing of the feature graph that was built,
/// and the dependency graph in the chosen notation.
pub struct Generated {
    pub log: String,
    pub graph: String,
}

/// The text of `links` in the notation `generator` stands for.
pub open spec fn generated_text(generator: GeneratorType, links: &DepMap) -> Seq<char> {
    match generator {
        GeneratorType::GenerateMermaid => mermaid_text(links.keys_view(), links.vals_view()),
        GeneratorType::GenerateD2 => d2_text(links.keys_view(), links.vals_view()),
    }
}

/// The links between crates and the listing of the graph, read with the
/// parser that the configuration chose.
fn parse_deps(config: &Config, ws: &Workspace, roots: &Roots, index: &CrateIndex) -> (r: Result<(DepMap, String), DeptoolError>)
    requires
        workspace_wf(ws),
        config.features.wf(),
    ensures
        match config.parser {
            ParserType::ParseFromCargoTree => r matches Err(DeptoolError::Message(m)) && m@
                == "Parse from cargo tree not implemented yet"@,
            ParserType::ParseFromToml => toml_outcome(config, ws, index, r),
        },
{
    match config.parser {
        ParserType::ParseFromToml => {
            match parse_deps_from_toml(
                config.crate_name.clone(),
                ws,
                roots,
                index,
                &config.features,
                !config.no_default,
            ) {
                Ok(res) => Ok(res),
                Err(e) => Err(DeptoolError::Toml(e)),
            }
        },
        ParserType::ParseFromCargoTree => Err(
            DeptoolError::Message(String::from_str("Parse from cargo tree not implemented yet")),
        ),
    }
}

/// What reading the manifests gives: on success the links of the features
/// turned on in the graph of the reached crates, and its listing; on
/// failure the error of the reached crate where the depth-first walk over
/// the tree stops.
pub open spec fn toml_outcome(
    config: &Config,
    ws: &Workspace,
    index: &CrateIndex,
    r: Result<(DepMap, String), DeptoolError>,
) -> bool {
    let name = config.crate_name@;
    match r {
        Ok((links, dump)) => {
            &&& forall|x: Seq<char>| #[trigger] reachable(ws, index, name, x) ==> !crate_fails(ws, index, x)
            &&& tree_walk(ws, index, name) is Done
            &&& dep_map_wf(&links)
            &&& exists|g: Graph|
                {
                    &&& #[trigger] is_tree_graph(ws, index, name, &g)
                    &&& dep_pairs(&links) == activated_links(
                        &g,
                        NodeView::Component(name),
                        activation(
                            &g,
                            NodeView::Component(name),
                            seed_seq(name, config.features@, !config.no_default).to_set(),
                        ),
                    )
                    &&& dump@ == graph_dump(g.content.keys_view(), g.content.vals_view())
                }
        },
        Err(DeptoolError::Toml(e)) => {
            &&& exists|x: Seq<char>| #[trigger] reachable(ws, index, name, x) && crate_fails(ws, index, x)
            &&& is_tree_error(ws, index, name, e)
            &&& tree_walk(ws, index, name) matches Walk::Stop(y) && stop_error(ws, index, y, e)
        },
        Err(DeptoolError::Message(_)) => false,
    }
}

/// Renders the links in the notation that the configuration chose.
fn generate_graph(config: &Config, links: DepMap) -> (r: Result<String, DeptoolError>)
    requires
        dep_map_sorted(&links),
    ensures
        r matches Ok(s) && s@ == generated_text(config.generator, &links),
{
    match config.generator {
        GeneratorType::GenerateMermaid => Ok(generate_mermaid(links)),
        GeneratorType::GenerateD2 => Ok(generate_d2(links)),
    }
}

/// `out` holds the listing and the rendering that `links`, the outcome of
/// the manifest parser, give.
pub open spec fn rendered_from(config: &Config, ws: &Workspace, index: &CrateIndex, links: DepMap, out: Generated) -> bool {
    &&& toml_outcome(config, ws, index, Ok((links, out.log)))
    &&& out.graph@ == generated_text(config.generator, &links)
}

/// What a run gives: with the manifest parser, the listing of the graph and
/// the rendered links of `toml_outcome`, or its error; with the `cargo tree`
/// parser, the refusal.
pub open spec fn run_outcome(
    config: &Config,
    ws: &Workspace,
    index: &CrateIndex,
    r: Result<Generated, DeptoolError>,
) -> bool {
    &&& r is Ok ==> config.parser == ParserType::ParseFromToml && exists|links: DepMap|
        #[trigger] rendered_from(config, ws, index, links, r->Ok_0)
    &&& r matches Err(DeptoolError::Message(m)) ==> config.parser == ParserType::ParseFromCargoTree
        && m@ == "Parse from cargo tree not implemented yet"@
    &&& r matches Err(DeptoolError::Toml(e)) ==> config.parser == ParserType::ParseFromToml
        && toml_outcome(config, ws, index, Err(DeptoolError::Toml(e)))
}

/// Reads the dependencies as the configuration asks and renders them.
/// `ws` holds the manifests loaded for the manifest parser, `roots` and
/// `index` describe the tree.
pub fn parse_and_generate(config: &Config, ws: &Workspace, roots: &Roots, index: &CrateIndex) -> (r: Result<Generated, DeptoolError>)
    requires
        workspace_wf(ws),
        config.features.wf(),
    ensures
        run_outcome(config, ws, index, r),
{
    let parsed = parse_deps(config, ws, roots, index);
    match parsed {
        Ok((links, log)) => {
            let ghost l = links;
            let graph = match generate_graph(config, links) {
                Ok(g) => g,
                Err(e) => return Err(e),
            };
            let out = Generated { log, graph };
            let r = Ok(out);
            proof {
                assert(rendered_from(config, ws, index, l, r->Ok_0));
            }
            r
        },
        Err(e) => Err(e),
    }
}

/// The rendering of a dependency map depends only on its links.
pub proof fn lemma_rendering_depends_on_links(generator: GeneratorType, a: &DepMap, b: &DepMap)
    requires
        dep_map_wf(a),
        dep_map_wf(b),
        dep_pairs(a) == dep_pairs(b),
    ensures
        generated_text(generator, a) == generated_text(generator, b),
{
    crate::links::lemma_link_map_canonical::<String>(a, b);
}

/// A run is determined by its inputs: any two outcomes that the contract of
/// `parse_and_generate` allows for the same configuration and manifests
/// have the same listing and the same rendering.
pub proof fn lemma_run_output_unique(
    config: &Config,
    ws: &Workspace,
    index: &CrateIndex,
    l1: DepMap,
    out1: Generated,
    l2: DepMap,
    out2: Generated,
)
    requires
        rendered_from(config, ws, index, l1, out1),
        rendered_from(config, ws, index, l2, out2),
    ensures
        out1.log@ == out2.log@,
        out1.graph@ == out2.graph@,
{
    let name = config.crate_name@;
    let g1 = choose|g: Graph|
        {
            &&& #[trigger] is_tree_graph(ws, index, name, &g)
            &&& dep_pairs(&l1) == activated_links(
                &g,
                NodeView::Component(name),
                activation(&g, NodeView::Component(name), seed_seq(name, config.features@, !config.no_default).to_set()),
            )
            &&& out1.log@ == graph_dump(g.content.keys_view(), g.content.vals_view())
        };
    let g2 = choose|g: Graph|
        {
            &&& #[trigger] is_tree_graph(ws, index, name, &g)
            &&& dep_pairs(&l2) == activated_links(
                &g,
                NodeView::Component(name),
                activation(&g, NodeView::Component(name), seed_seq(name, config.features@, !config.no_default).to_set()),
            )
            &&& out2.log@ == graph_dump(g.content.keys_view(), g.content.vals_view())
        };
    crate::parse_from_toml::lemma_activation_depends_on_links(
        &g1,
        &g2,
        NodeView::Component(name),
        seed_seq(name, config.features@, !config.no_default).to_set(),
    );
    crate::links::lemma_link_map_canonical::<crate::parse_from_toml::Node>(&g1.content, &g2.content);
    lemma_rendering_depends_on_links(config.generator, &l1, &l2);
}

/// The two errors hold the same text in each field.
pub open spec fn same_error(a: TomlError, b: TomlError) -> bool {
    match (a, b) {
        (
            TomlError::UnknownDependency { dependency: d1, feature: f1, krate: k1 },
            TomlError::UnknownDependency { dependency: d2, feature: f2, krate: k2 },
        ) => d1@ == d2@ && f1@ == f2@ && k1@ == k2@,
        (TomlError::MissingManifest(n1), TomlError::MissingManifest(n2)) => n1@ == n2@,
        _ => false,
    }
}

/// A manifest has at most one first error.
proof fn lemma_first_error_unique(
    x: Seq<char>,
    mv: crate::parse_from_toml::ManifestView,
    index: &CrateIndex,
    a: TomlError,
    b: TomlError,
)
    requires
        is_first_error(x, mv, index, a),
        is_first_error(x, mv, index, b),
    ensures
        same_error(a, b),
{
    match (a, b) {
        (
            TomlError::UnknownDependency { dependency: d1, feature: f1, krate: k1 },
            TomlError::UnknownDependency { dependency: d2, feature: f2, krate: k2 },
        ) => {
            let (i1, j1) = choose|i: int, j: int|
                {
                    &&& crate::parse_from_toml::value_pos(mv, i, j)
                    &&& #[trigger] crate::parse_from_toml::value_error(mv, index, i, j) == Some(d1@)
                    &&& f1@ == mv.feature_names[i]
                    &&& k1@ == x
                    &&& crate::parse_from_toml::no_error_before(mv, index, i, j)
                };
            let (i2, j2) = choose|i: int, j: int|
                {
                    &&& crate::parse_from_toml::value_pos(mv, i, j)
                    &&& #[trigger] crate::parse_from_toml::value_error(mv, index, i, j) == Some(d2@)
                    &&& f2@ == mv.feature_names[i]
                    &&& k2@ == x
                    &&& crate::parse_from_toml::no_error_before(mv, index, i, j)
                };
            if crate::parse_from_toml::pos_before(i1, j1, i2, j2) {
                assert(crate::parse_from_toml::value_error(mv, index, i1, j1) is None);
            } else if crate::parse_from_toml::pos_before(i2, j2, i1, j1) {
                assert(crate::parse_from_toml::value_error(mv, index, i2, j2) is None);
            }
        },
        _ => {},
    }
}

/// A refused run is determined by its inputs: any two errors that the
/// contract of `parse_and_generate` allows for the same configuration and
/// manifests are the same error.
pub proof fn lemma_run_error_unique(config: &Config, ws: &Workspace, index: &CrateIndex, a: TomlError, b: TomlError)
    requires
        toml_outcome(config, ws, index, Err(DeptoolError::Toml(a))),
        toml_outcome(config, ws, index, Err(DeptoolError::Toml(b))),
    ensures
        same_error(a, b),
{
    let name = config.crate_name@;
    let y = tree_walk(ws, index, name)->Stop_0;
    if ws.to_map().dom().contains(y) {
        lemma_first_error_unique(y, ws.to_map()[y], index, a, b);
    }
}

/// The crate whose manifest the walk over the tree of crate `name` needs
/// next and `ws` lacks, with the directory to read it from: `name` itself
/// in `root_dir`, or a crate of the tree in its directory. `None` when the
/// walk does not stop at a missing manifest. Loading the manifests one by
/// one in this order reads them in the order of the walk, and stops at the
/// first crate whose manifest has an error.
pub fn next_manifest_to_load(
    name: &String,
    root_dir: &String,
    ws: &Workspace,
    roots: &Roots,
    index: &CrateIndex,
) -> (r: Option<(String, String)>)
    requires
        workspace_wf(ws),
    ensures
        match r {
            Some((d, dir)) => {
                &&& tree_walk(ws, index, name@) == Walk::Stop(d@)
                &&& !ws.to_map().dom().contains(d@)
                &&& if d@ == name@ {
                    dir@ == root_dir@
                } else {
                    arceos_crate_path(roots, index, d@) == Some(dir@)
                }
            },
            None => !(tree_walk(ws, index, name@) matches Walk::Stop(y) && !ws.to_map().dom().contains(y)),
        },
{
    let features: SortedSet<String> = SortedSet::new();
    match parse_deps_from_toml(name.clone(), ws, roots, index, &features, true) {
        Ok(_) => None,
        Err(TomlError::MissingManifest(d)) => {
            if str_eq(d.as_str(), name.as_str()) {
                Some((d, root_dir.clone()))
            } else {
                proof {
                    crate::parse_from_toml::lemma_reached_in_tree(ws, index, name@, d@);
                }
                match find_arceos_crate(roots, index, &d) {
                    Some(dir) => Some((d, dir)),
                    None => None,
                }
            }
        },
        Err(TomlError::UnknownDependency { .. }) => None,
    }
}

/// Once the walk over the tree finds every manifest it needs, a run with
/// the manifest parser is refused only for an unknown dependency, never for
/// a missing manifest.
pub proof fn lemma_loading_complete(config: &Config, ws: &Workspace, index: &CrateIndex, e: TomlError)
    requires
        !(tree_walk(ws, index, config.crate_name@) matches Walk::Stop(y) && !ws.to_map().dom().contains(y)),
        toml_outcome(config, ws, index, Err(DeptoolError::Toml(e))),
    ensures
        e is UnknownDependency,
{
}

} // verus!
