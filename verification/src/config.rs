use vstd::prelude::*;

use crate::sorted::SortedSet;
use crate::text::{split_on, split_str};
use crate::utils::{arceos_crate_path, find_arceos_crate, joined_path, join_path, CrateIndex, Roots};
use vstd::string::StringExecFns;

verus! {

/// Where the dependency information is read from.
#[derive(Debug, Clone, Copy, PartialEq, Eq, Structural)]
pub enum ParserType {
    ParseFromToml,
    ParseFromCargoTree,
}

/// The notation of the generated graph.
#[derive(Debug, Clone, Copy, PartialEq, Eq, Structural)]
pub enum GeneratorType {
    GenerateMermaid,
    GenerateD2,
}

/// What to analyse and how to render it.
pub struct Config {
    pub crate_name: String,
    pub path: String,
    pub features: SortedSet<String>,
    pub no_default: bool,
    pub parser: ParserType,
    pub generator: GeneratorType,
}

/// The command line as given: the crate or module name, then the options
/// `--path`, `--features`, `--no-default-features`, `--root`, `--from-toml`,
/// `--from-cargo-tree`, `--output-mermaid` and `--output-d2`.
pub struct CommandLine {
    pub crate_name: String,
    pub path: Option<String>,
    pub features: Option<String>,
    pub no_default: bool,
    pub root: Option<String>,
    pub from_toml: bool,
    pub from_cargo_tree: bool,
    pub output_mermaid: bool,
    pub output_d2: bool,
}

/// The manifest file of the crate in directory `dir`.
pub open spec fn manifest_file(dir: Seq<char>) -> Seq<char> {
    joined_path(dir, "Cargo.toml"@)
}

/// The path of the manifest file of the crate in directory `dir`.
pub fn manifest_path(dir: &String) -> (p: String)
    ensures
        p@ == manifest_file(dir@),
{
    join_path(dir.as_str(), "Cargo.toml")
}

/// The error for a given path without a manifest.
pub open spec fn missing_path_error(path: Seq<char>) -> Seq<char> {
    "Given path "@ + path + " does not exist"@
}

/// The error for a name outside the tree.
pub open spec fn unknown_crate_error(name: Seq<char>) -> Seq<char> {
    name + " is not an arceos crate or module"@
}

/// The parser chosen by the flags, or `None` when both were given.
pub open spec fn chosen_parser(args: &CommandLine) -> Option<ParserType> {
    if args.from_toml && args.from_cargo_tree {
        None
    } else if args.from_cargo_tree {
        Some(ParserType::ParseFromCargoTree)
    } else {
        Some(ParserType::ParseFromToml)
    }
}

/// The generator chosen by the flags, or `None` when both were given.
pub open spec fn chosen_generator(args: &CommandLine) -> Option<GeneratorType> {
    if args.output_mermaid && args.output_d2 {
        None
    } else if args.output_d2 {
        Some(GeneratorType::GenerateD2)
    } else {
        Some(GeneratorType::GenerateMermaid)
    }
}

/// The requested features: the pieces of the comma-separated list, if one was given.
pub open spec fn requested_features(args: &CommandLine) -> Set<Seq<char>> {
    match args.features {
        Some(f) => split_on(f@, ',').to_set(),
        None => Set::empty(),
    }
}

/// The directory that the configuration analyses, if it can be found.
pub open spec fn chosen_path(
    args: &CommandLine,
    roots: &Roots,
    index: &CrateIndex,
    given_path_has_manifest: bool,
) -> Option<Seq<char>> {
    match args.path {
        Some(p) => if given_path_has_manifest {
            Some(p@)
        } else {
            None
        },
        None => arceos_crate_path(roots, index, args.crate_name@),
    }
}

/// The error that the command line is refused with, if any: first a missing
/// directory, then two parsers, then two generators.
pub open spec fn config_error(
    args: &CommandLine,
    roots: &Roots,
    index: &CrateIndex,
    given_path_has_manifest: bool,
) -> Option<Seq<char>> {
    if chosen_path(args, roots, index, given_path_has_manifest) is None {
        match args.path {
            Some(p) => Some(missing_path_error(p@)),
            None => Some(unknown_crate_error(args.crate_name@)),
        }
    } else if chosen_parser(args) is None {
        Some("multiple parsers given"@)
    } else if chosen_generator(args) is None {
        Some("multiple generators given"@)
    } else {
        None
    }
}

/// A given `--path` decides the directory analysed, whatever the name: a
/// path without a manifest is refused with the text that names it, and a
/// path with one is the directory analysed.
pub proof fn lemma_given_path_decides(args: &CommandLine, roots: &Roots, index: &CrateIndex, given_path_has_manifest: bool)
    ensures
        args.path is Some && !given_path_has_manifest ==> config_error(args, roots, index, given_path_has_manifest)
            == Some("Given path "@ + args.path->Some_0@ + " does not exist"@),
        args.path is Some && given_path_has_manifest ==> chosen_path(args, roots, index, given_path_has_manifest)
            == Some(args.path->Some_0@),
{
}

/// Without `--path`, the directory analysed is that of the tree's crate of
/// the given name, as `find_arceos_crate` finds it, and a name outside the
/// tree is refused with the text that names it.
pub proof fn lemma_tree_path_without_given_path(args: &CommandLine, roots: &Roots, index: &CrateIndex, given_path_has_manifest: bool)
    requires
        args.path is None,
    ensures
        chosen_path(args, roots, index, given_path_has_manifest) == arceos_crate_path(roots, index, args.crate_name@),
        !crate::utils::is_arceos_crate(index, args.crate_name@) ==> config_error(args, roots, index, given_path_has_manifest)
            == Some(args.crate_name@ + " is not an arceos crate or module"@),
{
}

/// Turns the command line into a configuration. `roots` and `index` are the
/// tree after `--root` took effect; `given_path_has_manifest` tells whether
/// the manifest file of the `--path` directory exists.
///
/// A given path must hold a manifest; without one the name must belong to
/// the tree, whose directory is then analysed. Next at most one parser and
/// at most one generator may be chosen; the defaults are the manifest
/// parser and Mermaid output.
pub fn config_from_args(
    args: &CommandLine,
    roots: &Roots,
    index: &CrateIndex,
    given_path_has_manifest: bool,
) -> (r: Result<Config, String>)
    ensures
        match r {
            Err(e) => config_error(args, roots, index, given_path_has_manifest) == Some(e@),
            Ok(c) => {
                &&& config_error(args, roots, index, given_path_has_manifest) is None
                &&& c.crate_name@ == args.crate_name@
                &&& chosen_path(args, roots, index, given_path_has_manifest) == Some(c.path@)
                &&& c.features.wf()
                &&& c.features.to_set() == requested_features(args)
                &&& c.no_default == args.no_default
                &&& chosen_parser(args) == Some(c.parser)
                &&& chosen_generator(args) == Some(c.generator)
            },
        },
        args.path is Some && !given_path_has_manifest ==> (r matches Err(e) && e@ == "Given path "@
            + args.path->Some_0@ + " does not exist"@),
        r is Ok && args.path is Some ==> r->Ok_0.path@ == args.path->Some_0@,
{
    proof {
        lemma_given_path_decides(args, roots, index, given_path_has_manifest);
    }
    let path = match &args.path {
        Some(p) => {
            if !given_path_has_manifest {
                let mut e = String::from_str("Given path ");
                e.append(p.as_str());
                e.append(" does not exist");
                return Err(e);
            }
            p.clone()
        },
        None => match find_arceos_crate(roots, index, &args.crate_name) {
            Some(found) => found,
            None => {
                let e = args.crate_name.clone().concat(" is not an arceos crate or module");
                return Err(e);
            },
        },
    };
    let parser = if args.from_toml && args.from_cargo_tree {
        return Err(String::from_str("multiple parsers given"));
    } else if args.from_cargo_tree {
        ParserType::ParseFromCargoTree
    } else {
        ParserType::ParseFromToml
    };
    let generator = if args.output_mermaid && args.output_d2 {
        return Err(String::from_str("multiple generators given"));
    } else if args.output_d2 {
        GeneratorType::GenerateD2
    } else {
        GeneratorType::GenerateMermaid
    };
    let mut features: SortedSet<String> = SortedSet::new();
    assert(features@.to_set() =~= Set::<Seq<char>>::empty());
    if let Some(f) = &args.features {
        let pieces = split_str(f.as_str(), ',');
        let ghost pv = pieces@.map_values(|p: String| p@);
        let mut i: usize = 0;
        while i < pieces.len()
            invariant
                i <= pieces.len(),
                pv == pieces@.map_values(|p: String| p@),
                features.wf(),
                features.to_set() == pv.take(i as int).to_set(),
            decreases pieces.len() - i,
        {
            let ghost before = features.to_set();
            features.insert(pieces[i].clone());
            assert(pv.take(i + 1) =~= pv.take(i as int) + seq![pv[i as int]]);
            assert(pv.take(i + 1).to_set() =~= pv.take(i as int).to_set().insert(pv[i as int])) by {
                Seq::lemma_to_set_insert_commutes(pv.take(i as int), pv[i as int]);
            }
            i = i + 1;
        }
        assert(pv.take(pieces.len() as int) =~= pv);
    }
    Ok(
        Config {
            crate_name: args.crate_name.clone(),
            path,
            features,
            no_default: args.no_default,
            parser,
            generator,
        },
    )
}

} // verus!
