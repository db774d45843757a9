# deptool

Draws the dependency graph of a crate or module of an ArceOS tree, in
Mermaid or D2 notation, taking Cargo features into account.

The library under `src/` is verified with Verus:

- `config` turns the command line into a configuration;
- `utils` locates the crates, modules and user library of the tree;
- `parse_from_toml` builds the feature graph from the manifests of the
  crates reached from the root and turns on the requested features,
  breadth first, to collect the links between crates;
- `parse_from_cargo_tree` reads the same links from `cargo tree` output;
- `mermaid_generator` and `d2_generator` render the links;
- `sorted`, `links` and `text` hold the ordered sets and maps, link maps and
  string helpers the rest is built on.

`app/` is the command-line program: it reads the arguments, lists the
tree's directories, loads the manifests with `cargo_toml` in the order the
walk over the tree asks for them, and prints the result.
