use vstd::prelude::*;

use crate::links::{add_link, link_map_wf, link_pairs, new_link_map, LinkMap};
use crate::sorted::{SortedKey, SortedMap, SortedSet};
use crate::utils::{find_arceos_crate, is_arceos_crate, CrateIndex, Roots};
use crate::text::{chars_of, push_char,
    compare_strings, lemma_seq_lt_irreflexive, lemma_seq_lt_total, lemma_seq_lt_transitive, seq_lt,
    Order,
};
use vstd::string::StringExecFns;

verus! {

/// A node of the feature graph: a crate, a feature of a crate, or the
/// condition that a feature of one crate is on and another crate is used.
pub enum Node {
    Component(String),
    Feature(String, String),
    Condition((String, String), String),
}

/// What a node stands for.
pub enum NodeView {
    Component(Seq<char>),
    Feature(Seq<char>, Seq<char>),
    Condition(Seq<char>, Seq<char>, Seq<char>),
}

impl View for Node {
    type V = NodeView;

    open spec fn view(&self) -> NodeView {
        match self {
            Node::Component(c) => NodeView::Component(c@),
            Node::Feature(c, f) => NodeView::Feature(c@, f@),
            Node::Condition((c, f), d) => NodeView::Condition(c@, f@, d@),
        }
    }
}

/// The rank of a node's kind in the order of nodes.
pub open spec fn node_rank(n: NodeView) -> int {
    match n {
        NodeView::Component(_) => 0,
        NodeView::Feature(_, _) => 1,
        NodeView::Condition(_, _, _) => 2,
    }
}

/// Lexicographic order on pairs of strings.
pub open spec fn pair_lt(a1: Seq<char>, b1: Seq<char>, a2: Seq<char>, b2: Seq<char>) -> bool {
    seq_lt(a1, a2) || (a1 == a2 && seq_lt(b1, b2))
}

/// Lexicographic order on triples of strings.
pub open spec fn triple_lt(
    a1: Seq<char>,
    b1: Seq<char>,
    c1: Seq<char>,
    a2: Seq<char>,
    b2: Seq<char>,
    c2: Seq<char>,
) -> bool {
    pair_lt(a1, b1, a2, b2) || (a1 == a2 && b1 == b2 && seq_lt(c1, c2))
}

/// The order of nodes that `derive(Ord)` gives: by kind (crate, feature,
/// condition), then by the strings in order.
pub open spec fn node_lt(x: NodeView, y: NodeView) -> bool {
    if node_rank(x) != node_rank(y) {
        node_rank(x) < node_rank(y)
    } else {
        match (x, y) {
            (NodeView::Component(a), NodeView::Component(b)) => seq_lt(a, b),
            (NodeView::Feature(a1, b1), NodeView::Feature(a2, b2)) => pair_lt(a1, b1, a2, b2),
            (NodeView::Condition(a1, b1, c1), NodeView::Condition(a2, b2, c2)) => triple_lt(
                a1,
                b1,
                c1,
                a2,
                b2,
                c2,
            ),
            _ => false,
        }
    }
}

proof fn lemma_pair_lt_transitive(
    a1: Seq<char>,
    b1: Seq<char>,
    a2: Seq<char>,
    b2: Seq<char>,
    a3: Seq<char>,
    b3: Seq<char>,
)
    requires
        pair_lt(a1, b1, a2, b2),
        pair_lt(a2, b2, a3, b3),
    ensures
        pair_lt(a1, b1, a3, b3),
{
    if seq_lt(a1, a2) && seq_lt(a2, a3) {
        lemma_seq_lt_transitive(a1, a2, a3);
    } else if a1 == a2 && a2 == a3 {
        lemma_seq_lt_transitive(b1, b2, b3);
    }
}

proof fn lemma_pair_lt_irreflexive(a: Seq<char>, b: Seq<char>)
    ensures
        !pair_lt(a, b, a, b),
{
    lemma_seq_lt_irreflexive(a);
    lemma_seq_lt_irreflexive(b);
}

proof fn lemma_pair_lt_total(a1: Seq<char>, b1: Seq<char>, a2: Seq<char>, b2: Seq<char>)
    ensures
        (a1 == a2 && b1 == b2) || pair_lt(a1, b1, a2, b2) || pair_lt(a2, b2, a1, b1),
{
    lemma_seq_lt_total(a1, a2);
    lemma_seq_lt_total(b1, b2);
}

impl SortedKey for Node {
    open spec fn key_lt(a: NodeView, b: NodeView) -> bool {
        node_lt(a, b)
    }

    proof fn lemma_key_lt_irreflexive(a: NodeView) {
        match a {
            NodeView::Component(x) => lemma_seq_lt_irreflexive(x),
            NodeView::Feature(x, y) => lemma_pair_lt_irreflexive(x, y),
            NodeView::Condition(x, y, z) => {
                lemma_pair_lt_irreflexive(x, y);
                lemma_seq_lt_irreflexive(z);
            },
        }
    }

    proof fn lemma_key_lt_transitive(a: NodeView, b: NodeView, c: NodeView) {
        if node_rank(a) == node_rank(b) && node_rank(b) == node_rank(c) {
            match (a, b, c) {
                (NodeView::Component(x), NodeView::Component(y), NodeView::Component(z)) => {
                    lemma_seq_lt_transitive(x, y, z);
                },
                (
                    NodeView::Feature(x1, y1),
                    NodeView::Feature(x2, y2),
                    NodeView::Feature(x3, y3),
                ) => {
                    lemma_pair_lt_transitive(x1, y1, x2, y2, x3, y3);
                },
                (
                    NodeView::Condition(x1, y1, z1),
                    NodeView::Condition(x2, y2, z2),
                    NodeView::Condition(x3, y3, z3),
                ) => {
                    if pair_lt(x1, y1, x2, y2) && pair_lt(x2, y2, x3, y3) {
                        lemma_pair_lt_transitive(x1, y1, x2, y2, x3, y3);
                    } else if x1 == x2 && y1 == y2 && x2 == x3 && y2 == y3 {
                        lemma_seq_lt_transitive(z1, z2, z3);
                    }
                },
                _ => {},
            }
        }
    }

    proof fn lemma_key_lt_total(a: NodeView, b: NodeView) {
        match (a, b) {
            (NodeView::Component(x), NodeView::Component(y)) => lemma_seq_lt_total(x, y),
            (NodeView::Feature(x1, y1), NodeView::Feature(x2, y2)) => lemma_pair_lt_total(
                x1,
                y1,
                x2,
                y2,
            ),
            (NodeView::Condition(x1, y1, z1), NodeView::Condition(x2, y2, z2)) => {
                lemma_pair_lt_total(x1, y1, x2, y2);
                lemma_seq_lt_total(z1, z2);
            },
            _ => {},
        }
    }

    fn compare_key(&self, other: &Self) -> (o: Order) {
        match (self, other) {
            (Node::Component(a), Node::Component(b)) => compare_strings(a, b),
            (Node::Feature(a1, b1), Node::Feature(a2, b2)) => compare_pairs(a1, b1, a2, b2),
            (Node::Condition((a1, b1), c1), Node::Condition((a2, b2), c2)) => {
                match compare_pairs(a1, b1, a2, b2) {
                    Order::Equal => compare_strings(c1, c2),
                    o => {
                        proof {
                            lemma_pair_lt_irreflexive(a1@, b1@);
                        }
                        o
                    },
                }
            },
            (Node::Component(_), _) => Order::Less,
            (_, Node::Component(_)) => Order::Greater,
            (Node::Feature(_, _), _) => Order::Less,
            (_, Node::Feature(_, _)) => Order::Greater,
        }
    }

    fn clone_key(&self) -> (r: Self) {
        match self {
            Node::Component(c) => Node::Component(c.clone()),
            Node::Feature(c, f) => Node::Feature(c.clone(), f.clone()),
            Node::Condition((c, f), d) => Node::Condition((c.clone(), f.clone()), d.clone()),
        }
    }
}

/// Compares two pairs of strings lexicographically.
fn compare_pairs(a1: &String, b1: &String, a2: &String, b2: &String) -> (o: Order)
    ensures
        match o {
            Order::Less => pair_lt(a1@, b1@, a2@, b2@),
            Order::Equal => a1@ == a2@ && b1@ == b2@,
            Order::Greater => pair_lt(a2@, b2@, a1@, b1@),
        },
{
    match compare_strings(a1, a2) {
        Order::Equal => compare_strings(b1, b2),
        o => o,
    }
}

/// The crate that a node belongs to.
pub open spec fn node_component(n: NodeView) -> Seq<char> {
    match n {
        NodeView::Component(c) => c,
        NodeView::Feature(c, _) => c,
        NodeView::Condition(c, _, _) => c,
    }
}

/// The text of a node: `Component(c)`, `Feature(c/f)`, or
/// `Feature(c/f) + Component(d)` for a condition.
pub open spec fn node_text(n: NodeView) -> Seq<char> {
    match n {
        NodeView::Component(c) => "Component("@ + c + ")"@,
        NodeView::Feature(c, f) => "Feature("@ + c + "/"@ + f + ")"@,
        NodeView::Condition(c, f, d) => "Feature("@ + c + "/"@ + f + ") + Component("@ + d + ")"@,
    }
}

impl Node {
    /// The crate that the node belongs to.
    pub fn get_component(&self) -> (c: String)
        ensures
            c@ == node_component(self@),
    {
        match self {
            Node::Component(v) => v.clone(),
            Node::Feature(v, _) => v.clone(),
            Node::Condition((v, _), _) => v.clone(),
        }
    }

    /// The text of the node.
    pub fn fmt(&self) -> (t: String)
        ensures
            t@ == node_text(self@),
    {
        match self {
            Node::Component(c) => {
                let mut t = String::from_str("Component(");
                t.append(c.as_str());
                t.append(")");
                t
            },
            Node::Feature(c, f) => {
                let mut t = String::from_str("Feature(");
                t.append(c.as_str());
                t.append("/");
                t.append(f.as_str());
                t.append(")");
                t
            },
            Node::Condition((c, f), d) => {
                let mut t = String::from_str("Feature(");
                t.append(c.as_str());
                t.append("/");
                t.append(f.as_str());
                t.append(") + Component(");
                t.append(d.as_str());
                t.append(")");
                t
            },
        }
    }
}


/// The feature graph: links between nodes, and for each condition node the
/// number of its sources that must be reached before it is.
pub struct Graph {
    pub content: LinkMap<Node>,
    pub conditions: SortedMap<Node, usize>,
}

impl Graph {
    /// Both maps are well formed.
    pub open spec fn wf(&self) -> bool {
        link_map_wf(&self.content) && self.conditions.wf()
    }

    /// The links of the graph.
    pub open spec fn edges(&self) -> Set<(NodeView, NodeView)> {
        link_pairs(&self.content)
    }

    /// The count of each condition node.
    pub open spec fn counts(&self) -> Map<NodeView, usize> {
        self.conditions.to_map()
    }

    /// Every condition node with a count waits for two arrivals and is
    /// linked from its feature and from its crate, and every condition node
    /// that the graph links to has a count.
    pub open spec fn conditions_consistent(&self) -> bool {
        &&& forall|c: NodeView| #[trigger] self.counts().dom().contains(c) ==> {
            &&& self.counts()[c] == 2
            &&& c matches NodeView::Condition(x, f, d)
            &&& self.edges().contains((NodeView::Feature(x, f), c))
            &&& self.edges().contains((NodeView::Component(d), c))
        }
        &&& forall|u: NodeView, c: NodeView| #[trigger] self.edges().contains((u, c)) && c is Condition
            ==> self.counts().dom().contains(c)
    }

    /// An empty graph.
    pub fn new() -> (g: Graph)
        ensures
            g.wf(),
            g.edges() == Set::<(NodeView, NodeView)>::empty(),
            g.counts() == Map::<NodeView, usize>::empty(),
            g.conditions_consistent(),
    {
        Graph { content: new_link_map(), conditions: SortedMap::new() }
    }

    /// Links `lhs` to `rhs`.
    pub fn make_link(&mut self, lhs: Node, rhs: Node)
        requires
            old(self).wf(),
        ensures
            final(self).wf(),
            final(self).edges() == old(self).edges().insert((lhs@, rhs@)),
            final(self).counts() == old(self).counts(),
            old(self).conditions_consistent() && !(rhs@ is Condition) ==> final(self).conditions_consistent(),
    {
        let ghost l = lhs@;
        let ghost r = rhs@;
        add_link(&mut self.content, lhs, rhs);
        proof {
            if old(self).conditions_consistent() && !(r is Condition) {
                assert forall|c: NodeView| #[trigger] self.counts().dom().contains(c) implies {
                    &&& self.counts()[c] == 2
                    &&& c matches NodeView::Condition(x, f, d)
                    &&& self.edges().contains((NodeView::Feature(x, f), c))
                    &&& self.edges().contains((NodeView::Component(d), c))
                } by {
                    assert(old(self).counts().dom().contains(c));
                }
                assert forall|u: NodeView, c: NodeView| #[trigger] self.edges().contains((u, c)) && c is Condition
                    implies self.counts().dom().contains(c) by {
                    assert(old(self).edges().contains((u, c)));
                }
            }
        }
    }

    /// Adds the condition that the feature `cond1` is on and the crate
    /// `cond2` is used: a condition node linked from both, waiting for two
    /// arrivals. Returns the condition node.
    pub fn insert_condition(&mut self, cond1: Node, cond2: Node) -> (cond: Node)
        requires
            old(self).wf(),
            cond1 is Feature,
            cond2 is Component,
        ensures
            final(self).wf(),
            cond@ == NodeView::Condition(
                node_component(cond1@),
                cond1@->Feature_1,
                node_component(cond2@),
            ),
            final(self).edges() == old(self).edges().insert((cond1@, cond@)).insert((cond2@, cond@)),
            final(self).counts() == old(self).counts().insert(cond@, 2),
            old(self).conditions_consistent() ==> final(self).conditions_consistent(),
    {
        let cond = match (&cond1, &cond2) {
            (Node::Feature(cur, feat), Node::Component(dep)) => Node::Condition(
                (cur.clone(), feat.clone()),
                dep.clone(),
            ),
            _ => {
                assert(false);
                Node::Component(String::new())
            },
        };
        self.make_link(cond1, cond.clone_key());
        self.make_link(cond2, cond.clone_key());
        self.conditions.insert(cond.clone_key(), 2);
        cond
    }
}


/// How a crate depends on another, as its manifest says.
pub struct DepSpec {
    pub optional: bool,
    /// `false` only when the dependency turns the default features off.
    pub default_features: bool,
    pub features: Vec<String>,
}

/// What a `DepSpec` says.
pub struct DepSpecView {
    pub optional: bool,
    pub default_features: bool,
    pub features: Seq<Seq<char>>,
}

impl View for DepSpec {
    type V = DepSpecView;

    open spec fn view(&self) -> DepSpecView {
        DepSpecView {
            optional: self.optional,
            default_features: self.default_features,
            features: self.features@.map_values(|f: String| f@),
        }
    }
}

/// What a feature turns on.
pub struct FeatureList {
    pub values: Vec<String>,
}

impl View for FeatureList {
    type V = Seq<Seq<char>>;

    open spec fn view(&self) -> Seq<Seq<char>> {
        self.values@.map_values(|v: String| v@)
    }
}

/// The parts of a crate's manifest that the graph is built from: its normal
/// dependencies and its features, each by name.
pub struct CrateManifest {
    pub dependencies: SortedMap<String, DepSpec>,
    pub features: SortedMap<String, FeatureList>,
}

/// What a manifest says: dependencies and features in increasing order of
/// their names.
pub struct ManifestView {
    pub dep_names: Seq<Seq<char>>,
    pub deps: Seq<DepSpecView>,
    pub feature_names: Seq<Seq<char>>,
    pub feature_values: Seq<Seq<Seq<char>>>,
}

impl View for CrateManifest {
    type V = ManifestView;

    open spec fn view(&self) -> ManifestView {
        ManifestView {
            dep_names: self.dependencies.keys_view(),
            deps: self.dependencies.vals_view(),
            feature_names: self.features.keys_view(),
            feature_values: self.features.vals_view(),
        }
    }
}

/// Names and entries line up, and names are strictly increasing.
pub open spec fn manifest_wf(mv: ManifestView) -> bool {
    &&& mv.dep_names.len() == mv.deps.len()
    &&& crate::sorted::strictly_sorted::<String>(mv.dep_names)
    &&& mv.feature_names.len() == mv.feature_values.len()
    &&& crate::sorted::strictly_sorted::<String>(mv.feature_names)
}

impl CrateManifest {
    /// A manifest without dependencies or features.
    pub fn new() -> (m: CrateManifest)
        ensures
            manifest_wf(m@),
            m@.dep_names.len() == 0,
            m@.feature_names.len() == 0,
    {
        CrateManifest { dependencies: SortedMap::new(), features: SortedMap::new() }
    }
}

/// A feature value `dep:name`, `name/feature`, `name?/feature`, or anything else.
pub enum ValueKind {
    DepRef(Seq<char>),
    DepFeature(Seq<char>, Seq<char>, bool),
    Plain(Seq<char>),
}

/// `s` starts with `dep:`.
pub open spec fn has_dep_prefix(s: Seq<char>) -> bool {
    s.len() >= 4 && s[0] == 'd' && s[1] == 'e' && s[2] == 'p' && s[3] == ':'
}

/// `k` is the position of the first `/` in `s`.
pub open spec fn first_slash_at(s: Seq<char>, k: int) -> bool {
    0 <= k < s.len() && s[k] == '/' && forall|j: int| 0 <= j < k ==> s[j] != '/'
}

/// `s` without its trailing `?`s.
pub open spec fn trim_q(s: Seq<char>) -> Seq<char>
    decreases s.len(),
{
    if s.len() > 0 && s.last() == '?' {
        trim_q(s.drop_last())
    } else {
        s
    }
}

/// The kind of a feature value: `dep:name` names a dependency; otherwise a
/// value with a `/` names a dependency before the first `/` (weakly when
/// that part ends in `?`, which is then trimmed) and its feature after it.
pub open spec fn classify(s: Seq<char>) -> ValueKind {
    if has_dep_prefix(s) {
        ValueKind::DepRef(s.skip(4))
    } else if exists|k: int| first_slash_at(s, k) {
        let k = choose|k: int| first_slash_at(s, k);
        let dn = s.take(k);
        ValueKind::DepFeature(trim_q(dn), s.skip(k + 1), dn.len() > 0 && dn.last() == '?')
    } else {
        ValueKind::Plain(s)
    }
}

/// `d` is a dependency of the manifest that belongs to the tree.
pub open spec fn in_deps(mv: ManifestView, index: &CrateIndex, d: Seq<char>) -> bool {
    is_arceos_crate(index, d) && mv.dep_names.contains(d)
}

/// The dependency `d` is used with its default features.
pub open spec fn uses_default(mv: ManifestView, d: Seq<char>) -> bool {
    let spec = mv.deps[mv.dep_names.index_of(d)];
    spec.optional || spec.default_features
}

/// A position `(i, j)` of a feature value: value `j` of feature `i`.
pub open spec fn value_pos(mv: ManifestView, i: int, j: int) -> bool {
    0 <= i < mv.feature_values.len() && 0 <= j < mv.feature_values[i].len()
}

/// Position `(i2, j2)` comes before `(i, j)`.
pub open spec fn pos_before(i2: int, j2: int, i: int, j: int) -> bool {
    i2 < i || (i2 == i && j2 < j)
}

/// Some `dep:d` value comes before position `(i, j)`.
pub open spec fn dep_ref_before(mv: ManifestView, i: int, j: int, d: Seq<char>) -> bool {
    exists|i2: int, j2: int|
        #![trigger mv.feature_values[i2][j2]]
        value_pos(mv, i2, j2) && pos_before(i2, j2, i, j) && classify(mv.feature_values[i2][j2])
            == ValueKind::DepRef(d)
}

/// `d` is a dependency of the tree that no `dep:d` value names before `(i, j)`:
/// it still stands as a feature of its own there.
pub open spec fn implicit_at(mv: ManifestView, index: &CrateIndex, i: int, j: int, d: Seq<char>) -> bool {
    in_deps(mv, index, d) && !dep_ref_before(mv, i, j, d)
}

/// `d` is a dependency of the tree that no `dep:d` value names at all.
pub open spec fn implicit_feature(mv: ManifestView, index: &CrateIndex, d: Seq<char>) -> bool {
    implicit_at(mv, index, mv.feature_values.len() as int, 0, d)
}

/// The dependency that the value at `(i, j)` names but the manifest lacks, if so.
pub open spec fn value_error(mv: ManifestView, index: &CrateIndex, i: int, j: int) -> Option<Seq<char>> {
    match classify(mv.feature_values[i][j]) {
        ValueKind::DepRef(d) => if is_arceos_crate(index, d) && !in_deps(mv, index, d) {
            Some(d)
        } else {
            None
        },
        ValueKind::DepFeature(d, _, _) => if is_arceos_crate(index, d) && !in_deps(mv, index, d) {
            Some(d)
        } else {
            None
        },
        ValueKind::Plain(_) => None,
    }
}

/// The condition node that the value at `(i, j)` of crate `x` adds, if any.
pub open spec fn value_condition(x: Seq<char>, mv: ManifestView, index: &CrateIndex, i: int, j: int) -> Option<NodeView> {
    match classify(mv.feature_values[i][j]) {
        ValueKind::DepFeature(d, _, weak) => if is_arceos_crate(index, d) && weak {
            Some(NodeView::Condition(x, mv.feature_names[i], d))
        } else {
            None
        },
        _ => None,
    }
}

/// The links that the value at `(i, j)` of crate `x` adds.
pub open spec fn value_links(x: Seq<char>, mv: ManifestView, index: &CrateIndex, i: int, j: int) -> Set<(NodeView, NodeView)> {
    let f = NodeView::Feature(x, mv.feature_names[i]);
    match classify(mv.feature_values[i][j]) {
        ValueKind::DepRef(d) => if is_arceos_crate(index, d) {
            if uses_default(mv, d) {
                set![(f, NodeView::Component(d)), (f, NodeView::Feature(d, "default"@))]
            } else {
                set![(f, NodeView::Component(d))]
            }
        } else {
            Set::empty()
        },
        ValueKind::DepFeature(d, feat, weak) => if is_arceos_crate(index, d) {
            if weak {
                let c = NodeView::Condition(x, mv.feature_names[i], d);
                set![(f, c), (NodeView::Component(d), c), (c, NodeView::Feature(d, feat))]
            } else {
                set![(f, NodeView::Feature(d, feat))]
            }
        } else {
            Set::empty()
        },
        ValueKind::Plain(p) => if mv.feature_names.contains(p) || implicit_at(mv, index, i, j, p) {
            set![(f, NodeView::Feature(x, p))]
        } else {
            Set::empty()
        },
    }
}

/// The links from crate `x` to its `i`-th dependency, when that one belongs
/// to the tree and is not optional: to the crate and to each feature asked for.
pub open spec fn dep_links(x: Seq<char>, mv: ManifestView, index: &CrateIndex, i: int) -> Set<(NodeView, NodeView)> {
    let d = mv.dep_names[i];
    if is_arceos_crate(index, d) && !mv.deps[i].optional {
        Set::new(
            |e: (NodeView, NodeView)|
                e == (NodeView::Component(x), NodeView::Component(d)) || exists|k: int|
                    0 <= k < mv.deps[i].features.len() && e == (
                        NodeView::Component(x),
                        NodeView::Feature(d, #[trigger] mv.deps[i].features[k]),
                    ),
        )
    } else {
        Set::empty()
    }
}

/// The links that stand for a dependency `d` used as a feature of its own:
/// the feature `x/d` turns on `d`, with its defaults unless turned off.
pub open spec fn implicit_links(x: Seq<char>, mv: ManifestView, d: Seq<char>) -> Set<(NodeView, NodeView)> {
    if uses_default(mv, d) {
        set![
            (NodeView::Feature(x, d), NodeView::Component(d)),
            (NodeView::Feature(x, d), NodeView::Feature(d, "default"@)),
        ]
    } else {
        set![(NodeView::Feature(x, d), NodeView::Component(d))]
    }
}

/// All links that the manifest of crate `x` adds to the graph: to its
/// dependencies, from each feature to the crate, from each feature value,
/// and for the dependencies that stand as features of their own.
pub open spec fn crate_links(x: Seq<char>, mv: ManifestView, index: &CrateIndex) -> Set<(NodeView, NodeView)> {
    Set::new(
        |e: (NodeView, NodeView)|
            {
                ||| exists|i: int| 0 <= i < mv.dep_names.len() && #[trigger] dep_links(x, mv, index, i).contains(e)
                ||| exists|i: int|
                    0 <= i < mv.feature_names.len() && e == (
                        NodeView::Feature(x, #[trigger] mv.feature_names[i]),
                        NodeView::Component(x),
                    )
                ||| exists|i: int, j: int|
                    value_pos(mv, i, j) && #[trigger] value_links(x, mv, index, i, j).contains(e)
                ||| exists|d: Seq<char>|
                    implicit_feature(mv, index, d) && #[trigger] implicit_links(x, mv, d).contains(e)
            },
    )
}

/// The condition nodes that the manifest of crate `x` adds.
pub open spec fn crate_conditions(x: Seq<char>, mv: ManifestView, index: &CrateIndex) -> Set<NodeView> {
    Set::new(
        |c: NodeView|
            exists|i: int, j: int|
                value_pos(mv, i, j) && #[trigger] value_condition(x, mv, index, i, j) == Some(c),
    )
}

/// Some feature value of the manifest names a dependency of the tree that
/// the manifest lacks.
pub open spec fn crate_has_error(mv: ManifestView, index: &CrateIndex) -> bool {
    exists|i: int, j: int| value_pos(mv, i, j) && #[trigger] value_error(mv, index, i, j) is Some
}


/// A feature value taken apart.
pub enum ValueClass {
    DepRef(String),
    DepFeature(String, String, bool),
    Plain,
}

/// The string of the characters `cs[from..to]`.
fn substring(cs: &Vec<char>, from: usize, to: usize) -> (s: String)
    requires
        from <= to <= cs@.len(),
    ensures
        s@ == cs@.subrange(from as int, to as int),
{
    let mut s = String::new();
    let mut k = from;
    while k < to
        invariant
            from <= k <= to,
            to <= cs@.len(),
            s@ == cs@.subrange(from as int, k as int),
        decreases to - k,
    {
        push_char(&mut s, cs[k]);
        assert(cs@.subrange(from as int, k + 1) =~= cs@.subrange(from as int, k as int).push(cs@[k as int]));
        k = k + 1;
    }
    s
}

/// Takes a feature value apart as `classify` says.
pub fn classify_value(v: &String) -> (c: ValueClass)
    ensures
        match c {
            ValueClass::DepRef(d) => classify(v@) == ValueKind::DepRef(d@),
            ValueClass::DepFeature(d, f, weak) => classify(v@) == ValueKind::DepFeature(d@, f@, weak),
            ValueClass::Plain => classify(v@) == ValueKind::Plain(v@),
        },
{
    let cs = chars_of(v.as_str());
    let n = cs.len();
    if n >= 4 && cs[0] == 'd' && cs[1] == 'e' && cs[2] == 'p' && cs[3] == ':' {
        let d = substring(&cs, 4, n);
        assert(cs@.subrange(4, n as int) =~= v@.skip(4));
        return ValueClass::DepRef(d);
    }
    let mut k: usize = 0;
    while k < n && cs[k] != '/'
        invariant
            n == cs@.len(),
            k <= n,
            forall|j: int| 0 <= j < k ==> cs@[j] != '/',
        decreases n - k,
    {
        k = k + 1;
    }
    if k == n {
        assert(!exists|k2: int| first_slash_at(v@, k2));
        return ValueClass::Plain;
    }
    assert(first_slash_at(v@, k as int));
    assert forall|k2: int| first_slash_at(v@, k2) implies k2 == k by {
        if k2 < k {
            assert(cs@[k2] != '/');
        } else if k2 > k {
            assert(v@[k as int] != '/');
        }
    }
    let weak = k > 0 && cs[k - 1] == '?';
    let mut e = k;
    while e > 0 && cs[e - 1] == '?'
        invariant
            e <= k < n,
            n == cs@.len(),
            trim_q(cs@.take(e as int)) == trim_q(cs@.take(k as int)),
        decreases e,
    {
        assert(cs@.take(e as int).drop_last() =~= cs@.take(e - 1));
        e = e - 1;
    }
    assert(trim_q(cs@.take(e as int)) == cs@.take(e as int));
    let d = substring(&cs, 0, e);
    let f = substring(&cs, k + 1, n);
    assert(cs@.subrange(0, e as int) =~= cs@.take(e as int));
    assert(cs@.subrange(k + 1, n as int) =~= v@.skip(k + 1));
    assert(cs@.take(k as int).len() > 0 ==> cs@.take(k as int).last() == cs@[k - 1]);
    ValueClass::DepFeature(d, f, weak)
}


/// Why the feature graph of a crate cannot be built.
pub enum TomlError {
    /// A value of `feature` in the manifest of `krate` names `dependency`,
    /// which belongs to the tree but is not a dependency of `krate`.
    UnknownDependency { dependency: String, feature: String, krate: String },
    /// The manifest of this crate of the tree was not loaded.
    MissingManifest(String),
}

/// For each dependency of the tree, whether it is used with its default features.
pub open spec fn deps_use_default(mv: ManifestView, index: &CrateIndex) -> Map<Seq<char>, bool> {
    Map::new(|d: Seq<char>| in_deps(mv, index, d), |d: Seq<char>| uses_default(mv, d))
}

/// The dependencies that still stand as features of their own at `(i, j)`.
pub open spec fn implicit_set_at(mv: ManifestView, index: &CrateIndex, i: int, j: int) -> Set<Seq<char>> {
    Set::new(|d: Seq<char>| implicit_at(mv, index, i, j, d))
}

/// The counts of `conds`, each two.
pub open spec fn condition_counts(conds: Set<NodeView>) -> Map<NodeView, usize> {
    Map::new(|c: NodeView| conds.contains(c), |c: NodeView| 2usize)
}

/// Moving past position `(i, j)` adds the `dep:` value there, if it is one.
proof fn lemma_dep_ref_step(mv: ManifestView, i: int, j: int, d: Seq<char>)
    requires
        value_pos(mv, i, j),
    ensures
        dep_ref_before(mv, i, j + 1, d) == (dep_ref_before(mv, i, j, d) || classify(
            mv.feature_values[i][j],
        ) == ValueKind::DepRef(d)),
{
    if dep_ref_before(mv, i, j + 1, d) && !(classify(mv.feature_values[i][j]) == ValueKind::DepRef(d)) {
        let (i2, j2) = choose|i2: int, j2: int|
            #![trigger mv.feature_values[i2][j2]]
            value_pos(mv, i2, j2) && pos_before(i2, j2, i, j + 1) && classify(mv.feature_values[i2][j2])
                == ValueKind::DepRef(d);
        assert(pos_before(i2, j2, i, j));
    }
}

/// The end of feature `i` is the start of feature `i + 1`.
proof fn lemma_dep_ref_next_feature(mv: ManifestView, i: int, d: Seq<char>)
    requires
        0 <= i < mv.feature_values.len(),
    ensures
        dep_ref_before(mv, i, mv.feature_values[i].len() as int, d) == dep_ref_before(mv, i + 1, 0, d),
{
    let n = mv.feature_values[i].len() as int;
    if dep_ref_before(mv, i + 1, 0, d) {
        let (i2, j2) = choose|i2: int, j2: int|
            #![trigger mv.feature_values[i2][j2]]
            value_pos(mv, i2, j2) && pos_before(i2, j2, i + 1, 0) && classify(mv.feature_values[i2][j2])
                == ValueKind::DepRef(d);
        assert(pos_before(i2, j2, i, n));
    }
}

/// Links the value at position `(i, j)` of the manifest of crate `name` into
/// the graph, as `value_links` says; a `dep:` value also stops its
/// dependency from standing as a feature of its own.
fn process_value(
    graph: &mut Graph,
    name: &String,
    toml: &CrateManifest,
    i: usize,
    j: usize,
    dependencies: &SortedMap<String, bool>,
    weakname: &mut SortedSet<String>,
    roots: &Roots,
    index: &CrateIndex,
) -> (r: Result<(), TomlError>)
    requires
        old(graph).wf(),
        manifest_wf(toml@),
        value_pos(toml@, i as int, j as int),
        dependencies.wf(),
        dependencies.to_map() == deps_use_default(toml@, index),
        old(weakname).wf(),
        old(weakname).to_set() == implicit_set_at(toml@, index, i as int, j as int),
    ensures
        match r {
            Ok(()) => {
                &&& value_error(toml@, index, i as int, j as int) is None
                &&& final(graph).wf()
                &&& final(graph).edges() == old(graph).edges() + value_links(
                    name@,
                    toml@,
                    index,
                    i as int,
                    j as int,
                )
                &&& final(graph).counts() == match value_condition(
                    name@,
                    toml@,
                    index,
                    i as int,
                    j as int,
                ) {
                    Some(c) => old(graph).counts().insert(c, 2),
                    None => old(graph).counts(),
                }
                &&& final(weakname).wf()
                &&& final(weakname).to_set() == implicit_set_at(toml@, index, i as int, j + 1)
            },
            Err(e) => match e {
                TomlError::UnknownDependency { dependency, feature, krate } => {
                    &&& value_error(toml@, index, i as int, j as int) == Some(dependency@)
                    &&& feature@ == toml@.feature_names[i as int]
                    &&& krate@ == name@
                },
                TomlError::MissingManifest(_) => false,
            },
        },
{
    let ghost mv = toml@;
    let fname = toml.features.key_at(i);
    let v = &toml.features.value_at(i).values[j];
    assert(v@ == mv.feature_values[i as int][j as int]);
    let ghost fv = NodeView::Feature(name@, mv.feature_names[i as int]);
    let ghost old_edges = graph.edges();
    proof {
        assert forall|d: Seq<char>| implicit_at(mv, index, i as int, j + 1, d) == (implicit_at(
            mv,
            index,
            i as int,
            j as int,
            d,
        ) && !(classify(v@) == ValueKind::DepRef(d))) by {
            lemma_dep_ref_step(mv, i as int, j as int, d);
        }
    }
    match classify_value(v) {
        ValueClass::DepRef(dep_name) => {
            weakname.remove(&dep_name);
            assert(weakname.to_set() =~= implicit_set_at(mv, index, i as int, j + 1));
            if find_arceos_crate(roots, index, &dep_name).is_some() {
                if !dependencies.contains_key(&dep_name) {
                    return Err(
                        TomlError::UnknownDependency {
                            dependency: dep_name,
                            feature: fname.clone(),
                            krate: name.clone(),
                        },
                    );
                }
                graph.make_link(
                    Node::Feature(name.clone(), fname.clone()),
                    Node::Component(dep_name.clone()),
                );
                let use_default = match dependencies.get(&dep_name) {
                    Some(b) => *b,
                    None => true,
                };
                if use_default {
                    graph.make_link(
                        Node::Feature(name.clone(), fname.clone()),
                        Node::Feature(dep_name.clone(), String::from_str("default")),
                    );
                }
                assert(graph.edges() =~= old_edges + value_links(name@, mv, index, i as int, j as int));
            } else {
                assert(graph.edges() =~= old_edges + value_links(name@, mv, index, i as int, j as int));
            }
        },
        ValueClass::DepFeature(dependency_name, dep_feat, only_when_enabled) => {
            assert(weakname.to_set() =~= implicit_set_at(mv, index, i as int, j + 1));
            if find_arceos_crate(roots, index, &dependency_name).is_some() {
                if !dependencies.contains_key(&dependency_name) {
                    return Err(
                        TomlError::UnknownDependency {
                            dependency: dependency_name,
                            feature: fname.clone(),
                            krate: name.clone(),
                        },
                    );
                }
                let dependency_feature = Node::Feature(dependency_name.clone(), dep_feat);
                if only_when_enabled {
                    let dependency_component = Node::Component(dependency_name.clone());
                    let cond = graph.insert_condition(
                        Node::Feature(name.clone(), fname.clone()),
                        dependency_component,
                    );
                    graph.make_link(cond, dependency_feature);
                } else {
                    graph.make_link(Node::Feature(name.clone(), fname.clone()), dependency_feature);
                }
                assert(graph.edges() =~= old_edges + value_links(name@, mv, index, i as int, j as int));
            } else {
                assert(graph.edges() =~= old_edges + value_links(name@, mv, index, i as int, j as int));
            }
        },
        ValueClass::Plain => {
            assert(weakname.to_set() =~= implicit_set_at(mv, index, i as int, j + 1));
            if toml.features.contains_key(v) || weakname.contains(v) {
                proof {
                    assert(weakname@.contains(v@) == weakname.to_set().contains(v@));
                }
                graph.make_link(
                    Node::Feature(name.clone(), fname.clone()),
                    Node::Feature(name.clone(), v.clone()),
                );
            } else {
                proof {
                    assert(weakname@.contains(v@) == weakname.to_set().contains(v@));
                }
            }
            assert(graph.edges() =~= old_edges + value_links(name@, mv, index, i as int, j as int));
        },
    }
    Ok(())
}


/// The links to the first `n` dependencies.
pub open spec fn dep_links_upto(x: Seq<char>, mv: ManifestView, index: &CrateIndex, n: int) -> Set<(NodeView, NodeView)> {
    Set::new(
        |e: (NodeView, NodeView)|
            exists|i: int| 0 <= i < n && #[trigger] dep_links(x, mv, index, i).contains(e),
    )
}

/// The links from the first `n` features to the crate.
pub open spec fn feature_links_upto(x: Seq<char>, mv: ManifestView, n: int) -> Set<(NodeView, NodeView)> {
    Set::new(
        |e: (NodeView, NodeView)|
            exists|i: int|
                0 <= i < n && e == (NodeView::Feature(x, #[trigger] mv.feature_names[i]), NodeView::Component(x)),
    )
}

/// The links of the values before position `(i, j)`.
pub open spec fn value_links_before(x: Seq<char>, mv: ManifestView, index: &CrateIndex, i: int, j: int) -> Set<(NodeView, NodeView)> {
    Set::new(
        |e: (NodeView, NodeView)|
            exists|i2: int, j2: int|
                value_pos(mv, i2, j2) && pos_before(i2, j2, i, j) && #[trigger] value_links(
                    x,
                    mv,
                    index,
                    i2,
                    j2,
                ).contains(e),
    )
}

/// The condition nodes of the values before position `(i, j)`.
pub open spec fn conditions_before(x: Seq<char>, mv: ManifestView, index: &CrateIndex, i: int, j: int) -> Set<NodeView> {
    Set::new(
        |c: NodeView|
            exists|i2: int, j2: int|
                value_pos(mv, i2, j2) && pos_before(i2, j2, i, j) && #[trigger] value_condition(
                    x,
                    mv,
                    index,
                    i2,
                    j2,
                ) == Some(c),
    )
}

/// No value before position `(i, j)` names a missing dependency.
pub open spec fn no_error_before(mv: ManifestView, index: &CrateIndex, i: int, j: int) -> bool {
    forall|i2: int, j2: int|
        value_pos(mv, i2, j2) && pos_before(i2, j2, i, j) ==> #[trigger] value_error(mv, index, i2, j2)
            is None
}


/// The dependencies of the tree among the first `n` dependencies.
pub open spec fn tree_deps_upto(mv: ManifestView, index: &CrateIndex, n: int) -> Set<Seq<char>> {
    Set::new(
        |d: Seq<char>|
            is_arceos_crate(index, d) && exists|k: int| 0 <= k < n && #[trigger] mv.dep_names[k] == d,
    )
}

/// The links from crate `x` to the first `k` requested features `fs` of its dependency `d`.
pub open spec fn req_links_upto(x: Seq<char>, d: Seq<char>, fs: Seq<Seq<char>>, k: int) -> Set<(NodeView, NodeView)> {
    Set::new(
        |e: (NodeView, NodeView)|
            exists|k2: int| 0 <= k2 < k && e == (NodeView::Component(x), NodeView::Feature(d, #[trigger] fs[k2])),
    )
}

/// Links crate `name` to its dependencies of the tree, and collects for
/// each of those whether it is used with its default features.
fn link_dependencies(
    graph: &mut Graph,
    name: &String,
    toml: &CrateManifest,
    roots: &Roots,
    index: &CrateIndex,
) -> (r: (SortedMap<String, bool>, SortedSet<String>))
    requires
        old(graph).wf(),
        manifest_wf(toml@),
    ensures
        final(graph).wf(),
        final(graph).edges() == old(graph).edges() + dep_links_upto(
            name@,
            toml@,
            index,
            toml@.dep_names.len() as int,
        ),
        final(graph).counts() == old(graph).counts(),
        r.0.wf(),
        r.0.to_map() == deps_use_default(toml@, index),
        r.1.wf(),
        r.1.to_set() == implicit_set_at(toml@, index, 0, 0),
{
    let ghost mv = toml@;
    let ghost x = name@;
    let ghost base = graph.edges();
    let mut dependencies: SortedMap<String, bool> = SortedMap::new();
    let mut weakname: SortedSet<String> = SortedSet::new();
    assert(weakname@.to_set() =~= Set::<Seq<char>>::empty());
    let n = toml.dependencies.len();
    let mut i: usize = 0;
    assert(dependencies.to_map() =~= Map::new(
        |d: Seq<char>| tree_deps_upto(mv, index, 0).contains(d),
        |d: Seq<char>| uses_default(mv, d),
    ));
    assert(weakname.to_set() =~= tree_deps_upto(mv, index, 0));
    assert(base =~= base + dep_links_upto(x, mv, index, 0));
    while i < n
        invariant
            n == mv.dep_names.len(),
            mv == toml@,
            x == name@,
            manifest_wf(mv),
            i <= n,
            graph.wf(),
            graph.edges() == base + dep_links_upto(x, mv, index, i as int),
            graph.counts() == old(graph).counts(),
            dependencies.wf(),
            dependencies.to_map() == Map::new(
                |d: Seq<char>| tree_deps_upto(mv, index, i as int).contains(d),
                |d: Seq<char>| uses_default(mv, d),
            ),
            weakname.wf(),
            weakname.to_set() == tree_deps_upto(mv, index, i as int),
        decreases n - i,
    {
        let dn = toml.dependencies.key_at(i);
        let spec = toml.dependencies.value_at(i);
        let ghost before = graph.edges();
        proof {
            assert(mv.dep_names.contains(dn@));
            let k = mv.dep_names.index_of(dn@);
            crate::sorted::lemma_sorted_distinct::<String>(mv.dep_names, k, i as int);
        }
        if find_arceos_crate(roots, index, dn).is_some() {
            weakname.insert(dn.clone());
            let mut use_default = true;
            if !spec.optional {
                graph.make_link(Node::Component(name.clone()), Node::Component(dn.clone()));
                if !spec.default_features {
                    use_default = false;
                }
                let nf = spec.features.len();
                let mut k: usize = 0;
                assert(graph.edges() =~= before.insert((NodeView::Component(x), NodeView::Component(dn@)))
                    + req_links_upto(x, dn@, spec@.features, 0));
                while k < nf
                    invariant
                        x == name@,
                        nf == spec@.features.len(),
                        k <= nf,
                        graph.wf(),
                        graph.counts() == old(graph).counts(),
                        graph.edges() == before.insert((NodeView::Component(x), NodeView::Component(dn@)))
                            + req_links_upto(x, dn@, spec@.features, k as int),
                    decreases nf - k,
                {
                    let ghost prev = graph.edges();
                    let lhs = Node::Component(name.clone());
                    let rhs = Node::Feature(dn.clone(), spec.features[k].clone());
                    assert(lhs@ == NodeView::Component(x));
                    assert(rhs@ == NodeView::Feature(dn@, spec@.features[k as int]));
                    graph.make_link(lhs, rhs);
                    assert(graph.edges() =~= before.insert((NodeView::Component(x), NodeView::Component(dn@)))
                        + req_links_upto(x, dn@, spec@.features, k + 1)) by {
                        let fk = spec@.features[k as int];
                        assert(fk == spec.features@[k as int]@);
                        let newe = (NodeView::Component(x), NodeView::Feature(dn@, fk));
                        assert(graph.edges() == prev.insert(newe));
                        assert forall|e: (NodeView, NodeView)|
                            #[trigger] req_links_upto(x, dn@, spec@.features, k + 1).contains(e) == (
                            req_links_upto(x, dn@, spec@.features, k as int).contains(e) || e == newe) by {
                            if e == newe {
                                assert(0 <= k < k + 1 && e == (
                                    NodeView::Component(x),
                                    NodeView::Feature(dn@, spec@.features[k as int]),
                                ));
                            }
                        }
                    }
                    k = k + 1;
                }
                assert(graph.edges() =~= before + dep_links(x, mv, index, i as int));
            } else {
                assert(dep_links(x, mv, index, i as int) =~= Set::empty());
                assert(graph.edges() =~= before + dep_links(x, mv, index, i as int));
            }
            dependencies.insert(dn.clone(), use_default);
        } else {
            assert(dep_links(x, mv, index, i as int) =~= Set::empty());
            assert(graph.edges() =~= before + dep_links(x, mv, index, i as int));
        }
        assert(tree_deps_upto(mv, index, i + 1) =~= if is_arceos_crate(index, dn@) {
            tree_deps_upto(mv, index, i as int).insert(dn@)
        } else {
            tree_deps_upto(mv, index, i as int)
        });
        assert(dep_links_upto(x, mv, index, i + 1) =~= dep_links_upto(x, mv, index, i as int) + dep_links(
            x,
            mv,
            index,
            i as int,
        ));
        assert(dependencies.to_map() =~= Map::new(
            |d: Seq<char>| tree_deps_upto(mv, index, i + 1).contains(d),
            |d: Seq<char>| uses_default(mv, d),
        ));
        i = i + 1;
    }
    assert(tree_deps_upto(mv, index, n as int) =~= Set::new(|d: Seq<char>| in_deps(mv, index, d)));
    assert(implicit_set_at(mv, index, 0, 0) =~= Set::new(|d: Seq<char>| in_deps(mv, index, d)));
    assert(dependencies.to_map() =~= deps_use_default(mv, index));
    (dependencies, weakname)
}


/// The links of the dependencies standing as features of their own, among
/// the first `k` names of `ws`.
pub open spec fn implicit_links_upto(x: Seq<char>, mv: ManifestView, ws: Seq<Seq<char>>, k: int) -> Set<(NodeView, NodeView)> {
    Set::new(
        |e: (NodeView, NodeView)|
            exists|k2: int| 0 <= k2 < k && #[trigger] implicit_links(x, mv, ws[k2]).contains(e),
    )
}

/// The first error of the manifest of crate `x`, in the order of features
/// and of their values, is `e`.
pub open spec fn is_first_error(x: Seq<char>, mv: ManifestView, index: &CrateIndex, e: TomlError) -> bool {
    match e {
        TomlError::UnknownDependency { dependency, feature, krate } => exists|i: int, j: int|
            {
                &&& value_pos(mv, i, j)
                &&& #[trigger] value_error(mv, index, i, j) == Some(dependency@)
                &&& feature@ == mv.feature_names[i]
                &&& krate@ == x
                &&& no_error_before(mv, index, i, j)
            },
        TomlError::MissingManifest(_) => false,
    }
}

/// Adds to the graph what the manifest of crate `name` says: the links of
/// `crate_links` and the conditions of `crate_conditions`. Fails on the
/// first feature value that names a dependency of the tree the manifest lacks.
pub fn link_crate(
    graph: &mut Graph,
    name: &String,
    toml: &CrateManifest,
    roots: &Roots,
    index: &CrateIndex,
) -> (r: Result<(), TomlError>)
    requires
        old(graph).wf(),
        manifest_wf(toml@),
    ensures
        match r {
            Ok(()) => {
                &&& !crate_has_error(toml@, index)
                &&& final(graph).wf()
                &&& final(graph).edges() == old(graph).edges() + crate_links(name@, toml@, index)
                &&& final(graph).counts() == old(graph).counts().union_prefer_right(
                    condition_counts(crate_conditions(name@, toml@, index)),
                )
            },
            Err(e) => crate_has_error(toml@, index) && is_first_error(name@, toml@, index, e),
        },
{
    let ghost mv = toml@;
    let ghost x = name@;
    let ghost base = graph.edges();
    let ghost base_counts = graph.counts();
    let (dependencies, mut weakname) = link_dependencies(graph, name, toml, roots, index);
    let ghost dl = dep_links_upto(x, mv, index, mv.dep_names.len() as int);
    let nf = toml.features.len();
    let mut i: usize = 0;
    assert(graph.edges() =~= base + dl + feature_links_upto(x, mv, 0) + value_links_before(x, mv, index, 0, 0));
    assert(graph.counts() =~= base_counts.union_prefer_right(condition_counts(conditions_before(x, mv, index, 0, 0))));
    while i < nf
        invariant
            nf == mv.feature_names.len(),
            mv == toml@,
            x == name@,
            manifest_wf(mv),
            i <= nf,
            graph.wf(),
            graph.edges() == base + dl + feature_links_upto(x, mv, i as int) + value_links_before(x, mv, index, i as int, 0),
            graph.counts() == base_counts.union_prefer_right(condition_counts(conditions_before(x, mv, index, i as int, 0))),
            dependencies.wf(),
            dependencies.to_map() == deps_use_default(mv, index),
            weakname.wf(),
            weakname.to_set() == implicit_set_at(mv, index, i as int, 0),
            no_error_before(mv, index, i as int, 0),
        decreases nf - i,
    {
        let fname = toml.features.key_at(i);
        let values = toml.features.value_at(i);
        let ghost before = graph.edges();
        graph.make_link(Node::Feature(name.clone(), fname.clone()), Node::Component(name.clone()));
        assert(feature_links_upto(x, mv, i + 1) =~= feature_links_upto(x, mv, i as int).insert(
            (NodeView::Feature(x, mv.feature_names[i as int]), NodeView::Component(x)),
        ));
        let nv = values.values.len();
        assert(nv == mv.feature_values[i as int].len());
        let mut j: usize = 0;
        while j < nv
            invariant
                nf == mv.feature_names.len(),
                mv == toml@,
                x == name@,
                manifest_wf(mv),
                i < nf,
                nv == mv.feature_values[i as int].len(),
                j <= nv,
                graph.wf(),
                graph.edges() == base + dl + feature_links_upto(x, mv, i + 1) + value_links_before(x, mv, index, i as int, j as int),
                graph.counts() == base_counts.union_prefer_right(condition_counts(conditions_before(x, mv, index, i as int, j as int))),
                dependencies.wf(),
                dependencies.to_map() == deps_use_default(mv, index),
                weakname.wf(),
                weakname.to_set() == implicit_set_at(mv, index, i as int, j as int),
                no_error_before(mv, index, i as int, j as int),
            decreases nv - j,
        {
            let ghost e0 = graph.edges();
            let ghost c0 = graph.counts();
            match process_value(graph, name, toml, i, j, &dependencies, &mut weakname, roots, index) {
                Ok(()) => {},
                Err(e) => {
                    assert(is_first_error(x, mv, index, e));
                    return Err(e);
                },
            }
            assert(value_links_before(x, mv, index, i as int, j + 1) =~= value_links_before(x, mv, index, i as int, j as int)
                + value_links(x, mv, index, i as int, j as int)) by {
                assert forall|e: (NodeView, NodeView)| #[trigger] value_links_before(x, mv, index, i as int, j + 1).contains(e)
                    implies value_links_before(x, mv, index, i as int, j as int).contains(e) || value_links(x, mv, index, i as int, j as int).contains(e) by {
                    let (i2, j2) = choose|i2: int, j2: int|
                        value_pos(mv, i2, j2) && pos_before(i2, j2, i as int, j + 1) && #[trigger] value_links(x, mv, index, i2, j2).contains(e);
                    if !(i2 == i && j2 == j) {
                        assert(pos_before(i2, j2, i as int, j as int));
                    }
                }
            }
            assert(conditions_before(x, mv, index, i as int, j + 1) =~= match value_condition(x, mv, index, i as int, j as int) {
                Some(c) => conditions_before(x, mv, index, i as int, j as int).insert(c),
                None => conditions_before(x, mv, index, i as int, j as int),
            }) by {
                assert forall|c: NodeView| #[trigger] conditions_before(x, mv, index, i as int, j + 1).contains(c)
                    implies conditions_before(x, mv, index, i as int, j as int).contains(c) || value_condition(x, mv, index, i as int, j as int) == Some(c) by {
                    let (i2, j2) = choose|i2: int, j2: int|
                        value_pos(mv, i2, j2) && pos_before(i2, j2, i as int, j + 1) && #[trigger] value_condition(x, mv, index, i2, j2) == Some(c);
                    if !(i2 == i && j2 == j) {
                        assert(pos_before(i2, j2, i as int, j as int));
                    }
                }
            }
            assert(graph.counts() =~= base_counts.union_prefer_right(condition_counts(conditions_before(x, mv, index, i as int, j + 1))));
            assert(no_error_before(mv, index, i as int, j + 1)) by {
                assert forall|i2: int, j2: int| value_pos(mv, i2, j2) && pos_before(i2, j2, i as int, j + 1)
                    implies #[trigger] value_error(mv, index, i2, j2) is None by {
                    if !(i2 == i && j2 == j) {
                        assert(pos_before(i2, j2, i as int, j as int));
                    }
                }
            }
            j = j + 1;
        }
        proof {
            assert(value_links_before(x, mv, index, i as int, nv as int) =~= value_links_before(x, mv, index, i + 1, 0));
            assert(conditions_before(x, mv, index, i as int, nv as int) =~= conditions_before(x, mv, index, i + 1, 0));
            assert forall|d: Seq<char>| implicit_at(mv, index, i as int, nv as int, d) == implicit_at(mv, index, i + 1, 0, d) by {
                lemma_dep_ref_next_feature(mv, i as int, d);
            }
            assert(weakname.to_set() =~= implicit_set_at(mv, index, i + 1, 0));
            assert(no_error_before(mv, index, i + 1, 0)) by {
                assert forall|i2: int, j2: int| value_pos(mv, i2, j2) && pos_before(i2, j2, i + 1, 0)
                    implies #[trigger] value_error(mv, index, i2, j2) is None by {
                    assert(pos_before(i2, j2, i as int, nv as int));
                }
            }
        }
        i = i + 1;
    }
    let ghost before_implicit = graph.edges();
    let ghost ws = weakname@;
    let nw = weakname.len();
    let mut k: usize = 0;
    assert(before_implicit =~= before_implicit + implicit_links_upto(x, mv, ws, 0));
    while k < nw
        invariant
            nw == ws.len(),
            ws == weakname@,
            mv == toml@,
            x == name@,
            manifest_wf(mv),
            k <= nw,
            graph.wf(),
            graph.edges() == before_implicit + implicit_links_upto(x, mv, ws, k as int),
            graph.counts() == base_counts.union_prefer_right(condition_counts(conditions_before(x, mv, index, nf as int, 0))),
            dependencies.wf(),
            dependencies.to_map() == deps_use_default(mv, index),
            weakname.to_set() == implicit_set_at(mv, index, nf as int, 0),
        decreases nw - k,
    {
        let d = weakname.get(k);
        let ghost prev = graph.edges();
        proof {
            assert(weakname.to_set().contains(d@));
        }
        graph.make_link(Node::Feature(name.clone(), d.clone()), Node::Component(d.clone()));
        let use_default = match dependencies.get(d) {
            Some(b) => *b,
            None => true,
        };
        if use_default {
            graph.make_link(
                Node::Feature(name.clone(), d.clone()),
                Node::Feature(d.clone(), String::from_str("default")),
            );
        }
        assert(graph.edges() =~= prev + implicit_links(x, mv, d@));
        assert(implicit_links_upto(x, mv, ws, k + 1) =~= implicit_links_upto(x, mv, ws, k as int) + implicit_links(x, mv, ws[k as int])) by {
            assert forall|e: (NodeView, NodeView)| #[trigger] implicit_links_upto(x, mv, ws, k + 1).contains(e)
                implies implicit_links_upto(x, mv, ws, k as int).contains(e) || implicit_links(x, mv, ws[k as int]).contains(e) by {
                let k2 = choose|k2: int| 0 <= k2 < k + 1 && #[trigger] implicit_links(x, mv, ws[k2]).contains(e);
                if k2 < k {
                    assert(implicit_links_upto(x, mv, ws, k as int).contains(e));
                }
            }
        }
        k = k + 1;
    }
    proof {
        assert(crate_conditions(x, mv, index) =~= conditions_before(x, mv, index, nf as int, 0)) by {
            assert forall|c: NodeView| #[trigger] crate_conditions(x, mv, index).contains(c)
                implies conditions_before(x, mv, index, nf as int, 0).contains(c) by {
                let (i2, j2) = choose|i2: int, j2: int| value_pos(mv, i2, j2) && #[trigger] value_condition(x, mv, index, i2, j2) == Some(c);
                assert(pos_before(i2, j2, nf as int, 0));
            }
        }
        assert(!crate_has_error(mv, index)) by {
            if crate_has_error(mv, index) {
                let (i2, j2) = choose|i2: int, j2: int| value_pos(mv, i2, j2) && #[trigger] value_error(mv, index, i2, j2) is Some;
                assert(pos_before(i2, j2, nf as int, 0));
            }
        }
        let il = implicit_links_upto(x, mv, ws, nw as int);
        assert forall|e: (NodeView, NodeView)| crate_links(x, mv, index).contains(e) == (dl.contains(e)
            || feature_links_upto(x, mv, nf as int).contains(e) || value_links_before(x, mv, index, nf as int, 0).contains(e)
            || il.contains(e)) by {
            if crate_links(x, mv, index).contains(e) {
                if exists|d: Seq<char>| implicit_feature(mv, index, d) && #[trigger] implicit_links(x, mv, d).contains(e) {
                    let d = choose|d: Seq<char>| implicit_feature(mv, index, d) && #[trigger] implicit_links(x, mv, d).contains(e);
                    assert(weakname.to_set().contains(d));
                    let k2 = choose|k2: int| 0 <= k2 < ws.len() && ws[k2] == d;
                    assert(implicit_links(x, mv, ws[k2]).contains(e));
                }
                if exists|i2: int, j2: int| value_pos(mv, i2, j2) && #[trigger] value_links(x, mv, index, i2, j2).contains(e) {
                    let (i2, j2) = choose|i2: int, j2: int| value_pos(mv, i2, j2) && #[trigger] value_links(x, mv, index, i2, j2).contains(e);
                    assert(pos_before(i2, j2, nf as int, 0));
                }
            }
            if il.contains(e) {
                let k2 = choose|k2: int| 0 <= k2 < nw && #[trigger] implicit_links(x, mv, ws[k2]).contains(e);
                assert(weakname.to_set().contains(ws[k2]));
                assert(implicit_feature(mv, index, ws[k2]));
            }
        }
        assert(graph.edges() =~= base + crate_links(x, mv, index));
    }
    Ok(())
}


/// The loaded manifests of the crates of the tree, by crate name.
pub type Workspace = SortedMap<String, CrateManifest>;

/// The workspace and each of its manifests are well formed.
pub open spec fn workspace_wf(ws: &Workspace) -> bool {
    &&& ws.wf()
    &&& forall|i: int| 0 <= i < ws.vals_view().len() ==> manifest_wf(#[trigger] ws.vals_view()[i])
}

/// Crate `x` is loaded and `d` is one of its dependencies of the tree.
pub open spec fn tree_dep(ws: &Workspace, index: &CrateIndex, x: Seq<char>, d: Seq<char>) -> bool {
    ws.to_map().dom().contains(x) && in_deps(ws.to_map()[x], index, d)
}

/// Every dependency of the tree of a crate in `q` is in `q`.
pub open spec fn dep_closed(ws: &Workspace, index: &CrateIndex, q: Set<Seq<char>>) -> bool {
    forall|x: Seq<char>, d: Seq<char>|
        #![trigger q.contains(x), tree_dep(ws, index, x, d)]
        q.contains(x) && tree_dep(ws, index, x, d) ==> q.contains(d)
}

/// Crate `x` is reached from `root` through dependencies of the tree: it is
/// in every dependency-closed set that holds `root`.
pub open spec fn reachable(ws: &Workspace, index: &CrateIndex, root: Seq<char>, x: Seq<char>) -> bool {
    forall|q: Set<Seq<char>>| #[trigger] dep_closed(ws, index, q) && q.contains(root) ==> q.contains(x)
}

/// Every crate in `v` outside `s` has its dependencies of the tree in `v`.
pub open spec fn closed_except(ws: &Workspace, index: &CrateIndex, v: Set<Seq<char>>, s: Set<Seq<char>>) -> bool {
    forall|x: Seq<char>, d: Seq<char>|
        #![trigger v.contains(x), tree_dep(ws, index, x, d)]
        v.contains(x) && !s.contains(x) && tree_dep(ws, index, x, d) ==> v.contains(d)
}

/// The links that the manifests of the crates in `q` add.
pub open spec fn links_of(ws: &Workspace, index: &CrateIndex, q: Set<Seq<char>>) -> Set<(NodeView, NodeView)> {
    Set::new(
        |e: (NodeView, NodeView)|
            exists|x: Seq<char>| q.contains(x) && #[trigger] crate_links(x, ws.to_map()[x], index).contains(e),
    )
}

/// The condition nodes that the manifests of the crates in `q` add.
pub open spec fn conditions_of(ws: &Workspace, index: &CrateIndex, q: Set<Seq<char>>) -> Set<NodeView> {
    Set::new(
        |c: NodeView|
            exists|x: Seq<char>| q.contains(x) && #[trigger] crate_conditions(x, ws.to_map()[x], index).contains(c),
    )
}

/// The manifest of a reachable crate `x` is missing, or has an error.
pub open spec fn crate_fails(ws: &Workspace, index: &CrateIndex, x: Seq<char>) -> bool {
    !ws.to_map().dom().contains(x) || crate_has_error(ws.to_map()[x], index)
}

/// `e` is an error that building the graph from `root` may stop at: a
/// reachable crate without a manifest, or the first error of the manifest
/// of a reachable crate.
pub open spec fn is_tree_error(ws: &Workspace, index: &CrateIndex, root: Seq<char>, e: TomlError) -> bool {
    match e {
        TomlError::MissingManifest(d) => reachable(ws, index, root, d@) && !ws.to_map().dom().contains(d@),
        TomlError::UnknownDependency { dependency, feature, krate } => {
            &&& reachable(ws, index, root, krate@)
            &&& ws.to_map().dom().contains(krate@)
            &&& is_first_error(krate@, ws.to_map()[krate@], index, e)
        },
    }
}

/// The manifest of a loaded crate is well formed.
proof fn lemma_manifest_wf(ws: &Workspace, x: Seq<char>)
    requires
        workspace_wf(ws),
        ws.to_map().dom().contains(x),
    ensures
        manifest_wf(ws.to_map()[x]),
{
    let i = choose|i: int| 0 <= i < ws.keys_view().len() && ws.keys_view()[i] == x;
    ws.lemma_entry(i);
}

/// A dependency of the tree of a reachable crate is reachable.
proof fn lemma_reachable_step(ws: &Workspace, index: &CrateIndex, root: Seq<char>, x: Seq<char>, d: Seq<char>)
    requires
        reachable(ws, index, root, x),
        tree_dep(ws, index, x, d),
    ensures
        reachable(ws, index, root, d),
{
    assert forall|q: Set<Seq<char>>| #[trigger] dep_closed(ws, index, q) && q.contains(root) implies q.contains(d) by {
        assert(q.contains(x));
    }
}

/// A strictly sorted sequence has no duplicates.
proof fn lemma_sorted_no_dup(s: Seq<Seq<char>>)
    requires
        crate::sorted::strictly_sorted::<String>(s),
    ensures
        s.no_duplicates(),
{
    assert forall|i: int, j: int| 0 <= i < s.len() && 0 <= j < s.len() && i != j implies s[i] != s[j] by {
        if s[i] == s[j] {
            crate::sorted::lemma_sorted_distinct::<String>(s, i, j);
        }
    }
}

/// A sorted sequence whose set strictly holds that of another is longer.
proof fn lemma_set_grows(a: Seq<Seq<char>>, b: Seq<Seq<char>>, x: Seq<char>)
    requires
        crate::sorted::strictly_sorted::<String>(a),
        crate::sorted::strictly_sorted::<String>(b),
        a.to_set().subset_of(b.to_set()),
        b.to_set().contains(x),
        !a.to_set().contains(x),
    ensures
        a.len() < b.len(),
{
    lemma_sorted_no_dup(a);
    lemma_sorted_no_dup(b);
    a.unique_seq_to_set();
    b.unique_seq_to_set();
    vstd::set_lib::lemma_len_subset(a.to_set(), b.to_set().remove(x));
}

/// How a depth-first walk over the crates of the tree ends.
pub enum Walk {
    /// It finishes, and these crates have been visited.
    Done(Set<Seq<char>>),
    /// It stops at this crate, whose manifest is missing or has an error.
    Stop(Seq<char>),
}

/// The walk from crate `x` when the crates of `v` were visited before: a
/// visited crate is passed over; otherwise a crate without a manifest stops
/// the walk, then its dependencies of the tree are walked in order of their
/// names, and last a crate whose manifest has an error stops it. `fuel`
/// bounds the depth; one unit for each loaded crate outside `v` is enough.
pub open spec fn walk_from(ws: &Workspace, index: &CrateIndex, x: Seq<char>, v: Set<Seq<char>>, fuel: nat) -> Walk
    decreases fuel, 1int, 0int,
{
    if v.contains(x) {
        Walk::Done(v)
    } else if !ws.to_map().dom().contains(x) {
        Walk::Stop(x)
    } else {
        match walk_deps(ws, index, x, 0, v.insert(x), fuel) {
            Walk::Stop(y) => Walk::Stop(y),
            Walk::Done(v2) => if crate_has_error(ws.to_map()[x], index) {
                Walk::Stop(x)
            } else {
                Walk::Done(v2)
            },
        }
    }
}

/// The walk over the dependencies of the tree of the loaded crate `x`, from
/// its `k`-th dependency on.
pub open spec fn walk_deps(ws: &Workspace, index: &CrateIndex, x: Seq<char>, k: nat, v: Set<Seq<char>>, fuel: nat) -> Walk
    decreases fuel, 0int, ws.to_map()[x].dep_names.len() - k,
{
    let names = ws.to_map()[x].dep_names;
    if k >= names.len() {
        Walk::Done(v)
    } else if !is_arceos_crate(index, names[k as int]) {
        walk_deps(ws, index, x, k + 1, v, fuel)
    } else if fuel == 0 {
        Walk::Done(v)
    } else {
        match walk_from(ws, index, names[k as int], v, (fuel - 1) as nat) {
            Walk::Stop(y) => Walk::Stop(y),
            Walk::Done(v2) => walk_deps(ws, index, x, k + 1, v2, fuel),
        }
    }
}

/// The walk over the tree from the crate `root`.
pub open spec fn tree_walk(ws: &Workspace, index: &CrateIndex, root: Seq<char>) -> Walk {
    walk_from(ws, index, root, Set::empty(), ws.keys_view().len())
}

/// `e` is the error for a walk that stops at crate `y`: its missing
/// manifest, or the first error of its manifest.
pub open spec fn stop_error(ws: &Workspace, index: &CrateIndex, y: Seq<char>, e: TomlError) -> bool {
    if ws.to_map().dom().contains(y) {
        is_first_error(y, ws.to_map()[y], index, e)
    } else {
        e matches TomlError::MissingManifest(n) && n@ == y
    }
}

/// The links and conditions of more crates include those of fewer.
proof fn lemma_links_of_grow(ws: &Workspace, index: &CrateIndex, q1: Set<Seq<char>>, q2: Set<Seq<char>>)
    requires
        q1.subset_of(q2),
    ensures
        links_of(ws, index, q1).subset_of(links_of(ws, index, q2)),
        conditions_of(ws, index, q1).subset_of(conditions_of(ws, index, q2)),
{
    assert forall|e: (NodeView, NodeView)| #[trigger] links_of(ws, index, q1).contains(e) implies links_of(ws, index, q2).contains(e) by {
        let x = choose|x: Seq<char>| q1.contains(x) && #[trigger] crate_links(x, ws.to_map()[x], index).contains(e);
        assert(q2.contains(x));
    }
    assert forall|c: NodeView| #[trigger] conditions_of(ws, index, q1).contains(c) implies conditions_of(ws, index, q2).contains(c) by {
        let x = choose|x: Seq<char>| q1.contains(x) && #[trigger] crate_conditions(x, ws.to_map()[x], index).contains(c);
        assert(q2.contains(x));
    }
}

/// Each condition of a manifest is linked from its feature and its crate,
/// and every condition node its links lead to is one of its conditions.
proof fn lemma_crate_conditions_linked(x: Seq<char>, mv: ManifestView, index: &CrateIndex)
    ensures
        forall|c: NodeView| #[trigger] crate_conditions(x, mv, index).contains(c) ==> {
            &&& c matches NodeView::Condition(y, f, d)
            &&& crate_links(x, mv, index).contains((NodeView::Feature(y, f), c))
            &&& crate_links(x, mv, index).contains((NodeView::Component(d), c))
        },
        forall|u: NodeView, c: NodeView| #[trigger] crate_links(x, mv, index).contains((u, c)) && c is Condition
            ==> crate_conditions(x, mv, index).contains(c),
{
    assert forall|c: NodeView| #[trigger] crate_conditions(x, mv, index).contains(c) implies {
        &&& c matches NodeView::Condition(y, f, d)
        &&& crate_links(x, mv, index).contains((NodeView::Feature(y, f), c))
        &&& crate_links(x, mv, index).contains((NodeView::Component(d), c))
    } by {
        let (i, j) = choose|i: int, j: int| value_pos(mv, i, j) && #[trigger] value_condition(x, mv, index, i, j) == Some(c);
        let f = NodeView::Feature(x, mv.feature_names[i]);
        if let ValueKind::DepFeature(d, feat, weak) = classify(mv.feature_values[i][j]) {
            assert(value_links(x, mv, index, i, j).contains((f, c)));
            assert(value_links(x, mv, index, i, j).contains((NodeView::Component(d), c)));
        }
    }
    assert forall|u: NodeView, c: NodeView| #[trigger] crate_links(x, mv, index).contains((u, c)) && c is Condition
        implies crate_conditions(x, mv, index).contains(c) by {
        let e = (u, c);
        if exists|i: int| 0 <= i < mv.dep_names.len() && #[trigger] dep_links(x, mv, index, i).contains(e) {
            let i = choose|i: int| 0 <= i < mv.dep_names.len() && #[trigger] dep_links(x, mv, index, i).contains(e);
            assert(!dep_links(x, mv, index, i).contains(e));
        } else if exists|i: int, j: int| value_pos(mv, i, j) && #[trigger] value_links(x, mv, index, i, j).contains(e) {
            let (i, j) = choose|i: int, j: int| value_pos(mv, i, j) && #[trigger] value_links(x, mv, index, i, j).contains(e);
            assert(value_condition(x, mv, index, i, j) == Some(c));
        } else if exists|d: Seq<char>| implicit_feature(mv, index, d) && #[trigger] implicit_links(x, mv, d).contains(e) {
            let d = choose|d: Seq<char>| implicit_feature(mv, index, d) && #[trigger] implicit_links(x, mv, d).contains(e);
            assert(!implicit_links(x, mv, d).contains(e));
        }
    }
}

/// A graph that holds the links and conditions of a set of crates keeps its
/// conditions consistent.
proof fn lemma_built_conditions_consistent(ws: &Workspace, index: &CrateIndex, q: Set<Seq<char>>, g: &Graph)
    requires
        g.edges() == links_of(ws, index, q),
        g.counts() == condition_counts(conditions_of(ws, index, q)),
    ensures
        g.conditions_consistent(),
{
    assert forall|c: NodeView| #[trigger] g.counts().dom().contains(c) implies {
        &&& g.counts()[c] == 2
        &&& c matches NodeView::Condition(x, f, d)
        &&& g.edges().contains((NodeView::Feature(x, f), c))
        &&& g.edges().contains((NodeView::Component(d), c))
    } by {
        let y = choose|y: Seq<char>| q.contains(y) && #[trigger] crate_conditions(y, ws.to_map()[y], index).contains(c);
        lemma_crate_conditions_linked(y, ws.to_map()[y], index);
        if let NodeView::Condition(x, f, d) = c {
            assert(crate_links(y, ws.to_map()[y], index).contains((NodeView::Feature(x, f), c)));
            assert(crate_links(y, ws.to_map()[y], index).contains((NodeView::Component(d), c)));
        }
    }
    assert forall|u: NodeView, c: NodeView| #[trigger] g.edges().contains((u, c)) && c is Condition
        implies g.counts().dom().contains(c) by {
        let y = choose|y: Seq<char>| q.contains(y) && #[trigger] crate_links(y, ws.to_map()[y], index).contains((u, c));
        lemma_crate_conditions_linked(y, ws.to_map()[y], index);
        assert(crate_conditions(y, ws.to_map()[y], index).contains(c));
    }
}

/// `s` begins with `dep:`, written out character by character.
pub open spec fn starts_with_dep(s: Seq<char>) -> bool {
    s.len() >= 4 && s[0] == 'd' && s[1] == 'e' && s[2] == 'p' && s[3] == ':'
}

/// The first `/` of `a + ['/'] + b`, when `a` has none, is right after `a`.
proof fn lemma_first_slash_after(a: Seq<char>, b: Seq<char>)
    requires
        !a.contains('/'),
    ensures
        exists|k: int| first_slash_at(a + seq!['/'] + b, k),
        forall|k: int| #[trigger] first_slash_at(a + seq!['/'] + b, k) ==> k == a.len(),
{
    let s = a + seq!['/'] + b;
    assert forall|j: int| 0 <= j < a.len() implies s[j] != '/' by {
        assert(s[j] == a[j]);
        if a[j] == '/' {
            assert(a.contains('/'));
        }
    }
    assert(first_slash_at(s, a.len() as int));
    assert forall|k: int| #[trigger] first_slash_at(s, k) implies k == a.len() by {
        if k < a.len() {
            assert(s[k] == a[k]);
            assert(a.contains('/'));
        }
    }
}

/// A weak value `d?/g` of feature `f` of crate `x`, at whatever position of
/// the list it stands, with `d` a crate of the tree, links `f` and the
/// crate `d` to the condition that both are on, and that condition to
/// feature `g` of `d`.
pub proof fn lemma_weak_value_links(x: Seq<char>, mv: ManifestView, index: &CrateIndex, i: int, j: int, d: Seq<char>, g: Seq<char>)
    requires
        value_pos(mv, i, j),
        mv.feature_values[i][j] == d + seq!['?', '/'] + g,
        !d.contains('/'),
        !(d.len() > 0 && d.last() == '?'),
        !starts_with_dep(mv.feature_values[i][j]),
        is_arceos_crate(index, d),
    ensures
        crate_links(x, mv, index).contains(
            (NodeView::Feature(x, mv.feature_names[i]), NodeView::Condition(x, mv.feature_names[i], d)),
        ),
        crate_links(x, mv, index).contains((NodeView::Component(d), NodeView::Condition(x, mv.feature_names[i], d))),
        crate_links(x, mv, index).contains((NodeView::Condition(x, mv.feature_names[i], d), NodeView::Feature(d, g))),
{
    let v = mv.feature_values[i][j];
    let fnode = NodeView::Feature(x, mv.feature_names[i]);
    let dq = d.push('?');
    assert(v =~= dq + seq!['/'] + g);
    assert(!dq.contains('/')) by {
        if dq.contains('/') {
            let k = choose|k: int| 0 <= k < dq.len() && dq[k] == '/';
            assert(d[k] == '/');
            assert(d.contains('/'));
        }
    }
    lemma_first_slash_after(dq, g);
    let k = choose|k: int| first_slash_at(v, k);
    assert(k == dq.len());
    assert(v.take(k) =~= dq);
    assert(dq.drop_last() =~= d);
    assert(trim_q(dq) == trim_q(d));
    assert(trim_q(d) == d);
    assert(v.skip(k + 1) =~= g);
    assert(!has_dep_prefix(v));
    assert(classify(v) == ValueKind::DepFeature(d, g, true));
    let c = NodeView::Condition(x, mv.feature_names[i], d);
    assert(value_links(x, mv, index, i, j).contains((fnode, c)));
    assert(value_links(x, mv, index, i, j).contains((NodeView::Component(d), c)));
    assert(value_links(x, mv, index, i, j).contains((c, NodeView::Feature(d, g))));
}

/// What each value of a feature's list adds to the graph of crate `x`, at
/// whatever position of the list it stands, for the feature `f` it belongs to:
/// `dep:d`, with `d` a crate of the tree, links `f` to the crate `d`;
/// `d/g` links `f` to feature `g` of `d`; a plain value naming another
/// feature `p` of `x` links `f` to it. (`d?/g`: `lemma_weak_value_links`.)
pub proof fn lemma_feature_value_links(x: Seq<char>, mv: ManifestView, index: &CrateIndex, i: int, j: int)
    requires
        value_pos(mv, i, j),
    ensures
        forall|d: Seq<char>|
            mv.feature_values[i][j] == seq!['d', 'e', 'p', ':'] + d && #[trigger] is_arceos_crate(index, d)
                ==> crate_links(x, mv, index).contains(
                (NodeView::Feature(x, mv.feature_names[i]), NodeView::Component(d)),
            ),
        forall|d: Seq<char>, g: Seq<char>|
            mv.feature_values[i][j] == d + seq!['/'] + g && !d.contains('/') && !(d.len() > 0 && d.last() == '?')
                && !starts_with_dep(mv.feature_values[i][j]) && #[trigger] is_arceos_crate(index, d)
                ==> #[trigger] crate_links(x, mv, index).contains(
                (NodeView::Feature(x, mv.feature_names[i]), NodeView::Feature(d, g)),
            ),
        !mv.feature_values[i][j].contains('/') && !starts_with_dep(mv.feature_values[i][j])
            && mv.feature_names.contains(mv.feature_values[i][j]) ==> crate_links(x, mv, index).contains(
            (NodeView::Feature(x, mv.feature_names[i]), NodeView::Feature(x, mv.feature_values[i][j])),
        ),
{
    let v = mv.feature_values[i][j];
    let fnode = NodeView::Feature(x, mv.feature_names[i]);
    assert forall|d: Seq<char>|
        v == seq!['d', 'e', 'p', ':'] + d && #[trigger] is_arceos_crate(index, d)
            implies crate_links(x, mv, index).contains((fnode, NodeView::Component(d))) by {
        assert(has_dep_prefix(v));
        assert(v.skip(4) =~= d);
        assert(value_links(x, mv, index, i, j).contains((fnode, NodeView::Component(d))));
    }
    assert forall|d: Seq<char>, g: Seq<char>|
        v == d + seq!['/'] + g && !d.contains('/') && !(d.len() > 0 && d.last() == '?')
            && !starts_with_dep(v) && #[trigger] is_arceos_crate(index, d)
            implies #[trigger] crate_links(x, mv, index).contains((fnode, NodeView::Feature(d, g))) by {
        lemma_first_slash_after(d, g);
        let k = choose|k: int| first_slash_at(v, k);
        assert(k == d.len());
        assert(v.take(k) =~= d);
        assert(v.skip(k + 1) =~= g);
        assert(classify(v) == ValueKind::DepFeature(d, g, false));
        assert(value_links(x, mv, index, i, j).contains((fnode, NodeView::Feature(d, g))));
    }
    if !v.contains('/') && !starts_with_dep(v) && mv.feature_names.contains(v) {
        assert forall|k: int| !first_slash_at(v, k) by {
            if first_slash_at(v, k) {
                assert(v.contains('/'));
            }
        }
        assert(classify(v) == ValueKind::Plain(v));
        assert(value_links(x, mv, index, i, j).contains((fnode, NodeView::Feature(x, v))));
    }
}

/// Visits crate `name` and, depth first, its dependencies of the tree, and
/// adds the manifest of each crate visited to the graph. `stack` holds the
/// crates whose visit is under way.
fn parse_cargo_toml_and_append(
    name: &String,
    ws: &Workspace,
    roots: &Roots,
    index: &CrateIndex,
    graph: &mut Graph,
    visited: &mut SortedSet<String>,
    Ghost(root): Ghost<Seq<char>>,
    Ghost(stack): Ghost<Set<Seq<char>>>,
    Ghost(fuel): Ghost<nat>,
) -> (r: Result<(), TomlError>)
    requires
        ws.keys_view().len() - old(visited)@.len() <= fuel,
        workspace_wf(ws),
        old(graph).wf(),
        old(visited).wf(),
        old(visited).to_set().subset_of(ws.keys_view().to_set()),
        stack.subset_of(old(visited).to_set()),
        closed_except(ws, index, old(visited).to_set(), stack),
        forall|x: Seq<char>| #[trigger] old(visited).to_set().contains(x) ==> reachable(ws, index, root, x),
        reachable(ws, index, root, name@),
        forall|x: Seq<char>| old(visited).to_set().contains(x) && !stack.contains(x) ==> !#[trigger] crate_has_error(ws.to_map()[x], index),
        old(graph).edges() == links_of(ws, index, old(visited).to_set().difference(stack)),
        old(graph).counts() == condition_counts(conditions_of(ws, index, old(visited).to_set().difference(stack))),
    ensures
        match r {
            Ok(()) => {
                &&& final(graph).wf()
                &&& final(visited).wf()
                &&& old(visited).to_set().subset_of(final(visited).to_set())
                &&& final(visited).to_set().contains(name@)
                &&& final(visited).to_set().subset_of(ws.keys_view().to_set())
                &&& closed_except(ws, index, final(visited).to_set(), stack)
                &&& forall|x: Seq<char>| #[trigger] final(visited).to_set().contains(x) ==> reachable(ws, index, root, x)
                &&& forall|x: Seq<char>| final(visited).to_set().contains(x) && !stack.contains(x) ==> !#[trigger] crate_has_error(ws.to_map()[x], index)
                &&& final(graph).edges() == links_of(ws, index, final(visited).to_set().difference(stack))
                &&& final(graph).counts() == condition_counts(conditions_of(ws, index, final(visited).to_set().difference(stack)))
                &&& walk_from(ws, index, name@, old(visited).to_set(), fuel) == Walk::Done(final(visited).to_set())
                &&& old(graph).edges().subset_of(final(graph).edges())
                &&& old(graph).counts().dom().subset_of(final(graph).counts().dom())
                &&& final(graph).conditions_consistent()
            },
            Err(e) => {
                &&& is_tree_error(ws, index, root, e)
                &&& walk_from(ws, index, name@, old(visited).to_set(), fuel) matches Walk::Stop(y) && stop_error(ws, index, y, e)
            },
        },
    decreases ws.keys_view().len() - old(visited)@.len(),
{
    if visited.contains(name) {
        proof {
            assert(visited@.contains(name@) == visited.to_set().contains(name@));
            lemma_built_conditions_consistent(ws, index, visited.to_set().difference(stack), graph);
        }
        return Ok(());
    }
    let toml = match ws.get(name) {
        Some(m) => m,
        None => {
            return Err(TomlError::MissingManifest(name.clone()));
        },
    };
    proof {
        lemma_manifest_wf(ws, name@);
    }
    let ghost v0 = visited.to_set();
    let ghost s1 = stack.insert(name@);
    visited.insert(name.clone());
    proof {
        assert(visited@.contains(name@) == visited.to_set().contains(name@));
        assert(visited.to_set().difference(s1) =~= v0.difference(stack));
        lemma_sorted_no_dup(visited@);
        lemma_sorted_no_dup(ws.keys_view());
        visited@.unique_seq_to_set();
        ws.keys_view().unique_seq_to_set();
        vstd::set_lib::lemma_len_subset(visited.to_set(), ws.keys_view().to_set());
        lemma_set_grows(old(visited)@, visited@, name@);
    }
    let n = toml.dependencies.len();
    let mut i: usize = 0;
    while i < n
        invariant
            workspace_wf(ws),
            ws.to_map().dom().contains(name@),
            ws.to_map()[name@] == toml@,
            manifest_wf(toml@),
            n == toml@.dep_names.len(),
            i <= n,
            s1 == stack.insert(name@),
            stack.subset_of(v0),
            old(visited).wf(),
            v0 == old(visited).to_set(),
            !v0.contains(name@),
            graph.wf(),
            visited.wf(),
            v0.subset_of(visited.to_set()),
            visited.to_set().contains(name@),
            visited.to_set().subset_of(ws.keys_view().to_set()),
            visited@.len() <= ws.keys_view().len(),
            visited@.len() > old(visited)@.len(),
            closed_except(ws, index, visited.to_set(), s1),
            forall|x: Seq<char>| #[trigger] visited.to_set().contains(x) ==> reachable(ws, index, root, x),
            reachable(ws, index, root, name@),
            forall|x: Seq<char>| visited.to_set().contains(x) && !s1.contains(x) ==> !#[trigger] crate_has_error(ws.to_map()[x], index),
            graph.edges() == links_of(ws, index, visited.to_set().difference(s1)),
            graph.counts() == condition_counts(conditions_of(ws, index, visited.to_set().difference(s1))),
            forall|k: int| 0 <= k < i && is_arceos_crate(index, #[trigger] toml@.dep_names[k]) ==> visited.to_set().contains(toml@.dep_names[k]),
            ws.keys_view().len() - old(visited)@.len() <= fuel,
            walk_deps(ws, index, name@, 0, v0.insert(name@), fuel) == walk_deps(ws, index, name@, i as nat, visited.to_set(), fuel),
        decreases n - i,
    {
        let dn = toml.dependencies.key_at(i);
        if find_arceos_crate(roots, index, dn).is_some() {
            proof {
                assert(toml@.dep_names.contains(dn@));
                assert(tree_dep(ws, index, name@, dn@));
                lemma_reachable_step(ws, index, root, name@, dn@);
            }
            let ghost vb = visited.to_set();
            assert(walk_deps(ws, index, name@, i as nat, vb, fuel) == match walk_from(ws, index, dn@, vb, (fuel - 1) as nat) {
                Walk::Stop(y) => Walk::Stop(y),
                Walk::Done(v2) => walk_deps(ws, index, name@, (i + 1) as nat, v2, fuel),
            });
            match parse_cargo_toml_and_append(dn, ws, roots, index, graph, visited, Ghost(root), Ghost(s1), Ghost((fuel - 1) as nat)) {
                Ok(()) => {},
                Err(e) => {
                    return Err(e);
                },
            }
            proof {
                lemma_sorted_no_dup(visited@);
                visited@.unique_seq_to_set();
                lemma_sorted_no_dup(ws.keys_view());
                ws.keys_view().unique_seq_to_set();
                vstd::set_lib::lemma_len_subset(visited.to_set(), ws.keys_view().to_set());
                lemma_set_grows(old(visited)@, visited@, name@);
            }
        } else {
            assert(walk_deps(ws, index, name@, i as nat, visited.to_set(), fuel) == walk_deps(ws, index, name@, (i + 1) as nat, visited.to_set(), fuel));
        }
        i = i + 1;
    }
    let ghost vb = visited.to_set();
    assert(walk_deps(ws, index, name@, n as nat, vb, fuel) == Walk::Done(vb));
    match link_crate(graph, name, toml, roots, index) {
        Ok(()) => {},
        Err(e) => {
            return Err(e);
        },
    }
    proof {
        assert(vb.difference(stack) =~= vb.difference(s1).insert(name@));
        assert(graph.edges() =~= links_of(ws, index, vb.difference(stack))) by {
            assert forall|e: (NodeView, NodeView)| #[trigger] links_of(ws, index, vb.difference(stack)).contains(e)
                == (links_of(ws, index, vb.difference(s1)).contains(e) || crate_links(name@, toml@, index).contains(e)) by {
                if links_of(ws, index, vb.difference(stack)).contains(e) {
                    let x = choose|x: Seq<char>| vb.difference(stack).contains(x) && #[trigger] crate_links(x, ws.to_map()[x], index).contains(e);
                    if x != name@ {
                        assert(vb.difference(s1).contains(x));
                    }
                }
                if crate_links(name@, toml@, index).contains(e) {
                    assert(vb.difference(stack).contains(name@));
                }
            }
        }
        assert(conditions_of(ws, index, vb.difference(stack)) =~= conditions_of(ws, index, vb.difference(s1)) + crate_conditions(name@, toml@, index)) by {
            assert forall|c: NodeView| #[trigger] conditions_of(ws, index, vb.difference(stack)).contains(c)
                implies conditions_of(ws, index, vb.difference(s1)).contains(c) || crate_conditions(name@, toml@, index).contains(c) by {
                let x = choose|x: Seq<char>| vb.difference(stack).contains(x) && #[trigger] crate_conditions(x, ws.to_map()[x], index).contains(c);
                if x != name@ {
                    assert(vb.difference(s1).contains(x));
                }
            }
            assert forall|c: NodeView| #[trigger] crate_conditions(name@, toml@, index).contains(c)
                implies conditions_of(ws, index, vb.difference(stack)).contains(c) by {
                assert(vb.difference(stack).contains(name@));
            }
        }
        assert(graph.counts() =~= condition_counts(conditions_of(ws, index, vb.difference(stack))));
        assert forall|x: Seq<char>, d: Seq<char>|
            #![trigger vb.contains(x), tree_dep(ws, index, x, d)]
            vb.contains(x) && !stack.contains(x) && tree_dep(ws, index, x, d) implies vb.contains(d) by {
            if x == name@ {
                let k = choose|k: int| 0 <= k < toml@.dep_names.len() && toml@.dep_names[k] == d;
                assert(is_arceos_crate(index, toml@.dep_names[k]));
            }
        }
        lemma_links_of_grow(ws, index, v0.difference(stack), vb.difference(stack));
        lemma_built_conditions_consistent(ws, index, vb.difference(stack), graph);
    }
    Ok(())
}


/// The nodes of the graph that have links.
pub open spec fn graph_sources(g: &Graph) -> Set<NodeView> {
    g.content.keys_view().to_set()
}

/// How many entries of `s` link to `c`.
pub open spec fn links_into(e: Set<(NodeView, NodeView)>, s: Seq<NodeView>, c: NodeView) -> nat
    decreases s.len(),
{
    if s.len() == 0 {
        0
    } else {
        links_into(e, s.drop_last(), c) + if e.contains((s.last(), c)) {
            1nat
        } else {
            0nat
        }
    }
}

/// The nodes of `t` that link to `c`.
pub open spec fn sources_into(g: &Graph, t: Set<NodeView>, c: NodeView) -> Set<NodeView> {
    Set::new(|u: NodeView| graph_sources(g).contains(u) && t.contains(u) && g.edges().contains((u, c)))
}

/// How many times `c` is reached when `root` and every node of `t` are
/// processed once, `root` once more when it is in `t` as well.
pub open spec fn arrivals(g: &Graph, root: NodeView, t: Set<NodeView>, c: NodeView) -> int {
    (if g.edges().contains((root, c)) {
        1int
    } else {
        0int
    }) + sources_into(g, t, c).len()
}

/// `root` is processed, and so is every node of `t`.
pub open spec fn processed(root: NodeView, t: Set<NodeView>, u: NodeView) -> bool {
    u == root || t.contains(u)
}

/// `c` is a condition whose count is positive and is reached by the arrivals.
pub open spec fn fires(g: &Graph, root: NodeView, t: Set<NodeView>, c: NodeView) -> bool {
    &&& c is Condition
    &&& g.counts().dom().contains(c)
    &&& 0 < g.counts()[c]
    &&& g.counts()[c] <= arrivals(g, root, t, c)
}

/// `t` holds the seeds and is closed: what a processed node links to is in
/// `t` unless it is a condition, and a condition is in `t` once it fires.
pub open spec fn activation_closed(g: &Graph, root: NodeView, seeds: Set<NodeView>, t: Set<NodeView>) -> bool {
    &&& seeds.subset_of(t)
    &&& forall|u: NodeView, v: NodeView|
        #![trigger g.edges().contains((u, v))]
        processed(root, t, u) && g.edges().contains((u, v)) && !(v is Condition) ==> t.contains(v)
    &&& forall|c: NodeView| #[trigger] fires(g, root, t, c) ==> t.contains(c)
}

/// `t` is the least closed set.
pub open spec fn is_activation(g: &Graph, root: NodeView, seeds: Set<NodeView>, t: Set<NodeView>) -> bool {
    &&& activation_closed(g, root, seeds, t)
    &&& forall|q: Set<NodeView>| #[trigger] activation_closed(g, root, seeds, q) ==> t.subset_of(q)
}

/// The nodes turned on from `root` and `seeds`: the least closed set.
pub open spec fn activation(g: &Graph, root: NodeView, seeds: Set<NodeView>) -> Set<NodeView> {
    choose|t: Set<NodeView>| is_activation(g, root, seeds, t)
}

/// The links between crates that the processed nodes give: a processed node
/// that links to a node other than a condition, of another crate.
pub open spec fn activated_links(g: &Graph, root: NodeView, t: Set<NodeView>) -> Set<(Seq<char>, Seq<char>)> {
    Set::new(
        |p: (Seq<char>, Seq<char>)|
            exists|u: NodeView, v: NodeView|
                #![trigger g.edges().contains((u, v))]
                processed(root, t, u) && g.edges().contains((u, v)) && !(v is Condition) && node_component(u)
                    != node_component(v) && p == (node_component(u), node_component(v)),
    )
}

/// Pushing one node adds its link to `c`, if any.
proof fn lemma_links_into_push(e: Set<(NodeView, NodeView)>, s: Seq<NodeView>, x: NodeView, c: NodeView)
    ensures
        links_into(e, s.push(x), c) == links_into(e, s, c) + if e.contains((x, c)) {
            1nat
        } else {
            0nat
        },
{
    assert(s.push(x).drop_last() =~= s);
}

/// Counting from a first element apart.
proof fn lemma_links_into_prepend(e: Set<(NodeView, NodeView)>, x: NodeView, s: Seq<NodeView>, c: NodeView)
    ensures
        links_into(e, seq![x] + s, c) == links_into(e, s, c) + if e.contains((x, c)) {
            1nat
        } else {
            0nat
        },
    decreases s.len(),
{
    let xs = seq![x] + s;
    if s.len() == 0 {
        assert(xs.drop_last() =~= Seq::<NodeView>::empty());
        assert(links_into(e, Seq::<NodeView>::empty(), c) == 0);
        assert(xs.last() == x);
    } else {
        assert(xs.drop_last() =~= seq![x] + s.drop_last());
        assert(xs.last() == s.last());
        lemma_links_into_prepend(e, x, s.drop_last(), c);
    }
}

/// Distinct nodes that link to `c`, all in a finite set `a`, are no more
/// than `a` holds.
proof fn lemma_links_into_le(e: Set<(NodeView, NodeView)>, s: Seq<NodeView>, c: NodeView, a: Set<NodeView>)
    requires
        s.no_duplicates(),
        a.finite(),
        forall|i: int| 0 <= i < s.len() && e.contains((s[i], c)) ==> a.contains(s[i]),
    ensures
        links_into(e, s, c) <= a.len(),
    decreases s.len(),
{
    if s.len() > 0 {
        let x = s.last();
        let r = s.drop_last();
        assert(r.no_duplicates());
        if e.contains((x, c)) {
            assert(a.contains(s[s.len() - 1]));
            assert forall|i: int| 0 <= i < r.len() && e.contains((r[i], c)) implies a.remove(x).contains(r[i]) by {
                assert(s[i] == r[i]);
                assert(s[i] != s[s.len() - 1]);
            }
            lemma_links_into_le(e, r, c, a.remove(x));
        } else {
            assert forall|i: int| 0 <= i < r.len() && e.contains((r[i], c)) implies a.contains(r[i]) by {
                assert(s[i] == r[i]);
            }
            lemma_links_into_le(e, r, c, a);
        }
    }
}

/// A finite set of nodes of `s` that link to `c` is no larger than the count.
proof fn lemma_links_into_ge(e: Set<(NodeView, NodeView)>, s: Seq<NodeView>, c: NodeView, b: Set<NodeView>)
    requires
        b.finite(),
        forall|x: NodeView| #[trigger] b.contains(x) ==> s.contains(x) && e.contains((x, c)),
    ensures
        b.len() <= links_into(e, s, c),
    decreases s.len(),
{
    if s.len() == 0 {
        if b.len() > 0 {
            let x = b.choose();
            assert(b.contains(x));
        }
    } else {
        let x = s.last();
        let r = s.drop_last();
        let b2 = b.remove(x);
        assert forall|y: NodeView| #[trigger] b2.contains(y) implies r.contains(y) && e.contains((y, c)) by {
            let i = choose|i: int| 0 <= i < s.len() && s[i] == y;
            assert(i != s.len() - 1);
            assert(r[i] == y);
        }
        lemma_links_into_ge(e, r, c, b2);
    }
}


/// The nodes that `u` links to.
pub open spec fn neighbors(g: &Graph, u: NodeView) -> Set<NodeView> {
    Set::new(|v: NodeView| g.edges().contains((u, v)))
}

/// The targets of all links, list by list.
pub open spec fn all_targets(vals: Seq<Seq<NodeView>>) -> Seq<NodeView>
    decreases vals.len(),
{
    if vals.len() == 0 {
        Seq::empty()
    } else {
        all_targets(vals.drop_last()) + vals.last()
    }
}

/// Every target of a list is among all targets.
proof fn lemma_all_targets(vals: Seq<Seq<NodeView>>, i: int, j: int)
    requires
        0 <= i < vals.len(),
        0 <= j < vals[i].len(),
    ensures
        all_targets(vals).contains(vals[i][j]),
    decreases vals.len(),
{
    let r = all_targets(vals.drop_last());
    if i == vals.len() - 1 {
        assert(all_targets(vals)[r.len() + j] == vals[i][j]);
    } else {
        lemma_all_targets(vals.drop_last(), i, j);
        let k = choose|k: int| 0 <= k < r.len() && r[k] == vals[i][j];
        assert(all_targets(vals)[k] == vals[i][j]);
    }
}

/// The target of a link is among all targets.
proof fn lemma_edge_target(g: &Graph, u: NodeView, v: NodeView)
    requires
        g.wf(),
        g.edges().contains((u, v)),
    ensures
        all_targets(g.content.vals_view()).contains(v),
        graph_sources(g).contains(u),
{
    let ks = g.content.keys_view();
    assert(ks.contains(u));
    let i = choose|i: int| 0 <= i < ks.len() && ks[i] == u;
    g.content.lemma_entry(i);
    let vs = g.content.vals_view()[i];
    assert(vs.to_set().contains(v));
    let j = choose|j: int| 0 <= j < vs.len() && vs[j] == v;
    lemma_all_targets(g.content.vals_view(), i, j);
}

/// The feature nodes `name/f` for the requested features, and `name/default`
/// when the defaults are used.
pub open spec fn seed_seq(name: Seq<char>, req: Seq<Seq<char>>, use_default: bool) -> Seq<NodeView> {
    req.map_values(|f: Seq<char>| NodeView::Feature(name, f)) + if use_default {
        seq![NodeView::Feature(name, "default"@)]
    } else {
        Seq::empty()
    }
}

/// How often `c` was reached by the processed prefix `qv[..head]` and the
/// neighbors `done` of `qv[head]` handled so far.
pub open spec fn seen(g: &Graph, qv: Seq<NodeView>, head: int, done: Set<NodeView>, c: NodeView) -> int {
    links_into(g.edges(), qv.take(head), c) + if done.contains(c) {
        1int
    } else {
        0int
    }
}

/// The count a condition has left after `d` arrivals.
pub open spec fn count_left(init: usize, c: NodeView, d: int) -> int {
    if c is Condition {
        if d >= init {
            0
        } else {
            init - d
        }
    } else {
        init as int
    }
}

/// The crate links that processing `qv[..head]`, and `done` of `qv[head]`, gives.
pub open spec fn prefix_pairs(g: &Graph, qv: Seq<NodeView>, head: int, done: Set<NodeView>) -> Set<(Seq<char>, Seq<char>)> {
    Set::new(
        |p: (Seq<char>, Seq<char>)|
            {
                ||| exists|i: int, v: NodeView|
                    #![trigger g.edges().contains((qv[i], v))]
                    0 <= i < head && g.edges().contains((qv[i], v)) && !(v is Condition) && node_component(qv[i])
                        != node_component(v) && p == (node_component(qv[i]), node_component(v))
                ||| exists|v: NodeView|
                    #![trigger done.contains(v)]
                    done.contains(v) && !(v is Condition) && node_component(qv[head]) != node_component(v) && p == (
                        node_component(qv[head]),
                        node_component(v),
                    )
            },
    )
}

/// The state of the search: the queue `qv` starts at the root and then lists
/// the taken nodes once each, in the order taken; `head` nodes are processed
/// and so are the neighbors `done` of the next; everything taken lies in
/// every closed set; counts and links match what was processed.
pub open spec fn bfs_state(
    g: &Graph,
    root: NodeView,
    seeds: Set<NodeView>,
    universe: Seq<NodeView>,
    qv: Seq<NodeView>,
    taken: Set<NodeView>,
    counts: Map<NodeView, usize>,
    pairs: Set<(Seq<char>, Seq<char>)>,
    head: int,
    done: Set<NodeView>,
) -> bool {
    &&& qv.len() >= 1
    &&& qv[0] == root
    &&& qv.drop_first().no_duplicates()
    &&& taken == qv.drop_first().to_set()
    &&& forall|x: NodeView| #[trigger] taken.contains(x) ==> universe.contains(x)
    &&& 0 <= head <= qv.len()
    &&& head == qv.len() ==> done == Set::<NodeView>::empty()
    &&& head < qv.len() ==> done.subset_of(neighbors(g, qv[head]))
    &&& seeds.subset_of(taken)
    &&& forall|i: int, v: NodeView|
        #![trigger g.edges().contains((qv[i], v))]
        0 <= i < head && g.edges().contains((qv[i], v)) && !(v is Condition) ==> taken.contains(v)
    &&& forall|v: NodeView| #[trigger] done.contains(v) && !(v is Condition) ==> taken.contains(v)
    &&& counts.dom() == g.counts().dom()
    &&& forall|c: NodeView|
        #[trigger] counts.dom().contains(c) ==> counts[c] == count_left(g.counts()[c], c, seen(g, qv, head, done, c))
    &&& forall|c: NodeView|
        c is Condition && #[trigger] g.counts().dom().contains(c) && 0 < g.counts()[c] && g.counts()[c] <= seen(
            g,
            qv,
            head,
            done,
            c,
        ) ==> taken.contains(c)
    &&& forall|q: Set<NodeView>| #[trigger] activation_closed(g, root, seeds, q) ==> taken.subset_of(q)
    &&& pairs == prefix_pairs(g, qv, head, done)
}


/// The views of the queued nodes.
pub open spec fn queue_view(queue: Seq<Node>) -> Seq<NodeView> {
    queue.map_values(|n: Node| n@)
}

/// The processed prefix of the queue, when it starts at the root, counts
/// the root's link to `c` and then those of distinct taken nodes: no more
/// than a closed set that holds the taken nodes gives.
proof fn lemma_prefix_arrivals(
    g: &Graph,
    root: NodeView,
    qv: Seq<NodeView>,
    h: int,
    q: Set<NodeView>,
    c: NodeView,
)
    requires
        g.wf(),
        qv.len() >= 1,
        qv[0] == root,
        qv.drop_first().no_duplicates(),
        0 <= h < qv.len(),
        qv.drop_first().to_set().subset_of(q),
    ensures
        links_into(g.edges(), qv.take(h + 1), c) <= arrivals(g, root, q, c),
{
    let q1 = qv.drop_first();
    let s = q1.take(h);
    assert(qv.take(h + 1) =~= seq![root] + s);
    lemma_links_into_prepend(g.edges(), root, s, c);
    let a = sources_into(g, q, c);
    vstd::set_lib::lemma_len_subset(a, graph_sources(g));
    assert(s.no_duplicates());
    assert forall|i: int| 0 <= i < s.len() && g.edges().contains((s[i], c)) implies a.contains(s[i]) by {
        lemma_edge_target(g, s[i], c);
        assert(q1.to_set().contains(q1[i]));
    }
    lemma_links_into_le(g.edges(), s, c, a);
}

/// Handles the neighbor `nnode` of the node at the head of the queue: a
/// condition counts one arrival down and is taken when it reaches zero;
/// any other node is taken, and linked between crates when they differ.
fn take_neighbor(
    content: &LinkMap<Node>,
    conditions: &mut SortedMap<Node, usize>,
    queue: &mut Vec<Node>,
    taken: &mut SortedSet<Node>,
    result: &mut LinkMap<String>,
    head: usize,
    nnode: &Node,
    Ghost(g): Ghost<Graph>,
    Ghost(root): Ghost<NodeView>,
    Ghost(seeds): Ghost<Set<NodeView>>,
    Ghost(universe): Ghost<Seq<NodeView>>,
    Ghost(done): Ghost<Set<NodeView>>,
)
    requires
        g.wf(),
        *content == g.content,
        old(conditions).wf(),
        old(taken).wf(),
        link_map_wf(old(result)),
        head < old(queue)@.len(),
        forall|v: NodeView| #[trigger] all_targets(g.content.vals_view()).contains(v) ==> universe.contains(v),
        bfs_state(
            &g,
            root,
            seeds,
            universe,
            queue_view(old(queue)@),
            old(taken).to_set(),
            old(conditions).to_map(),
            link_pairs(old(result)),
            head as int,
            done,
        ),
        g.edges().contains((queue_view(old(queue)@)[head as int], nnode@)),
        !done.contains(nnode@),
    ensures
        final(conditions).wf(),
        final(taken).wf(),
        link_map_wf(final(result)),
        final(queue)@.len() >= old(queue)@.len(),
        queue_view(final(queue)@).take(old(queue)@.len() as int) == queue_view(old(queue)@),
        bfs_state(
            &g,
            root,
            seeds,
            universe,
            queue_view(final(queue)@),
            final(taken).to_set(),
            final(conditions).to_map(),
            link_pairs(final(result)),
            head as int,
            done.insert(nnode@),
        ),
{
    let ghost qv = queue_view(queue@);
    let ghost done2 = done.insert(nnode@);
    let ghost t0 = taken.to_set();
    let ghost c0 = conditions.to_map();
    let ghost p0 = link_pairs(result);
    let ghost n = nnode@;
    let ghost e = g.edges();
    proof {
        lemma_edge_target(&g, qv[head as int], n);
        assert forall|c: NodeView| #[trigger] seen(&g, qv, head as int, done2, c) == seen(&g, qv, head as int, done, c) + (if c == n {
            1int
        } else {
            0int
        }) by {}
    }
    let cur = queue[head].clone_key();
    assert(cur@ == qv[head as int]);
    let ghost q1 = qv.drop_first();
    let ghost mut pushed = false;
    match nnode {
        Node::Condition(_, _) => {
            match conditions.find(nnode) {
                Some(ci) => {
                    proof {
                        conditions.lemma_entry(ci as int);
                    }
                    let v = *conditions.value_at(ci);
                    if v > 0 {
                        let nv = v - 1;
                        conditions.replace_value_at(ci, nv);
                        if nv == 0 {
                            proof {
                                // The condition fires in every closed set that holds what is taken.
                                assert forall|q: Set<NodeView>| #[trigger] activation_closed(&g, root, seeds, q) implies q.contains(n) by {
                                    lemma_prefix_arrivals(&g, root, qv, head as int, q, n);
                                    assert(qv.take(head + 1) =~= qv.take(head as int).push(qv[head as int]));
                                    lemma_links_into_push(e, qv.take(head as int), qv[head as int], n);
                                    assert(fires(&g, root, q, n));
                                }
                            }
                            if taken.insert(nnode.clone_key()) {
                                queue.push(nnode.clone_key());
                                assert(queue_view(queue@) =~= qv.push(n));
                                proof {
                                    pushed = true;
                                }
                            }
                        }
                    }
                },
                None => {},
            }
        },
        _ => {
            proof {
                assert forall|q: Set<NodeView>| #[trigger] activation_closed(&g, root, seeds, q) implies q.contains(n) by {
                    if head > 0 {
                        assert(q1.to_set().contains(q1[head - 1]));
                        assert(q1[head - 1] == qv[head as int]);
                    }
                    assert(processed(root, q, qv[head as int]));
                }
            }
            if taken.insert(nnode.clone_key()) {
                queue.push(nnode.clone_key());
                assert(queue_view(queue@) =~= qv.push(n));
                proof {
                    pushed = true;
                }
            }
            let cc = cur.get_component();
            let nc = nnode.get_component();
            if !crate::text::str_eq(cc.as_str(), nc.as_str()) {
                add_link(result, cc, nc);
            }
        },
    }
    let ghost qv2 = queue_view(queue@);
    let ghost t2 = taken.to_set();
    proof {
        if pushed {
            assert(qv2 == qv.push(n));
            assert(qv2.drop_first() =~= q1 + seq![n]);
            Seq::lemma_to_set_insert_commutes(q1, n);
            assert(!q1.to_set().contains(n));
            assert(qv2.drop_first().no_duplicates()) by {
                assert forall|a: int, b: int| 0 <= a < qv2.drop_first().len() && 0 <= b < qv2.drop_first().len() && a != b
                    implies qv2.drop_first()[a] != qv2.drop_first()[b] by {
                    if a == q1.len() as int {
                        assert(q1.to_set().contains(q1[b]));
                    } else if b == q1.len() as int {
                        assert(q1.to_set().contains(q1[a]));
                    }
                }
            }
        } else {
            assert(qv2 == qv);
        }
        assert(t2 == qv2.drop_first().to_set());
        assert(t0.subset_of(t2));
        assert(qv2.take(qv.len() as int) =~= qv);
        assert(qv2.take(head as int) =~= qv.take(head as int));
        assert(qv2[head as int] == qv[head as int]);
        let c2 = conditions.to_map();
        let p2 = link_pairs(result);
        assert(qv2.len() >= 1 && qv2[0] == root);
        assert(forall|x: NodeView| #[trigger] t2.contains(x) ==> universe.contains(x));
        assert(done2.subset_of(neighbors(&g, qv2[head as int])));
        assert(seeds.subset_of(t2));
        assert(forall|i: int, v: NodeView|
            #![trigger g.edges().contains((qv2[i], v))]
            0 <= i < head && g.edges().contains((qv2[i], v)) && !(v is Condition) ==> t2.contains(v));
        assert(forall|v: NodeView| #[trigger] done2.contains(v) && !(v is Condition) ==> t2.contains(v));
        assert(c2.dom() == g.counts().dom());
        assert(forall|c: NodeView|
            #[trigger] c2.dom().contains(c) ==> c2[c] == count_left(g.counts()[c], c, seen(&g, qv2, head as int, done2, c)));
        assert(forall|c: NodeView|
            c is Condition && #[trigger] g.counts().dom().contains(c) && 0 < g.counts()[c] && g.counts()[c] <= seen(
                &g,
                qv2,
                head as int,
                done2,
                c,
            ) ==> t2.contains(c));
        assert(forall|q: Set<NodeView>| #[trigger] activation_closed(&g, root, seeds, q) ==> t2.subset_of(q));
        let extra = !(n is Condition) && node_component(qv[head as int]) != node_component(n);
        assert(p2 == if extra {
            p0.insert((node_component(qv[head as int]), node_component(n)))
        } else {
            p0
        });
        assert forall|p: (Seq<char>, Seq<char>)| prefix_pairs(&g, qv2, head as int, done2).contains(p) == (p0.contains(p)
            || (extra && p == (node_component(qv[head as int]), node_component(n)))) by {
            if prefix_pairs(&g, qv2, head as int, done2).contains(p) {
                if exists|i: int, v: NodeView| #![trigger e.contains((qv2[i], v))]
                    0 <= i < head && e.contains((qv2[i], v)) && !(v is Condition) && node_component(qv2[i]) != node_component(v)
                        && p == (node_component(qv2[i]), node_component(v)) {
                    let (i, v) = choose|i: int, v: NodeView| #![trigger e.contains((qv2[i], v))]
                        0 <= i < head && e.contains((qv2[i], v)) && !(v is Condition) && node_component(qv2[i]) != node_component(v)
                            && p == (node_component(qv2[i]), node_component(v));
                    assert(qv2[i] == qv2.take(head as int)[i]);
                    assert(qv[i] == qv.take(head as int)[i]);
                    assert(e.contains((qv[i], v)));
                } else {
                    let v = choose|v: NodeView| #![trigger done2.contains(v)]
                        done2.contains(v) && !(v is Condition) && node_component(qv2[head as int]) != node_component(v) && p == (
                            node_component(qv2[head as int]),
                            node_component(v),
                        );
                    if v != n {
                        assert(done.contains(v));
                    }
                }
            }
            if p0.contains(p) {
                if exists|i: int, v: NodeView| #![trigger e.contains((qv[i], v))]
                    0 <= i < head && e.contains((qv[i], v)) && !(v is Condition) && node_component(qv[i]) != node_component(v)
                        && p == (node_component(qv[i]), node_component(v)) {
                    let (i, v) = choose|i: int, v: NodeView| #![trigger e.contains((qv[i], v))]
                        0 <= i < head && e.contains((qv[i], v)) && !(v is Condition) && node_component(qv[i]) != node_component(v)
                            && p == (node_component(qv[i]), node_component(v));
                    assert(qv2[i] == qv2.take(head as int)[i]);
                    assert(qv[i] == qv.take(head as int)[i]);
                    assert(e.contains((qv2[i], v)));
                } else {
                    let v = choose|v: NodeView| #![trigger done.contains(v)]
                        done.contains(v) && !(v is Condition) && node_component(qv[head as int]) != node_component(v) && p == (
                            node_component(qv[head as int]),
                            node_component(v),
                        );
                    assert(done2.contains(v));
                }
            }
            if extra && p == (node_component(qv[head as int]), node_component(n)) {
                assert(done2.contains(n));
            }
        }
        let xp = (node_component(qv[head as int]), node_component(n));
        assert forall|p: (Seq<char>, Seq<char>)| #[trigger] p2.contains(p) == (p0.contains(p) || (extra && p == xp)) by {
            if extra {
                assert(p2 == p0.insert(xp));
            } else {
                assert(p2 == p0);
            }
        }
        assert(p2 =~= prefix_pairs(&g, qv2, head as int, done2));
    }
}


/// Once every neighbor of `qv[head]` is handled, the next node is up.
proof fn lemma_bfs_advance(
    g: &Graph,
    root: NodeView,
    seeds: Set<NodeView>,
    universe: Seq<NodeView>,
    qv: Seq<NodeView>,
    taken: Set<NodeView>,
    counts: Map<NodeView, usize>,
    pairs: Set<(Seq<char>, Seq<char>)>,
    head: int,
)
    requires
        head < qv.len(),
        bfs_state(g, root, seeds, universe, qv, taken, counts, pairs, head, neighbors(g, qv[head])),
    ensures
        bfs_state(g, root, seeds, universe, qv, taken, counts, pairs, head + 1, Set::<NodeView>::empty()),
{
    let e = g.edges();
    let nb = neighbors(g, qv[head]);
    let empty = Set::<NodeView>::empty();
    assert(qv.take(head + 1) =~= qv.take(head).push(qv[head]));
    assert forall|c: NodeView| #[trigger] seen(g, qv, head + 1, empty, c) == seen(g, qv, head, nb, c) by {
        lemma_links_into_push(e, qv.take(head), qv[head], c);
    }
    assert forall|i: int, v: NodeView|
        #![trigger g.edges().contains((qv[i], v))]
        0 <= i < head + 1 && g.edges().contains((qv[i], v)) && !(v is Condition) implies taken.contains(v) by {
        if i == head {
            assert(nb.contains(v));
        }
    }
    assert forall|p: (Seq<char>, Seq<char>)| prefix_pairs(g, qv, head + 1, empty).contains(p) == prefix_pairs(g, qv, head, nb).contains(p) by {
        if prefix_pairs(g, qv, head + 1, empty).contains(p) {
            let (i, v) = choose|i: int, v: NodeView| #![trigger e.contains((qv[i], v))]
                0 <= i < head + 1 && e.contains((qv[i], v)) && !(v is Condition) && node_component(qv[i]) != node_component(v)
                    && p == (node_component(qv[i]), node_component(v));
            if i == head {
                assert(nb.contains(v));
            }
        }
        if prefix_pairs(g, qv, head, nb).contains(p) {
            if !exists|i: int, v: NodeView| #![trigger e.contains((qv[i], v))]
                0 <= i < head && e.contains((qv[i], v)) && !(v is Condition) && node_component(qv[i]) != node_component(v)
                    && p == (node_component(qv[i]), node_component(v)) {
                let v = choose|v: NodeView| #![trigger nb.contains(v)]
                    nb.contains(v) && !(v is Condition) && node_component(qv[head]) != node_component(v) && p == (
                        node_component(qv[head]),
                        node_component(v),
                    );
                assert(e.contains((qv[head], v)));
            }
        }
    }
    assert(prefix_pairs(g, qv, head + 1, empty) =~= prefix_pairs(g, qv, head, nb));
}

/// A queue without repeats, all in `universe`, is no longer than it.
proof fn lemma_queue_bound(q1: Seq<NodeView>, universe: Seq<NodeView>)
    requires
        q1.no_duplicates(),
        forall|x: NodeView| #[trigger] q1.to_set().contains(x) ==> universe.contains(x),
    ensures
        q1.len() <= universe.len(),
{
    q1.unique_seq_to_set();
    universe.lemma_cardinality_of_set();
    assert(q1.to_set().subset_of(universe.to_set()));
    vstd::set_lib::lemma_len_subset(q1.to_set(), universe.to_set());
}

/// Appends `node` to the queue, unless it was taken before, and takes it.
fn enqueue_new(queue: &mut Vec<Node>, taken: &mut SortedSet<Node>, node: Node)
    requires
        old(taken).wf(),
        queue_view(old(queue)@).len() >= 1,
        queue_view(old(queue)@).drop_first().no_duplicates(),
        old(taken).to_set() == queue_view(old(queue)@).drop_first().to_set(),
    ensures
        final(taken).wf(),
        final(taken).to_set() == old(taken).to_set().insert(node@),
        queue_view(final(queue)@).len() >= 1,
        queue_view(final(queue)@)[0] == queue_view(old(queue)@)[0],
        queue_view(final(queue)@).drop_first().no_duplicates(),
        final(taken).to_set() == queue_view(final(queue)@).drop_first().to_set(),
{
    let ghost qv = queue_view(queue@);
    let ghost n = node@;
    if taken.insert(node.clone_key()) {
        queue.push(node);
        proof {
            let q1 = qv.drop_first();
            assert(queue_view(queue@) =~= qv.push(n));
            assert(queue_view(queue@).drop_first() =~= q1 + seq![n]);
            Seq::lemma_to_set_insert_commutes(q1, n);
            assert(!q1.to_set().contains(n));
            assert forall|a: int, b: int| 0 <= a < q1.len() + 1 && 0 <= b < q1.len() + 1 && a != b
                implies (q1 + seq![n])[a] != (q1 + seq![n])[b] by {
                if a == q1.len() as int {
                    assert(q1.to_set().contains(q1[b]));
                } else if b == q1.len() as int {
                    assert(q1.to_set().contains(q1[a]));
                }
            }
        }
    }
}

/// Turns on the nodes reached from the crate `name` with the requested
/// features (and its default features if `use_default_features`), breadth
/// first, and collects the links between the crates of the processed nodes.
pub fn activate(
    graph: Graph,
    name: &String,
    req_features: &SortedSet<String>,
    use_default_features: bool,
) -> (result: LinkMap<String>)
    requires
        graph.wf(),
        req_features.wf(),
    ensures
        link_map_wf(&result),
        link_pairs(&result) == activated_links(
            &graph,
            NodeView::Component(name@),
            activation(
                &graph,
                NodeView::Component(name@),
                seed_seq(name@, req_features@, use_default_features).to_set(),
            ),
        ),
{
    let ghost g = graph;
    let ghost root = NodeView::Component(name@);
    let ghost sq = seed_seq(name@, req_features@, use_default_features);
    let ghost seeds = sq.to_set();
    let Graph { content, mut conditions } = graph;
    let ghost universe = sq + all_targets(g.content.vals_view());
    let mut queue: Vec<Node> = Vec::new();
    let mut taken: SortedSet<Node> = SortedSet::new();
    let mut result: LinkMap<String> = new_link_map();
    queue.push(Node::Component(name.clone()));
    let ghost empty = Set::<NodeView>::empty();
    proof {
        let qv = queue_view(queue@);
        assert(qv =~= seq![root]);
        assert(qv.drop_first() =~= Seq::<NodeView>::empty());
        assert(taken.to_set() =~= qv.drop_first().to_set());
        assert(qv.take(0) =~= Seq::<NodeView>::empty());
        assert(prefix_pairs(&g, qv, 0, empty) =~= Set::<(Seq<char>, Seq<char>)>::empty());
        assert(link_pairs(&result) =~= Set::<(Seq<char>, Seq<char>)>::empty());
    }
    // The seeds: the requested features, then the default feature.
    let nreq = req_features.len();
    let mut i: usize = 0;
    while i < nreq
        invariant
            taken.wf(),
            sq == seed_seq(name@, req_features@, use_default_features),
            seeds == sq.to_set(),
            nreq == req_features@.len(),
            i <= nreq,
            queue_view(queue@).len() >= 1,
            queue_view(queue@)[0] == root,
            queue_view(queue@).drop_first().no_duplicates(),
            taken.to_set() == queue_view(queue@).drop_first().to_set(),
            forall|x: NodeView| #[trigger] taken.to_set().contains(x) ==> seeds.contains(x),
            forall|k: int| 0 <= k < i ==> taken.to_set().contains(#[trigger] sq[k]),
        decreases nreq - i,
    {
        let feat = Node::Feature(name.clone(), req_features.get(i).clone());
        proof {
            assert(feat@ == sq[i as int]);
            assert(seeds.contains(sq[i as int]));
        }
        enqueue_new(&mut queue, &mut taken, feat);
        i = i + 1;
    }
    if use_default_features {
        let feat = Node::Feature(name.clone(), String::from_str("default"));
        proof {
            assert(feat@ == sq[nreq as int]);
            assert(seeds.contains(sq[nreq as int]));
        }
        enqueue_new(&mut queue, &mut taken, feat);
    }
    proof {
        let qv = queue_view(queue@);
        assert(seeds.subset_of(taken.to_set())) by {
            assert forall|x: NodeView| seeds.contains(x) implies taken.to_set().contains(x) by {
                let k = choose|k: int| 0 <= k < sq.len() && sq[k] == x;
                if k >= nreq {
                    assert(use_default_features);
                }
            }
        }
        assert forall|x: NodeView| #[trigger] taken.to_set().contains(x) implies universe.contains(x) by {
            let k = choose|k: int| 0 <= k < sq.len() && sq[k] == x;
            assert(universe[k] == x);
        }
        assert forall|q: Set<NodeView>| #[trigger] activation_closed(&g, root, seeds, q) implies taken.to_set().subset_of(q) by {}
        assert(qv.take(0) =~= Seq::<NodeView>::empty());
        assert(prefix_pairs(&g, qv, 0, empty) =~= Set::<(Seq<char>, Seq<char>)>::empty());
        assert forall|c: NodeView| #[trigger] conditions.to_map().dom().contains(c) implies conditions.to_map()[c]
            == count_left(g.counts()[c], c, seen(&g, qv, 0, empty, c)) by {}
        assert(bfs_state(&g, root, seeds, universe, qv, taken.to_set(), conditions.to_map(), link_pairs(&result), 0, empty));
    }
    let mut head: usize = 0;
    while head < queue.len()
        invariant
            g.wf(),
            content == g.content,
            conditions.wf(),
            taken.wf(),
            link_map_wf(&result),
            root == NodeView::Component(name@),
            seeds == sq.to_set(),
            universe == sq + all_targets(g.content.vals_view()),
            bfs_state(&g, root, seeds, universe, queue_view(queue@), taken.to_set(), conditions.to_map(), link_pairs(&result), head as int, Set::<NodeView>::empty()),
        decreases universe.len() + 1 - head,
    {
        proof {
            let qv = queue_view(queue@);
            lemma_queue_bound(qv.drop_first(), universe);
        }
        let cur = queue[head].clone_key();
        let ghost qv0 = queue_view(queue@);
        assert(cur@ == qv0[head as int]);
        match content.find(&cur) {
            Some(ki) => {
                let nb = content.value_at(ki);
                proof {
                    content.lemma_entry(ki as int);
                }
                let ghost nbv = nb@;
                assert(neighbors(&g, cur@) =~= nbv.to_set());
                let n = nb.len();
                let mut j: usize = 0;
                assert(nbv.take(0).to_set() =~= Set::<NodeView>::empty());
                while j < n
                    invariant
                        g.wf(),
                        content == g.content,
                        conditions.wf(),
                        taken.wf(),
                        link_map_wf(&result),
                        root == NodeView::Component(name@),
                        seeds == sq.to_set(),
                        universe == sq + all_targets(g.content.vals_view()),
                        n == nbv.len(),
                        nbv == nb@,
                        crate::sorted::strictly_sorted::<Node>(nbv),
                        neighbors(&g, cur@) == nbv.to_set(),
                        head < queue_view(queue@).len(),
                        queue_view(queue@)[head as int] == cur@,
                        j <= n,
                        bfs_state(&g, root, seeds, universe, queue_view(queue@), taken.to_set(), conditions.to_map(), link_pairs(&result), head as int, nbv.take(j as int).to_set()),
                    decreases n - j,
                {
                    let nnode = nb.get(j);
                    proof {
                        assert(nbv.to_set().contains(nbv[j as int]));
                        if nbv.take(j as int).to_set().contains(nbv[j as int]) {
                            let k = choose|k: int| 0 <= k < j && nbv.take(j as int)[k] == nbv[j as int];
                            crate::sorted::lemma_sorted_distinct::<Node>(nbv, k, j as int);
                        }
                        assert(all_targets(g.content.vals_view()) =~= universe.subrange(sq.len() as int, universe.len() as int));
                        assert forall|v: NodeView| #[trigger] all_targets(g.content.vals_view()).contains(v) implies universe.contains(v) by {
                            let k = choose|k: int| 0 <= k < all_targets(g.content.vals_view()).len() && all_targets(g.content.vals_view())[k] == v;
                            assert(universe[sq.len() + k] == v);
                        }
                    }
                    let ghost qb = queue_view(queue@);
                    take_neighbor(&content, &mut conditions, &mut queue, &mut taken, &mut result, head, nnode,
                        Ghost(g), Ghost(root), Ghost(seeds), Ghost(universe), Ghost(nbv.take(j as int).to_set()));
                    proof {
                        assert(nbv.take(j + 1).to_set() =~= nbv.take(j as int).to_set().insert(nbv[j as int])) by {
                            assert(nbv.take(j + 1) =~= nbv.take(j as int) + seq![nbv[j as int]]);
                            Seq::lemma_to_set_insert_commutes(nbv.take(j as int), nbv[j as int]);
                        }
                        assert(queue_view(queue@)[head as int] == qb[head as int]) by {
                            assert(queue_view(queue@).take(qb.len() as int)[head as int] == queue_view(queue@)[head as int]);
                        }
                    }
                    j = j + 1;
                }
                assert(nbv.take(n as int) =~= nbv);
            },
            None => {
                assert(neighbors(&g, cur@) =~= Set::<NodeView>::empty()) by {
                    assert forall|v: NodeView| !neighbors(&g, cur@).contains(v) by {}
                }
            },
        }
        proof {
            lemma_bfs_advance(&g, root, seeds, universe, queue_view(queue@), taken.to_set(), conditions.to_map(), link_pairs(&result), head as int);
            lemma_queue_bound(queue_view(queue@).drop_first(), universe);
        }
        head = head + 1;
    }
    proof {
        let qv = queue_view(queue@);
        let q1 = qv.drop_first();
        let t = taken.to_set();
        let e = g.edges();
        assert(activation_closed(&g, root, seeds, t)) by {
            assert forall|u: NodeView, v: NodeView|
                #![trigger g.edges().contains((u, v))]
                processed(root, t, u) && g.edges().contains((u, v)) && !(v is Condition) implies t.contains(v) by {
                if u == root {
                    assert(e.contains((qv[0], v)));
                } else {
                    let k = choose|k: int| 0 <= k < q1.len() && q1[k] == u;
                    assert(qv[k + 1] == u);
                    assert(e.contains((qv[k + 1], v)));
                }
            }
            assert forall|c: NodeView| #[trigger] fires(&g, root, t, c) implies t.contains(c) by {
                let b = sources_into(&g, t, c);
                vstd::set_lib::lemma_len_subset(b, graph_sources(&g));
                assert forall|x: NodeView| #[trigger] b.contains(x) implies q1.contains(x) && e.contains((x, c)) by {}
                lemma_links_into_ge(e, q1, c, b);
                assert(qv =~= seq![root] + q1);
                lemma_links_into_prepend(e, root, q1, c);
                assert(qv.take(qv.len() as int) =~= qv);
                assert(seen(&g, qv, qv.len() as int, Set::<NodeView>::empty(), c) == links_into(e, qv, c));
            }
        }
        assert(is_activation(&g, root, seeds, t));
        let a = activation(&g, root, seeds);
        assert(is_activation(&g, root, seeds, a));
        assert(t =~= a);
        assert(link_pairs(&result) =~= activated_links(&g, root, t)) by {
            assert forall|p: (Seq<char>, Seq<char>)| link_pairs(&result).contains(p) == activated_links(&g, root, t).contains(p) by {
                let empty = Set::<NodeView>::empty();
                if link_pairs(&result).contains(p) {
                    assert(prefix_pairs(&g, qv, qv.len() as int, empty).contains(p));
                    let (i, v) = choose|i: int, v: NodeView| #![trigger e.contains((qv[i], v))]
                        0 <= i < qv.len() && e.contains((qv[i], v)) && !(v is Condition) && node_component(qv[i]) != node_component(v)
                            && p == (node_component(qv[i]), node_component(v));
                    if i > 0 {
                        assert(q1[i - 1] == qv[i]);
                        assert(t.contains(qv[i]));
                    }
                    assert(processed(root, t, qv[i]));
                }
                if activated_links(&g, root, t).contains(p) {
                    let (u, v) = choose|u: NodeView, v: NodeView| #![trigger e.contains((u, v))]
                        processed(root, t, u) && e.contains((u, v)) && !(v is Condition) && node_component(u)
                            != node_component(v) && p == (node_component(u), node_component(v));
                    if u == root {
                        assert(e.contains((qv[0], v)));
                    } else {
                        let k = choose|k: int| 0 <= k < q1.len() && q1[k] == u;
                        assert(qv[k + 1] == u);
                        assert(e.contains((qv[k + 1], v)));
                    }
                }
            }
        }
    }
    result
}


/// The texts of the nodes, each followed by `, `.
pub open spec fn node_list_text(vs: Seq<NodeView>) -> Seq<char>
    decreases vs.len(),
{
    if vs.len() == 0 {
        Seq::empty()
    } else {
        node_list_text(vs.drop_last()) + node_text(vs.last()) + ", "@
    }
}

/// One line per node with links: the node, `: [`, the nodes it links to,
/// and `]`; in increasing order of nodes.
pub open spec fn graph_dump(keys: Seq<NodeView>, vals: Seq<Seq<NodeView>>) -> Seq<char>
    decreases keys.len(),
{
    if keys.len() == 0 {
        Seq::empty()
    } else {
        graph_dump(keys.drop_last(), vals.drop_last()) + node_text(keys.last()) + ": ["@ + node_list_text(
            vals[keys.len() - 1],
        ) + "]\n"@
    }
}

/// The listing of the graph's links.
pub fn dump_graph(graph: &Graph) -> (out: String)
    requires
        graph.wf(),
    ensures
        out@ == graph_dump(graph.content.keys_view(), graph.content.vals_view()),
{
    let content = &graph.content;
    let mut out = String::new();
    let n = content.len();
    let mut i: usize = 0;
    while i < n
        invariant
            link_map_wf(content),
            n == content.keys_view().len(),
            i <= n,
            out@ == graph_dump(content.keys_view().take(i as int), content.vals_view().take(i as int)),
        decreases n - i,
    {
        let node = content.key_at(i);
        let nodes = content.value_at(i);
        out.append(node.fmt().as_str());
        out.append(": [");
        let ghost prefix = out@;
        let m = nodes.len();
        let mut j: usize = 0;
        while j < m
            invariant
                m == nodes@.len(),
                j <= m,
                out@ == prefix + node_list_text(nodes@.take(j as int)),
            decreases m - j,
        {
            out.append(nodes.get(j).fmt().as_str());
            out.append(", ");
            assert(nodes@.take(j + 1).drop_last() =~= nodes@.take(j as int));
            j = j + 1;
        }
        assert(nodes@.take(m as int) =~= nodes@);
        out.append("]\n");
        let ghost ks = content.keys_view().take(i + 1);
        let ghost vs = content.vals_view().take(i + 1);
        assert(ks.drop_last() =~= content.keys_view().take(i as int));
        assert(vs.drop_last() =~= content.vals_view().take(i as int));
        i = i + 1;
    }
    assert(content.keys_view().take(n as int) =~= content.keys_view());
    assert(content.vals_view().take(n as int) =~= content.vals_view());
    out
}

/// The crates reached from `root`.
pub open spec fn reached(ws: &Workspace, index: &CrateIndex, root: Seq<char>) -> Set<Seq<char>> {
    Set::new(|x: Seq<char>| reachable(ws, index, root, x))
}

/// The feature graph of the crates reached from `root`: `g` holds exactly
/// the links and conditions of their manifests.
pub open spec fn is_tree_graph(ws: &Workspace, index: &CrateIndex, root: Seq<char>, g: &Graph) -> bool {
    &&& g.wf()
    &&& g.edges() == links_of(ws, index, reached(ws, index, root))
    &&& g.counts() == condition_counts(conditions_of(ws, index, reached(ws, index, root)))
}

/// Builds the feature graph of crate `name` and the crates it reaches
/// through dependencies of the tree, then collects the links between
/// crates that the features turned on give: from the crate itself, the
/// requested features, and its default features if `use_default_features`.
/// Returns those links and the listing of the graph.
///
/// Fails when a reached crate has no manifest in `ws`, or when a feature
/// value of a reached crate names a dependency of the tree that its
/// manifest lacks; the error is that of the crate where the depth-first
/// walk of `tree_walk` stops.
pub fn parse_deps_from_toml(
    name: String,
    ws: &Workspace,
    roots: &Roots,
    index: &CrateIndex,
    req_features: &SortedSet<String>,
    use_default_features: bool,
) -> (r: Result<(LinkMap<String>, String), TomlError>)
    requires
        workspace_wf(ws),
        req_features.wf(),
    ensures
        match r {
            Ok((links, dump)) => {
                &&& forall|x: Seq<char>| #[trigger] reachable(ws, index, name@, x) ==> !crate_fails(ws, index, x)
                &&& tree_walk(ws, index, name@) is Done
                &&& link_map_wf(&links)
                &&& exists|g: Graph|
                    {
                        &&& #[trigger] is_tree_graph(ws, index, name@, &g)
                        &&& link_pairs(&links) == activated_links(
                            &g,
                            NodeView::Component(name@),
                            activation(
                                &g,
                                NodeView::Component(name@),
                                seed_seq(name@, req_features@, use_default_features).to_set(),
                            ),
                        )
                        &&& dump@ == graph_dump(g.content.keys_view(), g.content.vals_view())
                    }
            },
            Err(e) => {
                &&& exists|x: Seq<char>| #[trigger] reachable(ws, index, name@, x) && crate_fails(ws, index, x)
                &&& is_tree_error(ws, index, name@, e)
                &&& tree_walk(ws, index, name@) matches Walk::Stop(y) && stop_error(ws, index, y, e)
            },
        },
{
    let mut graph = Graph::new();
    let mut visited: SortedSet<String> = SortedSet::new();
    let ghost empty = Set::<Seq<char>>::empty();
    proof {
        assert(visited.to_set() =~= empty);
        assert(links_of(ws, index, empty) =~= Set::<(NodeView, NodeView)>::empty());
        assert(conditions_of(ws, index, empty) =~= Set::<NodeView>::empty());
        assert(condition_counts(Set::<NodeView>::empty()) =~= Map::<NodeView, usize>::empty());
        assert(visited.to_set().difference(empty) =~= empty);
        assert forall|q: Set<Seq<char>>| #[trigger] dep_closed(ws, index, q) && q.contains(name@) implies q.contains(name@) by {}
    }
    match parse_cargo_toml_and_append(&name, ws, roots, index, &mut graph, &mut visited, Ghost(name@), Ghost(empty), Ghost(ws.keys_view().len())) {
        Ok(()) => {},
        Err(e) => {
            proof {
                match &e {
                    TomlError::MissingManifest(d) => {
                        assert(crate_fails(ws, index, d@));
                    },
                    TomlError::UnknownDependency { dependency, feature, krate } => {
                        let x = krate@;
                        let (i, j) = choose|i: int, j: int| {
                            &&& value_pos(ws.to_map()[x], i, j)
                            &&& #[trigger] value_error(ws.to_map()[x], index, i, j) == Some(dependency@)
                            &&& feature@ == ws.to_map()[x].feature_names[i]
                            &&& krate@ == x
                            &&& no_error_before(ws.to_map()[x], index, i, j)
                        };
                        assert(crate_fails(ws, index, x));
                    },
                }
            }
            return Err(e);
        },
    }
    proof {
        let v = visited.to_set();
        assert(v.difference(empty) =~= v);
        assert(dep_closed(ws, index, v));
        assert(v =~= reached(ws, index, name@)) by {
            assert forall|x: Seq<char>| reachable(ws, index, name@, x) implies v.contains(x) by {
                assert(dep_closed(ws, index, v) && v.contains(name@));
            }
        }
        assert forall|x: Seq<char>| #[trigger] reachable(ws, index, name@, x) implies !crate_fails(ws, index, x) by {
            assert(v.contains(x));
        }
    }
    let dump = dump_graph(&graph);
    let ghost g = graph;
    let links = activate(graph, &name, req_features, use_default_features);
    proof {
        assert(is_tree_graph(ws, index, name@, &g));
    }
    Ok((links, dump))
}


/// The nodes in every closed set.
pub open spec fn closed_meet(g: &Graph, root: NodeView, seeds: Set<NodeView>) -> Set<NodeView> {
    Set::new(
        |x: NodeView|
            forall|q: Set<NodeView>| #[trigger] activation_closed(g, root, seeds, q) ==> q.contains(x),
    )
}

/// A smaller set reaches a condition no more often.
proof fn lemma_arrivals_monotone(g: &Graph, root: NodeView, t: Set<NodeView>, q: Set<NodeView>, c: NodeView)
    requires
        g.wf(),
        t.subset_of(q),
    ensures
        arrivals(g, root, t, c) <= arrivals(g, root, q, c),
{
    vstd::set_lib::lemma_len_subset(sources_into(g, q, c), graph_sources(g));
    vstd::set_lib::lemma_len_subset(sources_into(g, t, c), sources_into(g, q, c));
}

/// The nodes turned on are well defined: the nodes that every closed set
/// holds form the least closed set.
pub proof fn lemma_activation_exists(g: &Graph, root: NodeView, seeds: Set<NodeView>)
    requires
        g.wf(),
    ensures
        is_activation(g, root, seeds, activation(g, root, seeds)),
        activation(g, root, seeds) == closed_meet(g, root, seeds),
{
    let m = closed_meet(g, root, seeds);
    assert forall|q: Set<NodeView>| #[trigger] activation_closed(g, root, seeds, q) implies m.subset_of(q) by {}
    assert(seeds.subset_of(m)) by {
        assert forall|x: NodeView| seeds.contains(x) implies m.contains(x) by {
            assert forall|q: Set<NodeView>| #[trigger] activation_closed(g, root, seeds, q) implies q.contains(x) by {}
        }
    }
    assert forall|u: NodeView, v: NodeView|
        #![trigger g.edges().contains((u, v))]
        processed(root, m, u) && g.edges().contains((u, v)) && !(v is Condition) implies m.contains(v) by {
        assert forall|q: Set<NodeView>| #[trigger] activation_closed(g, root, seeds, q) implies q.contains(v) by {
            assert(processed(root, q, u));
        }
    }
    assert forall|c: NodeView| #[trigger] fires(g, root, m, c) implies m.contains(c) by {
        assert forall|q: Set<NodeView>| #[trigger] activation_closed(g, root, seeds, q) implies q.contains(c) by {
            lemma_arrivals_monotone(g, root, m, q, c);
            assert(fires(g, root, q, c));
        }
    }
    assert(is_activation(g, root, seeds, m));
    let a = activation(g, root, seeds);
    assert(is_activation(g, root, seeds, a));
    assert(a =~= m);
}

/// What gets turned on, and the crate links found, depend only on the
/// links and the counts of the graph.
pub proof fn lemma_activation_depends_on_links(g1: &Graph, g2: &Graph, root: NodeView, seeds: Set<NodeView>)
    requires
        g1.wf(),
        g2.wf(),
        g1.edges() == g2.edges(),
        g1.counts() == g2.counts(),
    ensures
        activation(g1, root, seeds) == activation(g2, root, seeds),
        activated_links(g1, root, activation(g1, root, seeds)) == activated_links(
            g2,
            root,
            activation(g2, root, seeds),
        ),
{
    crate::links::lemma_link_map_canonical::<Node>(&g1.content, &g2.content);
    assert(graph_sources(g1) == graph_sources(g2));
    assert forall|t: Set<NodeView>, c: NodeView| #[trigger] arrivals(g1, root, t, c) == arrivals(g2, root, t, c) by {
        assert(sources_into(g1, t, c) =~= sources_into(g2, t, c));
    }
    assert forall|q: Set<NodeView>| #[trigger] activation_closed(g1, root, seeds, q) == activation_closed(g2, root, seeds, q) by {
        assert forall|c: NodeView| #[trigger] fires(g1, root, q, c) == fires(g2, root, q, c) by {
            assert(arrivals(g1, root, q, c) == arrivals(g2, root, q, c));
        }
        if activation_closed(g1, root, seeds, q) {
            assert forall|c: NodeView| #[trigger] fires(g2, root, q, c) implies q.contains(c) by {
                assert(fires(g1, root, q, c));
            }
        }
        if activation_closed(g2, root, seeds, q) {
            assert forall|c: NodeView| #[trigger] fires(g1, root, q, c) implies q.contains(c) by {
                assert(fires(g2, root, q, c));
            }
        }
    }
    lemma_activation_exists(g1, root, seeds);
    lemma_activation_exists(g2, root, seeds);
    assert(closed_meet(g1, root, seeds) =~= closed_meet(g2, root, seeds)) by {
        assert forall|x: NodeView| closed_meet(g1, root, seeds).contains(x) == closed_meet(g2, root, seeds).contains(x) by {
            if closed_meet(g1, root, seeds).contains(x) {
                assert forall|q: Set<NodeView>| #[trigger] activation_closed(g2, root, seeds, q) implies q.contains(x) by {
                    assert(activation_closed(g1, root, seeds, q));
                }
            }
            if closed_meet(g2, root, seeds).contains(x) {
                assert forall|q: Set<NodeView>| #[trigger] activation_closed(g1, root, seeds, q) implies q.contains(x) by {
                    assert(activation_closed(g2, root, seeds, q));
                }
            }
        }
    }
    let t = activation(g1, root, seeds);
    assert(activated_links(g1, root, t) =~= activated_links(g2, root, t));
}

/// Asking for more features never takes anything away: with more seeds,
/// more nodes are turned on and more crate links are found.
pub proof fn lemma_activation_monotone(g: &Graph, root: NodeView, s1: Set<NodeView>, s2: Set<NodeView>)
    requires
        g.wf(),
        s1.subset_of(s2),
    ensures
        activation(g, root, s1).subset_of(activation(g, root, s2)),
        activated_links(g, root, activation(g, root, s1)).subset_of(
            activated_links(g, root, activation(g, root, s2)),
        ),
{
    lemma_activation_exists(g, root, s1);
    lemma_activation_exists(g, root, s2);
    let t1 = activation(g, root, s1);
    let t2 = activation(g, root, s2);
    assert(activation_closed(g, root, s1, t2));
    assert(t1.subset_of(t2));
    let e = g.edges();
    assert forall|p: (Seq<char>, Seq<char>)| activated_links(g, root, t1).contains(p) implies activated_links(g, root, t2).contains(p) by {
        let (u, v) = choose|u: NodeView, v: NodeView|
            #![trigger e.contains((u, v))]
            processed(root, t1, u) && e.contains((u, v)) && !(v is Condition) && node_component(u)
                != node_component(v) && p == (node_component(u), node_component(v));
        assert(processed(root, t2, u));
    }
}

/// The seeds are turned on, and so is every node the root links to other
/// than a condition.
pub proof fn lemma_activation_holds_seeds(g: &Graph, root: NodeView, seeds: Set<NodeView>, v: NodeView)
    requires
        g.wf(),
        seeds.contains(v) || (g.edges().contains((root, v)) && !(v is Condition)),
    ensures
        activation(g, root, seeds).contains(v),
{
    lemma_activation_exists(g, root, seeds);
}

/// What the requested features of crate `name` turn on: each requested
/// feature, and its default feature whenever defaults are used, whatever
/// else is requested. Requesting more features, with defaults used or not
/// alike, never loses a node turned on or a crate link found.
pub proof fn lemma_requested_features_on(
    g: &Graph,
    name: Seq<char>,
    req: Seq<Seq<char>>,
    more: Seq<Seq<char>>,
    use_default: bool,
    f: Seq<char>,
)
    requires
        g.wf(),
    ensures
        req.contains(f) ==> activation(g, NodeView::Component(name), seed_seq(name, req, use_default).to_set()).contains(
            NodeView::Feature(name, f),
        ),
        use_default ==> activation(g, NodeView::Component(name), seed_seq(name, req, use_default).to_set()).contains(
            NodeView::Feature(name, "default"@),
        ),
        req.to_set().subset_of(more.to_set()) ==> activation(
            g,
            NodeView::Component(name),
            seed_seq(name, req, use_default).to_set(),
        ).subset_of(activation(g, NodeView::Component(name), seed_seq(name, more, use_default).to_set())),
        req.to_set().subset_of(more.to_set()) ==> activated_links(
            g,
            NodeView::Component(name),
            activation(g, NodeView::Component(name), seed_seq(name, req, use_default).to_set()),
        ).subset_of(
            activated_links(
                g,
                NodeView::Component(name),
                activation(g, NodeView::Component(name), seed_seq(name, more, use_default).to_set()),
            ),
        ),
{
    let root = NodeView::Component(name);
    let s1 = seed_seq(name, req, use_default);
    let s2 = seed_seq(name, more, use_default);
    if req.contains(f) {
        let k = choose|k: int| 0 <= k < req.len() && req[k] == f;
        assert(s1[k] == NodeView::Feature(name, f));
        lemma_activation_holds_seeds(g, root, s1.to_set(), NodeView::Feature(name, f));
    }
    if use_default {
        assert(s1[req.len() as int] == NodeView::Feature(name, "default"@));
        lemma_activation_holds_seeds(g, root, s1.to_set(), NodeView::Feature(name, "default"@));
    }
    if req.to_set().subset_of(more.to_set()) {
        assert forall|x: NodeView| s1.to_set().contains(x) implies s2.to_set().contains(x) by {
            let k = choose|k: int| 0 <= k < s1.len() && s1[k] == x;
            if k < req.len() {
                assert(req.to_set().contains(req[k]));
                let k2 = choose|k2: int| 0 <= k2 < more.len() && more[k2] == req[k];
                assert(s2[k2] == x);
            } else {
                assert(s2[more.len() as int] == x);
            }
        }
        lemma_activation_monotone(g, root, s1.to_set(), s2.to_set());
    }
}

/// The crates reached from `root`: `root` itself, closed under dependencies
/// of the tree, and within every set so closed.
pub proof fn lemma_reached_is_closure(ws: &Workspace, index: &CrateIndex, root: Seq<char>)
    ensures
        reached(ws, index, root).contains(root),
        dep_closed(ws, index, reached(ws, index, root)),
        forall|q: Set<Seq<char>>| #[trigger] dep_closed(ws, index, q) && q.contains(root) ==> reached(ws, index, root).subset_of(q),
{
    assert(reachable(ws, index, root, root));
    assert forall|x: Seq<char>, d: Seq<char>|
        #![trigger reached(ws, index, root).contains(x), tree_dep(ws, index, x, d)]
        reached(ws, index, root).contains(x) && tree_dep(ws, index, x, d) implies reached(ws, index, root).contains(d) by {
        lemma_reachable_step(ws, index, root, x, d);
    }
}

/// The feature graph of a tree keeps its conditions consistent: each
/// condition node waits for two arrivals and is linked from its feature and
/// from its crate, and every condition node linked to has a count.
pub proof fn lemma_tree_graph_conditions(ws: &Workspace, index: &CrateIndex, root: Seq<char>, g: &Graph)
    requires
        is_tree_graph(ws, index, root, g),
    ensures
        g.conditions_consistent(),
{
    lemma_built_conditions_consistent(ws, index, reached(ws, index, root), g);
}

/// The feature graph of a tree holds every link that the manifest of each
/// reached crate adds.
pub proof fn lemma_tree_graph_holds_crate_links(ws: &Workspace, index: &CrateIndex, root: Seq<char>, g: &Graph, x: Seq<char>)
    requires
        is_tree_graph(ws, index, root, g),
        reachable(ws, index, root, x),
    ensures
        crate_links(x, ws.to_map()[x], index).subset_of(g.edges()),
{
    assert forall|e: (NodeView, NodeView)| crate_links(x, ws.to_map()[x], index).contains(e) implies g.edges().contains(e) by {
        assert(reached(ws, index, root).contains(x));
    }
}

/// A reached crate other than the root belongs to the tree.
pub proof fn lemma_reached_in_tree(ws: &Workspace, index: &CrateIndex, root: Seq<char>, x: Seq<char>)
    requires
        reachable(ws, index, root, x),
        x != root,
    ensures
        is_arceos_crate(index, x),
{
    let q = Set::new(|y: Seq<char>| y == root || is_arceos_crate(index, y));
    assert(dep_closed(ws, index, q) && q.contains(root));
}

} // verus!
