use vstd::prelude::*;

use crate::sorted::{strictly_sorted, SortedKey, SortedMap, SortedSet};
use vstd::string::StringExecFns;

verus! {

/// Links between keys: each key maps to the keys it is linked to, both
/// kept in increasing order.
pub type LinkMap<K> = SortedMap<K, SortedSet<K>>;

/// Dependency links between components: each component name maps to the
/// names it depends on.
pub type DepMap = LinkMap<String>;

/// The map is well formed and every target list is strictly sorted.
pub open spec fn link_map_sorted<K: SortedKey>(m: &LinkMap<K>) -> bool {
    &&& m.wf()
    &&& forall|i: int| 0 <= i < m.vals_view().len() ==> strictly_sorted::<K>(#[trigger] m.vals_view()[i])
}

/// The map is sorted as `link_map_sorted` says, and no key is listed
/// without a target: the form in which the links alone fix the listing.
pub open spec fn link_map_wf<K: SortedKey>(m: &LinkMap<K>) -> bool {
    &&& link_map_sorted(m)
    &&& forall|i: int| 0 <= i < m.vals_view().len() ==> #[trigger] m.vals_view()[i].len() > 0
}

/// The links of the map, as (source, target) pairs.
pub open spec fn link_pairs<K: SortedKey>(m: &LinkMap<K>) -> Set<(<K as View>::V, <K as View>::V)> {
    Set::new(
        |p: (<K as View>::V, <K as View>::V)|
            m.to_map().dom().contains(p.0) && m.to_map()[p.0].contains(p.1),
    )
}

/// The dependency map is well formed.
pub open spec fn dep_map_wf(m: &DepMap) -> bool {
    link_map_wf::<String>(m)
}

/// The dependency map and each of its dependency lists are sorted.
pub open spec fn dep_map_sorted(m: &DepMap) -> bool {
    link_map_sorted::<String>(m)
}

/// The links of the dependency map, as (component, dependency) pairs.
pub open spec fn dep_pairs(m: &DepMap) -> Set<(Seq<char>, Seq<char>)> {
    link_pairs::<String>(m)
}

/// Two well-formed link maps with the same links list the same keys and
/// targets in the same order: the listing depends only on the links.
pub proof fn lemma_link_map_canonical<K: SortedKey>(a: &LinkMap<K>, b: &LinkMap<K>)
    requires
        link_map_wf(a),
        link_map_wf(b),
        link_pairs(a) == link_pairs(b),
    ensures
        a.keys_view() == b.keys_view(),
        a.vals_view() == b.vals_view(),
{
    let ka = a.keys_view();
    let kb = b.keys_view();
    assert forall|k| #[trigger] ka.to_set().contains(k) implies kb.to_set().contains(k) by {
        let i = choose|i: int| 0 <= i < ka.len() && ka[i] == k;
        a.lemma_entry(i);
        assert(a.vals_view()[i].to_set().contains(a.vals_view()[i][0]));
        assert(link_pairs(a).contains((k, a.vals_view()[i][0])));
    }
    assert forall|k| #[trigger] kb.to_set().contains(k) implies ka.to_set().contains(k) by {
        let i = choose|i: int| 0 <= i < kb.len() && kb[i] == k;
        b.lemma_entry(i);
        assert(b.vals_view()[i].to_set().contains(b.vals_view()[i][0]));
        assert(link_pairs(b).contains((k, b.vals_view()[i][0])));
    }
    assert(ka.to_set() =~= kb.to_set());
    crate::sorted::lemma_sorted_canonical::<K>(ka, kb);
    assert forall|i: int| 0 <= i < a.vals_view().len() implies #[trigger] a.vals_view()[i] == b.vals_view()[i] by {
        a.lemma_entry(i);
        b.lemma_entry(i);
        let va = a.vals_view()[i];
        let vb = b.vals_view()[i];
        assert forall|x| #[trigger] va.to_set().contains(x) == vb.to_set().contains(x) by {
            assert(link_pairs(a).contains((ka[i], x)) == va.contains(x));
            assert(link_pairs(b).contains((kb[i], x)) == vb.contains(x));
        }
        assert(va.to_set() =~= vb.to_set());
        crate::sorted::lemma_sorted_canonical::<K>(va, vb);
    }
    assert(a.vals_view() =~= b.vals_view());
}

/// One line per dependency of `from`: `from`, the arrow, the dependency and a newline.
pub open spec fn link_lines(from: Seq<char>, tos: Seq<Seq<char>>, arrow: Seq<char>) -> Seq<char>
    decreases tos.len(),
{
    if tos.len() == 0 {
        Seq::empty()
    } else {
        link_lines(from, tos.drop_last(), arrow) + from + arrow + tos.last() + "\n"@
    }
}

/// The lines of all links, component by component in increasing order.
pub open spec fn graph_lines(
    keys: Seq<Seq<char>>,
    vals: Seq<Seq<Seq<char>>>,
    arrow: Seq<char>,
) -> Seq<char>
    decreases keys.len(),
{
    if keys.len() == 0 {
        Seq::empty()
    } else {
        graph_lines(keys.drop_last(), vals.drop_last(), arrow) + link_lines(
            keys.last(),
            vals[keys.len() - 1],
            arrow,
        )
    }
}

/// The text of a list of links: one line per pair, its source, the arrow,
/// its target and a newline, in the order of the list.
pub open spec fn pair_lines(ps: Seq<(Seq<char>, Seq<char>)>, arrow: Seq<char>) -> Seq<char>
    decreases ps.len(),
{
    if ps.len() == 0 {
        Seq::empty()
    } else {
        pair_lines(ps.drop_last(), arrow) + ps.last().0 + arrow + ps.last().1 + "\n"@
    }
}

/// The links of a listing, entry by entry, and within an entry in the order
/// of its targets.
pub open spec fn entry_pairs(keys: Seq<Seq<char>>, vals: Seq<Seq<Seq<char>>>) -> Seq<(Seq<char>, Seq<char>)>
    decreases keys.len(),
{
    if keys.len() == 0 {
        Seq::empty()
    } else {
        entry_pairs(keys.drop_last(), vals.drop_last()) + vals[keys.len() - 1].map_values(
            |v: Seq<char>| (keys.last(), v),
        )
    }
}

/// The text of two lists one after the other is the text of each in turn.
proof fn lemma_pair_lines_concat(a: Seq<(Seq<char>, Seq<char>)>, b: Seq<(Seq<char>, Seq<char>)>, arrow: Seq<char>)
    ensures
        pair_lines(a + b, arrow) == pair_lines(a, arrow) + pair_lines(b, arrow),
    decreases b.len(),
{
    if b.len() == 0 {
        assert(a + b =~= a);
        assert(pair_lines(a, arrow) + pair_lines(b, arrow) =~= pair_lines(a, arrow));
    } else {
        assert((a + b).drop_last() =~= a + b.drop_last());
        lemma_pair_lines_concat(a, b.drop_last(), arrow);
        assert((a + b).last() == b.last());
        let x = b.last();
        assert(pair_lines(a + b, arrow) =~= pair_lines(a, arrow) + (pair_lines(b.drop_last(), arrow) + x.0 + arrow + x.1
            + "\n"@));
    }
}

/// The lines of one entry are the text of its links.
proof fn lemma_link_lines_pairs(from: Seq<char>, tos: Seq<Seq<char>>, arrow: Seq<char>)
    ensures
        link_lines(from, tos, arrow) == pair_lines(tos.map_values(|v: Seq<char>| (from, v)), arrow),
    decreases tos.len(),
{
    if tos.len() > 0 {
        lemma_link_lines_pairs(from, tos.drop_last(), arrow);
        assert(tos.map_values(|v: Seq<char>| (from, v)).drop_last() =~= tos.drop_last().map_values(
            |v: Seq<char>| (from, v),
        ));
    }
}

/// The lines of a listing are the text of its links, entry by entry.
proof fn lemma_graph_lines_pairs(keys: Seq<Seq<char>>, vals: Seq<Seq<Seq<char>>>, arrow: Seq<char>)
    ensures
        graph_lines(keys, vals, arrow) == pair_lines(entry_pairs(keys, vals), arrow),
    decreases keys.len(),
{
    if keys.len() > 0 {
        lemma_graph_lines_pairs(keys.drop_last(), vals.drop_last(), arrow);
        let block = vals[keys.len() - 1].map_values(|v: Seq<char>| (keys.last(), v));
        lemma_link_lines_pairs(keys.last(), vals[keys.len() - 1], arrow);
        lemma_pair_lines_concat(entry_pairs(keys.drop_last(), vals.drop_last()), block, arrow);
    }
}

/// A link is listed exactly when some entry has it.
proof fn lemma_entry_pairs_contains(keys: Seq<Seq<char>>, vals: Seq<Seq<Seq<char>>>, a: Seq<char>, b: Seq<char>)
    requires
        keys.len() == vals.len(),
    ensures
        entry_pairs(keys, vals).contains((a, b)) <==> exists|i: int|
            0 <= i < keys.len() && keys[i] == a && #[trigger] vals[i].contains(b),
    decreases keys.len(),
{
    if keys.len() > 0 {
        let n = keys.len() - 1;
        lemma_entry_pairs_contains(keys.drop_last(), vals.drop_last(), a, b);
        let pre = entry_pairs(keys.drop_last(), vals.drop_last());
        let block = vals[n].map_values(|v: Seq<char>| (keys.last(), v));
        let all = pre + block;
        if all.contains((a, b)) {
            let k = choose|k: int| 0 <= k < all.len() && all[k] == (a, b);
            if k < pre.len() {
                assert(pre[k] == (a, b));
                let i = choose|i: int| 0 <= i < keys.drop_last().len() && keys.drop_last()[i] == a && #[trigger] vals.drop_last()[i].contains(b);
                assert(vals[i] == vals.drop_last()[i]);
            } else {
                assert(block[k - pre.len()] == (a, b));
                assert(vals[n][k - pre.len()] == b);
                assert(vals[n].contains(b));
            }
        }
        if exists|i: int| 0 <= i < keys.len() && keys[i] == a && #[trigger] vals[i].contains(b) {
            let i = choose|i: int| 0 <= i < keys.len() && keys[i] == a && #[trigger] vals[i].contains(b);
            if i < n {
                assert(vals.drop_last()[i] == vals[i]);
                assert(keys.drop_last()[i] == keys[i]);
                assert(pre.contains((a, b)));
                let k = choose|k: int| 0 <= k < pre.len() && pre[k] == (a, b);
                assert(all[k] == (a, b));
            } else {
                let k = choose|k: int| 0 <= k < vals[n].len() && vals[n][k] == b;
                assert(block[k] == (a, b));
                assert(all[pre.len() + k] == (a, b));
            }
        }
    }
}

/// With distinct entries, each listing distinct targets, no link is listed twice.
proof fn lemma_entry_pairs_distinct(keys: Seq<Seq<char>>, vals: Seq<Seq<Seq<char>>>)
    requires
        keys.len() == vals.len(),
        keys.no_duplicates(),
        forall|i: int| 0 <= i < vals.len() ==> (#[trigger] vals[i]).no_duplicates(),
    ensures
        entry_pairs(keys, vals).no_duplicates(),
    decreases keys.len(),
{
    if keys.len() > 0 {
        let n = keys.len() - 1;
        let kd = keys.drop_last();
        let vd = vals.drop_last();
        assert forall|i: int| 0 <= i < vd.len() implies (#[trigger] vd[i]).no_duplicates() by {
            assert(vd[i] == vals[i]);
        }
        lemma_entry_pairs_distinct(kd, vd);
        let pre = entry_pairs(kd, vd);
        let block = vals[n].map_values(|v: Seq<char>| (keys.last(), v));
        let all = pre + block;
        assert forall|p: int, q: int| 0 <= p < all.len() && 0 <= q < all.len() && p != q implies all[p] != all[q] by {
            if p < pre.len() && q >= pre.len() {
                let (a, b) = all[p];
                assert(pre.contains((a, b)));
                lemma_entry_pairs_contains(kd, vd, a, b);
                let i = choose|i: int| 0 <= i < kd.len() && kd[i] == a && #[trigger] vd[i].contains(b);
                assert(keys[i] == a);
                assert(all[q].0 == keys[n]);
            } else if q < pre.len() && p >= pre.len() {
                let (a, b) = all[q];
                assert(pre.contains((a, b)));
                lemma_entry_pairs_contains(kd, vd, a, b);
                let i = choose|i: int| 0 <= i < kd.len() && kd[i] == a && #[trigger] vd[i].contains(b);
                assert(keys[i] == a);
                assert(all[p].0 == keys[n]);
            } else if p >= pre.len() && q >= pre.len() {
                assert(all[p].1 == vals[n][p - pre.len()]);
                assert(all[q].1 == vals[n][q - pre.len()]);
            } else {
                assert(all[p] == pre[p]);
                assert(all[q] == pre[q]);
            }
        }
    }
}

/// Links ordered by source, then by target, as strings are ordered.
pub open spec fn link_lt(p: (Seq<char>, Seq<char>), q: (Seq<char>, Seq<char>)) -> bool {
    crate::text::seq_lt(p.0, q.0) || (p.0 == q.0 && crate::text::seq_lt(p.1, q.1))
}

/// With entries and their targets in increasing order, the links are listed
/// in increasing order.
proof fn lemma_entry_pairs_sorted(keys: Seq<Seq<char>>, vals: Seq<Seq<Seq<char>>>)
    requires
        keys.len() == vals.len(),
        strictly_sorted::<String>(keys),
        forall|i: int| 0 <= i < vals.len() ==> strictly_sorted::<String>(#[trigger] vals[i]),
    ensures
        forall|p: int, q: int|
            0 <= p < q < entry_pairs(keys, vals).len() ==> link_lt(
                #[trigger] entry_pairs(keys, vals)[p],
                #[trigger] entry_pairs(keys, vals)[q],
            ),
    decreases keys.len(),
{
    if keys.len() > 0 {
        let n = keys.len() - 1;
        let kd = keys.drop_last();
        let vd = vals.drop_last();
        assert forall|i: int| 0 <= i < vd.len() implies strictly_sorted::<String>(#[trigger] vd[i]) by {
            assert(vd[i] == vals[i]);
        }
        assert(strictly_sorted::<String>(kd)) by {
            assert forall|i: int, j: int| 0 <= i < j < kd.len() implies crate::text::seq_lt(#[trigger] kd[i], #[trigger] kd[j]) by {
                assert(kd[i] == keys[i] && kd[j] == keys[j]);
            }
        }
        lemma_entry_pairs_sorted(kd, vd);
        let pre = entry_pairs(kd, vd);
        let block = vals[n].map_values(|v: Seq<char>| (keys.last(), v));
        let all = pre + block;
        assert(all == entry_pairs(keys, vals));
        assert forall|p: int, q: int| 0 <= p < q < all.len() implies link_lt(#[trigger] all[p], #[trigger] all[q]) by {
            if q < pre.len() {
                assert(all[p] == pre[p] && all[q] == pre[q]);
            } else if p >= pre.len() {
                assert(all[p].1 == vals[n][p - pre.len()]);
                assert(all[q].1 == vals[n][q - pre.len()]);
                assert(crate::text::seq_lt(vals[n][p - pre.len()], vals[n][q - pre.len()]));
            } else {
                let (a, b) = all[p];
                assert(pre[p] == (a, b));
                assert(pre.contains((a, b)));
                lemma_entry_pairs_contains(kd, vd, a, b);
                let i = choose|i: int| 0 <= i < kd.len() && kd[i] == a && #[trigger] vd[i].contains(b);
                assert(keys[i] == a);
                assert(crate::text::seq_lt(keys[i], keys[n]));
                assert(all[q].0 == keys[n]);
            }
        }
    }
}

/// Rendering lists every link once, in order: the lines of a sorted
/// dependency map are the text of a list that holds each of its links
/// exactly once, and nothing else, by increasing source, then target.
pub proof fn lemma_rendering_lists_every_link(links: &DepMap, arrow: Seq<char>)
    requires
        dep_map_sorted(links),
    ensures
        exists|ps: Seq<(Seq<char>, Seq<char>)>|
            {
                &&& ps.to_set() == dep_pairs(links)
                &&& ps.no_duplicates()
                &&& forall|p: int, q: int| 0 <= p < q < ps.len() ==> link_lt(#[trigger] ps[p], #[trigger] ps[q])
                &&& #[trigger] pair_lines(ps, arrow) == graph_lines(links.keys_view(), links.vals_view(), arrow)
            },
{
    let keys = links.keys_view();
    let vals = links.vals_view();
    let ps = entry_pairs(keys, vals);
    lemma_graph_lines_pairs(keys, vals, arrow);
    assert(keys.no_duplicates()) by {
        assert forall|i: int, j: int| 0 <= i < keys.len() && 0 <= j < keys.len() && i != j implies keys[i] != keys[j] by {
            if keys[i] == keys[j] {
                crate::sorted::lemma_sorted_distinct::<String>(keys, i, j);
            }
        }
    }
    assert forall|i: int| 0 <= i < vals.len() implies (#[trigger] vals[i]).no_duplicates() by {
        assert forall|p: int, q: int| 0 <= p < vals[i].len() && 0 <= q < vals[i].len() && p != q implies vals[i][p] != vals[i][q] by {
            if vals[i][p] == vals[i][q] {
                crate::sorted::lemma_sorted_distinct::<String>(vals[i], p, q);
            }
        }
    }
    lemma_entry_pairs_distinct(keys, vals);
    lemma_entry_pairs_sorted(keys, vals);
    assert forall|pr: (Seq<char>, Seq<char>)| ps.to_set().contains(pr) == dep_pairs(links).contains(pr) by {
        lemma_entry_pairs_contains(keys, vals, pr.0, pr.1);
        if ps.contains(pr) {
            let i = choose|i: int| 0 <= i < keys.len() && keys[i] == pr.0 && #[trigger] vals[i].contains(pr.1);
            links.lemma_entry(i);
        }
        if dep_pairs(links).contains(pr) {
            assert(keys.contains(pr.0));
            let i = choose|i: int| 0 <= i < keys.len() && keys[i] == pr.0;
            links.lemma_entry(i);
            assert(vals[i].contains(pr.1));
        }
    }
    assert(ps.to_set() =~= dep_pairs(links));
}

/// An empty map of links.
pub fn new_link_map<K: SortedKey>() -> (m: LinkMap<K>)
    ensures
        link_map_wf(&m),
        link_pairs(&m) == Set::<(<K as View>::V, <K as View>::V)>::empty(),
        m.keys_view() == Seq::<<K as View>::V>::empty(),
{
    let m: LinkMap<K> = SortedMap::new();
    assert(link_pairs(&m) =~= Set::<(<K as View>::V, <K as View>::V)>::empty());
    m
}

/// Records the link from `from` to `to`, creating the entry for `from`
/// when it has none yet.
pub fn add_link<K: SortedKey>(m: &mut LinkMap<K>, from: K, to: K)
    requires
        link_map_wf(old(m)),
    ensures
        link_map_wf(final(m)),
        link_pairs(final(m)) == link_pairs(old(m)).insert((from@, to@)),
        final(m).keys_view().to_set() == old(m).keys_view().to_set().insert(from@),
{
    let ghost om = m.to_map();
    let ghost ov = m.vals_view();
    match m.find(&from) {
        Some(i) => {
            let mut set = m.replace_value_at(i, SortedSet::new());
            proof {
                old(m).lemma_entry(i as int);
            }
            let ghost before = set@;
            set.insert(to);
            let ghost after = set@;
            let _ = m.replace_value_at(i, set);
            assert(m.vals_view() =~= ov.update(i as int, after));
            assert(m.keys_view() == old(m).keys_view());
            assert forall|j: int| 0 <= j < m.vals_view().len() implies strictly_sorted::<K>(
                #[trigger] m.vals_view()[j],
            ) && m.vals_view()[j].len() > 0 by {
                if j == i {
                    assert(after.to_set().contains(to@));
                }
            }
            assert(m.to_map() =~= om.insert(from@, after));
            assert(om[from@] == before);
            assert(after.to_set() == before.to_set().insert(to@));
            assert(link_pairs(m) =~= link_pairs(old(m)).insert((from@, to@))) by {
                assert forall|p: (<K as View>::V, <K as View>::V)| link_pairs(m).contains(p) == link_pairs(old(m)).insert(
                    (from@, to@),
                ).contains(p) by {
                    if p.0 == from@ {
                        assert(after.contains(p.1) == after.to_set().contains(p.1));
                        assert(before.contains(p.1) == before.to_set().contains(p.1));
                    }
                }
            }
        },
        None => {
            let mut set: SortedSet<K> = SortedSet::new();
            assert(set@.to_set() =~= Set::<<K as View>::V>::empty());
            set.insert(to);
            let ghost sv = set@;
            assert(set.to_set().contains(to@));
            assert(sv.len() == 1) by {
                assert(sv.to_set().contains(to@));
                assert(sv.len() > 0);
                assert(sv.to_set().contains(sv[0]));
                assert(sv[0] == to@);
                lemma_singleton_len::<K>(sv);
            }
            m.insert(from, set);
            assert forall|j: int| 0 <= j < m.vals_view().len() implies strictly_sorted::<K>(
                #[trigger] m.vals_view()[j],
            ) && m.vals_view()[j].len() > 0 by {
                let k = m.keys_view()[j];
                m.lemma_entry(j);
                if k != from@ {
                    let jj = choose|jj: int| 0 <= jj < old(m).keys_view().len() && old(m).keys_view()[jj] == k;
                    old(m).lemma_entry(jj);
                }
            }
            assert(link_pairs(m) =~= link_pairs(old(m)).insert((from@, to@))) by {
                assert forall|p: (<K as View>::V, <K as View>::V)| link_pairs(m).contains(p) == link_pairs(old(m)).insert(
                    (from@, to@),
                ).contains(p) by {
                    if p.0 == from@ {
                        assert(sv.to_set() == Set::<<K as View>::V>::empty().insert(to@));
                        assert(sv.contains(p.1) == sv.to_set().contains(p.1));
                    }
                }
            }
        },
    }
}

/// A strictly sorted sequence whose set holds a single element has length one.
proof fn lemma_singleton_len<K: SortedKey>(s: Seq<<K as View>::V>)
    requires
        s.len() > 0,
        s.to_set() == Set::<<K as View>::V>::empty().insert(s[0]),
        strictly_sorted::<K>(s),
    ensures
        s.len() == 1,
{
    if s.len() > 1 {
        assert(s.to_set().contains(s[1]));
        crate::sorted::lemma_sorted_distinct::<K>(s, 0, 1);
    }
}

/// Renders every link as `from`, `arrow`, `to` and a newline, in increasing
/// order of components and, within one component, of dependencies.
pub fn render_links(links: &DepMap, arrow: &str) -> (out: String)
    requires
        dep_map_sorted(links),
    ensures
        out@ == graph_lines(links.keys_view(), links.vals_view(), arrow@),
{
    let mut out = String::new();
    let n = links.len();
    let mut i: usize = 0;
    while i < n
        invariant
            dep_map_sorted(links),
            n == links.keys_view().len(),
            i <= n,
            out@ == graph_lines(links.keys_view().take(i as int), links.vals_view().take(i as int), arrow@),
        decreases n - i,
    {
        let name = links.key_at(i);
        let deps = links.value_at(i);
        let ghost prefix = out@;
        let m = deps.len();
        let mut j: usize = 0;
        while j < m
            invariant
                dep_map_sorted(links),
                n == links.keys_view().len(),
                i < n,
                m == deps@.len(),
                deps@ == links.vals_view()[i as int],
                name@ == links.keys_view()[i as int],
                j <= m,
                out@ == prefix + link_lines(name@, deps@.take(j as int), arrow@),
            decreases m - j,
        {
            let dep = deps.get(j);
            out.append(name.as_str());
            out.append(arrow);
            out.append(dep.as_str());
            out.append("\n");
            assert(deps@.take(j + 1).drop_last() =~= deps@.take(j as int));
            j = j + 1;
        }
        assert(deps@.take(m as int) =~= deps@);
        let ghost ks = links.keys_view().take(i + 1);
        let ghost vs = links.vals_view().take(i + 1);
        assert(ks.drop_last() =~= links.keys_view().take(i as int));
        assert(vs.drop_last() =~= links.vals_view().take(i as int));
        i = i + 1;
    }
    assert(links.keys_view().take(n as int) =~= links.keys_view());
    assert(links.vals_view().take(n as int) =~= links.vals_view());
    out
}

} // verus!
