use vstd::prelude::*;

use crate::links::{add_link, dep_map_wf, dep_pairs, new_link_map, DepMap};
use crate::sorted::SortedSet;
use crate::text::{chars_of, push_char, split_on, split_str};
use crate::utils::{find_arceos_crate, is_arceos_crate, CrateIndex, Roots};
use vstd::string::StringExecFns;

verus! {

/// The arguments of `--features`: a comma before each feature.
pub open spec fn feature_args(fs: Seq<Seq<char>>) -> Seq<char>
    decreases fs.len(),
{
    if fs.len() == 0 {
        Seq::empty()
    } else {
        feature_args(fs.drop_last()) + ","@ + fs.last()
    }
}

/// The `cargo tree` command line that lists the normal dependencies with
/// their depth, one library per line and without deduplication.
pub open spec fn cargo_tree_cmdline(fs: Seq<Seq<char>>, use_default_features: bool) -> Seq<char> {
    "cargo tree -e normal --prefix depth --format {lib} --no-dedupe"@ + (if !use_default_features {
        " --no-default-features"@
    } else {
        Seq::empty()
    }) + (if fs.len() > 0 {
        " --features "@ + feature_args(fs)
    } else {
        Seq::empty()
    })
}

/// The `cargo tree` command that lists the dependencies of a crate with the
/// given features.
pub fn cargo_tree_command(req_features: &SortedSet<String>, use_default_features: bool) -> (cmd:
    String)
    requires
        req_features.wf(),
    ensures
        cmd@ == cargo_tree_cmdline(req_features@, use_default_features),
{
    let mut cmd = String::from_str("cargo tree -e normal --prefix depth --format {lib} --no-dedupe");
    if !use_default_features {
        cmd.append(" --no-default-features");
    }
    let ghost head = cmd@;
    if req_features.len() > 0 {
        cmd.append(" --features ");
        let ghost base = cmd@;
        let n = req_features.len();
        let mut i: usize = 0;
        while i < n
            invariant
                n == req_features@.len(),
                i <= n,
                cmd@ == base + feature_args(req_features@.take(i as int)),
            decreases n - i,
        {
            cmd.append(",");
            cmd.append(req_features.get(i).as_str());
            assert(req_features@.take(i + 1).drop_last() =~= req_features@.take(i as int));
            i = i + 1;
        }
        assert(req_features@.take(n as int) =~= req_features@);
    }
    cmd
}

/// The Unicode white space characters (`char::is_whitespace`).
pub open spec fn is_white(c: char) -> bool {
    ||| ('\u{9}' <= c && c <= '\u{d}')
    ||| c == ' '
    ||| c == '\u{85}'
    ||| c == '\u{a0}'
    ||| c == '\u{1680}'
    ||| ('\u{2000}' <= c && c <= '\u{200a}')
    ||| c == '\u{2028}'
    ||| c == '\u{2029}'
    ||| c == '\u{202f}'
    ||| c == '\u{205f}'
    ||| c == '\u{3000}'
}

/// Whether `c` is white space.
pub fn is_white_char(c: char) -> (r: bool)
    ensures
        r == is_white(c),
{
    ('\u{9}' <= c && c <= '\u{d}') || c == ' ' || c == '\u{85}' || c == '\u{a0}' || c == '\u{1680}'
        || ('\u{2000}' <= c && c <= '\u{200a}') || c == '\u{2028}' || c == '\u{2029}' || c
        == '\u{202f}' || c == '\u{205f}' || c == '\u{3000}'
}

/// The leading run of non-white characters of `s`.
pub open spec fn word_prefix(s: Seq<char>) -> Seq<char>
    decreases s.len(),
{
    if s.len() == 0 || is_white(s[0]) {
        Seq::empty()
    } else {
        seq![s[0]] + word_prefix(s.drop_first())
    }
}

/// The first white-space separated word of `s`, if it has one.
pub open spec fn first_word(s: Seq<char>) -> Option<Seq<char>>
    decreases s.len(),
{
    if s.len() == 0 {
        None
    } else if is_white(s[0]) {
        first_word(s.drop_first())
    } else {
        Some(word_prefix(s))
    }
}

/// The lines of `s` as `str::lines` gives them: split at each `\n`, a `\r`
/// before the `\n` dropped, and no empty line after a final `\n`.
pub open spec fn text_lines(s: Seq<char>) -> Seq<Seq<char>> {
    let pieces = split_on(s, '\n');
    let body = pieces.drop_last().map_values(|p: Seq<char>| strip_cr(p));
    if pieces.last().len() == 0 {
        body
    } else {
        body.push(pieces.last())
    }
}

/// `p` without one trailing `\r`.
pub open spec fn strip_cr(p: Seq<char>) -> Seq<char> {
    if p.len() > 0 && p.last() == '\r' {
        p.drop_last()
    } else {
        p
    }
}

/// A line of `cargo tree --prefix depth` output: its first word is the
/// depth, one decimal digit, followed by the library name.
pub open spec fn line_entry(line: Seq<char>) -> Option<(int, Seq<char>)> {
    match first_word(line) {
        Some(w) => if w.len() > 0 && '0' <= w[0] && w[0] <= '9' {
            Some(((w[0] as int) - ('0' as int), w.drop_first()))
        } else {
            None
        },
        None => None,
    }
}

/// Every line of `s` is an entry.
pub open spec fn all_lines_parse(s: Seq<char>) -> bool {
    forall|i: int| 0 <= i < text_lines(s).len() ==> #[trigger] line_entry(text_lines(s)[i]) is Some
}

/// The entries of all lines of `s`, in order.
pub open spec fn tree_entries(s: Seq<char>) -> Seq<(int, Seq<char>)> {
    text_lines(s).map_values(|l: Seq<char>| line_entry(l)->Some_0)
}

/// The lines of `s`.
fn lines_of(s: &str) -> (ls: Vec<String>)
    ensures
        ls@.map_values(|l: String| l@) == text_lines(s@),
{
    let pieces = split_str(s, '\n');
    let ghost pv = pieces@.map_values(|p: String| p@);
    proof {
        crate::text::lemma_split_on_nonempty(s@, '\n');
    }
    let n = pieces.len();
    let mut ls: Vec<String> = Vec::new();
    let mut i: usize = 0;
    while i + 1 < n
        invariant
            n == pv.len(),
            n > 0,
            pv == pieces@.map_values(|p: String| p@),
            i + 1 <= n,
            ls@.map_values(|l: String| l@) == pv.take(i as int).map_values(|p: Seq<char>| strip_cr(p)),
        decreases n - i,
    {
        let piece = &pieces[i];
        let cs = chars_of(piece.as_str());
        let mut line = String::new();
        let mut k: usize = 0;
        let keep: usize = if cs.len() > 0 && cs[cs.len() - 1] == '\r' {
            cs.len() - 1
        } else {
            cs.len()
        };
        while k < keep
            invariant
                keep <= cs@.len(),
                k <= keep,
                line@ == cs@.take(k as int),
            decreases keep - k,
        {
            push_char(&mut line, cs[k]);
            assert(cs@.take(k + 1) =~= cs@.take(k as int).push(cs@[k as int]));
            k = k + 1;
        }
        assert(line@ == strip_cr(pv[i as int])) by {
            assert(cs@ == pv[i as int]);
            if cs@.len() > 0 && cs@.last() == '\r' {
                assert(cs@.take(keep as int) =~= cs@.drop_last());
            } else {
                assert(cs@.take(keep as int) =~= cs@);
            }
        }
        let ghost prev = ls@.map_values(|l: String| l@);
        let ghost lv = line@;
        ls.push(line);
        assert(ls@.map_values(|l: String| l@) =~= prev.push(lv));
        assert(pv.take(i + 1) =~= pv.take(i as int).push(pv[i as int]));
        assert(ls@.map_values(|l: String| l@) =~= pv.take(i + 1).map_values(|p: Seq<char>| strip_cr(p)));
        i = i + 1;
    }
    assert(pv.take(i as int) =~= pv.drop_last());
    let last = &pieces[n - 1];
    if !last.as_str().is_empty() {
        let ghost prev = ls@.map_values(|l: String| l@);
        ls.push(last.clone());
        assert(ls@.map_values(|l: String| l@) =~= prev.push(pv.last()));
        assert(ls@.map_values(|l: String| l@) =~= pv.drop_last().map_values(|p: Seq<char>| strip_cr(p)).push(pv.last()));
    }
    ls
}


/// The entry of one line, if the line is one.
fn parse_line(line: &String) -> (r: Option<(i32, String)>)
    ensures
        match r {
            Some(e) => line_entry(line@) == Some((e.0 as int, e.1@)),
            None => line_entry(line@) is None,
        },
{
    let cs = chars_of(line.as_str());
    let n = cs.len();
    let mut i: usize = 0;
    assert(cs@.skip(0) =~= cs@);
    while i < n && is_white_char(cs[i])
        invariant
            n == cs@.len(),
            i <= n,
            first_word(cs@) == first_word(cs@.skip(i as int)),
        decreases n - i,
    {
        assert(cs@.skip(i as int).drop_first() =~= cs@.skip(i + 1));
        i = i + 1;
    }
    if i == n {
        assert(cs@.skip(i as int).len() == 0);
        return None;
    }
    let start = i;
    let first = cs[start];
    assert(cs@.skip(start as int).drop_first() =~= cs@.skip(start + 1));
    assert(first_word(cs@) == Some(seq![first] + word_prefix(cs@.skip(start + 1))));
    let mut name = String::new();
    let mut j: usize = start + 1;
    while j < n && !is_white_char(cs[j])
        invariant
            n == cs@.len(),
            start < j <= n,
            name@ + word_prefix(cs@.skip(j as int)) == word_prefix(cs@.skip(start + 1)),
        decreases n - j,
    {
        assert(cs@.skip(j as int).drop_first() =~= cs@.skip(j + 1));
        assert(word_prefix(cs@.skip(j as int)) == seq![cs@[j as int]] + word_prefix(cs@.skip(j + 1)));
        push_char(&mut name, cs[j]);
        assert(name@ + word_prefix(cs@.skip(j + 1)) =~= (name@.drop_last() + seq![cs@[j as int]]) + word_prefix(cs@.skip(j + 1)));
        j = j + 1;
    }
    assert(word_prefix(cs@.skip(j as int)) == Seq::<char>::empty()) by {
        if j < n {
            assert(cs@.skip(j as int)[0] == cs@[j as int]);
        }
    }
    assert(name@ =~= word_prefix(cs@.skip(start + 1)));
    let ghost w = seq![first] + name@;
    assert(w[0] == first);
    assert(w.drop_first() =~= name@);
    if '0' <= first && first <= '9' {
        let level = ((first as u32) - ('0' as u32)) as i32;
        Some((level, name))
    } else {
        None
    }
}

/// The entries of all lines of `cargo tree` output, or `None` when some
/// line is not an entry (blank, or not led by a depth digit).
pub fn parse_deps(deps: &str) -> (r: Option<Vec<(i32, String)>>)
    ensures
        match r {
            Some(v) => all_lines_parse(deps@) && v@.map_values(|e: (i32, String)| (e.0 as int, e.1@))
                == tree_entries(deps@),
            None => !all_lines_parse(deps@),
        },
{
    let lines = lines_of(deps);
    let ghost lv = lines@.map_values(|l: String| l@);
    let mut rst: Vec<(i32, String)> = Vec::new();
    let mut i: usize = 0;
    while i < lines.len()
        invariant
            i <= lines.len(),
            lv == lines@.map_values(|l: String| l@),
            lv == text_lines(deps@),
            forall|k: int| 0 <= k < i ==> #[trigger] line_entry(lv[k]) is Some,
            rst@.map_values(|e: (i32, String)| (e.0 as int, e.1@)) == lv.take(i as int).map_values(
                |l: Seq<char>| line_entry(l)->Some_0,
            ),
        decreases lines.len() - i,
    {
        match parse_line(&lines[i]) {
            Some(e) => {
                let ghost prev = rst@.map_values(|e: (i32, String)| (e.0 as int, e.1@));
                let ghost ev = (e.0 as int, e.1@);
                rst.push(e);
                assert(rst@.map_values(|e: (i32, String)| (e.0 as int, e.1@)) =~= prev.push(ev));
                assert(lv.take(i + 1) =~= lv.take(i as int).push(lv[i as int]));
                assert(lv.take(i + 1).map_values(|l: Seq<char>| line_entry(l)->Some_0) =~= lv.take(
                    i as int,
                ).map_values(|l: Seq<char>| line_entry(l)->Some_0).push(ev));
            },
            None => {
                assert(!(line_entry(text_lines(deps@)[i as int]) is Some));
                return None;
            },
        }
        i = i + 1;
    }
    assert(lv.take(i as int) =~= lv);
    Some(rst)
}


/// `stack` cut down, or padded with empty names, to length `n`.
pub open spec fn resized(stack: Seq<Seq<char>>, n: nat) -> Seq<Seq<char>> {
    if n <= stack.len() {
        stack.take(n as int)
    } else {
        stack + Seq::new((n - stack.len()) as nat, |i: int| Seq::<char>::empty())
    }
}

/// The stack of enclosing names, and the links found, after reading the
/// entries of `cargo tree` output below the root `root`. Entries outside
/// the tree are passed over. An entry at depth `d` is linked from the name
/// at depth `d - 1` on the stack (an empty name where the stack was shorter),
/// and becomes the name at depth `d`.
pub open spec fn tree_state(
    entries: Seq<(int, Seq<char>)>,
    index: &CrateIndex,
    root: Seq<char>,
) -> (Seq<Seq<char>>, Set<(Seq<char>, Seq<char>)>)
    decreases entries.len(),
{
    if entries.len() == 0 {
        (seq![root], Set::empty())
    } else {
        let prev = tree_state(entries.drop_last(), index, root);
        let level = entries.last().0;
        let name = entries.last().1;
        if !is_arceos_crate(index, name) {
            prev
        } else {
            let stack = resized(prev.0, level as nat);
            let links = if stack.len() > 0 {
                prev.1.insert((stack.last(), name))
            } else {
                prev.1
            };
            (stack.push(name), links)
        }
    }
}

/// The links between the tree's crates in `cargo tree` output whose first
/// line is the root crate `root`.
pub open spec fn cargo_tree_links(out: Seq<char>, index: &CrateIndex, root: Seq<char>) -> Set<
    (Seq<char>, Seq<char>),
> {
    let entries = tree_entries(out);
    let below = if entries.len() == 0 {
        entries
    } else {
        entries.drop_first()
    };
    tree_state(below, index, root).1
}

/// Builds the dependency links among the tree's crates from the output of
/// `cargo tree --prefix depth` for the crate `name`, or `None` when some
/// line of the output is not an entry.
pub fn parse_deps_from_cargo_tree(
    name: String,
    deps_output: &str,
    roots: &Roots,
    index: &CrateIndex,
) -> (r: Option<DepMap>)
    ensures
        match r {
            Some(m) => all_lines_parse(deps_output@) && dep_map_wf(&m) && dep_pairs(&m)
                == cargo_tree_links(deps_output@, index, name@),
            None => !all_lines_parse(deps_output@),
        },
{
    let deps_parsed = match parse_deps(deps_output) {
        Some(v) => v,
        None => return None,
    };
    let ghost entries = tree_entries(deps_output@);
    let ghost below = if entries.len() == 0 {
        entries
    } else {
        entries.drop_first()
    };
    let ghost ev = deps_parsed@.map_values(|e: (i32, String)| (e.0 as int, e.1@));
    let mut ret: DepMap = new_link_map();
    let mut stk: Vec<String> = Vec::new();
    let ghost root = name@;
    stk.push(name);
    assert(stk@.map_values(|s: String| s@) =~= seq![root]);
    let n = deps_parsed.len();
    if n == 0 {
        return Some(ret);
    }
    assert(below.take(0) =~= Seq::<(int, Seq<char>)>::empty());
    let mut i: usize = 1;
    while i < n
        invariant
            n == deps_parsed@.len(),
            n == text_lines(deps_output@).len(),
            all_lines_parse(deps_output@),
            ev == deps_parsed@.map_values(|e: (i32, String)| (e.0 as int, e.1@)),
            ev == entries,
            entries == tree_entries(deps_output@),
            below == (if entries.len() == 0 {
                entries
            } else {
                entries.drop_first()
            }),
            1 <= i <= n,
            dep_map_wf(&ret),
            (stk@.map_values(|s: String| s@), dep_pairs(&ret)) == tree_state(
                below.take(i - 1),
                index,
                root,
            ),
        decreases n - i,
    {
        let level = deps_parsed[i].0;
        let crate_name = &deps_parsed[i].1;
        let ghost prev_stack = stk@.map_values(|s: String| s@);
        let ghost prev_links = dep_pairs(&ret);
        assert(below.take(i as int).drop_last() =~= below.take(i - 1));
        assert(below.take(i as int).last() == ev[i as int]);
        if find_arceos_crate(roots, index, crate_name).is_some() {
            assert(0 <= level <= 9) by {
                assert(line_entry(text_lines(deps_output@)[i as int]) is Some);
                assert(ev[i as int] == line_entry(text_lines(deps_output@)[i as int])->Some_0);
            }
            let target = level as usize;
            if target <= stk.len() {
                stk.truncate(target);
                assert(stk@.map_values(|s: String| s@) =~= resized(prev_stack, target as nat));
            } else {
                while stk.len() < target
                    invariant
                        stk@.len() <= target,
                        target > prev_stack.len(),
                        stk@.len() >= prev_stack.len(),
                        stk@.map_values(|s: String| s@) =~= prev_stack + Seq::new(
                            (stk@.len() - prev_stack.len()) as nat,
                            |k: int| Seq::<char>::empty(),
                        ),
                    decreases target - stk.len(),
                {
                    let ghost before = stk@.map_values(|s: String| s@);
                    stk.push(String::new());
                    assert(stk@.map_values(|s: String| s@) =~= before.push(Seq::<char>::empty()));
                }
                assert(stk@.map_values(|s: String| s@) =~= resized(prev_stack, target as nat));
            }
            let ghost stack = stk@.map_values(|s: String| s@);
            if stk.len() > 0 {
                let last = stk[stk.len() - 1].clone();
                assert(last@ == stack.last());
                add_link(&mut ret, last, crate_name.clone());
            }
            stk.push(crate_name.clone());
            assert(stk@.map_values(|s: String| s@) =~= stack.push(crate_name@));
        }
        i = i + 1;
    }
    assert(below.take(n - 1) =~= below);
    Some(ret)
}


/// The first line of `cargo tree` output is never read: the root is the name
/// given. Two outputs that differ only in their first line, each an entry,
/// are read alike: both or neither are accepted, with the same links.
pub proof fn lemma_first_line_unused(
    index: &CrateIndex,
    root: Seq<char>,
    first1: Seq<char>,
    first2: Seq<char>,
    rest: Seq<char>,
)
    requires
        !first1.contains('\n'),
        !first2.contains('\n'),
        line_entry(strip_cr(first1)) is Some,
        line_entry(strip_cr(first2)) is Some,
    ensures
        all_lines_parse(first1 + "\n"@ + rest) == all_lines_parse(first2 + "\n"@ + rest),
        cargo_tree_links(first1 + "\n"@ + rest, index, root) == cargo_tree_links(first2 + "\n"@ + rest, index, root),
{
    lemma_text_lines_first(first1, rest);
    lemma_text_lines_first(first2, rest);
    let o1 = first1 + "\n"@ + rest;
    let o2 = first2 + "\n"@ + rest;
    assert(tree_entries(o1).drop_first() =~= tree_entries(rest));
    assert(tree_entries(o2).drop_first() =~= tree_entries(rest));
    if all_lines_parse(o2) {
        assert forall|i: int| 0 <= i < text_lines(o1).len() implies #[trigger] line_entry(text_lines(o1)[i]) is Some by {
            if i > 0 {
                assert(text_lines(o1)[i] == text_lines(o2)[i]);
            }
        }
    }
    if all_lines_parse(o1) {
        assert forall|i: int| 0 <= i < text_lines(o2).len() implies #[trigger] line_entry(text_lines(o2)[i]) is Some by {
            if i > 0 {
                assert(text_lines(o1)[i] == text_lines(o2)[i]);
            }
        }
    }
}

/// The lines of text whose first line is `first` are that line, then the
/// lines of what follows it.
proof fn lemma_text_lines_first(first: Seq<char>, rest: Seq<char>)
    requires
        !first.contains('\n'),
    ensures
        text_lines(first + "\n"@ + rest) == seq![strip_cr(first)] + text_lines(rest),
{
    let s = first + "\n"@ + rest;
    reveal_strlit("\n");
    assert(s =~= first + seq!['\n'] + rest);
    crate::text::lemma_split_on_first(first, rest, '\n');
    crate::text::lemma_split_on_nonempty(rest, '\n');
    let p = split_on(rest, '\n');
    let pieces = split_on(s, '\n');
    assert(pieces == seq![first] + p);
    assert(pieces.drop_last() =~= seq![first] + p.drop_last());
    assert(pieces.last() == p.last());
    assert(pieces.drop_last().map_values(|q: Seq<char>| strip_cr(q)) =~= seq![strip_cr(first)]
        + p.drop_last().map_values(|q: Seq<char>| strip_cr(q)));
    assert(text_lines(s) =~= seq![strip_cr(first)] + text_lines(rest));
}


/// Links only accumulate as entries are read, and each leads to a crate of
/// the tree; an entry of the tree at depth one or more is linked to.
proof fn lemma_tree_state_links(entries: Seq<(int, Seq<char>)>, index: &CrateIndex, root: Seq<char>)
    ensures
        forall|a: Seq<char>, b: Seq<char>| #[trigger] tree_state(entries, index, root).1.contains((a, b)) ==> is_arceos_crate(index, b),
        forall|k: int|
            0 <= k < entries.len() && entries[k].0 >= 1 && is_arceos_crate(index, #[trigger] entries[k].1)
                ==> exists|a: Seq<char>| tree_state(entries, index, root).1.contains((a, entries[k].1)),
    decreases entries.len(),
{
    if entries.len() > 0 {
        let prev = tree_state(entries.drop_last(), index, root);
        lemma_tree_state_links(entries.drop_last(), index, root);
        let cur = tree_state(entries, index, root);
        assert(prev.1.subset_of(cur.1));
        let last = entries.len() - 1;
        assert forall|k: int|
            0 <= k < entries.len() && entries[k].0 >= 1 && is_arceos_crate(index, #[trigger] entries[k].1)
                implies exists|a: Seq<char>| cur.1.contains((a, entries[k].1)) by {
            if k < last {
                assert(entries.drop_last()[k] == entries[k]);
                let a = choose|a: Seq<char>| prev.1.contains((a, entries.drop_last()[k].1));
                assert(cur.1.contains((a, entries[k].1)));
            } else {
                let level = entries.last().0;
                let stack = resized(prev.0, level as nat);
                assert(stack.len() == level);
                assert(cur.1.contains((stack.last(), entries[k].1)));
            }
        }
    }
}

/// Reading `cargo tree` output keeps exactly the entries of crates of the
/// tree, as `find_arceos_crate` finds them (the user library `libax`, the
/// crate root and the module root): every link leads to such a crate, and
/// every such entry below the first line at depth one or more is linked to.
pub proof fn lemma_cargo_tree_keeps_tree_crates(out: Seq<char>, roots: &Roots, index: &CrateIndex, root: Seq<char>)
    ensures
        forall|a: Seq<char>, b: Seq<char>|
            #[trigger] cargo_tree_links(out, index, root).contains((a, b))
                ==> crate::utils::arceos_crate_path(roots, index, b) is Some,
        forall|k: int|
            1 <= k < tree_entries(out).len() && tree_entries(out)[k].0 >= 1
                && crate::utils::arceos_crate_path(roots, index, #[trigger] tree_entries(out)[k].1) is Some
                ==> exists|a: Seq<char>| cargo_tree_links(out, index, root).contains((a, tree_entries(out)[k].1)),
{
    let entries = tree_entries(out);
    if entries.len() > 0 {
        let below = entries.drop_first();
        lemma_tree_state_links(below, index, root);
        assert forall|k: int|
            1 <= k < entries.len() && entries[k].0 >= 1
                && crate::utils::arceos_crate_path(roots, index, #[trigger] entries[k].1) is Some
                implies exists|a: Seq<char>| cargo_tree_links(out, index, root).contains((a, entries[k].1)) by {
            assert(below[k - 1] == entries[k]);
            assert(is_arceos_crate(index, below[k - 1].1));
            let ts = tree_state(below, index, root).1;
            let nm = below[k - 1].1;
            let a = choose|a: Seq<char>| ts.contains((a, nm));
            assert(cargo_tree_links(out, index, root) == ts);
            assert(cargo_tree_links(out, index, root).contains((a, entries[k].1)));
        }
    } else {
        lemma_tree_state_links(entries, index, root);
    }
}

} // verus!
