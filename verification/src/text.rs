use vstd::prelude::*;

verus! {

/// The outcome of comparing two keys.
pub enum Order {
    Less,
    Equal,
    Greater,
}

/// Lexicographic order on character sequences, comparing characters by
/// code point. On Rust strings this is the order of `String`'s `Ord`, since
/// UTF-8 keeps the order of code points.
pub open spec fn seq_lt(a: Seq<char>, b: Seq<char>) -> bool
    decreases a.len(),
{
    if a.len() == 0 {
        b.len() > 0
    } else if b.len() == 0 {
        false
    } else if a[0] != b[0] {
        a[0] < b[0]
    } else {
        seq_lt(a.drop_first(), b.drop_first())
    }
}

/// The characters of a string slice, in order.
pub fn chars_of(s: &str) -> (v: Vec<char>)
    ensures
        v@ == s@,
{
    let mut v: Vec<char> = Vec::new();
    for c in it: s.chars()
        invariant
            v@ == it.seq().take(it.index() as int),
    {
        v.push(c);
    }
    v
}


/// No sequence precedes itself.
pub proof fn lemma_seq_lt_irreflexive(a: Seq<char>)
    ensures
        !seq_lt(a, a),
    decreases a.len(),
{
    if a.len() > 0 {
        lemma_seq_lt_irreflexive(a.drop_first());
    }
}

/// The order is transitive.
pub proof fn lemma_seq_lt_transitive(a: Seq<char>, b: Seq<char>, c: Seq<char>)
    requires
        seq_lt(a, b),
        seq_lt(b, c),
    ensures
        seq_lt(a, c),
    decreases a.len(),
{
    if a.len() > 0 && b.len() > 0 && c.len() > 0 {
        if a[0] == b[0] && b[0] == c[0] {
            lemma_seq_lt_transitive(a.drop_first(), b.drop_first(), c.drop_first());
        }
    }
}

/// Any two distinct sequences are ordered one way or the other.
pub proof fn lemma_seq_lt_total(a: Seq<char>, b: Seq<char>)
    ensures
        a == b || seq_lt(a, b) || seq_lt(b, a),
    decreases a.len(),
{
    if a.len() > 0 && b.len() > 0 {
        if a[0] == b[0] {
            lemma_seq_lt_total(a.drop_first(), b.drop_first());
            if a.drop_first() == b.drop_first() {
                assert(a =~= seq![a[0]] + a.drop_first());
                assert(b =~= seq![b[0]] + b.drop_first());
            }
        } else {
            assert(a[0] < b[0] || b[0] < a[0]);
        }
    } else if a.len() == 0 && b.len() == 0 {
        assert(a =~= b);
    }
}

/// Compares two character vectors from position `i` on.
fn compare_chars_from(a: &Vec<char>, b: &Vec<char>, i: usize) -> (o: Order)
    requires
        i <= a.len(),
        i <= b.len(),
        a@.take(i as int) == b@.take(i as int),
    ensures
        match o {
            Order::Less => seq_lt(a@.skip(i as int), b@.skip(i as int)),
            Order::Equal => a@.skip(i as int) == b@.skip(i as int),
            Order::Greater => seq_lt(b@.skip(i as int), a@.skip(i as int)),
        },
    decreases a.len() - i,
{
    let ghost sa = a@.skip(i as int);
    let ghost sb = b@.skip(i as int);
    if i == a.len() {
        if i == b.len() {
            assert(sa =~= sb);
            Order::Equal
        } else {
            assert(sa.len() == 0 && sb.len() > 0);
            Order::Less
        }
    } else if i == b.len() {
        assert(sb.len() == 0 && sa.len() > 0);
        Order::Greater
    } else {
        let ca = a[i];
        let cb = b[i];
        assert(sa[0] == ca && sb[0] == cb);
        if ca < cb {
            assert(sa[0] != sb[0]);
            Order::Less
        } else if cb < ca {
            Order::Greater
        } else {
            assert(ca == cb);
            assert(a@.take(i + 1) =~= a@.take(i as int).push(ca));
            assert(b@.take(i + 1) =~= b@.take(i as int).push(cb));
            assert(sa.drop_first() =~= a@.skip(i + 1));
            assert(sb.drop_first() =~= b@.skip(i + 1));
            let r = compare_chars_from(a, b, i + 1);
            assert(sa.len() > 0 && sb.len() > 0 && sa[0] == sb[0]);
            assert(seq_lt(sa, sb) == seq_lt(sa.drop_first(), sb.drop_first()));
            proof {
                if r is Equal {
                    assert(sa =~= seq![sa[0]] + sa.drop_first());
                    assert(sb =~= seq![sb[0]] + sb.drop_first());
                }
            }
            r
        }
    }
}

/// Compares two strings in the order of `String`'s `Ord`.
pub fn compare_strings(a: &String, b: &String) -> (o: Order)
    ensures
        match o {
            Order::Less => seq_lt(a@, b@),
            Order::Equal => a@ == b@,
            Order::Greater => seq_lt(b@, a@),
        },
{
    compare_strs(a.as_str(), b.as_str())
}

/// Whether two string slices hold the same characters.
pub fn str_eq(a: &str, b: &str) -> (r: bool)
    ensures
        r == (a@ == b@),
{
    match compare_strs(a, b) {
        Order::Equal => true,
        Order::Less => {
            proof {
                lemma_seq_lt_irreflexive(a@);
            }
            false
        },
        Order::Greater => {
            proof {
                lemma_seq_lt_irreflexive(a@);
            }
            false
        },
    }
}

/// Compares two string slices in the order of `str`'s `Ord`.
pub fn compare_strs(a: &str, b: &str) -> (o: Order)
    ensures
        match o {
            Order::Less => seq_lt(a@, b@),
            Order::Equal => a@ == b@,
            Order::Greater => seq_lt(b@, a@),
        },
{
    let va = chars_of(a);
    let vb = chars_of(b);
    assert(va@.take(0) =~= vb@.take(0));
    assert(va@.skip(0) =~= va@);
    assert(vb@.skip(0) =~= vb@);
    compare_chars_from(&va, &vb, 0)
}


/// Appends `c` to `s`.
///
/// Trusted: calls `String::push`, which std documents as appending the given
/// `char` to the end of the string; the contract states exactly that.
#[verifier::external_body]
pub(crate) fn push_char(s: &mut String, c: char)
    ensures
        final(s)@ == old(s)@.push(c),
{
    s.push(c);
}

/// The pieces of `s` between occurrences of `sep`, as `str::split` with a
/// `char` pattern yields them: an empty `s` gives one empty piece, and a
/// separator at either end gives an empty piece there.
pub open spec fn split_on(s: Seq<char>, sep: char) -> Seq<Seq<char>>
    decreases s.len(),
{
    if s.len() == 0 {
        seq![Seq::<char>::empty()]
    } else {
        let rest = split_on(s.drop_last(), sep);
        if s.last() == sep {
            rest.push(Seq::<char>::empty())
        } else {
            rest.update(rest.len() - 1, rest.last().push(s.last()))
        }
    }
}

/// `split_on` always yields at least one piece.
pub proof fn lemma_split_on_nonempty(s: Seq<char>, sep: char)
    ensures
        split_on(s, sep).len() > 0,
    decreases s.len(),
{
    if s.len() > 0 {
        lemma_split_on_nonempty(s.drop_last(), sep);
    }
}

/// A string without the separator is one piece.
pub proof fn lemma_split_on_without_sep(s: Seq<char>, sep: char)
    requires
        !s.contains(sep),
    ensures
        split_on(s, sep) == seq![s],
    decreases s.len(),
{
    if s.len() > 0 {
        assert(!s.drop_last().contains(sep)) by {
            if s.drop_last().contains(sep) {
                let k = choose|k: int| 0 <= k < s.drop_last().len() && s.drop_last()[k] == sep;
                assert(s[k] == sep);
            }
        }
        lemma_split_on_without_sep(s.drop_last(), sep);
        assert(s[s.len() - 1] != sep);
        assert(s.drop_last().push(s.last()) =~= s);
        assert(seq![s.drop_last()].update(0, s.drop_last().push(s.last())) =~= seq![s]);
    } else {
        assert(s =~= Seq::<char>::empty());
    }
}

/// Text before the first separator is the first piece; the pieces of what
/// follows it come after.
pub proof fn lemma_split_on_first(a: Seq<char>, b: Seq<char>, sep: char)
    requires
        !a.contains(sep),
    ensures
        split_on(a + seq![sep] + b, sep) == seq![a] + split_on(b, sep),
    decreases b.len(),
{
    let s = a + seq![sep] + b;
    if b.len() == 0 {
        assert(s.drop_last() =~= a);
        lemma_split_on_without_sep(a, sep);
        assert(split_on(s, sep) =~= seq![a] + split_on(b, sep));
    } else {
        assert(s.drop_last() =~= a + seq![sep] + b.drop_last());
        lemma_split_on_first(a, b.drop_last(), sep);
        lemma_split_on_nonempty(b.drop_last(), sep);
        let r = split_on(b.drop_last(), sep);
        if b.last() == sep {
            assert(split_on(s, sep) =~= seq![a] + split_on(b, sep));
        } else {
            let rest = seq![a] + r;
            assert(rest.last() == r.last());
            assert(rest.update(rest.len() - 1, rest.last().push(b.last())) =~= seq![a] + r.update(
                r.len() - 1,
                r.last().push(b.last()),
            ));
            assert(split_on(s, sep) =~= seq![a] + split_on(b, sep));
        }
    }
}

/// Splits `s` at every `sep`.
pub fn split_str(s: &str, sep: char) -> (pieces: Vec<String>)
    ensures
        pieces@.map_values(|p: String| p@) == split_on(s@, sep),
{
    let cs = chars_of(s);
    let mut pieces: Vec<String> = Vec::new();
    let mut cur = String::new();
    let n = cs.len();
    let mut i: usize = 0;
    while i < n
        invariant
            n == cs@.len(),
            cs@ == s@,
            i <= n,
            pieces@.map_values(|p: String| p@).push(cur@) == split_on(cs@.take(i as int), sep),
        decreases n - i,
    {
        let c = cs[i];
        let ghost before = pieces@.map_values(|p: String| p@).push(cur@);
        assert(cs@.take(i + 1).drop_last() =~= cs@.take(i as int));
        if c == sep {
            pieces.push(cur);
            cur = String::new();
            assert(pieces@.map_values(|p: String| p@).push(cur@) =~= before.push(Seq::<char>::empty()));
        } else {
            push_char(&mut cur, c);
            assert(pieces@.map_values(|p: String| p@).push(cur@) =~= before.update(
                before.len() - 1,
                before.last().push(c),
            ));
        }
        i = i + 1;
    }
    assert(cs@.take(n as int) =~= cs@);
    pieces.push(cur);
    pieces
}

} // verus!
