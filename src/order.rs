//! Byte-wise lexicographic order on byte strings, and sorted sets of them.
use vstd::prelude::*;

verus! {

/// `a` comes strictly before `b` when bytes are compared one by one and a
/// proper prefix comes first; this is the order of `Vec<u8>` and of `str`.
pub open spec fn lex_lt(a: Seq<u8>, b: Seq<u8>) -> bool
    decreases a.len(),
{
    if a.len() == 0 {
        b.len() > 0
    } else if b.len() == 0 {
        false
    } else if a[0] != b[0] {
        a[0] < b[0]
    } else {
        lex_lt(a.drop_first(), b.drop_first())
    }
}

/// Strictly ascending, hence free of duplicates.
pub open spec fn is_sorted_strict(s: Seq<Seq<u8>>) -> bool {
    forall|i: int, j: int| 0 <= i < j < s.len() ==> lex_lt(#[trigger] s[i], #[trigger] s[j])
}

/// `s` lists the members of `set` in ascending order, each once.
pub open spec fn lists_sorted(s: Seq<Seq<u8>>, set: Set<Seq<u8>>) -> bool {
    is_sorted_strict(s) && s.to_set() == set
}

/// The ascending listing of a set of byte strings.
pub open spec fn sorted_of(set: Set<Seq<u8>>) -> Seq<Seq<u8>> {
    choose|s: Seq<Seq<u8>>| lists_sorted(s, set)
}

pub proof fn lemma_lex_irreflexive(a: Seq<u8>)
    ensures
        !lex_lt(a, a),
    decreases a.len(),
{
    if a.len() > 0 {
        lemma_lex_irreflexive(a.drop_first());
    }
}

pub proof fn lemma_lex_transitive(a: Seq<u8>, b: Seq<u8>, c: Seq<u8>)
    requires
        lex_lt(a, b),
        lex_lt(b, c),
    ensures
        lex_lt(a, c),
    decreases a.len(),
{
    if a.len() > 0 && b.len() > 0 && c.len() > 0 && a[0] == b[0] && b[0] == c[0] {
        lemma_lex_transitive(a.drop_first(), b.drop_first(), c.drop_first());
    }
}

pub proof fn lemma_lex_total(a: Seq<u8>, b: Seq<u8>)
    requires
        a != b,
    ensures
        lex_lt(a, b) || lex_lt(b, a),
    decreases a.len(),
{
    if a.len() > 0 && b.len() > 0 && a[0] == b[0] {
        if a.drop_first() == b.drop_first() {
            assert(a =~= seq![a[0]] + a.drop_first());
            assert(b =~= seq![b[0]] + b.drop_first());
        }
        lemma_lex_total(a.drop_first(), b.drop_first());
    } else if a.len() == 0 && b.len() == 0 {
        assert(a =~= b);
    }
}

/// A set of byte strings has at most one ascending listing.
pub proof fn lemma_sorted_listing_unique(s: Seq<Seq<u8>>, t: Seq<Seq<u8>>)
    requires
        is_sorted_strict(s),
        is_sorted_strict(t),
        s.to_set() == t.to_set(),
    ensures
        s == t,
    decreases s.len(),
{
    if s.len() == 0 {
        if t.len() > 0 {
            assert(s.to_set().contains(t[0]));
        }
        assert(s =~= t);
    } else if t.len() == 0 {
        assert(t.to_set().contains(s[0]));
    } else {
        // the first members agree: each is the least of the set
        if s[0] != t[0] {
            assert(t.to_set().contains(s[0]));
            let j = choose|j: int| 0 <= j < t.len() && t[j] == s[0];
            assert(s.to_set().contains(t[0]));
            let i = choose|i: int| 0 <= i < s.len() && s[i] == t[0];
            assert(i > 0 && j > 0);
            assert(lex_lt(s[0], s[i]));
            assert(lex_lt(t[0], t[j]));
            lemma_lex_transitive(s[0], t[0], s[0]);
            lemma_lex_irreflexive(s[0]);
        }
        let s1 = s.drop_first();
        let t1 = t.drop_first();
        assert forall|x: Seq<u8>| s1.to_set().contains(x) implies t1.to_set().contains(x) by {
            let i = choose|i: int| 0 <= i < s1.len() && s1[i] == x;
            assert(s.to_set().contains(x) && s[i + 1] == x);
            let j = choose|j: int| 0 <= j < t.len() && t[j] == x;
            assert(lex_lt(s[0], s[i + 1]));
            if j == 0 {
                lemma_lex_irreflexive(x);
            }
            assert(t1[j - 1] == x);
        }
        assert forall|x: Seq<u8>| t1.to_set().contains(x) implies s1.to_set().contains(x) by {
            let j = choose|j: int| 0 <= j < t1.len() && t1[j] == x;
            assert(t.to_set().contains(x) && t[j + 1] == x);
            let i = choose|i: int| 0 <= i < s.len() && s[i] == x;
            assert(lex_lt(t[0], t[j + 1]));
            if i == 0 {
                lemma_lex_irreflexive(x);
            }
            assert(s1[i - 1] == x);
        }
        assert(s1.to_set() =~= t1.to_set());
        lemma_sorted_listing_unique(s1, t1);
        assert(s =~= seq![s[0]] + s1);
        assert(t =~= seq![t[0]] + t1);
    }
}

/// Where `s` lists `set` in order, `s` is the ascending listing of `set`.
pub proof fn lemma_sorted_of(s: Seq<Seq<u8>>, set: Set<Seq<u8>>)
    requires
        lists_sorted(s, set),
    ensures
        sorted_of(set) == s,
{
    let t = sorted_of(set);
    assert(lists_sorted(t, set));
    lemma_sorted_listing_unique(s, t);
}

} // verus!
