//! Per-buffer candidate sets, their union over many buffers, and the sorted
//! result.
use vstd::prelude::*;
use vstd::utf8::{decode_utf8, valid_utf8, is_char_boundary_iff_not_is_continuation_byte, is_char_boundary_start_end_of_seq, valid_utf8_split};
use fxhash::{FxHashSet, FxHasher};
use std::hash::BuildHasherDefault;
use rayon::iter::{IntoParallelRefIterator, ParallelIterator};
use crate::order::{is_sorted_strict, lex_lt, lists_sorted, sorted_of, lemma_lex_total, lemma_lex_transitive, lemma_sorted_of};
use crate::scanner::{scan, span_view, spans, lemma_spans_from_runs, lemma_candidate_rescans, lemma_spans_ascii_boundaries};
use crate::strategy::Parsing;

verus! {

/// The byte strings of a list of byte vectors.
pub open spec fn bytes_view(v: Seq<Vec<u8>>) -> Seq<Seq<u8>> {
    v.map_values(|b: Vec<u8>| b@)
}

/// The distinct candidates of one buffer.
pub open spec fn candidate_set(buf: Seq<u8>) -> Set<Seq<u8>> {
    Set::new(
        |w: Seq<u8>|
            exists|k: int|
                0 <= k < spans(buf).len() && w == buf.subrange(
                    #[trigger] spans(buf)[k].0,
                    spans(buf)[k].1,
                ),
    )
}

/// The distinct candidates of all buffers together.
pub open spec fn all_candidates(blobs: Seq<Seq<u8>>) -> Set<Seq<u8>>
    decreases blobs.len(),
{
    if blobs.len() == 0 {
        Set::empty()
    } else {
        all_candidates(blobs.drop_last()).union(candidate_set(blobs.last()))
    }
}

/// The result of an extraction over `blobs`, as bytes: every distinct
/// candidate once, ascending by byte value.
pub open spec fn extraction(blobs: Seq<Seq<u8>>) -> Seq<Seq<u8>> {
    sorted_of(all_candidates(blobs))
}

/// `texts` holds the text of each byte string of `bytes`, in order.
pub open spec fn texts_of(texts: Seq<String>, bytes: Seq<Seq<u8>>) -> bool {
    &&& texts.len() == bytes.len()
    &&& forall|i: int| 0 <= i < bytes.len() && valid_utf8(#[trigger] bytes[i]) ==> texts[i]@ == decode_utf8(bytes[i])
}

#[verifier::external_type_specification]
#[verifier::external_body]
pub struct ExFxHasher(FxHasher);

#[verifier::external_type_specification]
#[verifier::external_body]
#[verifier::reject_recursive_types(H)]
pub struct ExBuildHasherDefault<H>(BuildHasherDefault<H>);

/// A hash set of distinct byte strings.
pub type CandidateSet = FxHashSet<Vec<u8>>;

/// The byte strings held by a set.
pub uninterp spec fn set_contents(s: FxHashSet<Vec<u8>>) -> Set<Seq<u8>>;

/// Relies on `FxHashSet::default`: a new set is empty.
#[verifier::external_body]
fn new_set() -> (r: FxHashSet<Vec<u8>>)
    ensures
        set_contents(r) == Set::<Seq<u8>>::empty(),
{
    FxHashSet::default()
}

/// Relies on `HashSet::insert`: the value is a member afterwards, and
/// nothing else changes.
#[verifier::external_body]
fn set_insert(s: &mut FxHashSet<Vec<u8>>, v: Vec<u8>)
    ensures
        set_contents(*final(s)) == set_contents(*old(s)).insert(v@),
{
    s.insert(v);
}

/// Relies on `HashSet::extend`: the members of `other` are added.
#[verifier::external_body]
fn set_extend(s: &mut FxHashSet<Vec<u8>>, other: FxHashSet<Vec<u8>>)
    ensures
        set_contents(*final(s)) == set_contents(*old(s)).union(set_contents(other)),
{
    s.extend(other);
}

/// Relies on `HashSet::into_iter`: every member comes out exactly once,
/// in no particular order.
#[verifier::external_body]
fn set_into_vec(s: FxHashSet<Vec<u8>>) -> (r: Vec<Vec<u8>>)
    ensures
        bytes_view(r@).to_set() == set_contents(s),
        bytes_view(r@).no_duplicates(),
{
    s.into_iter().collect()
}

/// Relies on `slice::sort`: the result is a permutation of the input,
/// ascending in the order of `Vec<u8>`, which compares bytes lexicographically.
#[verifier::external_body]
fn sort_bytes(v: &mut Vec<Vec<u8>>)
    ensures
        bytes_view(final(v)@).to_multiset() == bytes_view(old(v)@).to_multiset(),
        forall|i: int, j: int|
            0 <= i < j < final(v).len() ==> !lex_lt(
                #[trigger] bytes_view(final(v)@)[j],
                #[trigger] bytes_view(final(v)@)[i],
            ),
{
    v.sort();
}

/// Relies on `String::from_utf8_lossy`: valid UTF-8 is decoded as it is.
#[verifier::external_body]
fn text_of(b: &Vec<u8>) -> (r: String)
    ensures
        valid_utf8(b@) ==> r@ == decode_utf8(b@),
{
    String::from_utf8_lossy(b).into_owned()
}

/// Relies on rayon's `par_iter`, `map` and `reduce`: each buffer is scanned
/// by `unique`, and the per-buffer sets are combined by `merge`, a union,
/// from empty sets made by `new_set`; any grouping of unions gives
/// the union of all of them.
#[verifier::external_body]
fn par_unique_union(blobs: &Vec<Vec<u8>>) -> (r: CandidateSet)
    ensures
        set_contents(r) == all_candidates(bytes_view(blobs@)),
{
    blobs.par_iter().map(|b| unique(b)).reduce(new_set, merge)
}

/// The candidates of the first `k` spans of `buf`.
pub open spec fn first_candidates(buf: Seq<u8>, k: int) -> Set<Seq<u8>> {
    Set::new(
        |w: Seq<u8>|
            exists|m: int|
                0 <= m < k && w == buf.subrange(#[trigger] spans(buf)[m].0, spans(buf)[m].1),
    )
}

pub(crate) fn copy_range(buf: &[u8], s: usize, e: usize) -> (r: Vec<u8>)
    requires
        s <= e <= buf@.len(),
    ensures
        r@ == buf@.subrange(s as int, e as int),
{
    let mut r: Vec<u8> = Vec::new();
    let mut i: usize = s;
    while i < e
        invariant
            s <= i <= e <= buf@.len(),
            r@ == buf@.subrange(s as int, i as int),
        decreases e - i,
    {
        r.push(buf[i]);
        i = i + 1;
        assert(r@ =~= buf@.subrange(s as int, i as int));
    }
    r
}

/// The distinct candidates of one buffer, as a set.
pub fn unique(buf: &[u8]) -> (r: CandidateSet)
    ensures
        set_contents(r) == candidate_set(buf@),
{
    let sp = scan(buf);
    let ghost sv = spans(buf@);
    proof {
        lemma_spans_from_runs(buf@, 0);
    }
    let mut set = new_set();
    assert(set_contents(set) =~= first_candidates(buf@, 0));
    let mut k: usize = 0;
    while k < sp.len()
        invariant
            span_view(sp@) == sv,
            sv == spans(buf@),
            k <= sp.len(),
            forall|m: int| 0 <= m < sv.len() ==> 0 <= (#[trigger] sv[m]).0 <= sv[m].1 <= buf@.len(),
            set_contents(set) == first_candidates(buf@, k as int),
        decreases sp.len() - k,
    {
        let (s, e) = sp[k];
        assert(sv[k as int] == (s as int, e as int));
        let w = copy_range(buf, s, e);
        set_insert(&mut set, w);
        k = k + 1;
        assert(set_contents(set) =~= first_candidates(buf@, k as int));
    }
    assert(set_contents(set) =~= candidate_set(buf@));
    set
}

/// The union of two sets.
fn merge(a: CandidateSet, b: CandidateSet) -> (r: CandidateSet)
    ensures
        set_contents(r) == set_contents(a).union(set_contents(b)),
{
    let mut a = a;
    set_extend(&mut a, b);
    a
}

/// Scans the buffers one after another into a running union.
fn seq_unique_union(blobs: &Vec<Vec<u8>>) -> (r: CandidateSet)
    ensures
        set_contents(r) == all_candidates(bytes_view(blobs@)),
{
    let ghost bv = bytes_view(blobs@);
    let mut acc = new_set();
    let mut i: usize = 0;
    assert(bv.subrange(0, 0).len() == 0);
    while i < blobs.len()
        invariant
            bv == bytes_view(blobs@),
            i <= blobs.len(),
            set_contents(acc) == all_candidates(bv.subrange(0, i as int)),
        decreases blobs.len() - i,
    {
        let found = unique(blobs[i].as_slice());
        acc = merge(acc, found);
        assert(bv.subrange(0, i + 1).drop_last() =~= bv.subrange(0, i as int));
        i = i + 1;
    }
    assert(bv.subrange(0, i as int) =~= bv);
    acc
}

fn same_bytes(a: &Vec<u8>, b: &Vec<u8>) -> (r: bool)
    ensures
        r == (a@ == b@),
{
    if a.len() != b.len() {
        return false;
    }
    let mut i: usize = 0;
    while i < a.len()
        invariant
            a@.len() == b@.len(),
            i <= a.len(),
            forall|k: int| 0 <= k < i ==> a@[k] == b@[k],
        decreases a.len() - i,
    {
        if a[i] != b[i] {
            return false;
        }
        i = i + 1;
    }
    assert(a@ =~= b@);
    true
}

/// Lists the members of a set in ascending byte order, each once.
fn sorted_listing(set: CandidateSet) -> (r: Vec<Vec<u8>>)
    ensures
        lists_sorted(bytes_view(r@), set_contents(set)),
{
    broadcast use vstd::seq_lib::group_to_multiset_ensures;

    let ghost members = set_contents(set);
    let mut v = set_into_vec(set);
    let ghost before = bytes_view(v@);
    sort_bytes(&mut v);
    let ghost sorted = bytes_view(v@);
    assert(sorted.to_set() =~= members) by {
        assert forall|x: Seq<u8>| sorted.contains(x) <==> before.contains(x) by {
            assert(sorted.contains(x) <==> sorted.to_multiset().count(x) > 0);
            assert(before.contains(x) <==> before.to_multiset().count(x) > 0);
        }
    }
    let mut out: Vec<Vec<u8>> = Vec::new();
    let mut i: usize = 0;
    while i < v.len()
        invariant
            sorted == bytes_view(v@),
            i <= v.len(),
            forall|a: int, b: int| 0 <= a < b < sorted.len() ==> !lex_lt(#[trigger] sorted[b], #[trigger] sorted[a]),
            is_sorted_strict(bytes_view(out@)),
            bytes_view(out@).to_set() == sorted.subrange(0, i as int).to_set(),
            i > 0 ==> out.len() > 0 && bytes_view(out@).last() == sorted[i - 1],
            i == 0 ==> out.len() == 0,
        decreases v.len() - i,
    {
        let ghost prev = bytes_view(out@);
        assert(sorted.subrange(0, i + 1) =~= sorted.subrange(0, i as int).push(sorted[i as int]));
        if i == 0 || !same_bytes(&v[i], &v[i - 1]) {
            let item = copy_range(v[i].as_slice(), 0, v[i].len());
            assert(item@ =~= sorted[i as int]);
            proof {
                if i > 0 {
                assert(sorted[i - 1] != sorted[i as int]);
                assert(!lex_lt(sorted[i as int], sorted[i - 1]));
                lemma_lex_total(sorted[i - 1], sorted[i as int]);
                assert(lex_lt(sorted[i - 1], sorted[i as int]));
                assert forall|a: int| 0 <= a < prev.len() implies lex_lt(#[trigger] prev[a], sorted[i as int]) by {
                    if a < prev.len() - 1 {
                        lemma_lex_transitive(prev[a], prev[prev.len() - 1], sorted[i as int]);
                    }
                }
                }
            }
            out.push(item);
            let ghost now = bytes_view(out@);
            assert(now =~= prev.push(sorted[i as int]));
            assert(is_sorted_strict(now)) by {
                assert forall|a: int, b: int| 0 <= a < b < now.len() implies lex_lt(#[trigger] now[a], #[trigger] now[b]) by {
                    if b < now.len() - 1 {
                        assert(now[a] == prev[a] && now[b] == prev[b]);
                    }
                }
            }
            assert(now.to_set() =~= sorted.subrange(0, i + 1).to_set()) by {
                assert forall|x: Seq<u8>| #[trigger] now.to_set().contains(x) <==> sorted.subrange(0, i + 1).to_set().contains(x) by {
                    if now.contains(x) {
                        let k = choose|k: int| 0 <= k < now.len() && now[k] == x;
                        let sub = sorted.subrange(0, i + 1);
                        if k < prev.len() {
                            assert(prev[k] == x);
                            assert(prev.to_set().contains(x));
                            let lower = sorted.subrange(0, i as int);
                            assert(lower.to_set().contains(x));
                            let j = choose|j: int| 0 <= j < lower.len() && lower[j] == x;
                            assert(sub[j] == x);
                        } else {
                            assert(sub[i as int] == x);
                        }
                    }
                    if sorted.subrange(0, i + 1).contains(x) {
                        let sub = sorted.subrange(0, i + 1);
                        let k = choose|k: int| 0 <= k < sub.len() && sub[k] == x;
                        if k < i {
                            assert(sorted.subrange(0, i as int)[k] == x);
                            assert(sorted.subrange(0, i as int).to_set().contains(x));
                            assert(prev.to_set().contains(x));
                            let m = choose|m: int| 0 <= m < prev.len() && prev[m] == x;
                            assert(now[m] == x);
                        } else {
                            assert(now[now.len() - 1] == x);
                        }
                    }
                }
            }
        } else {
            assert(sorted.subrange(0, i + 1).to_set() =~= sorted.subrange(0, i as int).to_set()) by {
                assert forall|x: Seq<u8>| sorted.subrange(0, i + 1).contains(x) implies sorted.subrange(0, i as int).contains(x) by {
                    let sub = sorted.subrange(0, i + 1);
                        let k = choose|k: int| 0 <= k < sub.len() && sub[k] == x;
                    if k == i {
                        assert(sorted.subrange(0, i as int)[i - 1] == x);
                    } else {
                        assert(sorted.subrange(0, i as int)[k] == x);
                    }
                }
                assert forall|x: Seq<u8>| sorted.subrange(0, i as int).contains(x) implies sorted.subrange(0, i + 1).contains(x) by {
                    let sub = sorted.subrange(0, i as int);
                    let k = choose|k: int| 0 <= k < sub.len() && sub[k] == x;
                    assert(sorted.subrange(0, i + 1)[k] == x);
                }
            }
        }
        i = i + 1;
    }
    assert(sorted.subrange(0, i as int) =~= sorted);
    out
}

/// Every distinct candidate of all buffers, once each, ascending by byte
/// value; buffers are scanned in parallel or one after another.
pub fn sorted_candidates(blobs: &Vec<Vec<u8>>, parsing: Parsing) -> (r: Vec<Vec<u8>>)
    ensures
        bytes_view(r@) == extraction(bytes_view(blobs@)),
        lists_sorted(bytes_view(r@), all_candidates(bytes_view(blobs@))),
{
    let set = match parsing {
        Parsing::Parallel => par_unique_union(blobs),
        Parsing::Sequential => seq_unique_union(blobs),
    };
    let r = sorted_listing(set);
    proof {
        lemma_sorted_of(bytes_view(r@), all_candidates(bytes_view(blobs@)));
    }
    r
}

/// The text of each byte string, in order.
pub fn to_texts(v: &Vec<Vec<u8>>) -> (r: Vec<String>)
    ensures
        texts_of(r@, bytes_view(v@)),
{
    let mut r: Vec<String> = Vec::new();
    let mut i: usize = 0;
    while i < v.len()
        invariant
            i <= v.len(),
            texts_of(r@, bytes_view(v@).subrange(0, i as int)),
        decreases v.len() - i,
    {
        let t = text_of(&v[i]);
        r.push(t);
        i = i + 1;
        assert forall|k: int| 0 <= k < i && valid_utf8(#[trigger] bytes_view(v@).subrange(0, i as int)[k]) implies r@[k]@ == decode_utf8(bytes_view(v@).subrange(0, i as int)[k]) by {
            assert(bytes_view(v@).subrange(0, i as int)[k] == v@[k]@);
            if k < i - 1 {
                assert(bytes_view(v@).subrange(0, i - 1)[k] == v@[k]@);
            }
        }
    }
    assert(bytes_view(v@).subrange(0, i as int) =~= bytes_view(v@));
    r
}

/// Extracts the candidates of all buffers, scanning them in parallel: every
/// distinct candidate once, as text, ascending by byte value.
pub fn parse_all_blobs(blobs: Vec<Vec<u8>>) -> (r: Vec<String>)
    ensures
        texts_of(r@, extraction(bytes_view(blobs@))),
        lists_sorted(extraction(bytes_view(blobs@)), all_candidates(bytes_view(blobs@))),
        all_utf8(bytes_view(blobs@)) ==> forall|i: int|
            0 <= i < r.len() ==> (#[trigger] r[i])@ == decode_utf8(extraction(bytes_view(blobs@))[i]),
{
    let found = sorted_candidates(&blobs, Parsing::Parallel);
    let r = to_texts(&found);
    proof {
        if all_utf8(bytes_view(blobs@)) {
            lemma_texts_exact(r@, bytes_view(blobs@));
        }
    }
    r
}

/// Extracts the candidates of all buffers, scanning them one after another;
/// the result is that of `parse_all_blobs`.
pub fn parse_all_blobs_sync(blobs: Vec<Vec<u8>>) -> (r: Vec<String>)
    ensures
        texts_of(r@, extraction(bytes_view(blobs@))),
        lists_sorted(extraction(bytes_view(blobs@)), all_candidates(bytes_view(blobs@))),
        all_utf8(bytes_view(blobs@)) ==> forall|i: int|
            0 <= i < r.len() ==> (#[trigger] r[i])@ == decode_utf8(extraction(bytes_view(blobs@))[i]),
{
    let found = sorted_candidates(&blobs, Parsing::Sequential);
    let r = to_texts(&found);
    proof {
        if all_utf8(bytes_view(blobs@)) {
            lemma_texts_exact(r@, bytes_view(blobs@));
        }
    }
    r
}

/// Extracts the candidates of all buffers with the given parsing strategy;
/// the result is the same for both.
pub fn parse_blobs(blobs: Vec<Vec<u8>>, parsing: Parsing) -> (r: Vec<String>)
    ensures
        texts_of(r@, extraction(bytes_view(blobs@))),
        lists_sorted(extraction(bytes_view(blobs@)), all_candidates(bytes_view(blobs@))),
        all_utf8(bytes_view(blobs@)) ==> forall|i: int|
            0 <= i < r.len() ==> (#[trigger] r[i])@ == decode_utf8(extraction(bytes_view(blobs@))[i]),
{
    match parsing {
        Parsing::Parallel => parse_all_blobs(blobs),
        Parsing::Sequential => parse_all_blobs_sync(blobs),
    }
}

/// A byte string is among the candidates of a list of buffers exactly when
/// it is a candidate of one of them.
pub proof fn lemma_all_candidates_members(blobs: Seq<Seq<u8>>, w: Seq<u8>)
    ensures
        all_candidates(blobs).contains(w) <==> exists|i: int|
            0 <= i < blobs.len() && (#[trigger] candidate_set(blobs[i])).contains(w),
    decreases blobs.len(),
{
    if blobs.len() > 0 {
        let init = blobs.drop_last();
        lemma_all_candidates_members(init, w);
        if all_candidates(blobs).contains(w) {
            if all_candidates(init).contains(w) {
                let i = choose|i: int| 0 <= i < init.len() && (#[trigger] candidate_set(init[i])).contains(w);
                assert(blobs[i] == init[i]);
            } else {
                assert(candidate_set(blobs[blobs.len() - 1]).contains(w));
            }
        }
        if exists|i: int| 0 <= i < blobs.len() && (#[trigger] candidate_set(blobs[i])).contains(w) {
            let i = choose|i: int| 0 <= i < blobs.len() && (#[trigger] candidate_set(blobs[i])).contains(w);
            if i < blobs.len() - 1 {
                assert(init[i] == blobs[i]);
            }
        }
    }
}

/// The extraction depends only on which buffers are given: not on their
/// order, on how they are grouped, or on how often a buffer repeats. So any
/// way of reading the buffers and of combining the per-buffer sets gives the
/// same sorted result.
pub proof fn lemma_extraction_order_free(a: Seq<Seq<u8>>, b: Seq<Seq<u8>>)
    requires
        a.to_set() == b.to_set(),
    ensures
        all_candidates(a) == all_candidates(b),
        extraction(a) == extraction(b),
{
    assert forall|w: Seq<u8>| all_candidates(a).contains(w) implies all_candidates(b).contains(w) by {
        lemma_all_candidates_members(a, w);
        lemma_all_candidates_members(b, w);
        let i = choose|i: int| 0 <= i < a.len() && (#[trigger] candidate_set(a[i])).contains(w);
        assert(a.to_set().contains(a[i]));
        assert(b.to_set().contains(a[i]));
        let j = choose|j: int| 0 <= j < b.len() && b[j] == a[i];
        assert(candidate_set(b[j]).contains(w));
    }
    assert forall|w: Seq<u8>| all_candidates(b).contains(w) implies all_candidates(a).contains(w) by {
        lemma_all_candidates_members(a, w);
        lemma_all_candidates_members(b, w);
        let j = choose|j: int| 0 <= j < b.len() && (#[trigger] candidate_set(b[j])).contains(w);
        assert(b.to_set().contains(b[j]));
        assert(a.to_set().contains(b[j]));
        let i = choose|i: int| 0 <= i < a.len() && a[i] == b[j];
        assert(candidate_set(a[i]).contains(w));
    }
    assert(all_candidates(a) =~= all_candidates(b));
}

/// The candidates of two lists of buffers together are the union of the
/// candidates of each: merging partial results in any tree shape loses and
/// doubles nothing.
pub proof fn lemma_all_candidates_split(a: Seq<Seq<u8>>, b: Seq<Seq<u8>>)
    ensures
        all_candidates(a + b) == all_candidates(a).union(all_candidates(b)),
{
    assert forall|w: Seq<u8>| #[trigger] all_candidates(a + b).contains(w) <==> all_candidates(a).union(
        all_candidates(b),
    ).contains(w) by {
        lemma_all_candidates_members(a + b, w);
        lemma_all_candidates_members(a, w);
        lemma_all_candidates_members(b, w);
        if all_candidates(a + b).contains(w) {
            let i = choose|i: int| 0 <= i < (a + b).len() && (#[trigger] candidate_set((a + b)[i])).contains(w);
            if i < a.len() {
                assert(candidate_set(a[i]).contains(w));
            } else {
                assert(candidate_set(b[i - a.len()]).contains(w));
            }
        }
        if all_candidates(a).contains(w) {
            let i = choose|i: int| 0 <= i < a.len() && (#[trigger] candidate_set(a[i])).contains(w);
            assert(candidate_set((a + b)[i]).contains(w));
        }
        if all_candidates(b).contains(w) {
            let i = choose|i: int| 0 <= i < b.len() && (#[trigger] candidate_set(b[i])).contains(w);
            assert(candidate_set((a + b)[a.len() + i]).contains(w));
        }
    }
    assert(all_candidates(a + b) =~= all_candidates(a).union(all_candidates(b)));
}

/// No buffers give no candidates, and an empty buffer gives none either.
pub proof fn lemma_empty_input()
    ensures
        extraction(Seq::<Seq<u8>>::empty()) == Seq::<Seq<u8>>::empty(),
        candidate_set(Seq::<u8>::empty()) == Set::<Seq<u8>>::empty(),
        extraction(seq![Seq::<u8>::empty()]) == Seq::<Seq<u8>>::empty(),
{
    let none = Seq::<Seq<u8>>::empty();
    assert(none.to_set() =~= Set::<Seq<u8>>::empty());
    lemma_sorted_of(none, Set::<Seq<u8>>::empty());
    assert(spans(Seq::<u8>::empty()) == Seq::<(int, int)>::empty());
    assert(candidate_set(Seq::<u8>::empty()) =~= Set::<Seq<u8>>::empty());
    let one = seq![Seq::<u8>::empty()];
    assert(all_candidates(none) == Set::<Seq<u8>>::empty());
    assert(one.drop_last() =~= none);
    assert(one.last() == Seq::<u8>::empty());
    assert(all_candidates(one) =~= Set::<Seq<u8>>::empty());
}

/// A candidate, scanned again on its own as inline content, is found again,
/// and it is the only candidate found.
pub proof fn lemma_rescan_candidate(buf: Seq<u8>, w: Seq<u8>)
    requires
        candidate_set(buf).contains(w),
    ensures
        candidate_set(w) == set![w],
        extraction(seq![w]) == seq![w],
{
    let sp = spans(buf);
    let k = choose|k: int| 0 <= k < sp.len() && w == buf.subrange(#[trigger] sp[k].0, sp[k].1);
    lemma_candidate_rescans(buf, k);
    lemma_spans_from_runs(buf, 0);
    let (s, e) = sp[k];
    assert(0 <= s < e <= buf.len());
    assert(w.len() == e - s);
    let ws = spans(w);
    assert(ws == seq![(0int, w.len() as int)]);
    assert(w.subrange(0, w.len() as int) =~= w);
    assert forall|x: Seq<u8>| #[trigger] candidate_set(w).contains(x) <==> x == w by {
        if x == w {
            assert(ws[0] == (0int, w.len() as int));
            assert(x == w.subrange(ws[0].0, ws[0].1));
        }
        if candidate_set(w).contains(x) {
            let m = choose|m: int| 0 <= m < ws.len() && x == w.subrange(#[trigger] ws[m].0, ws[m].1);
            assert(m == 0);
        }
    }
    assert(candidate_set(w) =~= set![w]);
    let one = seq![w];
    assert(one.drop_last() =~= Seq::<Seq<u8>>::empty());
    assert(all_candidates(Seq::<Seq<u8>>::empty()) == Set::<Seq<u8>>::empty());
    assert(one.last() == w);
    assert(all_candidates(one) =~= set![w]);
    assert(one.to_set() =~= set![w]) by {
        assert(one[0] == w);
    }
    assert(is_sorted_strict(one));
    lemma_sorted_of(one, set![w]);
}

/// Every buffer of the list is valid UTF-8.
pub open spec fn all_utf8(blobs: Seq<Seq<u8>>) -> bool {
    forall|i: int| 0 <= i < blobs.len() ==> valid_utf8(#[trigger] blobs[i])
}

/// Candidates of valid UTF-8 are valid UTF-8: their ends lie on ASCII
/// bytes, so no character is cut.
pub proof fn lemma_candidates_utf8(buf: Seq<u8>, w: Seq<u8>)
    requires
        valid_utf8(buf),
        candidate_set(buf).contains(w),
    ensures
        valid_utf8(w),
{
    let sp = spans(buf);
    let k = choose|k: int| 0 <= k < sp.len() && w == buf.subrange(#[trigger] sp[k].0, sp[k].1);
    lemma_spans_ascii_boundaries(buf);
    let (s, e) = sp[k];
    assert(0 <= s < e <= buf.len() && buf[s] < 128 && (e == buf.len() || buf[e] < 128));
    is_char_boundary_iff_not_is_continuation_byte(buf, s);
    valid_utf8_split(buf, s);
    let tail = buf.subrange(s, buf.len() as int);
    if e < buf.len() {
        assert(tail[e - s] == buf[e]);
        is_char_boundary_iff_not_is_continuation_byte(tail, e - s);
    } else {
        is_char_boundary_start_end_of_seq(tail);
    }
    valid_utf8_split(tail, e - s);
    assert(tail.subrange(0, e - s) =~= w);
}

/// The candidates of buffers that are all valid UTF-8 are valid UTF-8.
pub proof fn lemma_all_candidates_utf8(blobs: Seq<Seq<u8>>, w: Seq<u8>)
    requires
        all_utf8(blobs),
        all_candidates(blobs).contains(w),
    ensures
        valid_utf8(w),
{
    lemma_all_candidates_members(blobs, w);
    let i = choose|i: int| 0 <= i < blobs.len() && (#[trigger] candidate_set(blobs[i])).contains(w);
    lemma_candidates_utf8(blobs[i], w);
}

/// Where every buffer is valid UTF-8, each extracted text is exactly the
/// decoding of its bytes.
proof fn lemma_texts_exact(r: Seq<String>, blobs: Seq<Seq<u8>>)
    requires
        texts_of(r, extraction(blobs)),
        lists_sorted(extraction(blobs), all_candidates(blobs)),
        all_utf8(blobs),
    ensures
        forall|i: int| 0 <= i < r.len() ==> (#[trigger] r[i])@ == decode_utf8(extraction(blobs)[i]),
{
    let x = extraction(blobs);
    assert forall|i: int| 0 <= i < r.len() implies (#[trigger] r[i])@ == decode_utf8(x[i]) by {
        assert(x.to_set().contains(x[i]));
        lemma_all_candidates_utf8(blobs, x[i]);
    }
}

} // verus!
