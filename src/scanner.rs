//! Byte-level candidate scanner.
//!
//! A buffer is cut into runs. A run starts at a byte that cannot separate
//! runs and grows while the bytes can continue it; whether a byte separates
//! depends on the run read so far (open `[...]` segments, quotes inside them,
//! a pending backslash escape, an importance marker already seen). A run is
//! reported as a candidate when it is structurally complete.
use vstd::prelude::*;

verus! {

pub open spec fn is_space(b: u8) -> bool {
    b == 32 || b == 9 || b == 10 || b == 13 || b == 12
}

pub open spec fn is_alnum(b: u8) -> bool {
    (48 <= b && b <= 57) || (65 <= b && b <= 90) || (97 <= b && b <= 122)
}

/// Bytes that may open a candidate: identifier characters, `-`, `!` and `[`.
pub open spec fn is_start_byte(b: u8) -> bool {
    is_alnum(b) || b == 45 || b == 33 || b == 91
}

/// Bytes that continue a run outside of any `[...]` segment: identifier
/// characters, `-_:/.!%#[`, the escape `\`, and every non-ASCII byte (which
/// spoils the run but never ends it, so that runs end on ASCII bytes only).
pub open spec fn is_body_byte(b: u8) -> bool {
    is_alnum(b) || b == 45 || b == 95 || b == 58 || b == 47 || b == 46 || b == 33 || b == 37
        || b == 35 || b == 91 || b == 92 || b >= 128
}

pub open spec fn is_quote(b: u8) -> bool {
    b == 34 || b == 39 || b == 96
}

/// What a run has seen so far.
#[derive(Clone, Copy)]
pub struct RunState {
    /// Open `[` segments.
    pub depth: usize,
    /// The quote byte that opened the quoted part of a segment, or 0.
    pub quote: u8,
    /// The previous byte was an escaping backslash.
    pub escaped: bool,
    /// An unescaped `!` was seen outside any segment.
    pub bang: bool,
    /// An identifier character was seen.
    pub word: bool,
    /// A non-ASCII byte was seen outside any segment.
    pub bad: bool,
}

pub open spec fn fresh_state() -> RunState {
    RunState { depth: 0, quote: 0, escaped: false, bang: false, word: false, bad: false }
}

/// The state after reading `b` in state `st`.
pub open spec fn next_state(st: RunState, b: u8) -> RunState {
    let word = st.word || is_alnum(b);
    if st.escaped {
        RunState { escaped: false, word, bad: st.bad || (st.depth == 0 && b >= 128), ..st }
    } else if b == 92 {
        RunState { escaped: true, ..st }
    } else if st.quote != 0 {
        if b == st.quote {
            RunState { quote: 0, ..st }
        } else {
            RunState { word, ..st }
        }
    } else if st.depth > 0 {
        if b == 91 {
            RunState { depth: (st.depth + 1) as usize, ..st }
        } else if b == 93 {
            RunState { depth: (st.depth - 1) as usize, ..st }
        } else if is_quote(b) {
            RunState { quote: b, ..st }
        } else {
            RunState { word, ..st }
        }
    } else {
        if b == 91 {
            RunState { depth: 1, ..st }
        } else if b == 33 {
            RunState { bang: true, ..st }
        } else if b >= 128 {
            RunState { bad: true, ..st }
        } else {
            RunState { word, ..st }
        }
    }
}

/// Whether `b` ends a run in state `st`: whitespace inside a segment; outside
/// one, a byte that cannot continue a run or a second `!`. An escaped byte
/// never ends a run.
pub open spec fn terminates(st: RunState, b: u8) -> bool {
    !st.escaped && if st.quote != 0 || st.depth > 0 {
        is_space(b)
    } else {
        !is_body_byte(b) || (b == 33 && st.bang)
    }
}

/// The state after reading the bytes `w` from the start of a run.
pub open spec fn run_state(w: Seq<u8>) -> RunState
    decreases w.len(),
{
    if w.len() == 0 {
        fresh_state()
    } else {
        next_state(run_state(w.drop_last()), w.last())
    }
}

/// The end of the run that starts at `s`, searching from `i`.
pub open spec fn run_end_from(buf: Seq<u8>, s: int, i: int) -> int
    decreases buf.len() - i,
{
    if s < 0 || i < s || i >= buf.len() || terminates(run_state(buf.subrange(s, i)), buf[i]) {
        i
    } else {
        run_end_from(buf, s, i + 1)
    }
}

/// The end of the run that starts at `s`: the first byte that ends it, or
/// the end of the buffer.
pub open spec fn run_end(buf: Seq<u8>, s: int) -> int {
    run_end_from(buf, s, s)
}

/// The run `buf[s..e]` is a complete candidate: it opens with a start byte,
/// is not a tag name (after `<`) nor an attribute name (before `=`), does not
/// end in a dangling `:`, closes every segment, quote and escape, holds no
/// non-ASCII byte outside a segment, and holds an identifier character.
pub open spec fn is_candidate_run(buf: Seq<u8>, s: int, e: int) -> bool {
    let st = run_state(buf.subrange(s, e));
    &&& is_start_byte(buf[s])
    &&& (s == 0 || buf[s - 1] != 60)
    &&& (e == buf.len() || buf[e] != 61)
    &&& buf[e - 1] != 58
    &&& st.depth == 0
    &&& st.quote == 0
    &&& !st.escaped
    &&& !st.bad
    &&& st.word
}

/// The candidate spans of `buf` from position `i` on, in order.
pub open spec fn spans_from(buf: Seq<u8>, i: int) -> Seq<(int, int)>
    decreases buf.len() - i,
{
    if i < 0 || i >= buf.len() {
        seq![]
    } else if terminates(fresh_state(), buf[i]) {
        spans_from(buf, i + 1)
    } else {
        let e = run_end(buf, i);
        if e <= i || e > buf.len() {
            seq![]
        } else if is_candidate_run(buf, i, e) {
            seq![(i, e)] + spans_from(buf, e)
        } else {
            spans_from(buf, e)
        }
    }
}

/// The candidate spans of a buffer, in order of position.
pub open spec fn spans(buf: Seq<u8>) -> Seq<(int, int)> {
    spans_from(buf, 0)
}

pub open spec fn span_view(v: Seq<(usize, usize)>) -> Seq<(int, int)> {
    v.map_values(|p: (usize, usize)| (p.0 as int, p.1 as int))
}

pub proof fn lemma_run_end_bounds(buf: Seq<u8>, s: int, i: int)
    requires
        0 <= s <= i <= buf.len(),
    ensures
        i <= run_end_from(buf, s, i) <= buf.len(),
        run_end_from(buf, s, i) < buf.len() ==> terminates(
            run_state(buf.subrange(s, run_end_from(buf, s, i))),
            buf[run_end_from(buf, s, i)],
        ),
    decreases buf.len() - i,
{
    if i < buf.len() && !terminates(run_state(buf.subrange(s, i)), buf[i]) {
        lemma_run_end_bounds(buf, s, i + 1);
    }
}

/// No byte strictly inside a run ends it.
pub proof fn lemma_run_interior(buf: Seq<u8>, s: int, i: int, k: int)
    requires
        0 <= s <= i <= k < run_end_from(buf, s, i),
        run_end_from(buf, s, i) <= buf.len(),
    ensures
        !terminates(run_state(buf.subrange(s, k)), buf[k]),
    decreases buf.len() - i,
{
    if i < k {
        lemma_run_interior(buf, s, i + 1, k);
    }
}

/// Every span found from `i` on is a complete run that starts at or after `i`,
/// and the spans come in increasing, non-overlapping order.
pub proof fn lemma_spans_from_runs(buf: Seq<u8>, i: int)
    requires
        0 <= i,
    ensures
        forall|k: int|
            0 <= k < spans_from(buf, i).len() ==> {
                let (s, e) = #[trigger] spans_from(buf, i)[k];
                &&& i <= s < e <= buf.len()
                &&& e == run_end(buf, s)
                &&& is_candidate_run(buf, s, e)
            },
        forall|k1: int, k2: int|
            0 <= k1 < k2 < spans_from(buf, i).len() ==> (#[trigger] spans_from(buf, i)[k1]).1
                <= (#[trigger] spans_from(buf, i)[k2]).0,
    decreases buf.len() - i,
{
    if i < buf.len() {
        if terminates(fresh_state(), buf[i]) {
            lemma_spans_from_runs(buf, i + 1);
            assert(spans_from(buf, i) == spans_from(buf, i + 1));
        } else {
            let e = run_end(buf, i);
            lemma_run_end_bounds(buf, i, i);
            assert(e > i);
            if e > i && e <= buf.len() {
                lemma_spans_from_runs(buf, e);
                if !is_candidate_run(buf, i, e) {
                    assert(spans_from(buf, i) == spans_from(buf, e));
                } else {
                    let rest = spans_from(buf, e);
                    let all = spans_from(buf, i);
                    assert(all == seq![(i, e)] + rest);
                    assert forall|k: int| 0 <= k < all.len() implies {
                        let (s, e2) = #[trigger] all[k];
                        &&& i <= s < e2 <= buf.len()
                        &&& e2 == run_end(buf, s)
                        &&& is_candidate_run(buf, s, e2)
                    } by {
                        if k > 0 {
                            assert(all[k] == rest[k - 1]);
                        }
                    }
                    assert forall|k1: int, k2: int|
                        0 <= k1 < k2 < all.len() implies (#[trigger] all[k1]).1 <= (
                        #[trigger] all[k2]).0 by {
                        assert(all[k2] == rest[k2 - 1]);
                        if k1 > 0 {
                            assert(all[k1] == rest[k1 - 1]);
                        }
                    }
                }
            }
        }
    }
}

/// A byte that ends a run is ASCII.
pub proof fn lemma_terminator_ascii(st: RunState, b: u8)
    requires
        terminates(st, b),
    ensures
        b < 128,
{
}

/// Every span starts on an ASCII byte and ends at the end of the buffer or
/// before an ASCII byte, so a multi-byte UTF-8 character is never split: it
/// lies wholly inside or wholly outside each span.
pub proof fn lemma_spans_ascii_boundaries(buf: Seq<u8>)
    ensures
        forall|k: int|
            0 <= k < spans(buf).len() ==> {
                let (s, e) = #[trigger] spans(buf)[k];
                &&& 0 <= s < e <= buf.len()
                &&& buf[s] < 128
                &&& (e == buf.len() || buf[e] < 128)
            },
{
    lemma_spans_from_runs(buf, 0);
    assert forall|k: int| 0 <= k < spans(buf).len() implies {
        let (s, e) = #[trigger] spans(buf)[k];
        &&& 0 <= s < e <= buf.len()
        &&& buf[s] < 128
        &&& (e == buf.len() || buf[e] < 128)
    } by {
        let (s, e) = spans(buf)[k];
        lemma_run_end_bounds(buf, s, s);
        if e < buf.len() {
            lemma_terminator_ascii(run_state(buf.subrange(s, e)), buf[e]);
        }
    }
}

/// Read on its own, the run `buf[s..e]` goes on from `j` to its last byte.
proof fn lemma_run_reaches_end(buf: Seq<u8>, s: int, e: int, j: int)
    requires
        0 <= s < e <= buf.len(),
        e == run_end(buf, s),
        0 <= j <= e - s,
    ensures
        run_end_from(buf.subrange(s, e), 0, j) == e - s,
    decreases e - s - j,
{
    let w = buf.subrange(s, e);
    if j < e - s {
        assert(w.subrange(0, j) =~= buf.subrange(s, s + j));
        lemma_run_interior(buf, s, s, s + j);
        lemma_run_reaches_end(buf, s, e, j + 1);
    }
}

/// A complete run read on its own is one run, and a complete one.
pub proof fn lemma_run_alone(buf: Seq<u8>, s: int, e: int)
    requires
        0 <= s < e <= buf.len(),
        e == run_end(buf, s),
        is_candidate_run(buf, s, e),
    ensures
        spans(buf.subrange(s, e)) == seq![(0int, e - s)],
{
    let w = buf.subrange(s, e);
    let n: int = w.len() as int;
    lemma_run_end_bounds(buf, s, s);
    lemma_run_reaches_end(buf, s, e, 0);
    assert(w.subrange(0, n) =~= w);
    assert(w.subrange(0, n) =~= buf.subrange(s, e));
    assert(is_candidate_run(w, 0, n));
    assert(spans_from(w, n) == Seq::<(int, int)>::empty());
    assert(spans_from(w, 0) =~= seq![(0int, n)]);
}

/// Scanning a candidate on its own finds exactly that candidate again.
pub proof fn lemma_candidate_rescans(buf: Seq<u8>, k: int)
    requires
        0 <= k < spans(buf).len(),
    ensures
        spans(buf.subrange(spans(buf)[k].0, spans(buf)[k].1)) == seq![
            (0int, spans(buf)[k].1 - spans(buf)[k].0),
        ],
{
    lemma_spans_from_runs(buf, 0);
    let (s, e) = spans(buf)[k];
    lemma_run_alone(buf, s, e);
}

fn advance(st: RunState, b: u8) -> (r: RunState)
    requires
        st.depth < usize::MAX,
    ensures
        r == next_state(st, b),
{
    let word = st.word || is_alnum_byte(b);
    if st.escaped {
        RunState { escaped: false, word, bad: st.bad || (st.depth == 0 && b >= 128), ..st }
    } else if b == 92 {
        RunState { escaped: true, ..st }
    } else if st.quote != 0 {
        if b == st.quote {
            RunState { quote: 0, ..st }
        } else {
            RunState { word, ..st }
        }
    } else if st.depth > 0 {
        if b == 91 {
            RunState { depth: st.depth + 1, ..st }
        } else if b == 93 {
            RunState { depth: st.depth - 1, ..st }
        } else if b == 34 || b == 39 || b == 96 {
            RunState { quote: b, ..st }
        } else {
            RunState { word, ..st }
        }
    } else {
        if b == 91 {
            RunState { depth: 1, ..st }
        } else if b == 33 {
            RunState { bang: true, ..st }
        } else if b >= 128 {
            RunState { bad: true, ..st }
        } else {
            RunState { word, ..st }
        }
    }
}

fn is_alnum_byte(b: u8) -> (r: bool)
    ensures
        r == is_alnum(b),
{
    (48 <= b && b <= 57) || (65 <= b && b <= 90) || (97 <= b && b <= 122)
}

fn is_space_byte(b: u8) -> (r: bool)
    ensures
        r == is_space(b),
{
    b == 32 || b == 9 || b == 10 || b == 13 || b == 12
}

fn is_body(b: u8) -> (r: bool)
    ensures
        r == is_body_byte(b),
{
    is_alnum_byte(b) || b == 45 || b == 95 || b == 58 || b == 47 || b == 46 || b == 33 || b == 37
        || b == 35 || b == 91 || b == 92 || b >= 128
}

fn stops(st: &RunState, b: u8) -> (r: bool)
    ensures
        r == terminates(*st, b),
{
    if st.escaped {
        false
    } else if st.quote != 0 || st.depth > 0 {
        is_space_byte(b)
    } else {
        !is_body(b) || (b == 33 && st.bang)
    }
}

/// Finds the candidate spans of `buf`: half-open byte ranges, in order of
/// position, that never overlap.
pub fn scan(buf: &[u8]) -> (r: Vec<(usize, usize)>)
    ensures
        span_view(r@) == spans(buf@),
{
    let n = buf.len();
    let mut out: Vec<(usize, usize)> = Vec::new();
    let mut i: usize = 0;
    while i < n
        invariant
            n == buf@.len(),
            i <= n,
            span_view(out@) + spans_from(buf@, i as int) == spans(buf@),
        decreases n - i,
    {
        let ghost b = buf@;
        let fresh = RunState { depth: 0, quote: 0, escaped: false, bang: false, word: false, bad: false };
        if stops(&fresh, buf[i]) {
            i = i + 1;
        } else {
            let s = i;
            let mut st = fresh;
            let mut j: usize = i;
            assert(b.subrange(s as int, s as int) =~= Seq::<u8>::empty());
            while j < n && !stops(&st, buf[j])
                invariant
                    n == b.len(),
                    b == buf@,
                    s <= j <= n,
                    st == run_state(b.subrange(s as int, j as int)),
                    st.depth <= j - s,
                    run_end_from(b, s as int, j as int) == run_end(b, s as int),
                decreases n - j,
            {
                assert(b.subrange(s as int, j + 1).drop_last() =~= b.subrange(s as int, j as int));
                st = advance(st, buf[j]);
                j = j + 1;
            }
            assert(j as int == run_end(b, s as int));
            proof {
                lemma_run_end_bounds(b, s as int, s as int);
            }
            let ok = is_start_byte_exec(buf[s]) && (s == 0 || buf[s - 1] != 60) && (j == n
                || buf[j] != 61) && buf[j - 1] != 58 && st.depth == 0 && st.quote == 0
                && !st.escaped && !st.bad && st.word;
            let ghost before = out@;
            if ok {
                out.push((s, j));
                assert(span_view(out@) =~= span_view(before) + seq![(s as int, j as int)]);
            }
            i = j;
            proof {
                assert(span_view(out@) + spans_from(b, i as int) =~= spans(b));
            }
        }
    }
    out
}

fn is_start_byte_exec(b: u8) -> (r: bool)
    ensures
        r == is_start_byte(b),
{
    is_alnum_byte(b) || b == 45 || b == 33 || b == 91
}

} // verus!
