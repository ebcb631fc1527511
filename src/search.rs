use core::cmp::Ordering;
use vstd::prelude::*;
use vstd::string::*;
use crate::bytes::{
    compare_bytes, first_token, lemma_lex_cmp_antisym, lex_cmp, next_token, ordering_of,
};

verus! {

/// How far before an offset the start of its line is looked for. A file with
/// a longer line breaks the searcher's contract.
pub const MAX_LINE_LENGTH: usize = 25000;

pub open spec fn is_newline(c: u8) -> bool {
    c == 0x0a
}

/// Where the backward window for offset `p` begins.
pub open spec fn window_start(p: int) -> int {
    if p < MAX_LINE_LENGTH { 0 } else { p - MAX_LINE_LENGTH }
}

/// One past the last newline in `[w, p)`, or `w` when there is none.
pub open spec fn start_after(b: Seq<u8>, w: int, p: int) -> int
    decreases p - w,
{
    if p <= w {
        w
    } else if is_newline(b[p - 1]) {
        p
    } else {
        start_after(b, w, p - 1)
    }
}

/// The first newline at or after `s`, or the end of `b`.
pub open spec fn end_from(b: Seq<u8>, s: int) -> int
    decreases b.len() - s,
{
    if s >= b.len() {
        b.len() as int
    } else if is_newline(b[s]) {
        s
    } else {
        end_from(b, s + 1)
    }
}

/// Start of the line reconstructed for offset `p`.
pub open spec fn line_start(b: Seq<u8>, p: int) -> int {
    start_after(b, window_start(p), p)
}

/// End (exclusive, before its newline) of the line reconstructed for `p`.
pub open spec fn line_end(b: Seq<u8>, p: int) -> int {
    end_from(b, line_start(b, p))
}

/// The text of the line reconstructed for offset `p`.
pub open spec fn line_at(b: Seq<u8>, p: int) -> Seq<u8> {
    b.subrange(line_start(b, p), line_end(b, p))
}

/// The leading field of the line reconstructed for `p`.
pub open spec fn key_at(b: Seq<u8>, p: int) -> Seq<u8> {
    first_token(line_at(b, p))
}

/// The lines' keys never decrease as the offset grows: the file is sorted.
pub open spec fn sorted_by_key(b: Seq<u8>) -> bool {
    forall|p1: int, p2: int|
        0 <= p1 <= p2 < b.len() ==> lex_cmp(#[trigger] key_at(b, p1), #[trigger] key_at(b, p2))
            <= 0
}

/// Some line of `b` has `key` as its leading field.
pub open spec fn has_key(b: Seq<u8>, key: Seq<u8>) -> bool {
    exists|p: int| 0 <= p < b.len() && #[trigger] key_at(b, p) == key
}

proof fn lemma_start_after_bounds(b: Seq<u8>, w: int, p: int)
    requires
        0 <= w <= p,
    ensures
        w <= start_after(b, w, p) <= p,
    decreases p - w,
{
    if p > w && !is_newline(b[p - 1]) {
        lemma_start_after_bounds(b, w, p - 1);
    }
}

pub proof fn lemma_end_from_bounds(b: Seq<u8>, s: int)
    requires
        0 <= s <= b.len(),
    ensures
        s <= end_from(b, s) <= b.len(),
    decreases b.len() - s,
{
    if s < b.len() && !is_newline(b[s]) {
        lemma_end_from_bounds(b, s + 1);
    }
}

/// Finds the span `[start, end)` of the line that holds offset `pos`: the
/// start is one past the last newline before `pos` within the window of
/// `MAX_LINE_LENGTH` bytes, the end is the next newline or the end of `bytes`.
pub fn line_bounds(bytes: &[u8], pos: usize) -> (r: (usize, usize))
    requires
        pos < bytes@.len(),
    ensures
        r.0 == line_start(bytes@, pos as int),
        r.1 == line_end(bytes@, pos as int),
        r.0 <= pos < bytes@.len(),
        r.0 <= r.1 <= bytes@.len(),
{
    let w: usize = if pos < MAX_LINE_LENGTH { 0 } else { pos - MAX_LINE_LENGTH };
    let mut start: usize = w;
    let mut i: usize = w;
    while i < pos
        invariant
            w <= i <= pos < bytes@.len(),
            w == window_start(pos as int),
            start == start_after(bytes@, w as int, i as int),
        decreases pos - i,
    {
        if bytes[i] == 0x0a {
            start = i + 1;
        }
        i = i + 1;
    }
    proof {
        lemma_start_after_bounds(bytes@, w as int, pos as int);
    }
    let mut end: usize = start;
    while end < bytes.len() && bytes[end] != 0x0a
        invariant
            start <= end <= bytes@.len(),
            end_from(bytes@, start as int) == end_from(bytes@, end as int),
        decreases bytes.len() - end,
    {
        end = end + 1;
    }
    (start, end)
}

/// The complete line that holds byte offset `pos`, without its newline.
pub fn get_line(bytes: &[u8], pos: usize) -> (r: Vec<u8>)
    requires
        pos < bytes@.len(),
    ensures
        r@ == line_at(bytes@, pos as int),
{
    let (start, end) = line_bounds(bytes, pos);
    vstd::slice::slice_to_vec(&bytes[start..end])
}

/// The leading field of the line that holds `pos`, as a span of `bytes`.
fn key_bounds(bytes: &[u8], pos: usize) -> (r: (usize, usize, usize, usize))
    requires
        pos < bytes@.len(),
    ensures
        r.0 == line_start(bytes@, pos as int),
        r.1 == line_end(bytes@, pos as int),
        r.0 <= r.2 <= r.3 <= r.1 <= bytes@.len(),
        bytes@.subrange(r.2 as int, r.3 as int) == key_at(bytes@, pos as int),
{
    let (start, end) = line_bounds(bytes, pos);
    let line = &bytes[start..end];
    let (a, b) = next_token(line, 0);
    assert(line@.skip(0) =~= line@);
    assert(line@.subrange(a as int, b as int) =~= bytes@.subrange(start + a, start + b));
    if a == b {
        assert(bytes@.subrange(start + a, start + b) =~= Seq::<u8>::empty());
    }
    (start, end, start + a, start + b)
}

/// Binary search over byte offsets for the line whose leading field is `key`.
/// Any line returned has that key; on a sorted file (see `sorted_by_key`) a
/// line is returned exactly when some line has the key.
pub fn search(bytes: &[u8], key: &str) -> (r: Option<Vec<u8>>)
    ensures
        r matches Some(line) ==> exists|p: int|
            0 <= p < bytes@.len() && line@ == #[trigger] line_at(bytes@, p) && key_at(bytes@, p)
                == key.spec_bytes(),
        !has_key(bytes@, key.spec_bytes()) ==> r is None,
        sorted_by_key(bytes@) ==> (r is Some <==> has_key(bytes@, key.spec_bytes())),
{
    let k = key.as_bytes();
    let n = bytes.len();
    let mut lo: usize = 0;
    let mut hi: usize = n;
    while lo < hi
        invariant
            lo <= hi <= n == bytes@.len(),
            k@ == key.spec_bytes(),
            sorted_by_key(bytes@) ==> forall|q: int|
                (0 <= q < lo || hi <= q < n) ==> #[trigger] key_at(bytes@, q) != k@,
        decreases hi - lo,
    {
        let mid = lo + (hi - 1 - lo) / 2;
        let (start, end, a, b) = key_bounds(bytes, mid);
        let c = compare_bytes(k, &bytes[a..b]);
        let ghost km = key_at(bytes@, mid as int);
        assert(bytes@.subrange(a as int, b as int) == km);
        proof {
            lemma_lex_cmp_antisym(k@, km);
        }
        match c {
            Ordering::Equal => {
                let line = vstd::slice::slice_to_vec(&bytes[start..end]);
                assert(line@ == line_at(bytes@, mid as int));
                return Some(line);
            },
            Ordering::Greater => {
                assert(sorted_by_key(bytes@) ==> forall|q: int|
                    0 <= q <= mid ==> #[trigger] key_at(bytes@, q) != k@) by {
                    if sorted_by_key(bytes@) {
                        assert forall|q: int| 0 <= q <= mid implies #[trigger] key_at(bytes@, q)
                            != k@ by {
                            assert(lex_cmp(key_at(bytes@, q), key_at(bytes@, mid as int)) <= 0);
                        }
                    }
                }
                lo = mid + 1;
            },
            Ordering::Less => {
                assert(sorted_by_key(bytes@) ==> forall|q: int|
                    mid <= q < n ==> #[trigger] key_at(bytes@, q) != k@) by {
                    if sorted_by_key(bytes@) {
                        assert forall|q: int| mid <= q < n implies #[trigger] key_at(bytes@, q)
                            != k@ by {
                            assert(lex_cmp(key_at(bytes@, mid as int), key_at(bytes@, q)) <= 0);
                        }
                    }
                }
                hi = mid;
            },
        }
    }
    None
}

/// Lines that share a leading field are one and the same line.
pub open spec fn unique_keys(b: Seq<u8>) -> bool {
    forall|p: int, q: int|
        0 <= p < b.len() && 0 <= q < b.len() && #[trigger] key_at(b, p) == #[trigger] key_at(b, q)
            ==> line_at(b, p) == line_at(b, q)
}

/// The plain reference lookup: walk the offsets from `p` upward and take the
/// line of the first one whose key is `key`.
pub open spec fn scan_from(b: Seq<u8>, key: Seq<u8>, p: int) -> Option<Seq<u8>>
    decreases b.len() - p,
{
    if p < 0 || p >= b.len() {
        None
    } else if key_at(b, p) == key {
        Some(line_at(b, p))
    } else {
        scan_from(b, key, p + 1)
    }
}

/// The line that a front-to-back scan finds for `key`.
pub open spec fn scan_line(b: Seq<u8>, key: Seq<u8>) -> Option<Seq<u8>> {
    scan_from(b, key, 0)
}

proof fn lemma_scan_from_finds(b: Seq<u8>, key: Seq<u8>, p: int, q: int)
    requires
        unique_keys(b),
        0 <= p <= q < b.len(),
        key_at(b, q) == key,
    ensures
        scan_from(b, key, p) == Some(line_at(b, q)),
    decreases q - p,
{
    if key_at(b, p) != key {
        lemma_scan_from_finds(b, key, p + 1, q);
    }
}

/// Two offsets of one line, with no newline between them, give the same
/// line, provided the line's start lies within the backward window.
pub proof fn lemma_line_offset_invariant(b: Seq<u8>, p: int, q: int)
    requires
        0 <= p <= q < b.len(),
        forall|i: int| p <= i < q ==> !is_newline(#[trigger] b[i]),
        q - start_after(b, 0, q) <= MAX_LINE_LENGTH,
    ensures
        line_at(b, p) == line_at(b, q),
{
    lemma_same_start(b, 0, p, q);
    lemma_start_after_bounds(b, 0, p);
    lemma_window_start_agrees(b, window_start(p), p);
    lemma_window_start_agrees(b, window_start(q), q);
}

proof fn lemma_same_start(b: Seq<u8>, w: int, p: int, q: int)
    requires
        0 <= w <= p <= q <= b.len(),
        forall|i: int| p <= i < q ==> !is_newline(#[trigger] b[i]),
    ensures
        start_after(b, w, q) == start_after(b, w, p),
    decreases q - p,
{
    if p < q {
        lemma_same_start(b, w, p, q - 1);
    }
}

proof fn lemma_window_start_agrees(b: Seq<u8>, w: int, p: int)
    requires
        0 <= w <= p <= b.len(),
        start_after(b, 0, p) >= w,
    ensures
        start_after(b, w, p) == start_after(b, 0, p),
    decreases p - w,
{
    lemma_start_after_bounds(b, 0, p);
    if p > w && !is_newline(b[p - 1]) {
        lemma_window_start_agrees(b, w, p - 1);
    }
}

/// On a file whose lines have distinct keys, a line that `search` may return
/// for `key` (one whose leading field is `key`) is the line that a
/// front-to-back scan finds.
pub proof fn lemma_search_agrees_with_scan(b: Seq<u8>, key: Seq<u8>, line: Seq<u8>, p: int)
    requires
        unique_keys(b),
        0 <= p < b.len(),
        line == line_at(b, p),
        key_at(b, p) == key,
    ensures
        scan_line(b, key) == Some(line),
{
    lemma_scan_from_finds(b, key, 0, p);
}

} // verus!
