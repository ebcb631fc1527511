use core::cmp::Ordering;
use vstd::prelude::*;

verus! {

/// Whitespace as the index format knows it (ASCII blanks and line breaks).
pub open spec fn is_space(c: u8) -> bool {
    c == 0x20 || c == 0x09 || c == 0x0a || c == 0x0b || c == 0x0c || c == 0x0d
}

/// Byte-wise lexicographic order: -1, 0 or 1.
pub open spec fn lex_cmp(a: Seq<u8>, b: Seq<u8>) -> int
    decreases a.len(),
{
    if a.len() == 0 {
        if b.len() == 0 { 0 } else { -1 }
    } else if b.len() == 0 {
        1
    } else if a[0] < b[0] {
        -1
    } else if a[0] > b[0] {
        1
    } else {
        lex_cmp(a.drop_first(), b.drop_first())
    }
}

pub open spec fn ordering_of(c: int) -> Ordering {
    if c < 0 { Ordering::Less } else if c > 0 { Ordering::Greater } else { Ordering::Equal }
}

pub proof fn lemma_lex_cmp_antisym(a: Seq<u8>, b: Seq<u8>)
    ensures
        lex_cmp(a, b) == -lex_cmp(b, a),
        -1 <= lex_cmp(a, b) <= 1,
        lex_cmp(a, b) == 0 <==> a == b,
    decreases a.len(),
{
    if a.len() > 0 && b.len() > 0 && a[0] == b[0] {
        lemma_lex_cmp_antisym(a.drop_first(), b.drop_first());
        if a.drop_first() == b.drop_first() {
            assert(a =~= seq![a[0]] + a.drop_first());
            assert(b =~= seq![b[0]] + b.drop_first());
        }
    } else if a.len() > 0 && b.len() > 0 {
        assert(a != b);
    } else if a.len() == 0 && b.len() == 0 {
        assert(a =~= b);
    }
}

pub proof fn lemma_lex_cmp_trans(a: Seq<u8>, b: Seq<u8>, c: Seq<u8>)
    requires
        lex_cmp(a, b) < 0,
        lex_cmp(b, c) < 0,
    ensures
        lex_cmp(a, c) < 0,
    decreases a.len(),
{
    if a.len() > 0 && b.len() > 0 && c.len() > 0 && a[0] == b[0] && b[0] == c[0] {
        lemma_lex_cmp_trans(a.drop_first(), b.drop_first(), c.drop_first());
    }
}

/// Compares two byte strings in lexicographic order.
pub fn compare_bytes(a: &[u8], b: &[u8]) -> (r: Ordering)
    ensures
        r == ordering_of(lex_cmp(a@, b@)),
{
    let mut i: usize = 0;
    assert(a@.skip(0) =~= a@);
    assert(b@.skip(0) =~= b@);
    while i < a.len() && i < b.len()
        invariant
            i <= a@.len(),
            i <= b@.len(),
            lex_cmp(a@, b@) == lex_cmp(a@.skip(i as int), b@.skip(i as int)),
        decreases a.len() - i,
    {
        if a[i] < b[i] {
            return Ordering::Less;
        } else if a[i] > b[i] {
            return Ordering::Greater;
        }
        assert(a@.skip(i as int).drop_first() =~= a@.skip(i + 1));
        assert(b@.skip(i as int).drop_first() =~= b@.skip(i + 1));
        i = i + 1;
    }
    if i < b.len() {
        Ordering::Less
    } else if i < a.len() {
        Ordering::Greater
    } else {
        Ordering::Equal
    }
}

/// Length of the run of non-blank bytes at the start of `s`.
pub open spec fn word_len(s: Seq<u8>) -> nat
    decreases s.len(),
{
    if s.len() == 0 || is_space(s[0]) {
        0
    } else {
        1 + word_len(s.drop_first())
    }
}

pub proof fn lemma_word_len_bound(s: Seq<u8>)
    ensures
        word_len(s) <= s.len(),
        s.len() > 0 && !is_space(s[0]) ==> word_len(s) >= 1,
    decreases s.len(),
{
    if s.len() > 0 && !is_space(s[0]) {
        lemma_word_len_bound(s.drop_first());
    }
}

/// The whitespace-delimited fields of `s`, in order; runs of blanks count as one.
pub open spec fn tokens(s: Seq<u8>) -> Seq<Seq<u8>>
    decreases s.len(),
    via tokens_decreases
{
    if s.len() == 0 {
        seq![]
    } else if is_space(s[0]) {
        tokens(s.drop_first())
    } else {
        let k = word_len(s) as int;
        seq![s.take(k)] + tokens(s.skip(k))
    }
}

#[via_fn]
proof fn tokens_decreases(s: Seq<u8>) {
    lemma_word_len_bound(s);
}

/// The leading field of a line: its key. Empty when the line has none.
pub open spec fn first_token(s: Seq<u8>) -> Seq<u8> {
    if tokens(s).len() > 0 { tokens(s)[0] } else { seq![] }
}

/// Finds the next field of `s` at or after `i`. Returns its span, or an empty
/// span at the end of `s` when no field is left.
pub fn next_token(s: &[u8], i: usize) -> (r: (usize, usize))
    requires
        i <= s@.len(),
    ensures
        i <= r.0 <= r.1 <= s@.len(),
        r.0 == r.1 ==> r.0 == s@.len() && tokens(s@.skip(i as int)) == Seq::<Seq<u8>>::empty(),
        r.0 < r.1 ==> tokens(s@.skip(i as int)) == seq![s@.subrange(r.0 as int, r.1 as int)]
            + tokens(s@.skip(r.1 as int)),
{
    let mut j: usize = i;
    while j < s.len() && (s[j] == 0x20 || s[j] == 0x09 || s[j] == 0x0a || s[j] == 0x0b
        || s[j] == 0x0c || s[j] == 0x0d)
        invariant
            i <= j <= s@.len(),
            tokens(s@.skip(i as int)) == tokens(s@.skip(j as int)),
        decreases s.len() - j,
    {
        assert(s@.skip(j as int).drop_first() =~= s@.skip(j + 1));
        j = j + 1;
    }
    if j == s.len() {
        assert(s@.skip(j as int) =~= Seq::<u8>::empty());
        return (j, j);
    }
    let mut k: usize = j;
    while k < s.len() && !(s[k] == 0x20 || s[k] == 0x09 || s[k] == 0x0a || s[k] == 0x0b
        || s[k] == 0x0c || s[k] == 0x0d)
        invariant
            j <= k <= s@.len(),
            word_len(s@.skip(j as int)) == (k - j) + word_len(s@.skip(k as int)),
        decreases s.len() - k,
    {
        assert(s@.skip(k as int).drop_first() =~= s@.skip(k + 1));
        k = k + 1;
    }
    assert(word_len(s@.skip(k as int)) == 0);
    assert(s@.skip(j as int).take(k - j) =~= s@.subrange(j as int, k as int));
    assert(s@.skip(j as int).skip(k - j) =~= s@.skip(k as int));
    (j, k)
}

/// `spans` are the spans of the fields of `s`, in order.
pub open spec fn field_spans(s: Seq<u8>, spans: Seq<(usize, usize)>) -> bool {
    &&& spans.len() == tokens(s).len()
    &&& forall|k: int|
        0 <= k < spans.len() ==> spans[k].0 < spans[k].1 <= s.len() && #[trigger] s.subrange(
            spans[k].0 as int,
            spans[k].1 as int,
        ) == tokens(s)[k]
}

/// The spans of all fields of `s`, in order.
pub fn split_tokens(s: &[u8]) -> (r: Vec<(usize, usize)>)
    ensures
        field_spans(s@, r@),
{
    let mut out: Vec<(usize, usize)> = Vec::new();
    let mut i: usize = 0;
    assert(s@.skip(0) =~= s@);
    loop
        invariant
            i <= s@.len(),
            tokens(s@) == Seq::new(
                out@.len(),
                |k: int| s@.subrange(out@[k].0 as int, out@[k].1 as int),
            ) + tokens(s@.skip(i as int)),
            forall|k: int| 0 <= k < out@.len() ==> #[trigger] out@[k].0 < out@[k].1 <= s@.len(),
        decreases s.len() - i,
    {
        let (a, b) = next_token(s, i);
        if a == b {
            assert(tokens(s@) =~= Seq::new(
                out@.len(),
                |k: int| s@.subrange(out@[k].0 as int, out@[k].1 as int),
            ));
            return out;
        }
        let ghost prev = Seq::new(
            out@.len(),
            |k: int| s@.subrange(out@[k].0 as int, out@[k].1 as int),
        );
        out.push((a, b));
        assert(Seq::new(
            out@.len(),
            |k: int| s@.subrange(out@[k].0 as int, out@[k].1 as int),
        ) =~= prev + seq![s@.subrange(a as int, b as int)]);
        i = b;
    }
}

/// A non-empty run of decimal digits.
pub open spec fn is_decimal(s: Seq<u8>) -> bool {
    s.len() > 0 && forall|i: int| 0 <= i < s.len() ==> 0x30 <= #[trigger] s[i] <= 0x39
}

/// The value of a run of decimal digits.
pub open spec fn decimal_value(s: Seq<u8>) -> nat
    decreases s.len(),
{
    if s.len() == 0 {
        0
    } else {
        decimal_value(s.drop_last()) * 10 + (s.last() - 0x30) as nat
    }
}

/// Reads `s` as a decimal number no larger than `max`.
pub open spec fn number_of(s: Seq<u8>, max: u64) -> Option<u64> {
    if is_decimal(s) && decimal_value(s) <= max {
        Some(decimal_value(s) as u64)
    } else {
        None
    }
}

proof fn lemma_decimal_grows(s: Seq<u8>, i: int, j: int)
    requires
        0 <= i <= j <= s.len(),
        forall|k: int| 0 <= k < s.len() ==> 0x30 <= #[trigger] s[k] <= 0x39,
    ensures
        decimal_value(s.take(i)) <= decimal_value(s.take(j)),
    decreases j - i,
{
    if i < j {
        lemma_decimal_grows(s, i, j - 1);
        assert(s.take(j).drop_last() =~= s.take(j - 1));
    }
}

/// Parses a field as a decimal number that must not exceed `max`; `None` for
/// an empty field, a byte that is not a digit, or a value above `max`.
pub fn parse_number(s: &[u8], max: u64) -> (r: Option<u64>)
    ensures
        r == number_of(s@, max),
{
    if s.len() == 0 {
        return None;
    }
    let mut k: usize = 0;
    while k < s.len()
        invariant
            k <= s@.len(),
            forall|m: int| 0 <= m < k ==> 0x30 <= #[trigger] s@[m] <= 0x39,
        decreases s.len() - k,
    {
        if s[k] < 0x30 || s[k] > 0x39 {
            return None;
        }
        k = k + 1;
    }
    let mut acc: u64 = 0;
    let mut i: usize = 0;
    assert(s@.take(0) =~= Seq::<u8>::empty());
    while i < s.len()
        invariant
            i <= s@.len(),
            is_decimal(s@),
            acc as nat == decimal_value(s@.take(i as int)),
            acc <= max,
        decreases s.len() - i,
    {
        let d: u64 = (s[i] - 0x30) as u64;
        assert(s@.take(i + 1).drop_last() =~= s@.take(i as int));
        if d > max || acc > (max - d) / 10 {
            proof {
                assert(decimal_value(s@.take(i + 1)) > max) by (nonlinear_arith)
                    requires
                        decimal_value(s@.take(i + 1)) == acc * 10 + d,
                        d > max || acc > (max - d) / 10,
                        acc >= 0;
                lemma_decimal_grows(s@, i + 1, s@.len() as int);
                assert(s@.take(s@.len() as int) =~= s@);
            }
            return None;
        }
        proof {
            assert(acc * 10 + d <= max) by (nonlinear_arith)
                requires
                    acc <= (max - d) / 10,
                    d <= max;
        }
        acc = acc * 10 + d;
        i = i + 1;
    }
    assert(s@.take(s@.len() as int) =~= s@);
    Some(acc)
}

} // verus!
