use vstd::prelude::*;
use crate::bytes::{field_spans, number_of, parse_number, split_tokens, tokens};
use crate::index::{IndexData, IndexDataView};
use crate::pointer::{decode_pointer, pointer_of, PointerSymbol};

verus! {

/// The four parts of speech, each with a mapping of its own in the index.
#[derive(Debug, Clone, Copy, PartialEq, Eq, Structural)]
pub enum PartOfSpeech {
    Noun,
    Verb,
    Adjective,
    Adverb,
}

/// Why an index text could not be taken in.
#[derive(Debug, Clone, Copy, PartialEq, Eq, Structural)]
pub enum ParseError {
    /// A record line has a missing or malformed field, an unknown
    /// part-of-speech tag or an unknown pointer code.
    Grammar,
    /// The index already holds as many records as a `usize` can count.
    Capacity,
}

/// The part-of-speech tags `n`, `v`, `a` and `r`.
pub open spec fn pos_of(t: Seq<u8>) -> Option<PartOfSpeech> {
    if t == seq![0x6eu8] {
        Some(PartOfSpeech::Noun)
    } else if t == seq![0x76u8] {
        Some(PartOfSpeech::Verb)
    } else if t == seq![0x61u8] {
        Some(PartOfSpeech::Adjective)
    } else if t == seq![0x72u8] {
        Some(PartOfSpeech::Adverb)
    } else {
        None
    }
}

/// A header or licence line: its first byte is a space.
pub open spec fn is_comment(line: Seq<u8>) -> bool {
    line.len() > 0 && line[0] == 0x20
}

pub open spec fn count_of(t: Seq<u8>) -> Option<u64> {
    number_of(t, usize::MAX as u64)
}

pub open spec fn u32_of(t: Seq<u8>) -> Option<u64> {
    number_of(t, u32::MAX as u64)
}

/// The sense count of a record's fields `t`.
pub open spec fn sense_count(t: Seq<Seq<u8>>) -> int {
    count_of(t[2])->0 as int
}

/// The pointer count of a record's fields `t`.
pub open spec fn pointer_count(t: Seq<Seq<u8>>) -> int {
    count_of(t[3])->0 as int
}

/// The pointer-code fields.
pub open spec fn pointer_fields(t: Seq<Seq<u8>>) -> Seq<Seq<u8>> {
    t.subrange(4, 4 + pointer_count(t))
}

/// The tagged-sense-count field (the one before it repeats the sense count).
pub open spec fn tagged_field(t: Seq<Seq<u8>>) -> Seq<u8> {
    t[5 + pointer_count(t)]
}

/// The synset-offset fields.
pub open spec fn offset_fields(t: Seq<Seq<u8>>) -> Seq<Seq<u8>> {
    t.subrange(6 + pointer_count(t), 6 + pointer_count(t) + sense_count(t))
}

/// The fields `t` of a line follow the record grammar
/// `word pos senses pointers code* senses tagged offset*`; fields after the
/// last offset are ignored.
pub open spec fn valid_fields(t: Seq<Seq<u8>>) -> bool {
    &&& t.len() >= 4
    &&& pos_of(t[1]) is Some
    &&& count_of(t[2]) is Some
    &&& count_of(t[3]) is Some
    &&& t.len() >= 6 + pointer_count(t) + sense_count(t)
    &&& forall|i: int|
        0 <= i < pointer_count(t) ==> pointer_of(#[trigger] pointer_fields(t)[i]) is Some
    &&& u32_of(tagged_field(t)) is Some
    &&& forall|j: int| 0 <= j < sense_count(t) ==> u32_of(#[trigger] offset_fields(t)[j]) is Some
}

/// The record that valid fields `t` describe.
pub open spec fn record_data(t: Seq<Seq<u8>>) -> IndexDataView {
    IndexDataView {
        sysnet_cnt: sense_count(t) as usize,
        p_cnt: pointer_count(t) as usize,
        ptr_symbol: pointer_fields(t).map_values(|c: Seq<u8>| pointer_of(c)->0),
        tagsense_cnt: u32_of(tagged_field(t))->0 as u32,
        synset_offset: offset_fields(t).map_values(|c: Seq<u8>| u32_of(c)->0 as u32),
    }
}

/// A parsed record has exactly as many pointer types as its pointer count
/// and exactly as many synset offsets as its sense count.
pub proof fn lemma_record_counts_agree(t: Seq<Seq<u8>>)
    requires
        valid_fields(t),
    ensures
        record_data(t).counts_agree(),
{
}

fn parse_pos(t: &[u8]) -> (r: Option<PartOfSpeech>)
    ensures
        r == pos_of(t@),
{
    if t.len() != 1 {
        return None;
    }
    assert(t@ =~= seq![t@[0]]);
    match t[0] {
        0x6e => Some(PartOfSpeech::Noun),
        0x76 => Some(PartOfSpeech::Verb),
        0x61 => Some(PartOfSpeech::Adjective),
        0x72 => Some(PartOfSpeech::Adverb),
        _ => None,
    }
}

fn field<'a>(line: &'a [u8], spans: &Vec<(usize, usize)>, k: usize) -> (r: &'a [u8])
    requires
        k < spans@.len(),
        field_spans(line@, spans@),
    ensures
        r@ == tokens(line@)[k as int],
{
    let (a, b) = spans[k];
    assert(line@.subrange(a as int, b as int) == tokens(line@)[k as int]);
    &line[a..b]
}

/// Parses one line of an index file: `Ok(None)` for a comment line, the
/// part of speech, headword and record for a record line, and an error for a
/// line that breaks the grammar.
pub fn parse_line(line: &[u8]) -> (r: Result<Option<(PartOfSpeech, Vec<u8>, IndexData)>, ParseError>)
    ensures
        is_comment(line@) <==> r matches Ok(None),
        !is_comment(line@) ==> (r is Ok <==> valid_fields(tokens(line@))),
        r matches Err(e) ==> e == ParseError::Grammar,
        r matches Ok(Some((p, w, d))) ==> ({
            let t = tokens(line@);
            &&& p == pos_of(t[1])->0
            &&& w@ == t[0]
            &&& d@ == record_data(t)
        }),
{
    if line.len() > 0 && line[0] == 0x20 {
        return Ok(None);
    }
    let spans = split_tokens(line);
    let n_fields: usize = spans.len();
    let ghost t = tokens(line@);
    if spans.len() < 4 {
        return Err(ParseError::Grammar);
    }
    let word = vstd::slice::slice_to_vec(field(line, &spans, 0));
    let pos = match parse_pos(field(line, &spans, 1)) {
        Some(p) => p,
        None => return Err(ParseError::Grammar),
    };
    let sense_cnt: usize = match parse_number(field(line, &spans, 2), usize::MAX as u64) {
        Some(v) => v as usize,
        None => return Err(ParseError::Grammar),
    };
    let p_cnt: usize = match parse_number(field(line, &spans, 3), usize::MAX as u64) {
        Some(v) => v as usize,
        None => return Err(ParseError::Grammar),
    };
    if spans.len() - 4 < p_cnt || spans.len() - 4 - p_cnt < 2 || spans.len() - 6 - p_cnt
        < sense_cnt {
        return Err(ParseError::Grammar);
    }
    let mut ptr_symbol: Vec<PointerSymbol> = Vec::with_capacity(p_cnt);
    let mut i: usize = 0;
    while i < p_cnt
        invariant
            i <= p_cnt == pointer_count(t),
            4 + p_cnt <= spans@.len(),
            spans@.len() == t.len(),
            spans@.len() == n_fields,
            t == tokens(line@),
            field_spans(line@, spans@),
            !is_comment(line@),
            ptr_symbol@ == pointer_fields(t).take(i as int).map_values(
                |c: Seq<u8>| pointer_of(c)->0,
            ),
            forall|m: int| 0 <= m < i ==> pointer_of(#[trigger] pointer_fields(t)[m]) is Some,
        decreases p_cnt - i,
    {
        let code = field(line, &spans, 4 + i);
        assert(code@ == pointer_fields(t)[i as int]);
        match decode_pointer(code) {
            Some(sym) => {
                ptr_symbol.push(sym);
            },
            None => {
                return Err(ParseError::Grammar);
            },
        }
        i = i + 1;
        assert(ptr_symbol@ =~= pointer_fields(t).take(i as int).map_values(
            |c: Seq<u8>| pointer_of(c)->0,
        ));
    }
    assert(pointer_fields(t).take(p_cnt as int) =~= pointer_fields(t));
    let tagsense_cnt: u32 = match parse_number(field(line, &spans, 5 + p_cnt), u32::MAX as u64) {
        Some(v) => v as u32,
        None => return Err(ParseError::Grammar),
    };
    let mut synset_offset: Vec<u32> = Vec::with_capacity(sense_cnt);
    let mut j: usize = 0;
    while j < sense_cnt
        invariant
            j <= sense_cnt == sense_count(t),
            p_cnt == pointer_count(t),
            6 + p_cnt + sense_cnt <= spans@.len(),
            spans@.len() == t.len(),
            spans@.len() == n_fields,
            t == tokens(line@),
            field_spans(line@, spans@),
            !is_comment(line@),
            synset_offset@ == offset_fields(t).take(j as int).map_values(
                |c: Seq<u8>| u32_of(c)->0 as u32,
            ),
            forall|m: int| 0 <= m < j ==> u32_of(#[trigger] offset_fields(t)[m]) is Some,
        decreases sense_cnt - j,
    {
        let f = field(line, &spans, 6 + p_cnt + j);
        assert(f@ == offset_fields(t)[j as int]);
        match parse_number(f, u32::MAX as u64) {
            Some(v) => {
                synset_offset.push(v as u32);
            },
            None => {
                return Err(ParseError::Grammar);
            },
        }
        j = j + 1;
        assert(synset_offset@ =~= offset_fields(t).take(j as int).map_values(
            |c: Seq<u8>| u32_of(c)->0 as u32,
        ));
    }
    assert(offset_fields(t).take(sense_cnt as int) =~= offset_fields(t));
    let data = IndexData {
        sysnet_cnt: sense_cnt,
        p_cnt,
        ptr_symbol,
        tagsense_cnt,
        synset_offset,
    };
    Ok(Some((pos, word, data)))
}

} // verus!
