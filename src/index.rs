use vstd::prelude::*;
use vstd::string::*;
use crate::bytes::tokens;
use crate::pointer::PointerSymbol;
use crate::record::{
    is_comment, lemma_record_counts_agree, parse_line, pos_of, record_data, valid_fields,
    ParseError, PartOfSpeech,
};
use crate::search::{end_from, lemma_end_from_bounds};
use crate::word_map::WordMap;
use vstd::utf8::encode_utf8;

verus! {

/// What an index line records for one headword in one part of speech.
#[derive(Debug, Clone)]
pub struct IndexData {
    /// Number of senses (synsets).
    pub sysnet_cnt: usize,
    /// Number of distinct pointer types over all senses.
    pub p_cnt: usize,
    /// The pointer types, in file order.
    pub ptr_symbol: Vec<PointerSymbol>,
    /// Number of senses with frequency data.
    pub tagsense_cnt: u32,
    /// Byte offsets of the senses in the data file, in file order.
    pub synset_offset: Vec<u32>,
}

/// The mathematical value of an `IndexData`.
pub struct IndexDataView {
    pub sysnet_cnt: usize,
    pub p_cnt: usize,
    pub ptr_symbol: Seq<PointerSymbol>,
    pub tagsense_cnt: u32,
    pub synset_offset: Seq<u32>,
}

impl IndexDataView {
    /// The counts agree with the sequences they count.
    pub open spec fn counts_agree(&self) -> bool {
        self.ptr_symbol.len() == self.p_cnt && self.synset_offset.len() == self.sysnet_cnt
    }
}

impl View for IndexData {
    type V = IndexDataView;

    open spec fn view(&self) -> IndexDataView {
        IndexDataView {
            sysnet_cnt: self.sysnet_cnt,
            p_cnt: self.p_cnt,
            ptr_symbol: self.ptr_symbol@,
            tagsense_cnt: self.tagsense_cnt,
            synset_offset: self.synset_offset@,
        }
    }
}

fn copy_vec<T: Copy>(v: &Vec<T>) -> (r: Vec<T>)
    ensures
        r@ == v@,
{
    let mut out: Vec<T> = Vec::with_capacity(v.len());
    let mut i: usize = 0;
    while i < v.len()
        invariant
            i <= v@.len(),
            out@ == v@.take(i as int),
        decreases v.len() - i,
    {
        out.push(v[i]);
        i = i + 1;
        assert(out@ =~= v@.take(i as int));
    }
    assert(v@.take(v@.len() as int) =~= v@);
    out
}

impl IndexData {
    /// An independent copy with the same contents.
    pub fn duplicate(&self) -> (r: IndexData)
        ensures
            r@ == self@,
    {
        IndexData {
            sysnet_cnt: self.sysnet_cnt,
            p_cnt: self.p_cnt,
            ptr_symbol: copy_vec(&self.ptr_symbol),
            tagsense_cnt: self.tagsense_cnt,
            synset_offset: copy_vec(&self.synset_offset),
        }
    }
}

/// The mathematical value of an `Index`: one map per part of speech.
pub struct IndexView {
    pub noun: Map<Seq<u8>, IndexDataView>,
    pub verb: Map<Seq<u8>, IndexDataView>,
    pub adj: Map<Seq<u8>, IndexDataView>,
    pub adv: Map<Seq<u8>, IndexDataView>,
}

impl IndexView {
    pub open spec fn empty() -> IndexView {
        IndexView { noun: Map::empty(), verb: Map::empty(), adj: Map::empty(), adv: Map::empty() }
    }

    pub open spec fn map_for(&self, p: PartOfSpeech) -> Map<Seq<u8>, IndexDataView> {
        match p {
            PartOfSpeech::Noun => self.noun,
            PartOfSpeech::Verb => self.verb,
            PartOfSpeech::Adjective => self.adj,
            PartOfSpeech::Adverb => self.adv,
        }
    }

    /// Number of records over the four maps.
    pub open spec fn total(&self) -> nat {
        self.noun.dom().len() + self.verb.dom().len() + self.adj.dom().len()
            + self.adv.dom().len()
    }

    /// Some map has `w` as a key.
    pub open spec fn contains_word(&self, w: Seq<u8>) -> bool {
        self.noun.contains_key(w) || self.verb.contains_key(w) || self.adj.contains_key(w)
            || self.adv.contains_key(w)
    }

    /// The same maps with `d` stored under `w` in the map of `p`.
    pub open spec fn with_record(self, p: PartOfSpeech, w: Seq<u8>, d: IndexDataView) -> IndexView {
        match p {
            PartOfSpeech::Noun => IndexView { noun: self.noun.insert(w, d), ..self },
            PartOfSpeech::Verb => IndexView { verb: self.verb.insert(w, d), ..self },
            PartOfSpeech::Adjective => IndexView { adj: self.adj.insert(w, d), ..self },
            PartOfSpeech::Adverb => IndexView { adv: self.adv.insert(w, d), ..self },
        }
    }

    /// Every stored record's counts agree with its sequences.
    pub open spec fn records_agree(&self) -> bool {
        forall|p: PartOfSpeech, w: Seq<u8>|
            #[trigger] self.map_for(p).contains_key(w) ==> self.map_for(p)[w].counts_agree()
    }
}

/// The effect of one line of index text: a comment changes nothing, a record
/// is stored under its headword in the map of its part of speech.
pub open spec fn ingest_line(m: IndexView, line: Seq<u8>) -> Result<IndexView, ParseError> {
    if is_comment(line) {
        Ok(m)
    } else if !valid_fields(tokens(line)) {
        Err(ParseError::Grammar)
    } else {
        let t = tokens(line);
        let p = pos_of(t[1])->0;
        if !m.map_for(p).contains_key(t[0]) && m.total() >= usize::MAX {
            Err(ParseError::Capacity)
        } else {
            Ok(m.with_record(p, t[0], record_data(t)))
        }
    }
}

/// Takes in the lines of `text` from offset `i` on, in order, stopping at the
/// first bad line: `Err` holds the maps as they stood before that line.
pub open spec fn ingest(m: IndexView, text: Seq<u8>, i: int) -> Result<
    IndexView,
    (IndexView, ParseError),
>
    decreases text.len() + 1 - i,
    via ingest_decreases
{
    if i < 0 || i >= text.len() {
        Ok(m)
    } else {
        let e = end_from(text, i);
        match ingest_line(m, text.subrange(i, e)) {
            Ok(m2) => ingest(m2, text, e + 1),
            Err(err) => Err((m, err)),
        }
    }
}

#[via_fn]
proof fn ingest_decreases(m: IndexView, text: Seq<u8>, i: int) {
    if 0 <= i < text.len() {
        lemma_end_from_bounds(text, i);
        assert(end_from(text, i) + 1 > i);
    }
}

/// What `lookup_all` returns: a copy of the record of each part of speech.
#[derive(Debug, Clone)]
pub struct LemmaIndices {
    pub noun_index: Option<IndexData>,
    pub verb_index: Option<IndexData>,
    pub adj_index: Option<IndexData>,
    pub adv_index: Option<IndexData>,
}

/// The in-memory index: one map from headword to record per part of speech.
pub struct Index {
    noun_map: WordMap,
    verb_map: WordMap,
    adv_map: WordMap,
    adj_map: WordMap,
}

impl View for Index {
    type V = IndexView;

    closed spec fn view(&self) -> IndexView {
        IndexView {
            noun: self.noun_map@,
            verb: self.verb_map@,
            adj: self.adj_map@,
            adv: self.adv_map@,
        }
    }
}

/// `found` is a copy of what `m` stores under `w`, if anything.
pub open spec fn copy_of(found: Option<IndexData>, m: Map<Seq<u8>, IndexDataView>, w: Seq<u8>) -> bool {
    &&& found is Some <==> m.contains_key(w)
    &&& found matches Some(d) ==> d@ == m[w]
}

impl Index {
    pub closed spec fn wf(&self) -> bool {
        &&& self.noun_map.wf()
        &&& self.verb_map.wf()
        &&& self.adv_map.wf()
        &&& self.adj_map.wf()
        &&& self@.total() <= usize::MAX
        &&& self@.records_agree()
    }

    /// Every record held by a well-formed index has as many pointer types
    /// as its pointer count and as many synset offsets as its sense count.
    pub proof fn lemma_records_agree(&self)
        requires
            self.wf(),
        ensures
            self@.records_agree(),
    {
    }

    pub fn new() -> (r: Index)
        ensures
            r.wf(),
            r@ == IndexView::empty(),
    {
        Index {
            noun_map: WordMap::new(),
            verb_map: WordMap::new(),
            adv_map: WordMap::new(),
            adj_map: WordMap::new(),
        }
    }

    /// An empty index with room reserved in each map.
    pub fn with_capacity(
        noun_capacity: usize,
        verb_capacity: usize,
        adv_capacity: usize,
        adj_capacity: usize,
    ) -> (r: Index)
        ensures
            r.wf(),
            r@ == IndexView::empty(),
    {
        Index {
            noun_map: WordMap::with_capacity(noun_capacity),
            verb_map: WordMap::with_capacity(verb_capacity),
            adv_map: WordMap::with_capacity(adv_capacity),
            adj_map: WordMap::with_capacity(adj_capacity),
        }
    }

    fn contains_in(&self, p: PartOfSpeech, word: &Vec<u8>) -> (r: bool)
        requires
            self.wf(),
        ensures
            r == self@.map_for(p).contains_key(word@),
    {
        match p {
            PartOfSpeech::Noun => self.noun_map.contains_key(word.as_slice()),
            PartOfSpeech::Verb => self.verb_map.contains_key(word.as_slice()),
            PartOfSpeech::Adjective => self.adj_map.contains_key(word.as_slice()),
            PartOfSpeech::Adverb => self.adv_map.contains_key(word.as_slice()),
        }
    }

    /// Stores `data` under `word` in the map of `p`, replacing any record
    /// stored there before.
    fn store(&mut self, p: PartOfSpeech, word: Vec<u8>, data: IndexData)
        requires
            old(self).wf(),
            data@.counts_agree(),
            old(self)@.map_for(p).contains_key(word@) || old(self)@.total() < usize::MAX,
        ensures
            final(self).wf(),
            final(self)@ == old(self)@.with_record(p, word@, data@),
    {
        proof {
            self.noun_map.lemma_finite();
            self.verb_map.lemma_finite();
            self.adj_map.lemma_finite();
            self.adv_map.lemma_finite();
        }
        let ghost before = self@;
        let ghost w = word@;
        let ghost d = data@;
        match p {
            PartOfSpeech::Noun => self.noun_map.insert(word, data),
            PartOfSpeech::Verb => self.verb_map.insert(word, data),
            PartOfSpeech::Adjective => self.adj_map.insert(word, data),
            PartOfSpeech::Adverb => self.adv_map.insert(word, data),
        }
        proof {
            let m = before.map_for(p);
            if m.contains_key(w) {
                assert(m.insert(w, d).dom() =~= m.dom());
            }
            assert(self@ == before.with_record(p, w, d));
            assert forall|q: PartOfSpeech, x: Seq<u8>| #[trigger] self@.map_for(
                q,
            ).contains_key(x) implies self@.map_for(q)[x].counts_agree() by {
                if q != p || x != w {
                    assert(before.map_for(q).contains_key(x));
                }
            }
        }
    }

    /// Takes in an index text: each line that is not a comment is parsed
    /// as a record and stored in the map of its part of speech, replacing an
    /// earlier record of the same headword. Stops at the first bad line,
    /// keeping what the lines before it stored.
    pub fn parse_text(&mut self, text: &[u8]) -> (r: Result<(), ParseError>)
        requires
            old(self).wf(),
        ensures
            final(self).wf(),
            match ingest(old(self)@, text@, 0) {
                Ok(m) => r is Ok && final(self)@ == m,
                Err((m, e)) => r == Err::<(), ParseError>(e) && final(self)@ == m,
            },
    {
        let mut i: usize = 0;
        while i < text.len()
            invariant
                self.wf(),
                i <= text@.len(),
                ingest(old(self)@, text@, 0) == ingest(self@, text@, i as int),
            decreases text.len() - i,
        {
            let mut e: usize = i;
            while e < text.len() && text[e] != 0x0a
                invariant
                    i <= e <= text@.len(),
                    end_from(text@, i as int) == end_from(text@, e as int),
                decreases text.len() - e,
            {
                e = e + 1;
            }
            let line = &text[i..e];
            let ghost before = self@;
            match parse_line(line) {
                Ok(None) => {},
                Ok(Some((p, w, d))) => {
                    if !self.contains_in(p, &w) && self.len() == usize::MAX {
                        return Err(ParseError::Capacity);
                    }
                    proof {
                        lemma_record_counts_agree(tokens(line@));
                    }
                    self.store(p, w, d);
                },
                Err(err) => {
                    return Err(err);
                },
            }
            assert(ingest(before, text@, i as int) == ingest(self@, text@, e + 1));
            if e < text.len() {
                i = e + 1;
            } else {
                i = e;
            }
        }
        Ok(())
    }

    /// Number of records over all parts of speech.
    pub fn len(&self) -> (r: usize)
        requires
            self.wf(),
        ensures
            r == self@.total(),
    {
        self.noun_map.len() + self.verb_map.len() + self.adj_map.len() + self.adv_map.len()
    }

    pub fn is_empty(&self) -> (r: bool)
        requires
            self.wf(),
        ensures
            r == (self@.total() == 0),
    {
        self.len() == 0
    }

    fn contains_bytes(&self, word: &[u8]) -> (r: bool)
        requires
            self.wf(),
        ensures
            r == self@.contains_word(word@),
    {
        self.noun_map.contains_key(word) || self.verb_map.contains_key(word)
            || self.adj_map.contains_key(word) || self.adv_map.contains_key(word)
    }

    /// Whether `word` is a headword of any part of speech.
    pub fn contains(&self, word: &String) -> (r: bool)
        requires
            self.wf(),
        ensures
            r == self@.contains_word(encode_utf8(word@)),
    {
        self.contains_bytes(word.as_str().as_bytes())
    }

    /// Whether `word` is a headword of any part of speech.
    pub fn contains_str(&self, word: &str) -> (r: bool)
        requires
            self.wf(),
        ensures
            r == self@.contains_word(word.spec_bytes()),
    {
        self.contains_bytes(word.as_bytes())
    }

    pub fn get_noun_index(&self, lemma: &str) -> (r: Option<IndexData>)
        requires
            self.wf(),
        ensures
            copy_of(r, self@.noun, lemma.spec_bytes()),
    {
        self.noun_map.get(lemma.as_bytes())
    }

    pub fn get_verb_index(&self, lemma: &str) -> (r: Option<IndexData>)
        requires
            self.wf(),
        ensures
            copy_of(r, self@.verb, lemma.spec_bytes()),
    {
        self.verb_map.get(lemma.as_bytes())
    }

    pub fn get_adj_index(&self, lemma: &str) -> (r: Option<IndexData>)
        requires
            self.wf(),
        ensures
            copy_of(r, self@.adj, lemma.spec_bytes()),
    {
        self.adj_map.get(lemma.as_bytes())
    }

    pub fn get_adv_index(&self, lemma: &str) -> (r: Option<IndexData>)
        requires
            self.wf(),
        ensures
            copy_of(r, self@.adv, lemma.spec_bytes()),
    {
        self.adv_map.get(lemma.as_bytes())
    }

    /// The records of `lemma` in all four parts of speech at once.
    pub fn get_lemma_indices(&self, lemma: &str) -> (r: LemmaIndices)
        requires
            self.wf(),
        ensures
            copy_of(r.noun_index, self@.noun, lemma.spec_bytes()),
            copy_of(r.verb_index, self@.verb, lemma.spec_bytes()),
            copy_of(r.adj_index, self@.adj, lemma.spec_bytes()),
            copy_of(r.adv_index, self@.adv, lemma.spec_bytes()),
    {
        LemmaIndices {
            noun_index: self.get_noun_index(lemma),
            verb_index: self.get_verb_index(lemma),
            adj_index: self.get_adj_index(lemma),
            adv_index: self.get_adv_index(lemma),
        }
    }
}

} // verus!
