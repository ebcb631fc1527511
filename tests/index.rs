use wordy::{parse_line, Index, ParseError, PartOfSpeech, PointerSymbol};

#[test]
fn comment_lines_are_not_counted() {
    let text = "  1 This software and database is being provided\n  2 by Princeton\n\
                apple n 1 0 2 0 100\nbanana n 1 0 2 0 200\n";
    let mut index = Index::new();
    assert!(index.is_empty());
    assert_eq!(index.parse_text(text.as_bytes()), Ok(()));
    assert_eq!(index.len(), 2);
    assert!(!index.is_empty());
    assert!(index.contains_str("apple"));
    assert!(!index.contains_str("1"));
}

#[test]
fn pointer_codes_keep_their_order() {
    let mut index = Index::new();
    let text = "dog n 1 2 @ ~ 1 0 2084071\n";
    assert_eq!(index.parse_text(text.as_bytes()), Ok(()));
    let data = index.get_noun_index("dog").unwrap();
    assert_eq!(data.p_cnt, 2);
    assert_eq!(data.ptr_symbol, vec![PointerSymbol::Hypernym, PointerSymbol::Hyponym]);
    assert_eq!(data.sysnet_cnt, 1);
    assert_eq!(data.tagsense_cnt, 0);
    assert_eq!(data.synset_offset, vec![2084071]);
}

#[test]
fn all_fields_of_a_record() {
    let line = b"run v 3 4 ! @ ~ $ 3 2 1000 2000 3000 extra";
    let (pos, word, data) = parse_line(line).unwrap().unwrap();
    assert_eq!(pos, PartOfSpeech::Verb);
    assert_eq!(word, b"run".to_vec());
    assert_eq!(data.sysnet_cnt, 3);
    assert_eq!(data.p_cnt, 4);
    assert_eq!(
        data.ptr_symbol,
        vec![
            PointerSymbol::Antonym,
            PointerSymbol::Hypernym,
            PointerSymbol::Hyponym,
            PointerSymbol::VerbGroup
        ]
    );
    assert_eq!(data.tagsense_cnt, 2);
    assert_eq!(data.synset_offset, vec![1000, 2000, 3000]);
    assert_eq!(data.ptr_symbol.len(), data.p_cnt);
    assert_eq!(data.synset_offset.len(), data.sysnet_cnt);
}

#[test]
fn runs_of_whitespace_separate_fields() {
    let line = b"cat\tn  1   1 @\t 1 1   42\r";
    let (pos, word, data) = parse_line(line).unwrap().unwrap();
    assert_eq!(pos, PartOfSpeech::Noun);
    assert_eq!(word, b"cat".to_vec());
    assert_eq!(data.ptr_symbol, vec![PointerSymbol::Hypernym]);
    assert_eq!(data.tagsense_cnt, 1);
    assert_eq!(data.synset_offset, vec![42]);
}

#[test]
fn comment_line_parses_to_nothing() {
    assert!(matches!(parse_line(b"  29 copyright"), Ok(None)));
    assert!(matches!(parse_line(b" "), Ok(None)));
}

#[test]
fn grammar_errors() {
    let bad: [&[u8]; 12] = [
        b"",
        b"word",
        b"word n 1",
        b"word x 1 0 1 0 5",
        b"word n one 0 1 0 5",
        b"word n 1 -1 1 0 5",
        b"word n 1 1 ?? 1 0 5",
        b"word n 2 0 2 0 5",
        b"word n 1 0 1 0 4294967296",
        b"word n 1 0 1 4294967296 5",
        b"word n 1 0 1",
        b"\tword n 1 0 1 0 5x",
    ];
    for line in bad.iter() {
        assert!(matches!(parse_line(line), Err(ParseError::Grammar)), "{:?}", line);
    }
}

#[test]
fn largest_offset_is_accepted() {
    let (_, _, data) = parse_line(b"word r 1 0 1 4294967295 4294967295").unwrap().unwrap();
    assert_eq!(data.tagsense_cnt, 4294967295);
    assert_eq!(data.synset_offset, vec![4294967295]);
}

#[test]
fn zero_senses_and_pointers() {
    let (pos, _, data) = parse_line(b"odd a 0 0 0 0").unwrap().unwrap();
    assert_eq!(pos, PartOfSpeech::Adjective);
    assert!(data.ptr_symbol.is_empty());
    assert!(data.synset_offset.is_empty());
}

#[test]
fn parts_of_speech_have_separate_maps() {
    let text = "fast a 1 0 1 0 11\nfast n 1 0 1 0 12\nfast r 1 0 1 0 13\nfast v 1 0 1 0 14\n";
    let mut index = Index::with_capacity(4, 4, 4, 4);
    assert_eq!(index.parse_text(text.as_bytes()), Ok(()));
    assert_eq!(index.len(), 4);
    assert_eq!(index.get_adj_index("fast").unwrap().synset_offset, vec![11]);
    assert_eq!(index.get_noun_index("fast").unwrap().synset_offset, vec![12]);
    assert_eq!(index.get_adv_index("fast").unwrap().synset_offset, vec![13]);
    assert_eq!(index.get_verb_index("fast").unwrap().synset_offset, vec![14]);
    let all = index.get_lemma_indices("fast");
    assert_eq!(all.noun_index.unwrap().synset_offset, vec![12]);
    assert_eq!(all.verb_index.unwrap().synset_offset, vec![14]);
    assert_eq!(all.adj_index.unwrap().synset_offset, vec![11]);
    assert_eq!(all.adv_index.unwrap().synset_offset, vec![13]);
}

#[test]
fn lookups_of_absent_words() {
    let mut index = Index::new();
    assert_eq!(index.parse_text(b"tree n 1 0 1 0 5\n"), Ok(()));
    assert!(index.get_verb_index("tree").is_none());
    assert!(index.get_noun_index("trees").is_none());
    let all = index.get_lemma_indices("bush");
    assert!(all.noun_index.is_none());
    assert!(all.verb_index.is_none());
    assert!(all.adj_index.is_none());
    assert!(all.adv_index.is_none());
    assert!(index.contains(&"tree".to_string()));
    assert!(!index.contains(&"bush".to_string()));
}

#[test]
fn later_record_replaces_earlier() {
    let mut index = Index::new();
    assert_eq!(index.parse_text(b"stone n 1 0 1 0 5\nstone n 2 0 2 0 6 7\n"), Ok(()));
    assert_eq!(index.len(), 1);
    assert_eq!(index.get_noun_index("stone").unwrap().synset_offset, vec![6, 7]);
}

#[test]
fn parsing_accumulates_across_calls() {
    let mut index = Index::new();
    assert_eq!(index.parse_text(b"zeta n 1 0 1 0 1\nalpha n 1 0 1 0 2\n"), Ok(()));
    assert_eq!(index.parse_text(b"mid v 1 0 1 0 3"), Ok(()));
    assert_eq!(index.len(), 3);
    assert!(index.contains_str("alpha"));
    assert!(index.contains_str("zeta"));
    assert!(index.contains_str("mid"));
}

#[test]
fn bad_line_stops_the_parse_and_keeps_earlier_records() {
    let mut index = Index::new();
    let text = "one n 1 0 1 0 1\ntwo n 1 1 ?? 1 0 2\nthree n 1 0 1 0 3\n";
    assert_eq!(index.parse_text(text.as_bytes()), Err(ParseError::Grammar));
    assert_eq!(index.len(), 1);
    assert!(index.contains_str("one"));
    assert!(!index.contains_str("three"));
}

#[test]
fn empty_line_is_a_grammar_error() {
    let mut index = Index::new();
    assert_eq!(index.parse_text(b"one n 1 0 1 0 1\n\ntwo n 1 0 1 0 2\n"), Err(ParseError::Grammar));
    assert_eq!(index.len(), 1);
}

#[test]
fn empty_text_adds_nothing() {
    let mut index = Index::new();
    assert_eq!(index.parse_text(b""), Ok(()));
    assert!(index.is_empty());
}

#[test]
fn returned_records_are_copies() {
    let mut index = Index::new();
    assert_eq!(index.parse_text(b"leaf n 1 0 1 0 9\n"), Ok(()));
    let mut data = index.get_noun_index("leaf").unwrap();
    data.synset_offset.push(10);
    assert_eq!(index.get_noun_index("leaf").unwrap().synset_offset, vec![9]);
}
