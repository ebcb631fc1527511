use wordy::PointerSymbol;

#[test]
fn every_code_of_the_table_decodes() {
    let table = [
        ("!", PointerSymbol::Antonym),
        ("@", PointerSymbol::Hypernym),
        ("@i", PointerSymbol::InstanceHypernym),
        ("~", PointerSymbol::Hyponym),
        ("~i", PointerSymbol::InstanceHyponym),
        ("#m", PointerSymbol::MemberHolonym),
        ("#s", PointerSymbol::SubstanceHolonym),
        ("#p", PointerSymbol::PartHolonym),
        ("%m", PointerSymbol::MemberMeronym),
        ("%s", PointerSymbol::SubstanceMeronym),
        ("%p", PointerSymbol::PartMeronym),
        ("=", PointerSymbol::Attribute),
        ("+", PointerSymbol::DerivationallyRelatedForm),
        (";", PointerSymbol::DomainOfSynset),
        ("-", PointerSymbol::MemberOfThisDomain),
        ("*", PointerSymbol::Entailment),
        (">", PointerSymbol::Cause),
        ("^", PointerSymbol::AlsoSee),
        ("$", PointerSymbol::VerbGroup),
        ("<", PointerSymbol::ParticipleOfVerb),
        ("\\", PointerSymbol::PartainymDerived),
        ("&", PointerSymbol::SimilarTo),
    ];
    for (code, sym) in table.iter() {
        assert_eq!(PointerSymbol::from_str(code), Some(*sym), "code {}", code);
    }
}

#[test]
fn codes_outside_the_table_are_rejected() {
    for code in ["", "x", "@@", "#", "%", "#x", "@i ", " @", "!!", "~m", "@I"].iter() {
        assert_eq!(PointerSymbol::from_str(code), None, "code {:?}", code);
    }
}
