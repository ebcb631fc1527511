use vstd::prelude::*;
use vstd::string::*;

verus! {

/// The relation tags that an index line may list for a headword.
#[derive(Debug, Clone, Copy, PartialEq, Eq, Structural)]
pub enum PointerSymbol {
    Antonym,
    Hypernym,
    InstanceHypernym,
    Hyponym,
    InstanceHyponym,
    MemberHolonym,
    SubstanceHolonym,
    PartHolonym,
    MemberMeronym,
    SubstanceMeronym,
    PartMeronym,
    Attribute,
    DerivationallyRelatedForm,
    DomainOfSynset,
    MemberOfThisDomain,
    // Verbs
    Entailment,
    Cause,
    AlsoSee,
    VerbGroup,
    // Adjectives / adverbs
    ParticipleOfVerb,
    PartainymDerived,
    SimilarTo,
}

/// The fixed table of one-byte codes.
pub open spec fn pointer_of_byte(c: u8) -> Option<PointerSymbol> {
    if c == 0x21 { Some(PointerSymbol::Antonym) }               // !
    else if c == 0x40 { Some(PointerSymbol::Hypernym) }         // @
    else if c == 0x7e { Some(PointerSymbol::Hyponym) }          // ~
    else if c == 0x3d { Some(PointerSymbol::Attribute) }        // =
    else if c == 0x2b { Some(PointerSymbol::DerivationallyRelatedForm) } // +
    else if c == 0x3b { Some(PointerSymbol::DomainOfSynset) }   // ;
    else if c == 0x2d { Some(PointerSymbol::MemberOfThisDomain) } // -
    else if c == 0x2a { Some(PointerSymbol::Entailment) }       // *
    else if c == 0x3e { Some(PointerSymbol::Cause) }            // >
    else if c == 0x5e { Some(PointerSymbol::AlsoSee) }          // ^
    else if c == 0x24 { Some(PointerSymbol::VerbGroup) }        // $
    else if c == 0x3c { Some(PointerSymbol::ParticipleOfVerb) } // <
    else if c == 0x5c { Some(PointerSymbol::PartainymDerived) } // backslash
    else if c == 0x26 { Some(PointerSymbol::SimilarTo) }        // &
    else { None }
}

/// The fixed table of two-byte codes.
pub open spec fn pointer_of_pair(c: u8, d: u8) -> Option<PointerSymbol> {
    if c == 0x40 && d == 0x69 { Some(PointerSymbol::InstanceHypernym) }       // @i
    else if c == 0x7e && d == 0x69 { Some(PointerSymbol::InstanceHyponym) }   // ~i
    else if c == 0x23 && d == 0x6d { Some(PointerSymbol::MemberHolonym) }     // #m
    else if c == 0x23 && d == 0x73 { Some(PointerSymbol::SubstanceHolonym) }  // #s
    else if c == 0x23 && d == 0x70 { Some(PointerSymbol::PartHolonym) }       // #p
    else if c == 0x25 && d == 0x6d { Some(PointerSymbol::MemberMeronym) }     // %m
    else if c == 0x25 && d == 0x73 { Some(PointerSymbol::SubstanceMeronym) }  // %s
    else if c == 0x25 && d == 0x70 { Some(PointerSymbol::PartMeronym) }       // %p
    else { None }
}

/// The tag that a code stands for, or `None` for a code outside the table.
pub open spec fn pointer_of(code: Seq<u8>) -> Option<PointerSymbol> {
    if code.len() == 1 {
        pointer_of_byte(code[0])
    } else if code.len() == 2 {
        pointer_of_pair(code[0], code[1])
    } else {
        None
    }
}

/// Decodes a pointer code given as bytes.
pub fn decode_pointer(code: &[u8]) -> (r: Option<PointerSymbol>)
    ensures
        r == pointer_of(code@),
{
    if code.len() == 1 {
        match code[0] {
            0x21 => Some(PointerSymbol::Antonym),
            0x40 => Some(PointerSymbol::Hypernym),
            0x7e => Some(PointerSymbol::Hyponym),
            0x3d => Some(PointerSymbol::Attribute),
            0x2b => Some(PointerSymbol::DerivationallyRelatedForm),
            0x3b => Some(PointerSymbol::DomainOfSynset),
            0x2d => Some(PointerSymbol::MemberOfThisDomain),
            0x2a => Some(PointerSymbol::Entailment),
            0x3e => Some(PointerSymbol::Cause),
            0x5e => Some(PointerSymbol::AlsoSee),
            0x24 => Some(PointerSymbol::VerbGroup),
            0x3c => Some(PointerSymbol::ParticipleOfVerb),
            0x5c => Some(PointerSymbol::PartainymDerived),
            0x26 => Some(PointerSymbol::SimilarTo),
            _ => None,
        }
    } else if code.len() == 2 {
        match (code[0], code[1]) {
            (0x40, 0x69) => Some(PointerSymbol::InstanceHypernym),
            (0x7e, 0x69) => Some(PointerSymbol::InstanceHyponym),
            (0x23, 0x6d) => Some(PointerSymbol::MemberHolonym),
            (0x23, 0x73) => Some(PointerSymbol::SubstanceHolonym),
            (0x23, 0x70) => Some(PointerSymbol::PartHolonym),
            (0x25, 0x6d) => Some(PointerSymbol::MemberMeronym),
            (0x25, 0x73) => Some(PointerSymbol::SubstanceMeronym),
            (0x25, 0x70) => Some(PointerSymbol::PartMeronym),
            _ => None,
        }
    } else {
        None
    }
}

impl PointerSymbol {
    /// The tag for a code such as `@` or `#m`; `None` when the code is not
    /// one of the fixed table, so that a caller can reject the input.
    pub fn from_str(string: &str) -> (r: Option<PointerSymbol>)
        ensures
            r == pointer_of(string.spec_bytes()),
    {
        decode_pointer(string.as_bytes())
    }
}

} // verus!
