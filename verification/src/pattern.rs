//! Rules: named patterns that recognize one token kind each.

use vstd::prelude::*;

verus! {

/// The mathematical value of a [`Pattern`]: its name and its pattern source,
/// as character sequences.
#[verifier::ext_equal]
pub struct PatternModel {
    pub name: Seq<char>,
    pub pattern: Seq<char>,
}

/// One scanning rule: a token name together with the source of a regular
/// expression.  At match time the pattern is anchored to the start of the
/// remaining input, so a rule can only ever consume a prefix of it.
pub struct Pattern {
    pub name: String,
    pub pattern: String,
}

impl View for Pattern {
    type V = PatternModel;

    open spec fn view(&self) -> PatternModel {
        PatternModel { name: self.name@, pattern: self.pattern@ }
    }
}

impl Pattern {
    /// Packs a name and a pattern source into a rule.
    pub fn new(name: String, pattern: String) -> (r: Self)
        ensures
            r@ == (PatternModel { name: name@, pattern: pattern@ }),
    {
        Self { name, pattern }
    }
}

/// The models of a sequence of rules, in registration order.
pub open spec fn pattern_models(patterns: Seq<Pattern>) -> Seq<PatternModel> {
    patterns.map_values(|p: Pattern| p@)
}

} // verus!
