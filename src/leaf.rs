//! What this library reads of a leaf's script expression.
use vstd::prelude::*;

verus! {

/// A script-path leaf as the descriptor core sees it: the script expression's
/// text, its encoding and the bounds that its own component computed.
#[derive(Debug, Clone, PartialEq, Eq, PartialOrd, Ord, Hash)]
pub struct TapLeaf {
    /// The script expression in its canonical text form.
    pub text: String,
    /// The encoded script.
    pub script: Vec<u8>,
    /// Whether the expression has the top-level base type.
    pub top_level: bool,
    /// The most witness elements a satisfaction takes, the script included;
    /// `None` where the script cannot be satisfied.
    pub max_sat_elems: Option<usize>,
    /// The most bytes a satisfaction takes; `None` where the script cannot be
    /// satisfied.
    pub max_sat_size: Option<usize>,
}

impl TapLeaf {
    /// A copy of this leaf.
    pub fn copy(&self) -> (r: Self)
        ensures
            r.text@ == self.text@,
            r.script@ == self.script@,
            r.top_level == self.top_level,
            r.max_sat_elems == self.max_sat_elems,
            r.max_sat_size == self.max_sat_size,
    {
        TapLeaf {
            text: self.text.clone(),
            script: crate::spend::copy_bytes(&self.script),
            top_level: self.top_level,
            max_sat_elems: self.max_sat_elems,
            max_sat_size: self.max_sat_size,
        }
    }

    /// A leaf from its parts.
    pub fn new(
        text: String,
        script: Vec<u8>,
        top_level: bool,
        max_sat_elems: Option<usize>,
        max_sat_size: Option<usize>,
    ) -> (r: Self)
        ensures
            r.text@ == text@,
            r.script@ == script@,
            r.top_level == top_level,
            r.max_sat_elems == max_sat_elems,
            r.max_sat_size == max_sat_size,
    {
        TapLeaf { text, script, top_level, max_sat_elems, max_sat_size }
    }
}

} // verus!
