use vstd::prelude::*;

verus! {

/// The reported failures of the engine. Absence of a match is never an
/// error; it is an ordinary `None` result.
#[derive(Clone, Copy, PartialEq, Eq, Structural, Debug)]
pub enum Error {
    /// A byte span does not align with character boundaries of the text.
    Encoding,
    /// A query string does not parse under the grammar.
    PatternSyntax,
    /// A template references a metavariable absent from the environment.
    UnboundCapture,
    /// Two edits of one batch overlap.
    EditConflict,
}

} // verus!
