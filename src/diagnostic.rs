use vstd::prelude::*;
use crate::emitter::Emitter;

verus! {

/// How serious a diagnostic is.
#[derive(PartialEq, Eq, Structural, Debug, Copy, Clone)]
pub enum Level {
    /// For bugs in the compiler. Manifests as an internal compiler error.
    Bug,
    /// An error that causes an immediate abort, such as a configuration error
    /// or an internal overflow.
    Fatal,
    /// An error in the code being compiled, which prevents compilation from
    /// finishing. This is the most common case.
    Error,
    /// A warning about the code being compiled. Does not prevent compilation
    /// from finishing.
    Warning,
    /// A message giving additional context.
    Note,
    /// A message suggesting how to fix something.
    Help,
}

/// A message about the code being compiled.
pub struct Diagnostic {
    level: Level,
}

/// The diagnostics gathered so far, and where they are to be emitted.
pub struct DiagContext {
    diagnostics: Vec<Diagnostic>,
    emitter: Box<dyn Emitter>,
}

impl DiagContext {
    /// The number of diagnostics gathered.
    pub closed spec fn spec_len(&self) -> nat {
        self.diagnostics@.len()
    }

    /// Creates a context holding no diagnostic, which emits through `emitter`.
    pub fn new(emitter: Box<dyn Emitter>) -> (r: DiagContext)
        ensures
            r.spec_len() == 0,
    {
        DiagContext { diagnostics: Vec::new(), emitter }
    }
}

} // verus!
