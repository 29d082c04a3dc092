use vstd::prelude::*;

verus! {

/// A sink for diagnostics. The lexer only carries one: nothing is emitted yet.
pub trait Emitter {}

/// An emitter printing diagnostics to the standard output.
pub struct EmitterHumanReadable();

impl Emitter for EmitterHumanReadable {}

/// An emitter discarding all diagnostics emitted.
pub struct EmitterNone();

impl Emitter for EmitterNone {}

pub fn new_emitter_human_readable() -> (r: Box<dyn Emitter>) {
    Box::new(EmitterHumanReadable())
}

pub fn new_emitter_none() -> (r: Box<dyn Emitter>) {
    Box::new(EmitterNone())
}

} // verus!
