use vstd::prelude::*;
use crate::diagnostic::DiagContext;

verus! {

/// What the phases of parsing share: for now, where diagnostics go.
pub struct ParseContext {
    diag_ctx: DiagContext,
}

impl ParseContext {
    pub closed spec fn spec_diag_ctx(&self) -> DiagContext {
        self.diag_ctx
    }

    pub fn new(diag_ctx: DiagContext) -> (r: ParseContext)
        ensures
            r.spec_diag_ctx() == diag_ctx,
    {
        ParseContext { diag_ctx }
    }

}

} // verus!
