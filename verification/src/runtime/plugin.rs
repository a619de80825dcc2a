use vstd::prelude::*;

use crate::runtime::app::{App, AppView};

verus! {

/// A reusable piece of application setup.
pub trait Plugin<V, S> {
    /// What building may make of the application `before`: `after`. Without a
    /// description of its own, a plugin may make anything of it.
    open spec fn builds(&self, before: AppView<V, S>, after: AppView<V, S>) -> bool {
        true
    }

    fn build(&self, app: &mut App<V, S>)
        requires
            old(app).wf(),
        ensures
            final(app).wf(),
            self.builds(old(app)@, final(app)@),
    ;
}

} // verus!
