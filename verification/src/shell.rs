use vstd::prelude::*;

verus! {

/// Placeholder for the application runtime that will drive the engine from outside.
#[derive(Debug)]
pub struct App;

impl Default for App {
    fn default() -> (app: Self) {
        App
    }
}

impl App {
    pub fn new() -> (app: Self) {
        App
    }
}

} // verus!
