use vstd::prelude::*;

verus! {

/// Lifecycle state of a filter.
///
/// A filter starts in `CREATED`; the executor drives it to `INITIALIZED`
/// (where expensive setup happens) before the first tick.  `PAUSED` is
/// reachable from `INITIALIZED` or `PLAYING` and returns to `PLAYING`.
/// `DONE` is terminal: once a filter reports it, the executor stops.
#[derive(Copy, Clone, PartialEq, Eq, Structural, Debug)]
pub enum FilterState {
    CREATED,
    INITIALIZED,
    PAUSED,
    PLAYING,
    DONE,
}

/// Identity and lifecycle data that every concrete filter embeds.
pub struct Element {
    pub name: String,
    pub state: FilterState,
}

impl Element {
    pub fn new(name: &str) -> (r: Element)
        ensures
            r.name@ == name@,
            r.state == FilterState::CREATED,
    {
        Element { name: name.to_owned(), state: FilterState::CREATED }
    }
}

} // verus!
