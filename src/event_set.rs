use vstd::prelude::*;

verus! {

/// A set of readiness conditions over readable, writable, error and hang-up.
///
/// The same shape serves both as the interest a registration asks for and as
/// the conditions a poll reports for a token.
#[derive(Clone, Copy, Debug, PartialEq, Eq, Structural)]
pub struct EventSet {
    pub readable: bool,
    pub writable: bool,
    pub error: bool,
    pub hup: bool,
}

impl EventSet {
    /// No condition at all.
    pub fn none() -> (r: EventSet)
        ensures
            r == (EventSet { readable: false, writable: false, error: false, hup: false }),
    {
        EventSet { readable: false, writable: false, error: false, hup: false }
    }

    /// Only hang-up: the interest a connection starts with.
    pub fn hup() -> (r: EventSet)
        ensures
            r == (EventSet { readable: false, writable: false, error: false, hup: true }),
    {
        EventSet { readable: false, writable: false, error: false, hup: true }
    }

    /// Only readable: the interest of the listening socket.
    pub fn readable() -> (r: EventSet)
        ensures
            r == (EventSet { readable: true, writable: false, error: false, hup: false }),
    {
        EventSet { readable: true, writable: false, error: false, hup: false }
    }

    /// Only writable.
    pub fn writable() -> (r: EventSet)
        ensures
            r == (EventSet { readable: false, writable: true, error: false, hup: false }),
    {
        EventSet { readable: false, writable: true, error: false, hup: false }
    }

    /// Whether error or hang-up is among the conditions.
    pub fn is_error_or_hup(&self) -> (r: bool)
        ensures
            r == (self.error || self.hup),
    {
        self.error || self.hup
    }
}

} // verus!
