use vstd::prelude::*;

verus! {

/// Why a graph operation was refused.
#[derive(Clone, Copy, PartialEq, Eq, Structural, Debug)]
pub enum Error {
    /// The operation is not allowed while the unit is running.
    Started,
    /// The unit is not running.
    Stopped,
    /// The slot is already bound to a connection.
    AlreadyConnected,
    /// The slot is not bound to any connection.
    NotConnected,
    /// No connection matching the one given exists.
    NoSuchConnection,
    /// The connection would close a cycle in the graph.
    WouldCycle,
}

impl Error {
    /// A human-readable description of the failure.
    pub fn describe(&self) -> &'static str {
        match self {
            Error::Started => "the unit is started",
            Error::Stopped => "the unit is stopped",
            Error::AlreadyConnected => "end point is already connected",
            Error::NotConnected => "end point is not connected",
            Error::NoSuchConnection => "connection does not exist",
            Error::WouldCycle => "connection would create a cycle",
        }
    }
}

} // verus!
