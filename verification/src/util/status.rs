//! The error every fallible operation of the library reports.

use vstd::prelude::*;

verus! {

/// The kinds of failure.
#[derive(Clone, Copy, Debug, PartialEq, Eq, Structural)]
pub enum Status {
    NotFound,
    Corruption,
    IOError,
    InvalidArgument,
    NotSupported,
}

impl Status {
    /// The name of the kind, as it is shown when an error carries no message.
    pub open spec fn name(self) -> Seq<char> {
        match self {
            Status::NotFound => "NotFound"@,
            Status::Corruption => "Corruption"@,
            Status::IOError => "IOError"@,
            Status::InvalidArgument => "InvalidArgument"@,
            Status::NotSupported => "NotSupported"@,
        }
    }

    pub fn as_str(&self) -> (s: &'static str)
        ensures
            s@ == self.name(),
    {
        match self {
            Status::NotFound => "NotFound",
            Status::Corruption => "Corruption",
            Status::IOError => "IOError",
            Status::InvalidArgument => "InvalidArgument",
            Status::NotSupported => "NotSupported",
        }
    }
}

/// An error: its kind, and a message where there is more to say.
#[derive(Debug)]
pub struct WickErr {
    pub kind: Status,
    pub msg: Option<&'static str>,
}

impl View for WickErr {
    type V = (Status, Option<Seq<char>>);

    open spec fn view(&self) -> (Status, Option<Seq<char>>) {
        (
            self.kind,
            match self.msg {
                Some(m) => Some(m@),
                None => None,
            },
        )
    }
}

/// The view of a `Corruption` error that carries the message `text`.
pub open spec fn corruption(text: Seq<char>) -> (Status, Option<Seq<char>>) {
    (Status::Corruption, Some(text))
}

impl WickErr {
    pub fn new(t: Status, msg: Option<&'static str>) -> (e: WickErr)
        ensures
            e.kind == t,
            e.msg == msg,
    {
        WickErr { kind: t, msg }
    }

    pub fn status(&self) -> (t: Status)
        ensures
            t == self.kind,
    {
        self.kind
    }

    /// The text of the error shown to a user: its message, or else the name
    /// of its kind.
    pub open spec fn text(self) -> Seq<char> {
        match self.msg {
            Some(m) => m@,
            None => self.kind.name(),
        }
    }

    pub fn description(&self) -> (s: &str)
        ensures
            s@ == self.text(),
    {
        match self.msg {
            Some(m) => m,
            None => self.kind.as_str(),
        }
    }
}

} // verus!
