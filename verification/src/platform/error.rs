//! The crate's error type: a failed syscall's errno or a static message.
use vstd::prelude::*;

use crate::platform::text;
use crate::platform::text::{chars_of, digits_of};

verus! {

/// errno returned by a non-blocking read with no data available.
pub const EAGAIN: i32 = 11;

/// An OS error (a positive errno) or a static message.
#[derive(Clone, Copy, Debug, PartialEq, Eq)]
pub struct Error {
    pub errno: i32,
    pub msg: &'static str,
}

impl Error {
    /// The error an errno makes.
    pub open spec fn of_errno(errno: i32) -> Error {
        Error { errno, msg: "" }
    }

    /// The error a message makes.
    pub open spec fn of_msg(msg: &'static str) -> Error {
        Error { errno: 0, msg }
    }

    /// An error from a failed syscall, given its positive errno.
    pub fn from_errno(errno: i32) -> (r: Self)
        ensures
            r == Self::of_errno(errno),
    {
        Self { errno, msg: "" }
    }

    /// An error described by a static message, with no OS errno.
    pub fn msg(msg: &'static str) -> (r: Self)
        ensures
            r == Self::of_msg(msg),
    {
        Self { errno: 0, msg }
    }

    /// Whether this is a would-block (EAGAIN): the signal to stop draining a
    /// non-blocking socket and park the event loop again.
    pub fn would_block(&self) -> (r: bool)
        ensures
            r == (self.errno == EAGAIN),
    {
        self.errno == EAGAIN
    }
}

/// A number in decimal, behind a minus sign when it is negative.
pub open spec fn decimal(n: int) -> Seq<char> {
    if n < 0 {
        seq!['-'] + text::digits((-n) as nat, 10)
    } else {
        text::digits(n as nat, 10)
    }
}

impl Error {
    /// What is said of the error: its errno, or the message without one.
    pub open spec fn said(self) -> Seq<char> {
        if self.errno != 0 {
            "os error "@ + decimal(self.errno as int)
        } else {
            self.msg@
        }
    }

    /// What to say of the error.
    pub fn text(&self) -> (r: Vec<char>)
        ensures
            r@ == self.said(),
    {
        if self.errno == 0 {
            return chars_of(self.msg);
        }
        let mut out = chars_of("os error ");
        let n: i64 = self.errno as i64;
        let mut number = if n < 0 {
            out.push('-');
            digits_of((-n) as u64, 10)
        } else {
            digits_of(n as u64, 10)
        };
        out.append(&mut number);
        out
    }
}

/// Result carrying the crate's error.
pub type Result<T> = core::result::Result<T, Error>;

} // verus!
