//! The failure vocabulary shared by every codec.
//!
//! A failure is a numeric code, which is all the sandbox side can carry; the
//! host side turns the same code into text with [`ProtocolError::message`].

use vstd::prelude::*;

verus! {

/// The word stream ended before a codec finished reading.
pub const ARGS_NEXT_ERROR: u32 = 2;

/// Bytes could not be taken from where they were expected: a payload does not
/// lie inside the sandbox memory.
pub const BYTES_INTO_ARR4_ERROR: u32 = 3;

/// Eight bytes could not be taken where a double word was expected; no codec
/// of this library fails in this way.
pub const BYTES_INTO_ARR8_ERROR: u32 = 4;

/// A map decode met a key that the map already holds.
pub const MAP_INSERT_ERROR: u32 = 5;

/// A text payload is not UTF-8.
pub const STRING_FROM_BYTES_ERROR: u32 = 6;

/// A decoded ordinal names no variant.
pub const ENUM_FROM_U32_ERROR: u32 = 7;

/// A decoded number is no valid date, time or duration.
pub const TIME_PARSE_ERROR: u32 = 8;

/// A decode or encode failure, identified by its numeric code.
#[derive(Debug, Clone, Copy, PartialEq, Eq, Structural)]
pub struct ProtocolError(pub u32);

impl ProtocolError {
    /// The text that the host side shows for a code; empty for a code that
    /// names no failure kind.
    pub open spec fn message_of(code: u32) -> Seq<char> {
        if code == ARGS_NEXT_ERROR {
            "args is end"@
        } else if code == BYTES_INTO_ARR4_ERROR || code == BYTES_INTO_ARR8_ERROR {
            "slice len error"@
        } else if code == MAP_INSERT_ERROR {
            "map already have item"@
        } else if code == STRING_FROM_BYTES_ERROR {
            "utf-8 string bytes error"@
        } else if code == ENUM_FROM_U32_ERROR {
            "enum from u32 error"@
        } else if code == TIME_PARSE_ERROR {
            "time from u32 error"@
        } else {
            ""@
        }
    }

    /// The line that the host side prints for a code.
    pub open spec fn display_of(code: u32) -> Seq<char> {
        if code == ARGS_NEXT_ERROR {
            "Protocol error: args is end"@
        } else if code == BYTES_INTO_ARR4_ERROR || code == BYTES_INTO_ARR8_ERROR {
            "Protocol error: slice len error"@
        } else if code == MAP_INSERT_ERROR {
            "Protocol error: map already have item"@
        } else if code == STRING_FROM_BYTES_ERROR {
            "Protocol error: utf-8 string bytes error"@
        } else if code == ENUM_FROM_U32_ERROR {
            "Protocol error: enum from u32 error"@
        } else if code == TIME_PARSE_ERROR {
            "Protocol error: time from u32 error"@
        } else {
            "Protocol error, can't transform"@
        }
    }

    /// The numeric code, as the sandbox side reports it.
    pub fn code(&self) -> (c: u32)
        ensures
            c == self.0,
    {
        self.0
    }

    /// The descriptive text, as the host side reports it.
    pub fn message(&self) -> (s: String)
        ensures
            s@ == Self::message_of(self.0),
    {
        let code = self.0;
        if code == ARGS_NEXT_ERROR {
            "args is end".to_string()
        } else if code == BYTES_INTO_ARR4_ERROR || code == BYTES_INTO_ARR8_ERROR {
            "slice len error".to_string()
        } else if code == MAP_INSERT_ERROR {
            "map already have item".to_string()
        } else if code == STRING_FROM_BYTES_ERROR {
            "utf-8 string bytes error".to_string()
        } else if code == ENUM_FROM_U32_ERROR {
            "enum from u32 error".to_string()
        } else if code == TIME_PARSE_ERROR {
            "time from u32 error".to_string()
        } else {
            "".to_string()
        }
    }

    /// The full line for a log or a panic message: the fixed prefix and the
    /// descriptive text, or the fallback line where there is no text.
    pub fn to_string(&self) -> (s: String)
        ensures
            s@ == Self::display_of(self.0),
    {
        let code = self.0;
        if code == ARGS_NEXT_ERROR {
            "Protocol error: args is end".to_string()
        } else if code == BYTES_INTO_ARR4_ERROR || code == BYTES_INTO_ARR8_ERROR {
            "Protocol error: slice len error".to_string()
        } else if code == MAP_INSERT_ERROR {
            "Protocol error: map already have item".to_string()
        } else if code == STRING_FROM_BYTES_ERROR {
            "Protocol error: utf-8 string bytes error".to_string()
        } else if code == ENUM_FROM_U32_ERROR {
            "Protocol error: enum from u32 error".to_string()
        } else if code == TIME_PARSE_ERROR {
            "Protocol error: time from u32 error".to_string()
        } else {
            "Protocol error, can't transform".to_string()
        }
    }
}

impl Default for ProtocolError {
    /// The failure without a kind.
    fn default() -> (e: Self)
        ensures
            e == ProtocolError(0),
    {
        ProtocolError(0)
    }
}

impl From<u32> for ProtocolError {
    fn from(code: u32) -> (e: Self) {
        ProtocolError(code)
    }
}

impl vstd::std_specs::convert::FromSpecImpl<u32> for ProtocolError {
    open spec fn obeys_from_spec() -> bool {
        true
    }

    open spec fn from_spec(code: u32) -> Self {
        ProtocolError(code)
    }
}

} // verus!
