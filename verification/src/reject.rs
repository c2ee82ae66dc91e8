//! Why a walk over an update is given up.

use vstd::prelude::*;
use yrs::encoding::read::Error as ReadError;

verus! {

/// The error of a `yrs` read cursor.
#[verifier::external_type_specification]
#[verifier::external_body]
pub struct ExReadError(yrs::encoding::read::Error);

/// The reasons for refusing an update.
#[derive(Clone, Copy, Debug, PartialEq, Eq, Structural)]
pub enum Reject {
    /// The read cursor met the end of the buffer or a malformed number.
    Cursor,
    /// A string field is not valid UTF-8.
    InvalidUtf8,
    /// A tag or reference number that the grammar does not have at this place.
    BadTag,
    /// Values nested more deeply than the grammar allows.
    TooDeep,
    /// Bytes left over behind a complete update.
    Trailing,
}

impl From<ReadError> for Reject {
    fn from(e: ReadError) -> (r: Self) {
        Reject::Cursor
    }
}

impl vstd::std_specs::convert::FromSpecImpl<ReadError> for Reject {
    open spec fn obeys_from_spec() -> bool {
        true
    }

    open spec fn from_spec(e: ReadError) -> Reject {
        Reject::Cursor
    }
}

} // verus!
