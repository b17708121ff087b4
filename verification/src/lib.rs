//! A content-addressed serialization core for recursive data structures.
//!
//! Values encode to flat byte strings through the [`canon::Canon`] trait;
//! the exact byte image of every value is pinned down by a specification
//! function, so round trips, encoded lengths and content identifiers are
//! all proved rather than tested.  Large children of a recursive value are
//! swapped out for a [`handle::Handle`] that either inlines the child's
//! bytes or names them by their content identifier in a [`store::Store`].

use vstd::prelude::*;

pub mod bytes;
pub mod canon;
pub mod codec;
pub mod counter;
pub mod handle;
pub mod id;
pub mod remote;
pub mod root;
pub mod stack;
pub mod storage;
pub mod store;

verus! {

/// The two ways reading data back can fail.
#[derive(Clone, Copy, PartialEq, Eq, Structural, Debug)]
pub enum CanonError {
    /// The byte stream cannot be decoded under the requested type.
    InvalidEncoding,
    /// A store lookup by identifier found nothing.
    MissingValue,
}

} // verus!
