//! The version tagging of serialized aggregate state: which binary layout a
//! transferred partial state uses.

use vstd::prelude::*;

verus! {

/// The serialization layouts a partial aggregate state can be written in.
/// Only one exists.
#[derive(Clone, Copy, Debug, PartialEq, Eq, Structural)]
pub enum SerializationType {
    Default,
}

} // verus!
