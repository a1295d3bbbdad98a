//! Capability negotiation primitives of the `eth` wire protocol: the capability
//! types, the shared-capability resolution, and the RLP framing of capability
//! advertisements.

pub mod capability;
pub mod rlp;
pub mod version;
