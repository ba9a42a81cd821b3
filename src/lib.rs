//! Relay for the Erik synchronisation index over an RPKI repository.
//!
//! The library holds the verified core: the DER codec of the index and
//! partition objects, the partitioner, the content-addressed object store,
//! the decisions of the RRDP ingestion state machine, the resolver that maps
//! fetches to disk, and the named-information lookup of the HTTP surface.
mod bytes_util;
pub mod der;
pub mod order;
pub mod digest;
pub mod erik;
pub mod index;
pub mod state;
pub mod store;
pub mod rrdp;
pub mod ni;
pub mod time;
pub mod retrieval;
