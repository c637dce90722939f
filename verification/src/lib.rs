//! The block-exchange engine of a node in a content-addressed storage
//! network, verified with Verus.
//!
//! Peers exchange immutable blocks, each named by an identifier that is a
//! digest of its bytes. This library holds what such a node decides:
//!
//! - `cid`, `peer`: identifiers of blocks and of peers;
//! - `varint`, `protocol`, `codec`, `message`, `roundtrip`: the messages of the
//!   exchange protocol, their serialised form, the frame that carries one
//!   message, and the proof that reading inverts writing;
//! - `ledger`, `strategy`, `bitswap`: the want-lists kept for each peer, the
//!   serving policy with the order of serving, and the session that ties them
//!   together;
//! - `behaviour`: what follows for the session from the events of discovery
//!   and of the other services around it;
//! - `index`, `fs`, `medium`: the block store with one file per block, the
//!   index it keeps in memory, and the directory it expects;
//! - `datastore`: the auxiliary store of small records under named columns.
//!
//! Nothing here reads a socket, a file or a clock. Where work of that kind is
//! due, an operation says so in its result, and a second operation takes the
//! outcome.

pub mod behaviour;
pub mod bitswap;
pub mod cid;
pub mod codec;
pub mod datastore;
pub mod fs;
pub mod index;
pub mod ledger;
pub mod medium;
pub mod message;
pub mod peer;
pub mod protocol;
pub mod roundtrip;
pub mod strategy;
pub mod varint;
