//! A minimal proof-of-work block chain, verified.
//!
//! A chain is a sequence of blocks, each linked to the one before it by its
//! hash and sealed by a nonce that makes its own hash begin with a number of
//! zeros. A node keeps one chain in a file, mines blocks on top of it, and
//! adopts the longest valid chain that it hears of. This library holds the
//! rules; reading and writing the file, and talking to other nodes, is left
//! to its user, who hands bytes in and gets bytes and decisions back.
//!
//! - [`block`]: a block, its hash, mining, and what makes it a valid successor.
//! - [`chain`]: validity of a whole chain, and the first rule a chain breaks.
//! - [`codec`] and [`decode`]: the binary form of a chain, and reading it back.
//! - [`blockchain`]: the chain file's bytes: reading, appending, mining on top,
//!   the genesis block, and the choice between two chains.
//! - [`p2p`]: what a node does with an event, a gossip message or a console
//!   line.
//! - [`endian`], [`text`], [`hash`]: integers, texts and digests as bytes.
//! - [`error`]: what can be refused, and why.

pub mod block;
pub mod blockchain;
pub mod chain;
mod clock;
pub mod codec;
pub mod decode;
pub mod endian;
pub mod error;
pub mod hash;
pub mod p2p;
pub mod text;
