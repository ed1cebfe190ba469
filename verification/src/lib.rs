//! A verified level-cache store for Merkle trees.
//!
//! A level-cache store keeps on disk the base row of a tree, or leaves the base
//! row to an external reader, and the rows near the root. The rows in between
//! are discarded. This library decides where every byte of such a store lies:
//! which file, remote object or reader a request goes to, at which offset, and
//! which requests are refused. Reading and writing the bytes is left to the
//! caller.
pub mod built;
pub mod config;
pub mod error;
pub mod hashing;
pub mod image;
pub mod opening;
pub mod oss;
pub mod reading;
pub mod recording;
pub mod requests;
pub mod shape;
pub mod store;
pub mod tree;
pub mod writing;
