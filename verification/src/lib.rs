//! A small social-media indexer: posts and users stored as length-prefixed
//! little-endian records, a simple B-tree of integer keys, and the rules that
//! normalise Reddit data into posts and users.

pub mod btree;
pub mod codec;
pub mod menu;
pub mod post;
pub mod reddit;
pub mod urls;
pub mod user;
pub mod db_driver;

use vstd::prelude::*;

verus! {

/// std's I/O error, carried through results that mirror `std::io::Result`.
#[verifier::external_type_specification]
#[verifier::external_body]
pub struct ExIoError(std::io::Error);

} // verus!
