//! Static assets embedded in a program and served with cache revalidation.
//!
//! [`compile`] turns the files found under a root directory into a table of
//! asset records sorted by name; [`map`] looks assets up in such a table by
//! binary search; [`respond`] decides the HTTP outcome of one conditional
//! request, and [`serve`] hands it to serving frameworks. [`etag`] gives the
//! entity tag of a digest, and [`artifact`] decides when a generated table
//! must be written again.

pub mod artifact;
pub mod compile;
pub mod etag;
pub mod map;
pub mod respond;
pub mod serve;
pub mod text;
