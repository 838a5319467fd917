//! A random-access index over tar archives: FNV-1a fingerprints of member
//! paths packed into a linearly probed hash table, appended to the tar or kept
//! beside it, that resolves a path to its payload's byte range.

/// Building an index from paths, offsets and tar members.
pub mod builder;
/// Every way building or reading an index can fail.
pub mod error;
/// The 64-bit FNV-1a hash of paths and payloads.
pub mod fnv1a;
/// Properties that relate packing, linking and lookup.
pub mod laws;
/// The on-disk layout: header, slots, footer.
pub mod layout;
/// Little-endian integers in byte sequences.
pub mod le;
/// Decisions of the MBTiles to tar conversion.
pub mod mbtiles;
/// Packing a builder's entries into an index image.
pub mod pack;
/// Opening an index and looking paths up in it.
pub mod reader;
/// Linear probing over a slot table.
pub mod table;
/// Checking an index against the members of its tar.
pub mod validate;
