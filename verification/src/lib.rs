//! A minimal content-addressable object store's verified core: typed objects
//! (blobs and trees) with their canonical binary encoding, the SHA-1 content
//! addressing scheme, and the computations of the compressed write and read
//! paths. The filesystem itself stays with the caller.

pub mod bytes;
pub mod codec;
pub mod store;
