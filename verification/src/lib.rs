//! A read-only filesystem core over a flat object-store namespace.
//!
//! The library bridges a flat key namespace (objects named by keys under a
//! prefix) and a hierarchical inode namespace (stable integer identities,
//! parent/child links, attribute records). It holds the verified logic:
//! attribute synthesis, listing enumeration with pagination and nested-key
//! exclusion, the inode table with its allocator, and the four protocol
//! handlers (`lookup`, `getattr`, `read`, `readdir`). Network transport,
//! credentials and the kernel callback plumbing live outside the library.

pub mod attr;
pub mod fs;
pub mod inode;
pub mod listing;
