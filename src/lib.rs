//! A content-addressable object store in the style of git's loose objects:
//! blobs, trees and commits, their canonical encodings, SHA-1 addressing,
//! zlib compression, and builders that keep trees sorted and commits
//! referentially intact.

pub mod builder;
pub mod compress;
pub mod decode;
pub mod hash;
pub mod object;
pub mod repo;
pub mod store;

pub use repo::init_git_repo;
