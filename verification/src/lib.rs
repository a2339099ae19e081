//! Resolution of GitLab repository/group references to their CI/CD variable
//! sets, backed by an encrypted on-disk cache.
//!
//! The crate is organised leaf-first: byte-level codecs, the passphrase-based
//! encrypted store, the two cache specialisations (tokens and resources), the
//! URI resolver, and the GitLab resource-resolution logic.

pub mod cache;
pub mod codec;
pub mod crypto;
pub mod gapi;
pub mod gitlab_cache;
pub mod token;
pub mod uri_meta;
