//! Where a cloned repository is cached: a key derived from its URL.
use vstd::prelude::*;
use vstd::string::StringSliceAdditionalSpecFns;
use sha2::{Digest, Sha256};
use crate::format::{hex_bytes, hex_encode};
use crate::text::{chars_starts_with, starts_with, to_chars};

verus! {

/// The SHA-256 digest of `data`.
pub uninterp spec fn sha256(data: Seq<u8>) -> Seq<u8>;

/// sha2's `Sha256::digest`: the digest of `data`, 32 bytes long.
#[verifier::external_body]
fn sha256_digest(data: &[u8]) -> (r: Vec<u8>)
    ensures
        r@ == sha256(data@),
        r@.len() == 32,
{
    Sha256::digest(data).to_vec()
}

/// Why a repository cannot be cloned into the cache.
#[derive(Clone, Copy, Debug, PartialEq, Eq, Structural)]
pub enum GitError {
    /// Only "https://" URLs are supported.
    UnsupportedUrl,
}

impl GitError {
    pub fn message(&self) -> (r: String)
        ensures
            r@ == "only public HTTPS repository URLs are supported"@,
    {
        "only public HTTPS repository URLs are supported".to_owned()
    }
}

/// The name of a repository's cache directory: the lower-case hexadecimal
/// SHA-256 of its URL, for "https://" URLs only.
pub fn cache_key_for_url(url: &str) -> (r: Result<String, GitError>)
    ensures
        !starts_with(url@, "https://"@) ==> r == Err::<String, GitError>(GitError::UnsupportedUrl),
        starts_with(url@, "https://"@) ==> (r matches Ok(key) && key@ == hex_bytes(
            sha256(url.spec_bytes()),
        ) && key@.len() == 64),
{
    let chars = to_chars(url);
    let prefix = to_chars("https://");
    if !chars_starts_with(&chars, &prefix) {
        return Err(GitError::UnsupportedUrl);
    }
    let digest = sha256_digest(url.as_bytes());
    proof {
        crate::format::lemma_hex_bytes_len(digest@);
    }
    Ok(hex_encode(&digest))
}

} // verus!
