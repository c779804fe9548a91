//! A DNS message engine and resolver cache: field accessors over byte
//! buffers, the domain-name codec with compression pointers, views of the
//! header, questions and resource records, a TTL-ordered local cache, and the
//! per-query session dispatcher that ties them together.
use vstd::prelude::*;

pub mod bits;
pub mod message;
pub mod domain_name;
pub mod header;
pub mod question;
pub mod resource;
pub mod cache_record;
pub mod local_cache;
pub mod response;
pub mod packet;
pub mod question_iterator;
pub mod record;
pub mod session;
pub mod rfc4390;

verus! {

} // verus!
