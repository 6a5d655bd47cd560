//! A cuckoo filter: a compact approximate-membership structure over
//! byte-string keys that supports insertion, deletion and membership
//! testing with a bounded false-positive rate and no false negatives
//! for items that were added and not deleted.

pub mod bucket;
pub mod cuckoo_filter;
pub mod hashing;

pub use bucket::Bucket;
pub use bucket::BUCKET_SIZE;
pub use cuckoo_filter::CuckooError;
pub use cuckoo_filter::CuckooFilter;
