//! A semantic response cache: answers are stored with the embedding of the
//! prompt that produced them, and a later prompt whose embedding is close
//! enough reuses the stored answer.

pub mod similarity;
pub mod types;
pub mod ann_index;
pub mod cache_client;
pub mod record;
pub mod utils;
pub mod cache;
pub mod policy;
pub mod api;
