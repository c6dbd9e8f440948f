//! A searchable knowledge base built from lecture documents: text
//! normalisation, a persisted inverted index with its binary codec, a
//! content-addressed render cache, index merging and hotspot ranking.

pub mod codec;
pub mod order;
pub mod index;
pub mod persist;
pub mod render_cache;
pub mod normalize;
pub mod hotspot;
pub mod search;
pub mod indexer;
pub mod http;
pub mod digest;
