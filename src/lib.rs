//! Similarity search over stored face embeddings: the total order on scores,
//! the stable top-k ranking, the dimension check, and record ingestion over an
//! abstract store.

pub mod error;
pub mod rank;
pub mod record;
pub mod score;
pub mod similarity;
