//! The rules of the durable store: how values are written and read, what each statement changes,
//! which writes are refused, and what its queries answer.

pub mod bulk;
pub mod codec;
pub mod codec_laws;
pub mod flush;
pub mod flush_laws;
pub mod keys;
pub mod keyword;
pub mod keyword_laws;
pub mod laws;
pub mod lease;
pub mod lease_laws;
pub mod load;
pub mod load_laws;
pub mod mutation_laws;
pub mod order;
pub mod round_trip;
pub mod rows;
pub mod schema;
pub mod seed_laws;
pub mod session;
pub mod stats;
pub mod structure;
pub mod structure_laws;
pub mod table;
pub mod tables;
pub mod transition_laws;
pub mod uri;
pub mod vector;
pub mod vector_laws;
pub mod vectors;
