//! OctaSoma: the storage, lifecycle and protocol logic of an agent memory.
pub mod cli;
pub mod clustered;
pub mod conformal;
pub mod corpus;
pub mod dialogue;
pub mod digest;
pub mod embed;
pub mod error;
pub mod explain;
pub mod feedback;
pub mod fileguard;
pub mod frac;
pub mod fractal;
pub mod gemm;
pub mod generation;
pub mod generation_fingerprint;
pub mod generation_store;
pub mod hybrid;
pub mod json;
pub mod kernel;
pub mod knn;
pub mod layers;
pub mod lifecycle;
pub mod manifest;
pub mod mcp;
pub mod memory;
pub mod metrics;
pub mod octree;
pub mod order;
pub mod record;
pub mod record_codec;
pub mod record_store;
pub mod rejection;
pub mod replies;
pub mod rng;
pub mod scope;
pub mod search;
pub mod server;
pub mod session;
pub mod sharded;
pub mod shards;
pub mod text;
pub mod tools;
pub mod totals;
pub mod truncation;
