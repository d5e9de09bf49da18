//! Selective context protocol hub: the verified core.
pub mod text;
pub mod config;
pub mod token_count;
pub mod numfmt;
pub mod assoc;
pub mod protocol;
pub mod id_map;

pub mod budget;
pub mod ordering;
pub mod chunker;
pub mod textsplit;
pub mod content_type;
pub mod dedup;
pub mod delivery_logger;
pub mod progressive;
pub mod usage;
pub mod clock;
pub mod circuit_breaker;
pub mod lifecycle;
pub mod admin;
pub mod reload;
pub mod session;
pub mod routing;
pub mod tfidf;
pub mod pipeline;
pub mod listener;
pub mod table;
pub mod registry;
pub mod tool_call;
pub mod tool_cache;
pub mod supervisor;
pub mod pool;
pub mod proxy;
pub mod transport;
pub mod json;
pub mod field_stripper;
pub mod interpolate;
pub mod select;
pub mod tags;
pub mod termstats;
pub mod embedding_cache;
pub mod relevance;
