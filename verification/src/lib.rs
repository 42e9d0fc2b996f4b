//! A local text masking room: sensitive fragments are recognised by rules,
//! adjudicated by priority and length, replaced by tokens and restored on demand.

pub mod audit;
pub mod audit_laws;
pub mod b64;
pub mod builtin_laws;
pub mod canonical;
pub mod canonical_laws;
pub mod clock;
pub mod crypto;
pub mod crypto_laws;
pub mod engine;
pub mod engine_laws;
pub mod error;
pub mod json;
pub mod json_laws;
pub mod json_reading_laws;
pub mod json_text;
pub mod key_laws;
pub mod keys;
pub mod masking;
pub mod matching;
pub mod model;
pub mod pattern_laws;
pub mod redaction;
pub mod redaction_laws;
pub mod rng;
pub mod rng_laws;
pub mod room_laws;
pub mod rule_laws;
pub mod rules;
pub mod sealing;
pub mod service;
pub mod service_laws;
pub mod sorting;
pub mod state;
pub mod text;
pub mod text_laws;
pub mod tokens;
