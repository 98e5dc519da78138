//! Trust annotations for sensor readings on an append-only message log.
//!
//! Producers attach signed data-quality annotations to readings; a consumer
//! classifies inbound messages, reconciles readings with their annotations by
//! content key, and scores the reconciled result for presentation.

pub mod annotator;
pub mod classifier;
pub mod codec;
pub mod data;
pub mod httpmsg;
pub mod json;
pub mod providers;
pub mod reconciler;
pub mod sensor;
pub mod view;
