//! Audits whether the architectural decisions implicit in a code change are
//! covered by a project's written documentation.
//!
//! The pipeline: a diff is sent to a generative model, whose streamed response
//! is buffered and segmented into discrete decision questions; a corpus of
//! documentation is embedded into a semantic index; for each question the
//! top-k most similar documents are retrieved as grounding context; the
//! model's verdict token is mapped onto an ordered coverage scale; and the
//! per-question classifications are aggregated into a report with counts and
//! a percentage score.
//!
//! All model and embedding calls are external capabilities: the caller runs
//! them and hands their results to this crate as plain values. Embedding
//! vectors are carried as fixed-point integer components so that similarity
//! ranking is exact.

pub mod corpus;
pub mod extract;
pub mod index;
pub mod classify;
pub mod report;
