//! The bus: bounded topics between the stages of the pipeline. Publishing never waits: a full
//! topic drops the new item and counts the drop.
pub mod queue;
pub mod topics;
