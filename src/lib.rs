//! Turning long documents into question/answer pairs: text segmentation,
//! yield targets, repair of generated JSON text, and the decisions of the
//! retry loop and of the recursive coverage controller.
pub mod attempt;
pub mod coverage;
pub mod document;
pub mod repair;
pub mod segment;
pub mod targets;
pub mod text;
