//! A spaced-repetition quiz trainer engine.
//!
//! The library owns the adaptive question-selection and mastery-tracking
//! logic: given an immutable bank of questions and a mutable training
//! state, it picks the next question to show, evaluates submitted answers,
//! maintains per-question mastery counters, and retires questions once a
//! configurable streak of consecutive correct answers is reached.  It also
//! defines the byte formats in which the question bank and the training
//! state are exchanged with durable storage.

pub mod answer;
pub mod bank;
pub mod codec;
pub mod engine;
pub mod model;
pub mod rng;
pub mod state;
