//! The rules by which the chapters of a novel are analysed, rewritten and reviewed with the help of
//! language models: how a batch is divided into shards and in which order they are worked on, what
//! is asked for, what an answer is taken to say, which claims of a review hold, and when a rewrite
//! is good enough to be kept.
//!
//! Texts are sequences of characters. A value has a view, a mathematical value of the same shape,
//! and the contracts speak of views. What follows from a model's answer is a function of the
//! answer: the calls themselves are made elsewhere.
#![allow(unused_imports)]

// Texts, lists and the values of the program.
pub mod text;
pub mod text_laws;
pub mod order;
pub mod assoc;
pub mod domain;
pub mod json;
pub mod patterns;
pub mod excerpt;

// What is set for a novel and kept of it.
pub mod settings;
pub mod names;
pub mod name_laws;
pub mod mapping_laws;
pub mod targets;
pub mod analysis;
pub mod asset_laws;
pub mod batches;
pub mod window;

// Shards, their order and their contracts.
pub mod shard_context;
pub mod context_laws;
pub mod staging;
pub mod dependency;
pub mod dependency_laws;
pub mod planning;
pub mod planning_laws;
pub mod contracts;
pub mod pipeline;
pub mod estimation;

// Asking for analyses and rewrites.
pub mod analysis_call;
pub mod shard_call;
pub mod run_laws;

// Reviews: what they find, what of it holds, and what follows.
pub mod keywords;
pub mod word_laws;
pub mod review_filter;
pub mod residue;
pub mod pronouns;
pub mod overrewrite;
pub mod coverage;
pub mod coverage_laws;
pub mod decision;
pub mod finalize;
pub mod prompts;
pub mod prompt_laws;
pub mod repair;
pub mod repair_laws;
pub mod targeted;
pub mod review_rounds;
pub mod review_laws;
pub mod judgment_laws;
pub mod scan_laws;

// Jobs and automatic runs.
pub mod task_control;
pub mod progress;
pub mod auto_run;
pub mod control_laws;
