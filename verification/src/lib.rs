//! Verified planning core of an MLX execution provider for ONNX Runtime.
//!
//! The library decides; the `app` crate around it talks to the C ABIs of ONNX Runtime and MLX.

pub mod bitset;
pub mod boundary;
pub mod buildable_laws;
pub mod capability;
pub mod capability_laws;
pub mod capture;
pub mod chain_laws;
pub mod claim_laws;
pub mod cluster;
pub mod cluster_laws;
pub mod count_laws;
pub mod declined;
pub mod digest_laws;
pub mod digraph;
pub mod draft_laws;
pub mod engine;
pub mod event_laws;
pub mod graph_laws;
pub mod group_laws;
pub mod grouping;
pub mod init_data;
pub mod init_scope;
pub mod inspect_laws;
pub mod ir;
pub mod layer_laws;
pub mod lex;
pub mod mark_laws;
pub mod merge;
pub mod mlx;
pub mod names;
pub mod ops;
pub mod order_laws;
pub mod ort_graph;
pub mod partition;
pub mod peel;
pub mod plan;
pub mod plan_builder;
pub mod plan_contents;
pub mod plan_laws;
pub mod planner;
pub mod quotient;
pub mod ranking;
pub mod raw_graph;
pub mod reach;
pub mod reading_laws;
pub mod refusal_laws;
pub mod registry;
pub mod rejection;
pub mod report;
pub mod runtime;
pub mod runtime_laws;
pub mod scope_laws;
pub mod shape_const;
pub mod side_laws;
pub mod sidecars;
pub mod snapshot;
pub mod snapshot_laws;
pub mod span;
pub mod status;
pub mod summary;
pub mod tables;
pub mod text;
pub mod text_laws;
pub mod topology;
pub mod trace;
pub mod trace_args;
pub mod trace_export;
pub mod tracer;
pub mod tracer_spans;
pub mod union_find;
pub mod view_laws;
pub mod visit;
