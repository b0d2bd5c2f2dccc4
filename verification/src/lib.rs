//! The decision-making core of a small language model: quantisation over IEEE-754 bit patterns,
//! sparse expert routing, adapter and parameter bookkeeping, and the command-line rules.

pub mod attention;
pub mod awq;
pub mod awq_laws;
pub mod awq_scaling;
pub mod block;
pub mod block_quant;
pub mod calib;
pub mod calib_values;
pub mod calibrate;
pub mod calibrate_laws;
pub mod census;
pub mod chars;
pub mod chat;
pub mod chunks;
pub mod cli;
pub mod codes;
pub mod comp_values;
pub mod config;
pub mod demo;
pub mod dist;
pub mod drafts;
pub mod embedding;
pub mod float_bits;
pub mod forward;
pub mod gptq;
pub mod gptq_laws;
pub mod gptq_values;
pub mod grids;
pub mod hessian_laws;
pub mod layer_laws;
pub mod layer_quant;
pub mod layers;
pub mod linalg;
pub mod linalg_values;
pub mod loss;
pub mod loss_laws;
pub mod loss_values;
pub mod margins;
pub mod matrix;
pub mod matrix_laws;
pub mod mlp;
pub mod model;
pub mod model_ops;
pub mod model_run;
pub mod model_tune;
pub mod moe;
pub mod moe_forward;
pub mod moe_laws;
pub mod moe_lab;
pub mod moe_layer;
pub mod moe_tokens;
pub mod moe_values;
pub mod names;
pub mod norm_laws;
pub mod norms;
pub mod optim;
pub mod optim_laws;
pub mod order_laws;
pub mod params;
pub mod pass_laws;
pub mod pass_values;
pub mod place_laws;
pub mod plans;
pub mod prefs;
pub mod probability_laws;
pub mod qmatrix;
pub mod quant;
pub mod quant_laws;
pub mod quant_runs;
pub mod quant_steps;
pub mod replicas;
pub mod report;
pub mod report_text;
pub mod resident;
pub mod retrieval;
pub mod roots;
pub mod rounding;
pub mod scan_table;
pub mod shares;
pub mod softmax;
pub mod sparse;
pub mod text;
pub mod trace_laws;
pub mod tracing;
pub mod trials;
pub mod values;
