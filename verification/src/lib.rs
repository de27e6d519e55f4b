use vstd::prelude::*;

pub mod arith;
pub mod bytes;
pub mod frame_math;
pub mod metadata;
pub mod renderer;
pub mod coverage;
pub mod warp;
pub mod super_opts;
pub mod analyse_opts;
pub mod portable;
pub mod analyse_search;
pub mod super_build;
pub mod scene;
pub mod tiles;
pub mod mode23;
pub mod nv12;
pub mod search_order;
pub mod json_scan;
pub mod json_value;
pub mod block_cost;
pub mod block_search;
pub mod level_search;
pub mod field_ops;
pub mod recalc;
pub mod global_motion;
pub mod order_refine;
pub mod vector_pack;
pub mod gpu_params;
pub mod pyramid;
pub mod warp_single;
pub mod warp_dual;
pub mod plane_render;

verus! {
} // verus!
