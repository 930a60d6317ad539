//! Verified decision logic of a tick-based aiming and navigation bot:
//! detection post-processing, the controller state machine, nav-graph
//! construction and path search, and frame/tensor layout helpers.

pub mod config;
pub mod detection;
pub mod game_loop;
pub mod input_sim;
pub mod navmesh;
pub mod onnx_inference;
pub mod screen_capture;
