use vstd::prelude::*;

pub mod audio;
pub mod clip_map;
pub mod binary_writer;
pub mod deserializer;
pub mod editor_state;
pub mod exporter;
pub mod interactions;
pub mod panels;
pub mod param_list;
pub mod param_types;
pub mod perf;
pub mod placement;
pub mod player;
pub mod serialize;
pub mod shader_dependencies;
pub mod shader_includes;
pub mod shaders;
pub mod timeline;
pub mod timeline_interactions;

verus! {

} // verus!
