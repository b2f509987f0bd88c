# atlas

The logic of a demo toolchain, verified with Verus: an editor that lays out generator and
animation clips on a timeline, saves projects, and exports a compact blob of shaders and
animation data; and a player that reads that blob back and plays it.

- `src/timeline.rs`, `src/placement.rs`: the timeline model and tracks seen as lists of placed
  clips.
- `src/timeline_interactions.rs`: selecting, placing, moving, resizing and re-tracking clips,
  setting and deleting keyframes, snapping.
- `src/panels.rs`, `src/interactions.rs`, `src/editor_state.rs`: the decisions of the editor's
  timeline, motion editor and property editor panels.
- `src/exporter.rs`, `src/binary_writer.rs`: the exported blob; `src/deserializer/`: reading it
  back, with the law that loading gives back what was exported.
- `src/shaders.rs`, `src/shader_dependencies.rs`: the exported shader table, entry points, the
  include handler, and the editor's record of which files each shader read.
- `src/shader_includes.rs`: preparing shader sources for export: finding `#include`
  directives, one slot per distinct source, and rewriting each directive to name its slot.
- `src/param_list.rs`, `src/param_types.rs`: the schema that a generator's parameter list
  declares.
- `src/serialize.rs`: the project file, with the law that saving and loading gives back the
  timeline.
- `src/clip_map.rs`, `src/player.rs`, `src/perf.rs`, `src/audio.rs`: which clips play at a
  frame, the player's start-up, and profiler bookkeeping.
- `app/`: a command-line front end (reading a blob, re-saving a project with backups,
  exporting the shader table of a list of shader loads).
