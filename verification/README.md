# moxie timeline core

The verified core of the moxie animation editor: the block tree an
animation is made of, and everything the editor's panels decide about
it, each function with a contract that Verus proves.

- `scene`, `span`, `tree`: the tree of blocks, actions and drafts,
  lengths of time with `Duration`'s saturating arithmetic, and naming
  and editing nodes by path.
- `timing`, `layout`: how long nodes and blocks run, and the nested
  boxes the timeline draws them as, in time and in rows.
- `reorder`, `drop`, `prune`, `create`, `edit`, `retime`: moving nodes
  by drag and drop, cleaning up after a move, adding an action for a
  dropped field, and the property edits the panels and edge drags make.
- `recompile`: demoting the action a failed compile names, until the
  scene compiles.
- `panel`, `inspector`, `time_axis`, `decimal`, `playback`: what the
  action panel and inspector show, the time axis's marks and labels,
  and play/pause, scrubbing and stopping decisions.
- `hover`: which block a cursor over the timeline points into, and
  where a loose drop lands among its children.
- `hierarchy`, `regroup`: the hierarchy panel's rows, and moving
  subjects in the hierarchy.
- `bookmarks`, `project`, `pattern`: the asset panel's bookmarks and
  open folders, the project file's parts, and the delay hatch.

The time axis's labels print seconds as an `f32` would: the library
rounds in whole numbers exactly as `f32` arithmetic and formatting do.

`app/` holds the float arithmetic around it: pixels from times, tick
spacing for the zoom, sizes inside parent boxes, where a release over
the timeline lands, and the texts that print an `f32` (a flow's
stagger on its header, the playhead's readout).
