# homescreen

The layout engine of a home screen: widgets stand on pages of a cell grid,
and dragging or resizing one asks a solver where everything else goes.

- `src/layout_manager.rs`: grid rectangles, pages (widgets keyed by number),
  the manager of several pages, the `LayoutSolver` trait, and how a solver's
  answer (`LayoutMutation`) is applied.
- `src/solver.rs`: `AndroidLayoutSolver`. A dropped or resized widget takes
  its place; each widget it displaces, in reading order (row, column, id),
  is pushed straight down as little as needed, or else moved to the nearest
  free spot (Manhattan distance, reading order on ties). Compaction lifts
  every widget as high as it can go, in reading order.
- `src/models.rs`: the pages the home screen starts with.
- `src/navigation.rs`: which page a finished swipe makes active, and what
  a press held on a widget turns into.
- `app/`: configuration in pixels, the pixel geometry of the grid, the gpui
  view and widgets, and the launcher's clock component.

Every function under `src/` is verified with Verus against its contract;
the laws the solver keeps (no overlaps after a drop, widgets stay inside the
grid, compaction only moves widgets up, and, on pages whose widgets are
each at least one row tall, a second compaction moves nothing) are proof
functions there.
