# simple_hydrology

Terrain generation and hydraulic erosion, shown with Bevy: a particle
erosion simulation on a 512 x 512 world (`app/main.rs`) and a contour-map
terrain viewer with grid erosion, shaded relief, contour lines and rivers
(`app/viewer`).

The library in `src/` holds the logic that does not depend on
floating-point arithmetic, verified with Verus:

- `grid` — row-major index arithmetic shared by the other modules.
- `contour::marching` — the marching-squares case table and the list of
  cell edges a contour crosses; `contour::chaining` — greedy stitching of
  segments into polylines by quantised end keys.
- `erosion::heightmap` — generic row-major grids: construction, access,
  periodic wrapping and cropping.
- `sim::cell`, `particle::cell` — the simulation grids (fixed and run-time
  sized): bounds, indexing and cell access.
- `particle::world` — how an erosion cycle's droplets are shared among
  worker threads.
- `render` — overlay toggles, coastline detection, choice of the colour
  gradient interval.
- `river` — the eight neighbours of a cell, the D-infinity facets, and
  stepping without leaving the grid.
- `control` — the simulation window's run and view state: key commands and
  what the erosion step does each frame.
- `visibility`, `resources`, `terrain` — display settings and which layers
  are shown.

`app/` is ordinary Rust around it: the Bevy systems, the `f32`/`f64`
arithmetic (heights, normals, colours, water and sediment), noise and FFT,
and the threads.  `tests/` exercises the library.
