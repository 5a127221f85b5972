# robosim

A robot simulation's map logic, verified with Verus.

- `src/geometry.rs`: grid cells (`Point`).
- `src/supercover.rs`: the supercover line between two cells, as a spec
  (`supercover_path`, `supercover_cells`) with its laws (endpoints, unit
  moves towards the target, length bounds) and the walk that computes it
  (`supercover_points`).
- `src/segment.rs`: the line's cells are exactly those whose unit square the
  segment between the endpoint centres passes through; the line visits no
  cell twice, stays in the endpoints' box, and reversed is the line walked
  backwards.
- `src/raster.rs`: grayscale maps (`GrayMap`, an `image::GrayImage`) and ray
  casting over them: `supercover_line` stops at the first black pixel on the
  line; `try_supercover_line` also refuses rays that would leave the map;
  added walls only ever shorten a ray.
- `src/server.rs`: the messages the simulation broadcasts and the websocket
  frames sent for them (the `MU` map-update payload, gzip-compressed).
- `src/map_feed.rs`: the map file decoded to gray pixels, and the map update
  that carries the whole map as a PNG.
- `tests/`: tests of the library.
- `app/`: the programs around it: the websocket server and map broadcast
  (tokio, tokio-tungstenite), the offline SLAM visualisation, the map viewer
  and the robot's own control program.
