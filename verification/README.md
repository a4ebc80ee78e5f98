# Rusty ray tracer

A path tracer that loads triangulated `.obj` scenes and renders them into `.exr`
or `.png` images, split into a verified library and a thin program around it.

## Layout

- `src/` is the library, verified with Verus:
  - `render.rs`: how the rays of an image are spread over threads (contiguous,
    balanced ranges that cover every ray once), which pixel each ray goes
    through (row by row, every pass reaching every pixel once), and the loop
    that traces a range of rays and accumulates their colors per pixel.
  - `color.rs`: the rectangular grid of accumulated colors (`ColorStack`).
  - `scene.rs`: assembly of the scene's triangles from the index data of its
    meshes, with the check of which meshes can be assembled, and the list of
    light sources.
  - `bvh.rs`: the bounding volume tree, built by the surface area heuristic
    and walked by intersection and concealment queries; the floating-point
    geometry comes in as closures.
  - `objects.rs`, `settings.rs`: material kinds (a material whose name
    contains `light` or `Light` emits light), back side handling, log levels.
  - `utilities.rs`: random numbers from `rand`.
- `app/` is the program: command line, configuration file, `.obj` loading,
  the floating-point geometry and radiance computations, threads, progress
  bar and image output.
- `tests/` exercises the library on concrete values.
