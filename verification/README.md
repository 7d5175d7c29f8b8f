# fluid_sim

A grid-based fluid simulation drawn with glium. The library (`src/`, verified
with Verus) holds the integer logic of the simulation:

- `stepping`: stepped index ranges, as `(start..end).step_by(step)` yields them.
- `cells`: row-major cell lists and the interior cells that the solver sweeps.
- `sampling`: the lattice of cells where velocity arrows are drawn and the
  3 x 3 neighbourhood averaged at each.
- `brush`: the cells a density brush stroke touches.
- `mesh`: the vertex and index layout of the density quads and the arrows.
- `pointer`: when a pointer drag stirs the fluid.

The program (`app/`) holds the floating-point solver (diffusion, advection,
projection), the GPU buffers and the window's event loop, and calls the
library for every index, range and decision above.
