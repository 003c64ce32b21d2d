# hopf_topology

A test bench that maps the zeta function along vertical lines to the sphere
through the Hopf map, cuts the image into closed loops and measures how the
loops link.

The numerics (zeta evaluation, Hopf coordinates, Gauss sums, metrics, fits,
plots) are floating point and live in `app/`. The verified library in `src/`
holds the discrete structure that decides what the numerics are applied to:

- `loops`: cutting a trajectory into closed loops of a fixed size;
- `segments`: which segment pairs enter the linking and writhe sums;
- `matrix`: which cells of the linking matrix are computed and read, and the
  symmetric assembly of the matrix;
- `zeros`: framing of the binary file of zeros and even sampling;
- `verdict`: combining the criteria of an experiment into a verdict.
