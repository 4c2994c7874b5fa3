# atomic_universe

The verified core of a gravity-well particle sandbox. Bodies bend a "fabric"
grid around them and roll down its slopes; the window shows the fabric and the
bodies.

- `src/fabric.rs`: the fabric grid (`Fabric<T>`), its row-major indexing and the
  four neighbours of an inner cell.
- `src/influence.rs`: the cells a body reaches within its radius, in scan order,
  with the laws that they are exactly the on-grid disc and never repeat a cell.
- `src/canvas.rs`: the RGBA pixel buffer the view is drawn into.
- `src/colour.rs`: how a hue sector arranges its three values over red, green and blue.
- `src/timing.rs`: the event loop's redraw and sub-step decisions.
- `app/`: the window, the event loop, random particle seeding and every
  floating-point computation (positions, velocities, depths, colours).
