# lau_gravity_field

A gravity field over named rooms: each room holds a 3D gravity vector
(attention, energy, novelty), rooms are joined by weighted connections, and the
field diffuses toward equilibrium step by step.

Layout:

- `src/` — the verified library (Verus). It holds the bookkeeping that the
  dynamics rest on, generic over the value a room holds and the coupling a
  connection carries:
  - `field.rs`: rooms as a list of named entries read as a map (`get`, `set`),
    connections that are replaced and removed in either order (`connect`,
    `disconnect`), and `active_links`, the connections through which rooms act
    on one another, as positions of their rooms;
  - `sensor.rs`: a sensor bound to one room and its reading;
  - `evolution.rs`: a bounded history of snapshots that keeps the most recent
    ones.
- `app/` — the floating-point side: `GravityVector`, `GravityAttractor`,
  `FieldSnapshot`, the diffusion step, energy, center of mass, flux, normalised
  readings and alignment, rates of change, and the serde forms of the library's
  types.
- `tests/` — tests of the library.
