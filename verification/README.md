# lau_dynamical_systems

Dynamical systems theory: fixed point stability, bifurcation diagrams,
limit cycles and Poincaré sections, Lyapunov spectra and fractal
dimensions, basins of attraction, and agent behavioral dynamics.

`src/` is a Verus library holding the decisions and the combinatorics of
these algorithms, each with a contract and proved:

- `stability`: the stability class from the signs of the eigenvalues, with
  the laws that govern it (stable only when every eigenvalue contracts,
  order does not matter).
- `bifurcation`: smallest orbit period, period-doubling verdict, parameter
  sweeps over a grid.
- `section`: upward crossings of a Poincaré section, return-map pairs,
  projection onto the section, the plan for Floquet multipliers.
- `clustering`: first-fit grouping of final states into attractors.
- `eigen_blocks`: the 1x1 and 2x2 diagonal blocks of a real Schur form.
- `correlation`: the subsampling of point pairs for the correlation integral.
- `trajectory`: orbits of an iterated map.
- `newton`: the iteration of Newton's method for fixed points.

`app/` is the floating-point side built on it, with `nalgebra`,
`num-complex` and `serde`: the systems (Lorenz, Lotka-Volterra, logistic,
Hénon, approach-avoidance), RK4 integration, eigenvalues, Lyapunov spectra
and the dimension estimates. `tests/` runs the library on concrete inputs.
