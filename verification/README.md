# rgbd_icp

Projective point-to-plane registration of depth frames, written in Rust and verified with
Verus.

Given two depth frames as pyramids of vertex and normal maps, `icp_projective_plane` estimates
the rigid transform from the source to the target frame, coarse to fine, and reports how far it
can be trusted: the residual, the match quality, the overlap, and how well the geometry pins the
least constrained direction. Geometry that leaves a direction open is refused, as a single wall
is: the library proves this where the numbers stay finite and the rounding errors of the sums and
of the factorisation, along the open direction, stay below the threshold of the guard.

The contracts say which number comes out, to the last bit. To that end the library computes on
the encodings of double precision numbers, with operations that are proved to round to the
nearest number.

- `src/rounding.rs`, `src/binary64.rs`: rounding and arithmetic on encodings.
- `src/exactness.rs`: what holds of single operations, such as that no number is nearer to a
  result than its rounding.
- `src/linear.rs`: rotations and the guarded Cholesky solve.
- `src/rgbd.rs`: frames and errors.
- `src/icp.rs`: association, gating, normal equations, Gauss-Newton steps and the registration.
- `src/laws.rs`: what holds of a registration as a whole.
- `src/runs.rs`: how many updates a run makes, and how it goes from coarse to fine.
- `src/accumulation.rs`, `src/sums.rs`, `src/folds.rs`, `src/semidefinite.rs`,
  `src/ordering.rs`: sums over the pixels, exact and up to rounding, wider gates, maps in parts.
- `src/solves.rs`, `src/systems.rs`, `src/residuals.rs`: other right-hand sides, rescaled blocks,
  and how nearly a solution solves its system.
- `src/motions.rs`, `src/nullspace.rs`, `src/pivots.rs`, `src/walls.rs`: what a correspondence
  notices of a motion, what the pivots say of it, and motions that are refused, such as those along
  a wall.
- `src/rotations.rs`, `src/determinants.rs`, `src/axes.rs`, `src/products.rs`,
  `src/compositions.rs`: that the rotation by a vector is a rotation about it, and what products
  of rotations are, up to rounding.
- `src/errors.rs`, `src/chains.rs`: numbers as reals, how far a rounding strays, and how the errors
  of a chain of operations add up.
- `src/totals.rs`, `src/forms.rs`, `src/identities.rs`: sums, quadratic forms and identities of real
  numbers.
- `tests/`: the arithmetic and whole registrations against the machine's doubles, rendered
  scenes, and small frames.
- `app/`: the registration for frames that are held in the machine's doubles.

The camera's projection and the sine and cosine of an angle come from the caller. The contracts
hold for every camera and every pair of functions that give one answer to each question, and say
which clauses hold whatever the answers are.
