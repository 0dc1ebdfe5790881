# vyges-ant

Antenna ratio sign-off over the **routed** design database, as a verified library with a thin
command around it. Reads a `.odb`, computes PAR / CAR / PSR / CSR per net per routing layer
against the limits the LEF states, and says whether any is exceeded.

```sh
vyges-ant check routed.odb          # 0 clean, 1 violations, 2 vacuous or error
vyges-ant check routed.odb -o antenna.json
vyges-ant explain routed.odb --net NAME
vyges-ant --describe                # machine-readable contract
```

## What it checks

During manufacture, a metal shape connected to a gate but not yet to a diffusion path collects
charge; if it is large relative to its gate it damages the oxide. The check is a ratio, collected
metal over gate area, evaluated per layer, bottom-up:

| Ratio | Numerator |
| --- | --- |
| **PAR** | metal on this layer alone |
| **CAR** | metal on this layer *and every layer below* |
| **PSR** | side area (perimeter times thickness) on this layer |
| **CSR** | side area cumulative to this layer |

A conductor is what the pins leave of the wire, joined through cut layers up to the layer being
deposited. Its metal is the exact union of its rectangles, its denominator is the summed area of
the gates on it, and its limit goes by its own diffusion. A pin on several conductors of one
layer is judged once, on the sum of their ratios.

## Two forms of limit

LEF states plain ratios, a constant per layer, and diffusion-dependent ones, a piecewise-linear
curve over the diffusion area on the conductor. Where a curve is stated it is the limit; on a
conductor without diffusion a stated plain ratio goes first. Past its last point a curve follows
the slope of its last segment, as OpenROAD has it.

## Verdicts that are not verdicts

Nothing checked is not clean. A design whose LEF states no antenna limit (`no_rules_found`) and a
database without routed metal (`no_routing_found`) are reported as `vacuous`, whatever the
violation count; a routed net with no gate area on any pin is counted in `nets_no_gate`, and a gate
that meets no metal at any stage in `gates_unanchored`. A net with a figure or a ratio that is no
number, so that no comparison can settle it, is counted in `nets_unsettled`: it did not pass.

## What it is not

A strong screen and a cross-check, not a sign-off tool. Cut layers are not evaluated.

## Layout

| | |
| --- | --- |
| `src/squares.rs`, `src/reach.rs` | the model: metal as a set of unit squares, connection as reachability |
| `src/grid.rs`, `src/components.rs`, `src/union_find.rs` | the compressed grid, its connected components, disjoint sets |
| `src/conductor.rs`, `src/touch.rs`, `src/graph.rs` | conductors, what a pin touches, the conductor graph |
| `src/regions.rs` | which terminals share a conductor at a stage, and the metal it collects |
| `src/scalar.rs`, `src/rules.rs` | the arithmetic of ratios, limits and curves |
| `src/net.rs`, `src/check.rs`, `src/report.rs` | reading a net, judging it, reporting on a design |
| `src/names.rs`, `src/cli.rs` | terminal and layer names, the command line |
| `src/laws.rs` | what holds of the library as a whole |
| `app/` | the command: database access, floating point, JSON |

Every function under `src/` is proved against its contract. Areas and perimeters are stated over
unit squares, regions over reachability, and verdicts over the arithmetic that the caller chooses.
With `Exact`, rationals without rounding, the proofs hold as they stand. The command's double
precision is a type of its own that implements the same trait unverified: what is proved of sums,
ratios and comparisons does not carry over to it, and its figures rest on the tests.
