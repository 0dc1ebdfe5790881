//! Antenna ratio sign-off over the **routed** design database.
//!
//! During manufacture a metal shape connected to a gate but not yet to a diffusion path acts as
//! a charge collector; if it is large relative to its gate it damages the oxide. The check is a
//! ratio, collected metal over gate area, held against limits the LEF states per layer.
//!
//! For each net, walking routing layers bottom-up:
//!
//! - **PAR** (partial area ratio): metal on *this* layer over gate area
//! - **CAR** (cumulative area ratio): metal on this layer *and every layer below* over gate area
//! - **PSR** and **CSR**: the same two over *side* area (perimeter times layer thickness)
//!
//! Cumulative matters: a net legal on each layer taken alone can still violate CAR, because the
//! charge a gate sees is what the whole connected stack collected, not the worst single layer.
//!
//! Metal is modelled as a set of unit squares ([`squares`]). [`graph`] cuts a net's routing at
//! its pins and labels it into conductors, [`regions`] says which terminals share one at a stage
//! and how much metal it collects, [`net`] puts that into square micrometres, [`rules`] holds the
//! limits, [`check`] gives the verdict on a net, and [`report`] the verdict on a design. [`laws`]
//! states what holds of them together.

pub mod check;
pub mod cli;
pub mod components;
pub mod conductor;
pub mod graph;
pub mod grid;
pub mod laws;
pub mod names;
pub mod net;
pub mod reach;
pub mod regions;
pub mod report;
pub mod rules;
pub mod scalar;
pub mod squares;
pub mod touch;
pub mod union_find;

pub use check::{check_net, Violation};
pub use net::{read_net, LayerInfo, NetAntenna, RegionExposure, RoutedNet, Terminal};
pub use report::{check_design, settle_vacuity, Report};
pub use rules::{LayerRules, Pwl, Ratio, RuleTable};
pub use scalar::{Exact, Scalar};
