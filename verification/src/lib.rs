//! Engines for puzzle-style computations: cycle-accelerated simulation,
//! breadth-first and memoized depth-first search over caller-defined state
//! graphs, and a disjoint-set (union-find) structure, together with the
//! puzzle solvers built on them.

pub mod cycle;
pub mod disjoint_set;
pub mod ec2024_quest01;
pub mod ec2024_quest02;
pub mod ec2025_quest05;
pub mod ec2025_quest09;
pub mod ec2025_quest10;
pub mod ec2025_quest13;
pub mod ec2025_quest14;
pub mod ec2025_quest15;
pub mod ec2025_quest16;
pub mod ec2025_quest18;
pub mod ec2025_quest19;
pub mod ec2025_quest20;
pub mod errors;
pub mod search;
pub mod sol2024_quest05;
pub mod sol2025_quest02;
pub mod sol2025_quest06;
pub mod sol2025_quest08;
pub mod story1_quest01;
pub mod story1_quest03;
pub mod story2_quest01;
pub mod template;
pub mod text;

use vstd::prelude::*;

verus! {

} // verus!
