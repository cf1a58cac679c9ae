//! Verified puzzle solvers built around one reusable core: a best-first
//! (Dijkstra-style) search engine over abstract, lazily expanded state
//! graphs, in `dijkstra`.  The engine's contracts pin down soundness,
//! optimality of the first result, monotonicity of later results, and
//! identity-based deduplication; the puzzle modules supply concrete search
//! spaces (a height grid, a valley of moving blizzards, a flooded bounding
//! box) and further verified puzzle logic.

pub mod day_01;
pub mod day_02;
pub mod day_03;
pub mod day_04;
pub mod day_05;
pub mod day_06;
pub mod day_07;
pub mod day_08;
pub mod day_09;
pub mod day_10;
pub mod day_11;
pub mod day_12;
pub mod day_14;
pub mod day_15;
pub mod day_17;
pub mod day_18;
pub mod day_21;
pub mod day_23;
pub mod day_24;
pub mod day_25;
pub mod dijkstra;
pub mod table;
pub mod text;
