//! A size-adaptive multiplier for dense square matrices in row-major
//! layout.
//!
//! Three strategies are on offer: the direct triple loop, the same loop
//! tiled into cube blocks, and Strassen's recursion, whose scratch matrices
//! all live in one arena sized up front and handed out by a moving cursor.
//!
//! - `scalar`: what a matrix element must offer; 64-bit integers with
//!   wrapping arithmetic offer it here.
//! - `threshold`: the clamped cutover size of the recursion.
//! - `arena`: the scratch buffer and its cursor.
//! - `model`: what each multiplication computes, as mathematical
//!   sequences.
//! - `dense`: the direct and the blocked multiplication.
//! - `scratch`: the kernels that work on regions of the arena.
//! - `strassen`: the recursion and the size-adaptive entry point.
//! - `laws` and `exact`: what holds of the results, among it that on
//!   64-bit integers every strategy computes the same product.
//! - `fib`: Fibonacci numbers, for a single index and over a buffer.

pub mod arena;
pub mod dense;
pub mod exact;
pub mod fib;
pub mod laws;
pub mod model;
pub mod scalar;
pub mod scratch;
pub mod strassen;
pub mod threshold;
