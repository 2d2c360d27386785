use vstd::prelude::*;

pub mod bst;
pub mod bst_generic;
pub mod hanoi;
pub mod lists;
pub mod parser;
pub mod primes;
pub mod stack;
pub mod value;

pub use hanoi::hanoi;
pub use hanoi::make_a_move;
pub use hanoi::Move;
pub use hanoi::Peg;
pub use lists::dedup;
pub use lists::filter;
pub use lists::sum;
pub use lists::vec_mult;
pub use parser::evaluate_line;
pub use primes::sieve;
pub use stack::Error;
pub use stack::Op;
pub use stack::Stack;
pub use value::Elt;

verus! {

} // verus!
