//! llvm_fabric: a compiler fabric whose unit of compilation is the cell.
//! Cells live in regions, values travel along operand wires, and every
//! transform is recorded as an appended history entry.

pub mod bench;
pub mod cell;
pub mod chars;
pub mod conserve;
pub mod constfold;
pub mod ctrl;
pub mod dec;
pub mod diff;
pub mod decay;
pub mod dce;
pub mod fabric;
pub mod fuzz;
pub mod ga;
pub mod id;
pub mod lex;
pub mod manager;
pub mod measure;
pub mod program;
pub mod order;
pub mod pipeline;
pub mod prov;
pub mod fullprov;
pub mod region;
pub mod replay;
pub mod roundbuild;
pub mod roundparse;
pub mod roundscan;
pub mod roundtrip;
pub mod semmut;
pub mod tally;
pub mod sign;
pub mod text;
pub mod ty;
pub mod usetables;
