//! Verification and execution of programs of a typed combinator calculus,
//! together with the abstract spending policies that are written for it.
//!
//! A program is a sequence of combinator nodes that refer to earlier nodes
//! by index. It is read from its bytes (`decode`), checked for its structure
//! (`dag`), for the sharing of equal parts (`merkle`) and for its types
//! (`inference`), and then run on the Bit Machine (`bit_machine`). `encode`
//! writes a program back, and `roundtrip` shows that what is written is read
//! back as it was.
//!
//! Type inference unifies the equations that the combinators impose
//! (`constraints`) and resolves the type variables to finite types
//! (`resolve`); `solution` holds what the state of the unifier means for the
//! typings of the program.

pub mod bit_machine;
pub mod bititer;
pub mod constraints;
pub mod dag;
pub mod decode;
pub mod encode;
pub mod error;
pub mod inference;
pub mod jet;
pub mod merkle;
pub mod natural;
pub mod policy;
pub mod program;
pub mod resolve;
pub mod roundtrip;
pub mod solution;
pub mod text;
pub mod types;
pub mod util;
