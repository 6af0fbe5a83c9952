//! Vectors and colours between a host program and a scripting runtime.
//!
//! The runtime knows one vector: four binary32 components, read as the
//! coordinates of a point or as the channels of a colour. A host program
//! holds such a value in one of several native shapes: two, three or four
//! binary32 or binary64 coordinates, a pair of unsigned integers, or a colour
//! of four bytes. `vec4` widens each shape into the vector and narrows the
//! vector into each shape; `variable` reads the vector from a variable of the
//! runtime and wraps it into one.
//!
//! Floating-point numbers are held by their bit patterns, in `single` and
//! `double`, and every conversion is computed on integers: `binary` says what
//! value a pattern has, and `nearest` says what it is to round to the nearest
//! binary32 and does it. The results are, bit for bit, those of the casts
//! and of the arithmetic of the machine.
//!
//! `io` words the diagnostic for a failed I/O action.

mod bits;

pub mod binary;
pub mod double;
pub mod io;
pub mod nearest;
pub mod single;
pub mod variable;
pub mod vec4;
