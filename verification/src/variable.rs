//! Vectors in the variables of a scripting runtime.
//!
//! A runtime tags each of its variables with a kind. Of those kinds this
//! library reads one, the vector of four components; a variable of any other
//! kind is a type mismatch. The runtime words the message for a mismatch
//! itself: the library only names the kind that it expected.

use vstd::prelude::*;
use crate::single::Single;
use crate::vec4::Native;
use crate::vec4::Shape;
use crate::vec4::Vec4;
use crate::vec4::is_zero_filled;

verus! {

/// A variable of the runtime, as far as this library reads it.
#[derive(Clone, Copy, Debug)]
pub enum Variable {
    /// A vector of four components.
    Vec4([Single; 4]),
    /// A variable of any other kind.
    Other,
}

/// A variable did not hold the kind of value that was asked for.
#[derive(Clone, Copy, Debug)]
pub struct TypeMismatch {
    /// The name of the kind that was asked for.
    pub expected: &'static str,
}

/// The name of the vector kind.
pub open spec fn vector_kind() -> Seq<char> {
    "vec4"@
}

impl Vec4 {
    /// The vector that the variable holds, or a type mismatch that names the
    /// vector kind where the variable is of another kind.
    pub fn pop_var(var: &Variable) -> (r: Result<Vec4, TypeMismatch>)
        ensures
            match *var {
                Variable::Vec4(val) => r == Ok::<Vec4, TypeMismatch>(Vec4(val)),
                Variable::Other => r is Err && r->Err_0.expected@ == vector_kind(),
            },
    {
        match *var {
            Variable::Vec4(val) => Ok(Vec4(val)),
            Variable::Other => Err(TypeMismatch { expected: "vec4" }),
        }
    }

    /// The variable that holds the vector.
    pub fn push_var(&self) -> (var: Variable)
        ensures
            var == Variable::Vec4(self.0),
    {
        Variable::Vec4(self.0)
    }
}

/// The native value of the given shape that the variable holds: the vector in
/// it, narrowed. A variable of another kind gives a type mismatch that names
/// the vector kind, and nothing else.
pub fn pop(var: &Variable, shape: Shape) -> (r: Result<Native, TypeMismatch>)
    ensures
        match *var {
            Variable::Vec4(val) => r is Ok && r->Ok_0.shape() == shape && Vec4(val).is_narrowed(
                r->Ok_0,
            ),
            Variable::Other => r is Err && r->Err_0.expected@ == vector_kind(),
        },
{
    match Vec4::pop_var(var) {
        Ok(vector) => Ok(vector.narrow(shape)),
        Err(mismatch) => Err(mismatch),
    }
}

/// The variable that holds the native value: a vector variable with the
/// value, widened. Every native value has one.
pub fn push(native: Native) -> (var: Variable)
    ensures
        var is Vec4,
        Vec4(var->Vec4_0).is_widened(native),
        is_zero_filled(var->Vec4_0@, native.shape().arity() as int),
{
    Vec4::widen(native).push_var()
}

} // verus!
