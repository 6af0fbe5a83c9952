//! The four-component vector and its conversions from and to the native
//! shapes.
//!
//! A spatial shape of two or three components leaves the last components of
//! the vector at positive zero, and reading a shape of fewer than four
//! components drops the last components of the vector. A colour shape holds
//! one byte per channel, where 255 stands for one.

use vstd::prelude::*;
use crate::double::Double;
use crate::double::lemma_exact_round_trip;
use crate::double::lemma_narrow_then_widen;
use crate::double::lemma_widen_then_narrow;
use crate::single::Single;
use crate::single::lemma_channel_round_trip;
use crate::single::lemma_full_channel_round_trip;
use crate::single::lemma_small_integer_round_trip;

verus! {

/// A vector of four binary32 components: the coordinates x, y, z, w of a
/// point, or the channels red, green, blue, alpha of a colour.
#[derive(Clone, Copy, Debug)]
pub struct Vec4(pub [Single; 4]);

/// The native shapes.
#[derive(Clone, Copy, Debug, PartialEq, Eq, Structural)]
pub enum Shape {
    /// Two binary32 coordinates.
    Single2,
    /// Three binary32 coordinates.
    Single3,
    /// Four binary32 coordinates.
    Single4,
    /// Two binary64 coordinates.
    Double2,
    /// Three binary64 coordinates.
    Double3,
    /// Four binary64 coordinates.
    Double4,
    /// Two unsigned integers.
    Pair,
    /// A colour of four channels, one byte each.
    Color,
}

/// A value of one of the native shapes.
#[derive(Clone, Copy, Debug)]
pub enum Native {
    /// The coordinates x and y.
    Single2([Single; 2]),
    /// The coordinates x, y and z.
    Single3([Single; 3]),
    /// The coordinates x, y, z and w.
    Single4([Single; 4]),
    /// The coordinates x and y, in double precision.
    Double2([Double; 2]),
    /// The coordinates x, y and z, in double precision.
    Double3([Double; 3]),
    /// The coordinates x, y, z and w, in double precision.
    Double4([Double; 4]),
    /// Two whole coordinates, such as a position on a grid or a size.
    Pair([u32; 2]),
    /// The channels red, green, blue and alpha, from 0 to 255 each.
    Color([u8; 4]),
}

impl Shape {
    /// The number of components that a value of the shape holds.
    pub open spec fn arity(self) -> nat {
        match self {
            Shape::Single2 | Shape::Double2 | Shape::Pair => 2,
            Shape::Single3 | Shape::Double3 => 3,
            Shape::Single4 | Shape::Double4 | Shape::Color => 4,
        }
    }
}

impl Native {
    /// The shape of the value.
    pub open spec fn spec_shape(self) -> Shape {
        match self {
            Native::Single2(_) => Shape::Single2,
            Native::Single3(_) => Shape::Single3,
            Native::Single4(_) => Shape::Single4,
            Native::Double2(_) => Shape::Double2,
            Native::Double3(_) => Shape::Double3,
            Native::Double4(_) => Shape::Double4,
            Native::Pair(_) => Shape::Pair,
            Native::Color(_) => Shape::Color,
        }
    }

    /// The shape of the value.
    #[verifier::when_used_as_spec(spec_shape)]
    pub fn shape(self) -> (shape: Shape)
        ensures
            shape == self.spec_shape(),
    {
        match self {
            Native::Single2(_) => Shape::Single2,
            Native::Single3(_) => Shape::Single3,
            Native::Single4(_) => Shape::Single4,
            Native::Double2(_) => Shape::Double2,
            Native::Double3(_) => Shape::Double3,
            Native::Double4(_) => Shape::Double4,
            Native::Pair(_) => Shape::Pair,
            Native::Color(_) => Shape::Color,
        }
    }
}

impl View for Vec4 {
    type V = Seq<Single>;

    /// The four components, in order.
    open spec fn view(&self) -> Seq<Single> {
        self.0@
    }
}

/// Every component of `singles` is what the component of `doubles` at the
/// same place rounds to.
pub open spec fn are_narrowed(doubles: Seq<Double>, singles: Seq<Single>) -> bool {
    forall|i: int| 0 <= i < doubles.len() ==> (#[trigger] doubles[i]).is_narrowed(singles[i])
}

/// Every component of `doubles` is the component of `singles` at the same
/// place, written as a binary64.
pub open spec fn are_widened(doubles: Seq<Double>, singles: Seq<Single>) -> bool {
    forall|i: int| 0 <= i < doubles.len() ==> (#[trigger] doubles[i]).is_widened(singles[i])
}

/// Every component of `singles` is what the integer of `integers` at the
/// same place rounds to.
pub open spec fn are_nearest_to(singles: Seq<Single>, integers: Seq<u32>) -> bool {
    forall|i: int| 0 <= i < integers.len() ==> singles[i].is_nearest_to_u32(#[trigger] integers[i])
}

/// Every integer of `integers` is what the component of `singles` at the
/// same place truncates to.
pub open spec fn are_truncated(singles: Seq<Single>, integers: Seq<u32>) -> bool {
    forall|i: int| 0 <= i < integers.len() ==> (#[trigger] integers[i]) == singles[i].truncated()
}

/// Every component of `singles` is what the channel of `channels` at the
/// same place rounds to.
pub open spec fn are_nearest_to_channels(singles: Seq<Single>, channels: Seq<u8>) -> bool {
    forall|i: int|
        0 <= i < channels.len() ==> singles[i].is_nearest_to_channel(#[trigger] channels[i])
}

/// Every channel of `channels` is the one that the component of `singles` at
/// the same place stands for.
pub open spec fn are_channels(singles: Seq<Single>, channels: Seq<u8>) -> bool {
    forall|i: int| 0 <= i < channels.len() ==> singles[i].has_channel(#[trigger] channels[i])
}

/// The components from `from` on are positive zero.
pub open spec fn is_zero_filled(singles: Seq<Single>, from: int) -> bool {
    forall|i: int| from <= i < singles.len() ==> #[trigger] singles[i] == Single::zero()
}

impl Vec4 {
    /// The vector of the four components.
    pub fn from(val: [Single; 4]) -> (r: Vec4)
        ensures
            r@ == val@,
    {
        Vec4(val)
    }

    /// The four components of the vector.
    pub fn to(&self) -> (val: [Single; 4])
        ensures
            val@ == self@,
    {
        self.0
    }

    /// The vector of two binary32 coordinates; the others are zero.
    pub fn from_single2(val: [Single; 2]) -> (r: Vec4)
        ensures
            r@ == val@ + seq![Single::zero(), Single::zero()],
    {
        Vec4([val[0], val[1], Single::zero(), Single::zero()])
    }

    /// The vector of three binary32 coordinates; the last is zero.
    pub fn from_single3(val: [Single; 3]) -> (r: Vec4)
        ensures
            r@ == val@ + seq![Single::zero()],
    {
        Vec4([val[0], val[1], val[2], Single::zero()])
    }

    /// The vector of four binary32 coordinates.
    pub fn from_single4(val: [Single; 4]) -> (r: Vec4)
        ensures
            r@ == val@,
    {
        Vec4([val[0], val[1], val[2], val[3]])
    }

    /// The first two components.
    pub fn to_single2(&self) -> (val: [Single; 2])
        ensures
            val@ == self@.subrange(0, 2),
    {
        [self.0[0], self.0[1]]
    }

    /// The first three components.
    pub fn to_single3(&self) -> (val: [Single; 3])
        ensures
            val@ == self@.subrange(0, 3),
    {
        [self.0[0], self.0[1], self.0[2]]
    }

    /// The four components.
    pub fn to_single4(&self) -> (val: [Single; 4])
        ensures
            val@ == self@,
    {
        self.0
    }

    /// The vector of two binary64 coordinates, each rounded to the nearest
    /// binary32; the others are zero.
    pub fn from_double2(val: [Double; 2]) -> (r: Vec4)
        ensures
            are_narrowed(val@, r@),
            is_zero_filled(r@, 2),
    {
        Vec4([val[0].to_single(), val[1].to_single(), Single::zero(), Single::zero()])
    }

    /// The vector of three binary64 coordinates, each rounded to the nearest
    /// binary32; the last is zero.
    pub fn from_double3(val: [Double; 3]) -> (r: Vec4)
        ensures
            are_narrowed(val@, r@),
            is_zero_filled(r@, 3),
    {
        Vec4([val[0].to_single(), val[1].to_single(), val[2].to_single(), Single::zero()])
    }

    /// The vector of four binary64 coordinates, each rounded to the nearest
    /// binary32.
    pub fn from_double4(val: [Double; 4]) -> (r: Vec4)
        ensures
            are_narrowed(val@, r@),
    {
        Vec4([val[0].to_single(), val[1].to_single(), val[2].to_single(), val[3].to_single()])
    }

    /// The first two components, as binary64 of the same values.
    pub fn to_double2(&self) -> (val: [Double; 2])
        ensures
            are_widened(val@, self@),
    {
        [Double::from_single(self.0[0]), Double::from_single(self.0[1])]
    }

    /// The first three components, as binary64 of the same values.
    pub fn to_double3(&self) -> (val: [Double; 3])
        ensures
            are_widened(val@, self@),
    {
        [
            Double::from_single(self.0[0]),
            Double::from_single(self.0[1]),
            Double::from_single(self.0[2]),
        ]
    }

    /// The four components, as binary64 of the same values.
    pub fn to_double4(&self) -> (val: [Double; 4])
        ensures
            are_widened(val@, self@),
    {
        [
            Double::from_single(self.0[0]),
            Double::from_single(self.0[1]),
            Double::from_single(self.0[2]),
            Double::from_single(self.0[3]),
        ]
    }

    /// The vector of two unsigned integers, each rounded to the nearest
    /// binary32; the others are zero.
    pub fn from_pair(val: [u32; 2]) -> (r: Vec4)
        ensures
            are_nearest_to(r@, val@),
            is_zero_filled(r@, 2),
    {
        Vec4([Single::from_u32(val[0]), Single::from_u32(val[1]), Single::zero(), Single::zero()])
    }

    /// The first two components, truncated to unsigned integers.
    pub fn to_pair(&self) -> (val: [u32; 2])
        ensures
            are_truncated(self@, val@),
    {
        [self.0[0].to_u32(), self.0[1].to_u32()]
    }

    /// The vector of a colour: each channel divided by 255.
    pub fn from_color(val: [u8; 4]) -> (r: Vec4)
        ensures
            are_nearest_to_channels(r@, val@),
    {
        Vec4(
            [
                Single::from_channel(val[0]),
                Single::from_channel(val[1]),
                Single::from_channel(val[2]),
                Single::from_channel(val[3]),
            ],
        )
    }

    /// The colour of the vector: each component times 255, truncated.
    pub fn to_color(&self) -> (val: [u8; 4])
        ensures
            are_channels(self@, val@),
    {
        [
            self.0[0].to_channel(),
            self.0[1].to_channel(),
            self.0[2].to_channel(),
            self.0[3].to_channel(),
        ]
    }

    /// The vector is what the native value widens to.
    pub open spec fn is_widened(self, native: Native) -> bool {
        match native {
            Native::Single2(val) => self@ == val@ + seq![Single::zero(), Single::zero()],
            Native::Single3(val) => self@ == val@ + seq![Single::zero()],
            Native::Single4(val) => self@ == val@,
            Native::Double2(val) => are_narrowed(val@, self@) && is_zero_filled(self@, 2),
            Native::Double3(val) => are_narrowed(val@, self@) && is_zero_filled(self@, 3),
            Native::Double4(val) => are_narrowed(val@, self@),
            Native::Pair(val) => are_nearest_to(self@, val@) && is_zero_filled(self@, 2),
            Native::Color(val) => are_nearest_to_channels(self@, val@),
        }
    }

    /// The native value is what the vector narrows to.
    pub open spec fn is_narrowed(self, native: Native) -> bool {
        match native {
            Native::Single2(val) => val@ == self@.subrange(0, 2),
            Native::Single3(val) => val@ == self@.subrange(0, 3),
            Native::Single4(val) => val@ == self@,
            Native::Double2(val) => are_widened(val@, self@),
            Native::Double3(val) => are_widened(val@, self@),
            Native::Double4(val) => are_widened(val@, self@),
            Native::Pair(val) => are_truncated(self@, val@),
            Native::Color(val) => are_channels(self@, val@),
        }
    }

    /// The vector that stands for the native value, whatever its shape. The
    /// components that the shape does not supply are positive zero.
    pub fn widen(native: Native) -> (r: Vec4)
        ensures
            r.is_widened(native),
            is_zero_filled(r@, native.shape().arity() as int),
    {
        match native {
            Native::Single2(val) => Vec4::from_single2(val),
            Native::Single3(val) => Vec4::from_single3(val),
            Native::Single4(val) => Vec4::from_single4(val),
            Native::Double2(val) => Vec4::from_double2(val),
            Native::Double3(val) => Vec4::from_double3(val),
            Native::Double4(val) => Vec4::from_double4(val),
            Native::Pair(val) => Vec4::from_pair(val),
            Native::Color(val) => Vec4::from_color(val),
        }
    }

    /// The native value of the given shape that the vector stands for.
    pub fn narrow(&self, shape: Shape) -> (native: Native)
        ensures
            native.shape() == shape,
            self.is_narrowed(native),
    {
        match shape {
            Shape::Single2 => Native::Single2(self.to_single2()),
            Shape::Single3 => Native::Single3(self.to_single3()),
            Shape::Single4 => Native::Single4(self.to_single4()),
            Shape::Double2 => Native::Double2(self.to_double2()),
            Shape::Double3 => Native::Double3(self.to_double3()),
            Shape::Double4 => Native::Double4(self.to_double4()),
            Shape::Pair => Native::Pair(self.to_pair()),
            Shape::Color => Native::Color(self.to_color()),
        }
    }
}

/// Two binary32 coordinates that went into a vector come back as they were.
pub proof fn lemma_single2_round_trip(val: [Single; 2], vector: Vec4, back: [Single; 2])
    requires
        vector.is_widened(Native::Single2(val)),
        vector.is_narrowed(Native::Single2(back)),
    ensures
        back == val,
{
    assert(back@ =~= val@);
    assert(back =~= val);
}

/// Three binary32 coordinates that went into a vector come back as they
/// were.
pub proof fn lemma_single3_round_trip(val: [Single; 3], vector: Vec4, back: [Single; 3])
    requires
        vector.is_widened(Native::Single3(val)),
        vector.is_narrowed(Native::Single3(back)),
    ensures
        back == val,
{
    assert(back@ =~= val@);
    assert(back =~= val);
}

/// Four binary32 coordinates that went into a vector come back as they were.
pub proof fn lemma_single4_round_trip(val: [Single; 4], vector: Vec4, back: [Single; 4])
    requires
        vector.is_widened(Native::Single4(val)),
        vector.is_narrowed(Native::Single4(back)),
    ensures
        back == val,
{
    assert(back@ =~= val@);
    assert(back =~= val);
}

/// A binary64 coordinate that went into a vector and came back has lost what
/// rounding to binary32 takes, and no more: going in again, it gives the
/// same component.
pub proof fn lemma_double_round_trip(
    val: Seq<Double>,
    singles: Seq<Single>,
    back: Seq<Double>,
    again: Seq<Single>,
    i: int,
)
    requires
        are_narrowed(val, singles),
        are_widened(back, singles),
        are_narrowed(back, again),
        back.len() == val.len(),
        0 <= i < val.len(),
        !val[i].is_nan(),
    ensures
        again[i] == singles[i],
{
    lemma_narrow_then_widen(val[i], singles[i], back[i], again[i]);
}

/// A binary64 coordinate that holds the value of a binary32 comes back from
/// a vector as it was.
pub proof fn lemma_double_exact_round_trip(
    origin: Seq<Single>,
    val: Seq<Double>,
    singles: Seq<Single>,
    back: Seq<Double>,
    i: int,
)
    requires
        are_widened(val, origin),
        are_narrowed(val, singles),
        are_widened(back, singles),
        back.len() == val.len(),
        0 <= i < val.len(),
        !origin[i].is_nan(),
    ensures
        back[i] == val[i],
        singles[i] == origin[i],
{
    lemma_exact_round_trip(val[i], origin[i], singles[i], back[i]);
    lemma_widen_then_narrow(origin[i], val[i], singles[i]);
}

/// An unsigned integer of at most 24 bits that went into a vector comes back
/// as it was.
pub proof fn lemma_pair_round_trip(val: [u32; 2], vector: Vec4, back: [u32; 2], i: int)
    requires
        vector.is_widened(Native::Pair(val)),
        vector.is_narrowed(Native::Pair(back)),
        0 <= i < 2,
        val[i] < 0x100_0000,
    ensures
        back[i] == val[i],
{
    assert(vector@[i].is_nearest_to_u32(val@[i]));
    assert(back@[i] == vector@[i].truncated());
    lemma_small_integer_round_trip(val[i], vector@[i]);
}

/// Each channel of a colour that went into a vector comes back as itself, or
/// as one less.
pub proof fn lemma_color_round_trip(val: [u8; 4], vector: Vec4, back: [u8; 4])
    requires
        vector.is_widened(Native::Color(val)),
        vector.is_narrowed(Native::Color(back)),
    ensures
        forall|i: int| 0 <= i < 4 ==> #[trigger] back[i] == val[i] || back[i] + 1 == val[i],
{
    assert forall|i: int| 0 <= i < 4 implies #[trigger] back[i] == val[i] || back[i] + 1
        == val[i] by {
        assert(vector@[i].is_nearest_to_channel(val@[i]));
        assert(vector@[i].has_channel(back@[i]));
        lemma_channel_round_trip(val[i], vector@[i], back[i]);
    }
}

/// A full channel goes into a vector as exactly one, and comes back full.
pub proof fn lemma_full_channel(val: [u8; 4], vector: Vec4, back: [u8; 4], i: int)
    requires
        vector.is_widened(Native::Color(val)),
        vector.is_narrowed(Native::Color(back)),
        0 <= i < 4,
        val[i] == 255,
    ensures
        vector@[i].bits == 0x3f80_0000,
        back[i] == 255,
{
    assert(vector@[i].is_nearest_to_channel(val@[i]));
    assert(vector@[i].has_channel(back@[i]));
    lemma_full_channel_round_trip(vector@[i], back[i]);
}

} // verus!
