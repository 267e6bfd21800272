//! Primitive value types shared by the AAMP parameter model: float
//! vectors, colors, quaternions, fixed-capacity strings, and
//! animation curves.
//!
//! Float lanes are held as their IEEE-754 bit patterns, so equality
//! of two values is equality of the stored bits.
use vstd::prelude::*;

verus! {

/// A two-lane float vector; each lane is an IEEE-754 bit pattern.
#[derive(Debug, Clone, Copy, PartialEq, Eq, Hash, Structural)]
pub struct Vector2f {
    pub x: u32,
    pub y: u32,
}

/// A three-lane float vector; each lane is an IEEE-754 bit pattern.
#[derive(Debug, Clone, Copy, PartialEq, Eq, Hash, Structural)]
pub struct Vector3f {
    pub x: u32,
    pub y: u32,
    pub z: u32,
}

/// A four-lane float vector; each lane is an IEEE-754 bit pattern.
#[derive(Debug, Clone, Copy, PartialEq, Eq, Hash, Structural)]
pub struct Vector4f {
    pub x: u32,
    pub y: u32,
    pub z: u32,
    pub t: u32,
}

/// An RGBA color; each channel is an IEEE-754 bit pattern.
#[derive(Debug, Clone, Copy, PartialEq, Eq, Hash, Structural)]
pub struct Color {
    pub r: u32,
    pub g: u32,
    pub b: u32,
    pub a: u32,
}

/// A quaternion; each component is an IEEE-754 bit pattern.
#[derive(Debug, Clone, Copy, PartialEq, Eq, Hash, Structural)]
pub struct Quat {
    pub a: u32,
    pub b: u32,
    pub c: u32,
    pub d: u32,
}

/// One animation sub-curve: two 32-bit integers followed by thirty
/// float lanes held as bit patterns, 128 bytes in the binary format.
#[derive(Debug, Clone, Copy, PartialEq, Eq, Hash)]
pub struct Curve {
    pub a: u32,
    pub b: u32,
    pub floats: [u32; 30],
}

/// A fixed-capacity string. The capacity `N` counts the null
/// terminator of the binary format, so the text itself may hold at
/// most `N - 1` bytes in its UTF-8 encoding.
#[derive(Debug, Clone, PartialEq, Eq, Hash)]
pub struct FixedSafeString<const N: usize> {
    data: String,
}

impl<const N: usize> FixedSafeString<N> {
    /// The text this fixed string holds.
    pub closed spec fn spec_str(&self) -> Seq<char> {
        self.data@
    }

    /// A fixed string is well formed when its UTF-8 encoding leaves
    /// room for the null terminator of the binary format.
    pub closed spec fn wf(&self) -> bool {
        vstd::utf8::encode_utf8(self.data@).len() < N
    }

    /// An empty fixed string.
    pub fn new() -> (r: FixedSafeString<N>)
        requires
            N >= 1,
        ensures
            r.wf(),
            r.spec_str() === Seq::<char>::empty(),
    {
        FixedSafeString { data: String::new() }
    }

    /// Wrap owned text, refusing text that would not fit.
    pub fn from_string(data: String) -> (r: Option<FixedSafeString<N>>)
        ensures
            match r {
                Some(f) => f.wf() && f.spec_str() == data@,
                None => vstd::utf8::encode_utf8(data@).len() >= N,
            },
    {
        let len: usize = data.as_str().as_bytes().len();
        if len < N {
            Some(FixedSafeString { data })
        } else {
            None
        }
    }

    /// Read the text back.
    pub fn as_str(&self) -> (r: &str)
        ensures
            r@ == self.spec_str(),
    {
        self.data.as_str()
    }
}

} // verus!
