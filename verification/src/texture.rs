use vstd::prelude::*;
use crate::vec3::Vec3;
use crate::rat::{Rat, spec_fdiv, fdiv};
use crate::hittable::PointR;

verus! {

/// One unit of color: colors are vectors with components on the fixed
/// scale `0 ..= COLOR_SCALE`, where `COLOR_SCALE` stands for 1.0.
pub const COLOR_SCALE: i64 = 65536;

/// A color component in range.
pub open spec fn color_wf(c: Vec3) -> bool {
    &&& 0 <= c.x <= COLOR_SCALE
    &&& 0 <= c.y <= COLOR_SCALE
    &&& 0 <= c.z <= COLOR_SCALE
}

/// The same albedo everywhere.
#[derive(Clone, Copy, Debug)]
pub struct ConstantTexture {
    pub color: Vec3,
}

impl ConstantTexture {
    pub fn new(color: Vec3) -> (t: ConstantTexture)
        ensures
            t.color == color,
    {
        ConstantTexture { color }
    }
}

/// Two albedos alternating over the unit cells of the scene grid: a cell's
/// parity is the parity of the sum of the floors of the hit point's
/// coordinates.
#[derive(Clone, Copy, Debug)]
pub struct CheckerTexture {
    pub odd: Vec3,
    pub even: Vec3,
}

impl CheckerTexture {
    pub fn new(odd: Vec3, even: Vec3) -> (t: CheckerTexture)
        ensures
            t.odd == odd,
            t.even == even,
    {
        CheckerTexture { odd, even }
    }
}

/// The closed set of textures, dispatched by exhaustive match.
#[derive(Clone, Copy, Debug)]
pub enum Texture {
    Constant(ConstantTexture),
    Checker(CheckerTexture),
}

/// Whether the grid cell holding the exact point `p` is an even cell.
pub open spec fn spec_cell_even(p: PointR) -> bool {
    let s = spec_fdiv(p.xn as int, p.den as int) + spec_fdiv(p.yn as int, p.den as int)
        + spec_fdiv(p.zn as int, p.den as int);
    (if s >= 0 {
        s
    } else {
        -s
    }) % 2 == 0
}

impl Texture {
    pub open spec fn wf(self) -> bool {
        match self {
            Texture::Constant(t) => color_wf(t.color),
            Texture::Checker(t) => color_wf(t.odd) && color_wf(t.even),
        }
    }

    /// The albedo this texture yields at a hit.
    pub open spec fn spec_value(self, u: Rat, v: Rat, p: PointR) -> Vec3 {
        match self {
            Texture::Constant(t) => t.color,
            Texture::Checker(t) => if spec_cell_even(p) {
                t.even
            } else {
                t.odd
            },
        }
    }

    pub fn value(&self, u: Rat, v: Rat, p: &PointR) -> (c: Vec3)
        requires
            self.wf(),
            p.wf(),
            -0x400_0000_0000_0000 <= p.xn <= 0x400_0000_0000_0000,
            -0x400_0000_0000_0000 <= p.yn <= 0x400_0000_0000_0000,
            -0x400_0000_0000_0000 <= p.zn <= 0x400_0000_0000_0000,
        ensures
            c == self.spec_value(u, v, *p),
            color_wf(c),
    {
        match self {
            Texture::Constant(t) => t.color,
            Texture::Checker(t) => {
                let fx = fdiv(p.xn, p.den);
                let fy = fdiv(p.yn, p.den);
                let fz = fdiv(p.zn, p.den);
                let s = fx + fy + fz;
                let m = if s >= 0 {
                    s
                } else {
                    -s
                };
                if (m as u64) % 2 == 0 {
                    t.even
                } else {
                    t.odd
                }
            },
        }
    }
}

} // verus!
