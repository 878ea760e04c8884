//! Gradient noise after Ken Perlin's improved-noise reference design,
//! in fixed-point arithmetic: coordinates and results are measured in
//! thousandths. The permutation table behind the gradients is dealt
//! once per use from a seeded random number generator.
use crate::position::floor_div_1000;
use crate::position::spec_trunc_div;
use crate::position::trunc_div;
use rand::SeedableRng;
use rand::rngs::StdRng;
use rand::seq::SliceRandom;
use vstd::prelude::*;

verus! {

/// What shuffling `values` with a generator seeded by `seed` returns.
pub uninterp spec fn shuffle_of(values: Seq<u8>, seed: Seq<u8>) -> Seq<u8>;

/// Relies on rand's `StdRng::from_seed` and `SliceRandom::shuffle`:
/// the shuffled order is a deterministic function of the seed and the
/// input alone, and shuffling permutes the slice in place, keeping
/// its length.
#[verifier::external_body]
fn shuffled_bytes(values: Vec<u8>, seed: &Vec<u8>) -> (r: Vec<u8>)
    requires
        seed@.len() == 32,
    ensures
        r@ == shuffle_of(values@, seed@),
        r@.len() == values@.len(),
{
    let seed_array: [u8; 32] = seed.as_slice().try_into().unwrap();
    let mut rng = StdRng::from_seed(seed_array);
    let mut values = values;
    values.shuffle(&mut rng);
    values
}

/// The bytes 0 through 255 in order: the permutation table before it
/// is shuffled.
pub open spec fn identity_bytes() -> Seq<u8> {
    Seq::new(256, |i: int| i as u8)
}

/// The quintic smoothing curve `t^3 (6 t^2 - 15 t + 10)`, in
/// thousandths.
#[verifier::opaque]
pub open spec fn spec_fade(t: int) -> int {
    (t * t * t * (t * (6 * t - 15000) + 10_000_000)) / 1_000_000_000_000
}

/// Linear interpolation `a + t (b - a)`, `t` in thousandths.
#[verifier::opaque]
pub open spec fn spec_lerp(t: int, a: int, b: int) -> int {
    a + spec_trunc_div(t * (b - a), 1000)
}

pub open spec fn spec_abs(v: int) -> int {
    if v >= 0 {
        v
    } else {
        -v
    }
}

/// The low four bits of the hash pick one of twelve gradient
/// directions.
#[verifier::opaque]
pub open spec fn spec_grad(hash: u8, x: int, y: int, z: int) -> int {
    let h = hash & 15;
    let u = if h < 8 {
        x
    } else {
        y
    };
    let v = if h < 4 {
        y
    } else if h == 12 || h == 14 {
        x
    } else {
        z
    };
    (if h & 1 == 0 {
        u
    } else {
        -u
    }) + (if h & 2 == 0 {
        v
    } else {
        -v
    })
}

/// The low two bits of the hash pick one of four diagonal gradients.
#[verifier::opaque]
pub open spec fn spec_grad_2(hash: u8, x: int, y: int) -> int {
    let h = hash & 3;
    if h == 0 {
        x + y
    } else if h == 1 {
        -x + y
    } else if h == 2 {
        x - y
    } else {
        -x - y
    }
}

/// A fixed-point coordinate's lattice cell, wrapped into a byte the
/// way Perlin's published code truncates its floor to one.
#[verifier::opaque]
pub open spec fn spec_wrap_byte(v: int) -> u8 {
    ((v + 1_000_000_000_000) % 256) as u8
}

pub open spec fn spec_wadd(a: u8, b: u8) -> u8 {
    vstd::wrapping::u8_specs::wrapping_add(a, b)
}

/// Three-dimensional improved noise over a 256-entry permutation
/// table, coordinates and result in thousandths.
pub open spec fn spec_noise(p: Seq<u8>, x: int, y: int, z: int) -> int {
    let xf = x / 1000;
    let yf = y / 1000;
    let zf = z / 1000;
    let fx = x - 1000 * xf;
    let fy = y - 1000 * yf;
    let fz = z - 1000 * zf;
    let bx = spec_wrap_byte(xf);
    let by = spec_wrap_byte(yf);
    let bz = spec_wrap_byte(zf);
    let u = spec_fade(fx);
    let v = spec_fade(fy);
    let w = spec_fade(fz);
    let a = spec_wadd(p[bx as int], by);
    let aa = spec_wadd(p[a as int], bz);
    let ab = spec_wadd(p[spec_wadd(a, 1) as int], bz);
    let b = spec_wadd(p[spec_wadd(bx, 1) as int], by);
    let ba = spec_wadd(p[b as int], bz);
    let bb = spec_wadd(p[spec_wadd(b, 1) as int], bz);
    spec_lerp(
        w,
        spec_lerp(
            v,
            spec_lerp(
                u,
                spec_grad(p[aa as int], fx, fy, fz),
                spec_grad(p[ba as int], fx - 1000, fy, fz),
            ),
            spec_lerp(
                u,
                spec_grad(p[ab as int], fx, fy - 1000, fz),
                spec_grad(p[bb as int], fx - 1000, fy - 1000, fz),
            ),
        ),
        spec_lerp(
            v,
            spec_lerp(
                u,
                spec_grad(p[spec_wadd(aa, 1) as int], fx, fy, fz - 1000),
                spec_grad(p[spec_wadd(ba, 1) as int], fx - 1000, fy, fz - 1000),
            ),
            spec_lerp(
                u,
                spec_grad(p[spec_wadd(ab, 1) as int], fx, fy - 1000, fz - 1000),
                spec_grad(p[spec_wadd(bb, 1) as int], fx - 1000, fy - 1000, fz - 1000),
            ),
        ),
    )
}

/// Two-dimensional improved noise.
pub open spec fn spec_noise_2d(p: Seq<u8>, x: int, y: int) -> int {
    let xf = x / 1000;
    let yf = y / 1000;
    let fx = x - 1000 * xf;
    let fy = y - 1000 * yf;
    let bx = spec_wrap_byte(xf);
    let by = spec_wrap_byte(yf);
    let u = spec_fade(fx);
    let v = spec_fade(fy);
    let a = spec_wadd(p[bx as int], by);
    let b = spec_wadd(p[spec_wadd(bx, 1) as int], by);
    spec_lerp(
        v,
        spec_lerp(
            u,
            spec_grad_2(p[a as int], fx, fy),
            spec_grad_2(p[b as int], fx - 1000, fy),
        ),
        spec_lerp(
            u,
            spec_grad_2(p[spec_wadd(a, 1) as int], fx, fy - 1000),
            spec_grad_2(p[spec_wadd(b, 1) as int], fx - 1000, fy - 1000),
        ),
    )
}

fn fade(t: i64) -> (r: i64)
    requires
        0 <= t <= 1000,
    ensures
        r == spec_fade(t as int),
        0 <= r <= 25000,
{
    proof {
        reveal(spec_fade);
        assert(0 <= t * t <= 1_000_000 && 0 <= t * t * t <= 1_000_000_000 && -15_000_000 <= t * (6 * t - 15000) <= 0 && 0 <= t
            * t * t * (t * (6 * t - 15000) + 10_000_000) <= 25_000_000_000_000_000)
            by (nonlinear_arith)
            requires
                0 <= t <= 1000,
        ;
    }
    let cube = t * t * t;
    let inner = t * (6 * t - 15000) + 10_000_000;
    let num = cube * inner;
    ((num as u64) / 1_000_000_000_000) as i64
}

fn lerp(t: i64, a: i64, b: i64) -> (r: i64)
    requires
        0 <= t <= 25000,
        -1_000_000_000 <= a <= 1_000_000_000,
        -1_000_000_000 <= b <= 1_000_000_000,
    ensures
        r == spec_lerp(t as int, a as int, b as int),
        spec_abs(r as int) <= spec_abs(a as int) + 25 * (spec_abs(a as int) + spec_abs(b as int))
            + 1,
{
    proof {
        reveal(spec_lerp);
        assert(-50_000_000_000_000 <= t * (b - a) <= 50_000_000_000_000 && spec_abs(
            spec_trunc_div(t * (b - a), 1000),
        ) <= 25 * (spec_abs(a as int) + spec_abs(b as int)) + 1) by (nonlinear_arith)
            requires
                0 <= t <= 25000,
                -1_000_000_000 <= a <= 1_000_000_000,
                -1_000_000_000 <= b <= 1_000_000_000,
        ;
    }
    a + trunc_div(t * (b - a), 1000)
}

fn grad(hash: u8, x: i64, y: i64, z: i64) -> (r: i64)
    requires
        -1000 <= x <= 1000,
        -1000 <= y <= 1000,
        -1000 <= z <= 1000,
    ensures
        r == spec_grad(hash, x as int, y as int, z as int),
        -2000 <= r <= 2000,
{
    proof {
        reveal(spec_grad);
    }
    let h = hash & 15;
    let u = if h < 8 {
        x
    } else {
        y
    };
    let v = if h < 4 {
        y
    } else if h == 12 || h == 14 {
        x
    } else {
        z
    };
    (if h & 1 == 0 {
        u
    } else {
        -u
    }) + (if h & 2 == 0 {
        v
    } else {
        -v
    })
}

fn grad_2(hash: u8, x: i64, y: i64) -> (r: i64)
    requires
        -1000 <= x <= 1000,
        -1000 <= y <= 1000,
    ensures
        r == spec_grad_2(hash, x as int, y as int),
        -2000 <= r <= 2000,
{
    proof {
        reveal(spec_grad_2);
    }
    let h = hash & 3;
    if h == 0 {
        x + y
    } else if h == 1 {
        -x + y
    } else if h == 2 {
        x - y
    } else {
        -x - y
    }
}

fn wrap_byte(v: i64) -> (r: u8)
    requires
        -1_000_000_000_000 <= v <= 1_000_000_000_000,
    ensures
        r == spec_wrap_byte(v as int),
{
    proof {
        reveal(spec_wrap_byte);
    }
    (((v + 1_000_000_000_000) as u64) % 256) as u8
}

/// A 256-entry gradient permutation table.
pub struct ImprovedNoise {
    pub permutation: Vec<u8>,
}

impl ImprovedNoise {
    pub open spec fn wf(self) -> bool {
        self.permutation@.len() == 256
    }

    /// Deals the permutation table from a 32-byte seed.
    pub fn new(seed: &Vec<u8>) -> (r: ImprovedNoise)
        requires
            seed@.len() == 32,
        ensures
            r.wf(),
            r.permutation@ == shuffle_of(identity_bytes(), seed@),
    {
        let mut values: Vec<u8> = Vec::new();
        let mut i: usize = 0;
        while i < 256
            invariant
                i <= 256,
                values@.len() == i,
                forall|k: int| 0 <= k < i ==> values@[k] == k as u8,
            decreases 256 - i,
        {
            values.push(i as u8);
            i = i + 1;
        }
        proof {
            assert(values@ =~= identity_bytes());
        }
        ImprovedNoise { permutation: shuffled_bytes(values, seed) }
    }

    fn p(&self, i: u8) -> (r: u8)
        requires
            self.wf(),
        ensures
            r == self.permutation@[i as int],
    {
        self.permutation[i as usize]
    }

    /// Three-dimensional noise at a fixed-point coordinate.
    #[verifier::rlimit(100)]
    pub fn noise(&self, x: i64, y: i64, z: i64) -> (r: i64)
        requires
            self.wf(),
            -900_000_000_000 <= x <= 900_000_000_000,
            -900_000_000_000 <= y <= 900_000_000_000,
            -900_000_000_000 <= z <= 900_000_000_000,
        ensures
            r == spec_noise(self.permutation@, x as int, y as int, z as int),
            -600_000_000 <= r <= 600_000_000,
    {
        let xf = floor_div_1000(x);
        let yf = floor_div_1000(y);
        let zf = floor_div_1000(z);
        let fx = x - 1000 * xf;
        let fy = y - 1000 * yf;
        let fz = z - 1000 * zf;
        proof {
            lemma_frac_range(x as int, xf as int);
            lemma_frac_range(y as int, yf as int);
            lemma_frac_range(z as int, zf as int);
        }
        let bx = wrap_byte(xf);
        let by = wrap_byte(yf);
        let bz = wrap_byte(zf);
        let u = fade(fx);
        let v = fade(fy);
        let w = fade(fz);
        let a = self.p(bx).wrapping_add(by);
        let aa = self.p(a).wrapping_add(bz);
        let ab = self.p(a.wrapping_add(1)).wrapping_add(bz);
        let b = self.p(bx.wrapping_add(1)).wrapping_add(by);
        let ba = self.p(b).wrapping_add(bz);
        let bb = self.p(b.wrapping_add(1)).wrapping_add(bz);
        let g000 = grad(self.p(aa), fx, fy, fz);
        let g100 = grad(self.p(ba), fx - 1000, fy, fz);
        let g010 = grad(self.p(ab), fx, fy - 1000, fz);
        let g110 = grad(self.p(bb), fx - 1000, fy - 1000, fz);
        let g001 = grad(self.p(aa.wrapping_add(1)), fx, fy, fz - 1000);
        let g101 = grad(self.p(ba.wrapping_add(1)), fx - 1000, fy, fz - 1000);
        let g011 = grad(self.p(ab.wrapping_add(1)), fx, fy - 1000, fz - 1000);
        let g111 = grad(self.p(bb.wrapping_add(1)), fx - 1000, fy - 1000, fz - 1000);
        let l00 = lerp(u, g000, g100);
        let l10 = lerp(u, g010, g110);
        let l01 = lerp(u, g001, g101);
        let l11 = lerp(u, g011, g111);
        let l0 = lerp(v, l00, l10);
        let l1 = lerp(v, l01, l11);
        lerp(w, l0, l1)
    }

    /// Two-dimensional noise at a fixed-point coordinate.
    #[verifier::rlimit(100)]
    pub fn noise_2d(&self, x: i64, y: i64) -> (r: i64)
        requires
            self.wf(),
            -900_000_000_000 <= x <= 900_000_000_000,
            -900_000_000_000 <= y <= 900_000_000_000,
        ensures
            r == spec_noise_2d(self.permutation@, x as int, y as int),
            -12_000_000 <= r <= 12_000_000,
    {
        let xf = floor_div_1000(x);
        let yf = floor_div_1000(y);
        let fx = x - 1000 * xf;
        let fy = y - 1000 * yf;
        proof {
            lemma_frac_range(x as int, xf as int);
            lemma_frac_range(y as int, yf as int);
        }
        let bx = wrap_byte(xf);
        let by = wrap_byte(yf);
        let u = fade(fx);
        let v = fade(fy);
        let a = self.p(bx).wrapping_add(by);
        let b = self.p(bx.wrapping_add(1)).wrapping_add(by);
        let g00 = grad_2(self.p(a), fx, fy);
        let g10 = grad_2(self.p(b), fx - 1000, fy);
        let g01 = grad_2(self.p(a.wrapping_add(1)), fx, fy - 1000);
        let g11 = grad_2(self.p(b.wrapping_add(1)), fx - 1000, fy - 1000);
        let l0 = lerp(u, g00, g10);
        let l1 = lerp(u, g01, g11);
        lerp(v, l0, l1)
    }
}

/// The fractional part left by a flooring division by 1000.
proof fn lemma_frac_range(x: int, xf: int)
    requires
        xf == x / 1000,
    ensures
        0 <= x - 1000 * xf < 1000,
{
    assert(0 <= x - 1000 * (x / 1000) < 1000) by (nonlinear_arith);
}

} // verus!
