//! Integer hashing that seeds every procedural choice of the world
//! (terrain noise, decoration shapes, walk targets): same seed and
//! coordinates, same value, on every machine.
use vstd::prelude::*;

verus! {

pub open spec fn melange_spec(value: u64) -> u64 {
    let v1 = value.wrapping_add(0x9E37_79B9_7F4A_7C15u64);
    let v2 = (v1 ^ (v1 >> 30u64)).wrapping_mul(0xBF58_476D_1CE4_E5B9u64);
    let v3 = (v2 ^ (v2 >> 27u64)).wrapping_mul(0x94D0_49BB_1331_11EBu64);
    v3 ^ (v3 >> 31u64)
}

/// Rotation of a 64-bit word by 29 bits towards the high end.
pub open spec fn rotation_29(b: u64) -> u64 {
    (b << 29u64) | (b >> 35u64)
}

/// A signed coordinate sign-extended to 64 bits, read as unsigned.
pub open spec fn etendre(v: i32) -> u64 {
    v as i64 as u64
}

pub open spec fn hash_coords_spec(seed: u64, x: i32, y: i32) -> u64 {
    let a = melange_spec(seed ^ etendre(x).wrapping_mul(0xD6E8_FEB8_6659_FD93u64));
    let b = melange_spec(etendre(y) ^ 0xA5A5_A5A5_5A5A_5A5Au64);
    melange_spec(a ^ rotation_29(b))
}

/// The SplitMix64 finaliser: add the golden-ratio increment, then mix.
pub fn splitmix64(value: u64) -> (r: u64)
    ensures
        r == melange_spec(value),
{
    let mut v = value.wrapping_add(0x9E37_79B9_7F4A_7C15);
    v = (v ^ (v >> 30)).wrapping_mul(0xBF58_476D_1CE4_E5B9);
    v = (v ^ (v >> 27)).wrapping_mul(0x94D0_49BB_1331_11EB);
    v ^ (v >> 31)
}

/// Hash of a seed and a pair of grid coordinates.
pub fn hash_coords(seed: u64, x: i32, y: i32) -> (r: u64)
    ensures
        r == hash_coords_spec(seed, x, y),
{
    let ex: u64 = x as i64 as u64;
    let ey: u64 = y as i64 as u64;
    let a = splitmix64(seed ^ ex.wrapping_mul(0xD6E8_FEB8_6659_FD93));
    let b = splitmix64(ey ^ 0xA5A5_A5A5_5A5A_5A5A);
    let rot: u64 = (b << 29u64) | (b >> 35u64);
    splitmix64(a ^ rot)
}

/// Rotation of a 64-bit word by `k` bits towards the high end.
pub open spec fn rotation(b: u64, k: u64) -> u64 {
    (b << k) | (b >> (64 - k) as u64)
}

pub open spec fn graine_forme_spec(seed: u64, x: i32, y: i32, index: u64) -> u64 {
    melange_spec(
        seed ^ rotation(etendre(x), 17) ^ rotation(etendre(y), 41) ^ index.wrapping_mul(
            0x9E37_79B9_7F4A_7C15u64,
        ),
    )
}

/// The seed of the `index`-th decoration shape at a world cell.
pub fn compose_shape_seed(seed: u64, world_x: i32, world_y: i32, index: u64) -> (r: u64)
    ensures
        r == graine_forme_spec(seed, world_x, world_y, index),
{
    let ex: u64 = world_x as i64 as u64;
    let ey: u64 = world_y as i64 as u64;
    let rx: u64 = (ex << 17u64) | (ex >> 47u64);
    let ry: u64 = (ey << 41u64) | (ey >> 23u64);
    splitmix64(seed ^ rx ^ ry ^ index.wrapping_mul(0x9E37_79B9_7F4A_7C15))
}

} // verus!
