use vstd::prelude::*;

verus! {

/// A square: lower-left `x`, `y`, and side length.
pub struct Square(pub u64, pub u64, pub u64);

/// A cube: lower corner `x`, `y`, `z`, and side length.
pub struct Cube(pub u64, pub u64, pub u64, pub u64);

/// Relies on rand's `Uniform::new_inclusive(0, max)` sampled from
/// `thread_rng()`: the value lies in `[0, max]`; the constructor panics only
/// when its low bound exceeds its high one, which 0 never does.
#[verifier::external_body]
fn draw_up_to(max: u64) -> (r: u64)
    ensures
        r <= max,
{
    let mut rng = rand::thread_rng();
    rand::Rng::sample(&mut rng, rand::distributions::Uniform::new_inclusive(0u64, max))
}

/// `n` random squares, each with its corner within
/// `[0, maxX] x [0, maxY]` and its side within `[0, maxSide]`.
pub fn generateSquares(maxSide: u64, maxX: u64, maxY: u64, n: u64) -> (squares: Vec<Square>)
    ensures
        squares@.len() == n,
        forall|i: int|
            0 <= i < squares@.len() ==> #[trigger] squares@[i].0 <= maxX && squares@[i].1 <= maxY
                && squares@[i].2 <= maxSide,
{
    let mut squares: Vec<Square> = Vec::new();
    let mut i: u64 = 0;
    while i < n
        invariant
            i <= n,
            squares@.len() == i,
            forall|k: int|
                0 <= k < squares@.len() ==> #[trigger] squares@[k].0 <= maxX && squares@[k].1 <= maxY
                    && squares@[k].2 <= maxSide,
        decreases n - i,
    {
        let x = draw_up_to(maxX);
        let y = draw_up_to(maxY);
        let side = draw_up_to(maxSide);
        squares.push(Square(x, y, side));
        i = i + 1;
    }
    squares
}

/// `n` random cubes, each with its corner within
/// `[0, maxX] x [0, maxY] x [0, maxZ]` and its side within `[0, maxSide]`.
pub fn generateCubes(maxSide: u64, maxX: u64, maxY: u64, maxZ: u64, n: u64) -> (cubes: Vec<Cube>)
    ensures
        cubes@.len() == n,
        forall|i: int|
            0 <= i < cubes@.len() ==> #[trigger] cubes@[i].0 <= maxX && cubes@[i].1 <= maxY
                && cubes@[i].2 <= maxZ && cubes@[i].3 <= maxSide,
{
    let mut cubes: Vec<Cube> = Vec::new();
    let mut i: u64 = 0;
    while i < n
        invariant
            i <= n,
            cubes@.len() == i,
            forall|k: int|
                0 <= k < cubes@.len() ==> #[trigger] cubes@[k].0 <= maxX && cubes@[k].1 <= maxY
                    && cubes@[k].2 <= maxZ && cubes@[k].3 <= maxSide,
        decreases n - i,
    {
        let x = draw_up_to(maxX);
        let y = draw_up_to(maxY);
        let z = draw_up_to(maxZ);
        let side = draw_up_to(maxSide);
        cubes.push(Cube(x, y, z, side));
        i = i + 1;
    }
    cubes
}

} // verus!
