//! From frames to hash bits.
//!
//! The 16 frames of a window make a cube of centred pixels, `[frame, x, y]`, which is transformed
//! by a DCT along each of its three axes. The signs of the 10 by 10 by 10 coefficients of the
//! lowest frequencies are the bits of the hash.

use crate::visual::frame::{self, GrayFrame, Picture};
use crate::visual::hash::{self, HashBits};
use vstd::prelude::*;

verus! {

/// Values of the cube.
pub const CUBE_LEN: usize = 4096;

/// Where the cube holds the value of a frame at a position.
pub open spec fn cube_index(frame: int, x: int, y: int) -> int {
    frame * 256 + x * 16 + y
}

/// The cube of centred pixels: from -128 for black up to 127 for white.
pub open spec fn centred_cube(frames: Seq<Picture>) -> Seq<i16> {
    Seq::new(
        4096,
        |i: int| (frames[i / 256].at((i / 16) % 16, i % 16) as int - 128) as i16,
    )
}

/// Whether frames fill a cube: there are at least 16 of at least 16 by 16 pixels.
pub open spec fn fills_cube(frames: Seq<GrayFrame>) -> bool {
    &&& frames.len() >= 16
    &&& forall|i: int|
        0 <= i < 16 ==> (#[trigger] frames[i]).wf() && frames[i].width >= 16 && frames[i].height
            >= 16
}

/// Builds the cube of centred pixels of a window.
pub fn center_frames(frames: &[GrayFrame]) -> (cube: Vec<i16>)
    requires
        fills_cube(frames@),
    ensures
        cube@ == centred_cube(frame::pictures(frames@)),
{
    let mut cube: Vec<i16> = Vec::new();
    let mut i: usize = 0;
    while i < CUBE_LEN
        invariant
            i <= CUBE_LEN,
            fills_cube(frames@),
            cube@ == centred_cube(frame::pictures(frames@)).take(i as int),
        decreases CUBE_LEN - i,
    {
        let x: u32 = ((i / 16) % 16) as u32;
        let y: u32 = (i % 16) as u32;
        let pixel: u8 = frames[i / 256].get_pixel(x, y);
        cube.push(pixel as i16 - 128);
        assert(cube@ =~= centred_cube(frame::pictures(frames@)).take(i + 1));
        i = i + 1;
    }
    assert(cube@ =~= centred_cube(frame::pictures(frames@)));
    cube
}

/// A cube turned so that its first axis comes last: the value at `[a, b, c]` goes to `[b, c, a]`.
pub open spec fn turned<T>(cube: Seq<T>) -> Seq<T> {
    Seq::new(4096, |i: int| cube[cube_index(i % 16, i / 256, (i / 16) % 16)])
}

/// Turns a cube so that its first axis comes last, where the values along it are next to each
/// other. Transforming these, and doing so three times, transforms the cube along each axis once.
pub fn turn_cube<T: Copy>(cube: &[T]) -> (result: Vec<T>)
    requires
        cube@.len() == CUBE_LEN,
    ensures
        result@ == turned(cube@),
{
    let mut result: Vec<T> = Vec::new();
    let mut i: usize = 0;
    while i < CUBE_LEN
        invariant
            i <= CUBE_LEN,
            cube@.len() == CUBE_LEN,
            result@ == turned(cube@).take(i as int),
        decreases CUBE_LEN - i,
    {
        result.push(cube[(i % 16) * 256 + (i / 256) * 16 + (i / 16) % 16]);
        assert(result@ =~= turned(cube@).take(i + 1));
        i = i + 1;
    }
    assert(result@ =~= turned(cube@));
    result
}

/// The bits of a hash, from which coefficients of the cube are positive. The bits after the first
/// thousand are zero.
pub open spec fn hash_bits(positive: Seq<bool>) -> Seq<bool> {
    Seq::new(
        1024,
        |b: int|
            b < 1000 && positive[cube_index(b / 100, (b / 10) % 10, b % 10)],
    )
}

/// Builds a hash from which coefficients of the transformed cube are positive.
pub fn binarize(positive: &[bool]) -> (bits: HashBits)
    requires
        positive@.len() == CUBE_LEN,
    ensures
        hash::hash_contents(bits) == hash_bits(positive@),
{
    let mut bits = HashBits::zero();
    let mut b: usize = 0;
    while b < 1000
        invariant
            b <= 1000,
            positive@.len() == 4096,
            hash::hash_contents(bits) == Seq::new(
                1024,
                |k: int| k < b && hash_bits(positive@)[k],
            ),
        decreases 1000 - b,
    {
        let fi: usize = b / 100;
        let xi: usize = (b / 10) % 10;
        let yi: usize = b % 10;
        let ghost before = hash::hash_contents(bits);
        bits.set(b, positive[fi * 256 + xi * 16 + yi]);
        assert(hash::hash_contents(bits) =~= Seq::new(
            1024,
            |k: int| k < b + 1 && hash_bits(positive@)[k],
        ));
        b = b + 1;
    }
    assert(hash::hash_contents(bits) =~= hash_bits(positive@));
    bits
}

/// Every coefficient of the 10 by 10 by 10 corner decides exactly one bit, and no other one
/// matters.
pub proof fn law_bits_are_the_corner(positive: Seq<bool>, fi: int, xi: int, yi: int)
    requires
        0 <= fi < 10,
        0 <= xi < 10,
        0 <= yi < 10,
    ensures
        hash_bits(positive)[fi * 100 + xi * 10 + yi] == positive[cube_index(fi, xi, yi)],
        forall|b: int| 1000 <= b < 1024 ==> !#[trigger] hash_bits(positive)[b],
{
}

/// Hashes are at most 1000 bits apart, because only the bits of the corner are used.
pub proof fn law_hashes_are_at_most_1000_apart(a: Seq<bool>, b: Seq<bool>)
    ensures
        hash::differing(hash_bits(a), hash_bits(b)) <= 1000,
{
    hash::law_distance_of_used_bits(hash_bits(a), hash_bits(b));
}

/// Whether two windows show the same in the 16 by 16 corner of each of their first 16 frames.
pub open spec fn same_corner(a: Seq<Picture>, b: Seq<Picture>) -> bool {
    forall|f: int, x: int, y: int|
        0 <= f < 16 && 0 <= x < 16 && 0 <= y < 16 ==> #[trigger] a[f].at(x, y) == b[f].at(x, y)
}

/// The cube holds the 16 by 16 corner of the first 16 frames and nothing else: two windows have
/// the same cube exactly where they show the same there.
pub proof fn law_cube_is_the_corner(a: Seq<Picture>, b: Seq<Picture>)
    ensures
        centred_cube(a) == centred_cube(b) <==> same_corner(a, b),
{
    if same_corner(a, b) {
        assert forall|i: int| 0 <= i < 4096 implies centred_cube(a)[i] == centred_cube(b)[i] by {
            assert(a[i / 256].at((i / 16) % 16, i % 16) == b[i / 256].at((i / 16) % 16, i % 16));
        }
        assert(centred_cube(a) =~= centred_cube(b));
    }
    if centred_cube(a) == centred_cube(b) {
        assert forall|f: int, x: int, y: int| 0 <= f < 16 && 0 <= x < 16 && 0 <= y < 16 implies
            #[trigger] a[f].at(x, y) == b[f].at(x, y) by {
            let i = cube_index(f, x, y);
            assert(i / 256 == f && (i / 16) % 16 == x && i % 16 == y);
            assert(centred_cube(a)[i] == a[f].at(x, y) as int - 128);
            assert(centred_cube(b)[i] == b[f].at(x, y) as int - 128);
        }
    }
}

/// Windows that show the same in the corner of their first 16 frames have hashes with the same
/// bits, zero bits apart, whatever else they show and whichever function of the cube says which
/// coefficients are positive.
pub proof fn law_same_corner_has_the_same_hash(
    a: Seq<Picture>,
    b: Seq<Picture>,
    positive: spec_fn(Seq<i16>) -> Seq<bool>,
)
    requires
        same_corner(a, b),
    ensures
        hash_bits(positive(centred_cube(a))) == hash_bits(positive(centred_cube(b))),
        hash::differing(
            hash_bits(positive(centred_cube(a))),
            hash_bits(positive(centred_cube(b))),
        ) == 0,
        forall|i: int| 1000 <= i < 1024 ==> !#[trigger] hash_bits(positive(centred_cube(a)))[i],
{
    law_cube_is_the_corner(a, b);
    hash::law_distance_zero(
        hash_bits(positive(centred_cube(a))),
        hash_bits(positive(centred_cube(b))),
    );
}

/// Each axis comes last once, and after the third turn every value is back in its place.
pub proof fn law_three_turns_restore_the_cube<T>(cube: Seq<T>, a: int, b: int, c: int)
    requires
        cube.len() == 4096,
        0 <= a < 16,
        0 <= b < 16,
        0 <= c < 16,
    ensures
        turned(cube)[cube_index(b, c, a)] == cube[cube_index(a, b, c)],
        turned(turned(cube))[cube_index(c, a, b)] == cube[cube_index(a, b, c)],
        turned(turned(turned(cube))) == cube,
{
    lemma_turned_at(cube, a, b, c);
    lemma_turned_at(turned(cube), b, c, a);
    let thrice = turned(turned(turned(cube)));
    assert forall|i: int| 0 <= i < 4096 implies thrice[i] == cube[i] by {
        let x = i / 256;
        let y = (i / 16) % 16;
        let z = i % 16;
        assert(i == cube_index(x, y, z));
        lemma_turned_at(cube, x, y, z);
        lemma_turned_at(turned(cube), y, z, x);
        lemma_turned_at(turned(turned(cube)), z, x, y);
    }
    assert(thrice =~= cube);
}

proof fn lemma_turned_at<T>(cube: Seq<T>, a: int, b: int, c: int)
    requires
        0 <= a < 16,
        0 <= b < 16,
        0 <= c < 16,
    ensures
        turned(cube)[cube_index(b, c, a)] == cube[cube_index(a, b, c)],
{
}

/// The cube has the pixel of column `x` and row `y` of frame `f` at place `256 f + 16 x + y`, from
/// -128 for black up to 127 for white.
pub proof fn law_cube_holds_the_pixels(frames: Seq<Picture>, f: int, x: int, y: int)
    requires
        0 <= f < 16,
        0 <= x < 16,
        0 <= y < 16,
    ensures
        centred_cube(frames).len() == 4096,
        centred_cube(frames)[256 * f + 16 * x + y] == frames[f].at(x, y) - 128,
{
    let i = 256 * f + 16 * x + y;
    assert(i / 256 == f && (i / 16) % 16 == x && i % 16 == y);
}

/// Bit `100 f + 10 x + y` of a hash says whether the coefficient at `256 f + 16 x + y` is positive,
/// for each of the ten lowest frequencies along every axis; the other bits are zero.
pub proof fn law_hash_has_the_lowest_frequencies(positive: Seq<bool>, f: int, x: int, y: int)
    requires
        0 <= f < 10,
        0 <= x < 10,
        0 <= y < 10,
    ensures
        hash_bits(positive).len() == 1024,
        hash_bits(positive)[100 * f + 10 * x + y] == positive[256 * f + 16 * x + y],
        forall|b: int| 1000 <= b < 1024 ==> !#[trigger] hash_bits(positive)[b],
{
    let b = 100 * f + 10 * x + y;
    assert(b / 100 == f && (b / 10) % 10 == x && b % 10 == y);
}

} // verus!
