use vstd::prelude::*;

verus! {

/// Number of input levels per channel in a gamma ramp.
pub const LEVELS: usize = 256;

/// A gamma ramp: 256 entries per channel, red then green then blue.
pub type Ramp = [u16; 768];

/// The value a linear (identity) ramp holds at input level `i`:
/// the level stretched from 0..=255 onto 0..=65535.
pub open spec fn linear_level(i: int) -> int {
    i * 257
}

/// Whether `ramp` is the identity ramp on all three channels.
pub open spec fn is_identity(ramp: Seq<u16>) -> bool {
    &&& ramp.len() == 768
    &&& forall|c: int, i: int|
        0 <= c < 3 && 0 <= i < 256 ==> #[trigger] ramp[c * 256 + i] == linear_level(i)
}

/// The identity ramp: every channel maps level `i` to `i * 257`.
pub fn identity() -> (ramp: Ramp)
    ensures
        is_identity(ramp@),
{
    let mut ramp: Ramp = [0u16; 768];
    let mut i: usize = 0;
    while i < LEVELS
        invariant
            0 <= i <= 256,
            ramp@.len() == 768,
            forall|c: int, j: int|
                0 <= c < 3 && 0 <= j < i ==> #[trigger] ramp@[c * 256 + j] == linear_level(j),
        decreases 256 - i,
    {
        let v: u16 = (i * 257) as u16;
        ramp[i] = v;
        ramp[LEVELS + i] = v;
        ramp[LEVELS * 2 + i] = v;
        proof {
            assert forall|c: int, j: int|
                0 <= c < 3 && 0 <= j < i + 1 implies #[trigger] ramp@[c * 256 + j] == linear_level(j) by {
                if j < i {
                    assert(c * 256 + j != i && c * 256 + j != 256 + i && c * 256 + j != 512 + i) by (nonlinear_arith)
                        requires 0 <= c < 3, 0 <= j < i, i < 256;
                } else {
                    assert(c == 0 || c == 1 || c == 2);
                }
            }
        }
        i = i + 1;
    }
    ramp
}

} // verus!
