//! The pixel buffer that a render hands to an image encoder.

use vstd::prelude::*;

verus! {

/// The bytes of a row of pixels laid end to end: red, green and blue of the
/// first pixel, then of the second, and so on.
pub open spec fn laid_out(pixels: Seq<[u8; 3]>) -> Seq<u8> {
    Seq::new(3 * pixels.len(), |n: int| pixels[n / 3]@[n % 3])
}

/// Lays the pixels of a picture end to end, three bytes to the pixel, in the
/// order in which they come.
pub fn flatten(pixels: &Vec<[u8; 3]>) -> (raw: Vec<u8>)
    ensures
        raw@ == laid_out(pixels@),
{
    let mut raw: Vec<u8> = Vec::new();
    let mut n: usize = 0;
    while n < pixels.len()
        invariant
            n <= pixels.len(),
            raw@ == laid_out(pixels@.take(n as int)),
        decreases pixels.len() - n,
    {
        let p = pixels[n];
        let ghost before = raw@;
        raw.push(p[0]);
        raw.push(p[1]);
        raw.push(p[2]);
        n = n + 1;
        proof {
            let now = pixels@.take(n as int);
            assert(raw@.len() == 3 * now.len());
            assert forall|m: int| 0 <= m < raw@.len() implies raw@[m] == now[m / 3]@[m % 3] by {
                if m < 3 * (n - 1) {
                    assert(raw@[m] == before[m]);
                    assert(pixels@.take(n - 1)[m / 3] == now[m / 3]);
                } else {
                    assert(m / 3 == n - 1);
                    assert(now[m / 3] == p);
                }
            }
            assert(raw@ =~= laid_out(now));
        }
    }
    assert(pixels@.take(n as int) =~= pixels@);
    raw
}

} // verus!
