//! The post-processing table: 256 grayscale outputs, one per input
//! intensity, applied to every fourth byte of the incoming pixels. The
//! contrast curve itself is built outside the library (it needs floating
//! point); the identity-with-cutoff table and the application are here.
use crate::error::Error;
use vstd::prelude::*;

verus! {

/// The 256-entry grayscale lookup table.
#[derive(Debug)]
pub struct PostProcBin {
    pub data: Vec<u8>,
}

/// Entry by entry, outputs never sink as inputs grow.
pub open spec fn table_monotonic(t: Seq<u8>) -> bool {
    forall|i: int, j: int| 0 <= i <= j < t.len() ==> t[i] <= t[j]
}

impl PostProcBin {
    pub open spec fn wf(&self) -> bool {
        self.data@.len() == 256
    }

    /// Wrap an externally built table; exactly 256 entries are accepted.
    pub fn from_table(data: Vec<u8>) -> (r: Result<PostProcBin, Error>)
        ensures
            match r {
                Ok(bin) => data@.len() == 256 && bin.data@ == data@ && bin.wf(),
                Err(e) => data@.len() != 256 && e is Unexpected,
            },
    {
        if data.len() != 256 {
            return Err(Error::Unexpected("post-processing table length"));
        }
        Ok(PostProcBin { data })
    }

    /// The table used when the contrast exponent is one: identity up to the
    /// white cutoff, white above it.
    pub fn identity_with_cutoff(white_cutoff: u8) -> (r: PostProcBin)
        ensures
            r.wf(),
            forall|i: int|
                0 <= i < 256 ==> r.data@[i] == (if i > white_cutoff {
                    255u8
                } else {
                    i as u8
                }),
    {
        let mut data: Vec<u8> = Vec::new();
        let mut i: usize = 0;
        while i < 256
            invariant
                i <= 256,
                data@.len() == i,
                forall|j: int|
                    0 <= j < i ==> data@[j] == (if j > white_cutoff {
                        255u8
                    } else {
                        j as u8
                    }),
            decreases 256 - i,
        {
            if i > white_cutoff as usize {
                data.push(255);
            } else {
                data.push(i as u8);
            }
            i += 1;
        }
        PostProcBin { data }
    }

    /// Map every fourth byte of the source pixels through the table: the
    /// grayscale plane of 32-bit pixels.
    pub fn apply(&self, pixels: &Vec<u8>) -> (out: Vec<u8>)
        requires
            self.wf(),
        ensures
            out@.len() == (pixels@.len() + 3) / 4,
            forall|k: int|
                0 <= k < out@.len() ==> out@[k] == self.data@[pixels@[4 * k] as int],
    {
        let n = pixels.len();
        let count = n / 4 + if n % 4 == 0 {
            0
        } else {
            1
        };
        proof {
            assert(count == (n + 3) / 4);
        }
        let mut out: Vec<u8> = Vec::new();
        let mut k: usize = 0;
        while k < count
            invariant
                self.wf(),
                n == pixels@.len(),
                n <= usize::MAX,
                count == (n + 3) / 4,
                k <= count,
                out@.len() == k,
                forall|j: int| 0 <= j < k ==> out@[j] == self.data@[pixels@[4 * j] as int],
            decreases count - k,
        {
            proof {
                assert(4 * k < n);
            }
            let c = pixels[4 * k];
            out.push(self.data[c as usize]);
            k += 1;
        }
        out
    }

    /// Whether the table never darkens as intensity grows; holds of every
    /// contrast table built with exponent at least one.
    pub fn is_monotonic(&self) -> (r: bool)
        requires
            self.wf(),
        ensures
            r == table_monotonic(self.data@),
    {
        let mut i: usize = 1;
        while i < 256
            invariant
                1 <= i <= 256,
                self.wf(),
                forall|a: int, b: int| 0 <= a <= b < i ==> self.data@[a] <= self.data@[b],
            decreases 256 - i,
        {
            if self.data[i - 1] > self.data[i] {
                proof {
                    assert(!table_monotonic(self.data@));
                }
                return false;
            }
            proof {
                assert forall|a: int, b: int| 0 <= a <= b < i + 1 implies self.data@[a]
                    <= self.data@[b] by {
                    if b == i && a < b {
                        assert(self.data@[a] <= self.data@[i - 1]);
                    }
                }
            }
            i += 1;
        }
        true
    }
}

} // verus!
