//! The steganographic byte transforms, pure functions from bytes to bytes:
//! splitting a byte into masked bit chunks and joining them back, embedding
//! a secret in the low bits of a carrier image's bytes and recovering it,
//! and the alpha-channel embedding used for the shared images. File and
//! image-format handling stays with the callers; only plain bytes run
//! through here.

use vstd::arithmetic::div_mod::lemma_fundamental_div_mod;
use vstd::arithmetic::power2::{lemma2_to64, pow2};
use vstd::prelude::*;

use crate::envelope::Image;

verus! {

/// Why a steganographic operation was refused.
#[derive(Clone, Copy, Debug, PartialEq, Eq, Structural)]
pub enum StegError {
    /// A byte holds one to eight bits.
    InvalidNumberOfBits,
    /// The secret does not fit the carrier image.
    SecretTooLarge,
}

/// The low-bit mask of `bits` bits.
pub open spec fn spec_mask(bits: u8) -> u8 {
    (pow2(bits as nat) - 1) as u8
}

/// How many chunks one byte splits into: eight bits in chunks of `bits`.
pub open spec fn spec_chunks(bits: u8) -> u8 {
    (((8 + bits - 1) as int) / (bits as int)) as u8
}

/// Whether the final chunk carries fewer than `bits` bits.
pub open spec fn spec_padded(bits: u8) -> bool {
    8 < spec_chunks(bits) as int * bits as int
}

/// Chunk number `step` (counting from one) of a byte: the chunks walk the
/// byte from its high bits down, and a padded final chunk keeps only the
/// bits that remain.
pub open spec fn spec_chunk(bits: u8, byte: u8, step: u8) -> u8 {
    if spec_padded(bits) && step == spec_chunks(bits) {
        byte & (spec_mask(bits) >> ((bits as int * step as int - 8) as u8))
    } else {
        (byte >> ((8 - bits as int * step as int) as u8)) & spec_mask(bits)
    }
}

/// Arithmetic of the chunk count: at least one chunk, at most eight, all
/// chunks together cover the byte with less than one chunk to spare.
pub proof fn lemma_mask_geometry(bits: u8)
    requires
        1 <= bits <= 8,
    ensures
        1 <= spec_chunks(bits) <= 8,
        8 <= bits as int * spec_chunks(bits) as int,
        (bits as int * spec_chunks(bits) as int) < 8 + bits,
        !spec_padded(bits) ==> bits as int * spec_chunks(bits) as int == 8,
        bits as int * (spec_chunks(bits) as int - 1) <= 7,
{
    let b = bits as int;
    let c = (8 + b - 1) / b;
    let r = (8 + b - 1) % b;
    lemma_fundamental_div_mod(8 + b - 1, b);
    assert(c * b == 7 + b - r);
    if c >= 9 {
        assert(c * b >= 9 * b) by {
            vstd::arithmetic::mul::lemma_mul_inequality(9, c, b);
        }
    }
    if c <= 0 {
        assert(c * b <= 0) by {
            vstd::arithmetic::mul::lemma_mul_inequality(c, 0, b);
        }
    }
    assert((c - 1) * b == c * b - b) by {
        vstd::arithmetic::mul::lemma_mul_is_distributive_sub_other_way(b, c, 1);
    }
    assert(b * (c - 1) == (c - 1) * b) by {
        vstd::arithmetic::mul::lemma_mul_is_commutative(b, c - 1);
    }
    assert(b * c == c * b) by {
        vstd::arithmetic::mul::lemma_mul_is_commutative(b, c);
    }
}

/// Bounds on one chunk step's arithmetic: the product stays small, a
/// non-final (or unpadded) step stays within the byte, and a padded final
/// step overshoots by less than one chunk.
pub proof fn lemma_step_bounds(bits: u8, step: u8)
    requires
        1 <= bits <= 8,
        1 <= step <= spec_chunks(bits),
    ensures
        step <= bits as int * step as int <= 64,
        step < spec_chunks(bits) ==> bits as int * step as int <= 7,
        !spec_padded(bits) ==> bits as int * step as int <= 8,
        (spec_padded(bits) && step == spec_chunks(bits)) ==> 8 < bits as int * step as int,
        (bits as int * step as int) < 8 + bits,
{
    lemma_mask_geometry(bits);
    let b = bits as int;
    let c = spec_chunks(bits) as int;
    assert(b * step as int <= b * c) by {
        vstd::arithmetic::mul::lemma_mul_left_inequality(b, step as int, c);
    }
    if step < c {
        assert(b * step as int <= b * (c - 1)) by {
            vstd::arithmetic::mul::lemma_mul_left_inequality(b, step as int, c - 1);
        }
    }
    assert(1 * step as int <= b * step as int) by {
        vstd::arithmetic::mul::lemma_mul_inequality(1, b, step as int);
    }
    assert(b * step as int == step as int * b) by {
        vstd::arithmetic::mul::lemma_mul_is_commutative(b, step as int);
    }
    assert(step as int * b <= 8 * b) by {
        vstd::arithmetic::mul::lemma_mul_inequality(step as int, 8, b);
    }
}

/// Represents a number of bits in a byte, from one to eight, and walks the
/// non-overlapping masked chunks of a byte.
#[derive(Clone, Copy, Debug)]
pub struct ByteMask {
    pub bits: u8,
    pub mask: u8,
    pub chunks: u8,
    pub padded: bool,
    pub byte: u8,
    pub step: u8,
}

impl ByteMask {
    /// The derived fields agree with the bit count.
    pub open spec fn wf(self) -> bool {
        &&& 1 <= self.bits <= 8
        &&& self.mask == spec_mask(self.bits)
        &&& self.chunks == spec_chunks(self.bits)
        &&& self.padded == spec_padded(self.bits)
        &&& self.step <= self.chunks
    }

    /// The byte currently walked.
    pub open spec fn spec_byte(self) -> u8 {
        self.byte
    }

    /// How many chunks have been handed out.
    pub open spec fn spec_step(self) -> u8 {
        self.step
    }

    /// A mask of one to eight bits; anything else is refused.
    pub fn new(bits: u8) -> (r: Result<ByteMask, StegError>)
        ensures
            (r is Ok) == (1 <= bits <= 8),
            r matches Ok(m) ==> m.wf() && m.bits == bits && m.spec_step() == 0 && m.spec_byte()
                == 0,
    {
        if bits == 0 || bits > 8 {
            return Err(StegError::InvalidNumberOfBits);
        }
        proof {
            lemma2_to64();
        }
        let (mask, chunks, padded): (u8, u8, bool) = if bits == 1 {
            (0x01, 8, false)
        } else if bits == 2 {
            (0x03, 4, false)
        } else if bits == 3 {
            (0x07, 3, true)
        } else if bits == 4 {
            (0x0f, 2, false)
        } else if bits == 5 {
            (0x1f, 2, true)
        } else if bits == 6 {
            (0x3f, 2, true)
        } else if bits == 7 {
            (0x7f, 2, true)
        } else {
            (0xff, 1, false)
        };
        let m = ByteMask { bits, mask, chunks, padded, byte: 0, step: 0 };
        proof {
            assert(m.wf());
        }
        Ok(m)
    }

    /// Sets the byte to walk and rewinds the chunk walk, returning a copy.
    pub fn set_byte(&mut self, byte: u8) -> (r: ByteMask)
        requires
            old(self).wf(),
        ensures
            final(self).wf(),
            *final(self) == (ByteMask { byte, step: 0, ..*old(self) }),
            r == *final(self),
    {
        self.byte = byte;
        self.step = 0;
        *self
    }

    /// The next masked chunk of the byte, high bits first, or nothing when
    /// all chunks have been handed out.
    pub fn next(&mut self) -> (r: Option<u8>)
        requires
            old(self).wf(),
        ensures
            final(self).wf(),
            old(self).spec_step() == old(self).chunks ==> r is None && *final(self) == *old(self),
            old(self).spec_step() < old(self).chunks ==> {
                &&& final(self).spec_step() == old(self).spec_step() + 1
                &&& *final(self) == (ByteMask { step: (old(self).spec_step() + 1) as u8, ..*old(
                    self,
                ) })
                &&& r == Some(
                    spec_chunk(old(self).bits, old(self).spec_byte(), final(self).spec_step()),
                )
            },
    {
        proof {
            lemma_mask_geometry(self.bits);
        }
        if self.step >= self.chunks {
            return None;
        }
        self.step = self.step + 1;
        proof {
            lemma_step_bounds(self.bits, self.step);
        }
        if self.padded && self.step == self.chunks {
            let shift = self.bits * self.step - 8;
            Some(self.byte & (self.mask >> shift))
        } else {
            let shift = 8 - self.bits * self.step;
            Some((self.byte >> shift) & self.mask)
        }
    }

    /// Joins masked chunks back into a byte: each chunk is shifted into
    /// place below the previous one, high bits first.
    pub fn join_chunks(&self, chunks: &Vec<u8>) -> (r: u8)
        requires
            self.wf(),
        ensures
            r == spec_join(self.bits, chunks@, chunks@.len() as int),
    {
        let mut byte: u8 = 0;
        let mut shift: u8 = 8;
        let n = chunks.len();
        let mut k: usize = 0;
        while k < n
            invariant
                k <= n == chunks@.len(),
                1 <= self.bits <= 8,
                byte == spec_join(self.bits, chunks@, k as int),
                shift == spec_shift_after(self.bits, k as int),
            decreases n - k,
        {
            proof {
                assert(self.bits as int * (k + 1) == self.bits as int * k as int
                    + self.bits as int) by {
                    vstd::arithmetic::mul::lemma_mul_is_distributive_add(
                        self.bits as int,
                        k as int,
                        1,
                    );
                }
                assert(self.bits as int * k as int >= 0) by {
                    vstd::arithmetic::mul::lemma_mul_nonnegative(self.bits as int, k as int);
                }
            }
            shift = if shift >= self.bits {
                shift - self.bits
            } else {
                0
            };
            byte = byte | (chunks[k] << shift);
            k = k + 1;
        }
        byte
    }
}

/// The shift in force after `k` chunks have been joined: eight, less the
/// bits consumed, stopping at zero.
pub open spec fn spec_shift_after(bits: u8, k: int) -> u8 {
    if 8 - bits as int * k >= 0 {
        (8 - bits as int * k) as u8
    } else {
        0
    }
}

/// The byte that joining the first `n` chunks yields.
pub open spec fn spec_join(bits: u8, cs: Seq<u8>, n: int) -> u8
    decreases n,
{
    if n <= 0 {
        0
    } else {
        spec_join(bits, cs, n - 1) | (cs[n - 1] << spec_shift_after(bits, n))
    }
}

// ------------------------------------------------------------------
// Low-bit embedding and recovery over plain image bytes.
// ------------------------------------------------------------------

/// The chunk of the secret stream at stream position `j`: chunk number
/// `j mod chunks`, counting from one, of secret byte `j / chunks`.
pub open spec fn spec_embedded(bits: u8, secret: Seq<u8>, j: int) -> u8 {
    spec_chunk(bits, secret[j / spec_chunks(bits) as int], (j % spec_chunks(bits) as int + 1) as u8)
}

/// Embeds a secret into the low bits of a carrier image's bytes. The
/// secret's chunks fill the tail of the image; the bytes before them keep
/// low bits of zero.
pub struct Encoder {
    pub image: Vec<u8>,
    pub secret: Vec<u8>,
    pub mask: ByteMask,
    pub zeroes: usize,
}

impl Encoder {
    /// The carrier must hold one byte per secret chunk.
    pub open spec fn wf(self) -> bool {
        &&& self.mask.wf()
        &&& self.secret@.len() * spec_chunks(self.mask.bits) as int <= self.image@.len()
        &&& self.zeroes == self.image@.len() - self.secret@.len() * spec_chunks(
            self.mask.bits,
        ) as int
    }

    /// An encoder for the given carrier and secret; a secret with more
    /// chunks than the carrier has bytes is refused.
    pub fn new(image: Vec<u8>, secret: Vec<u8>, mask: ByteMask) -> (r: Result<Encoder, StegError>)
        requires
            mask.wf(),
        ensures
            (r is Ok) == (secret@.len() * spec_chunks(mask.bits) as int <= image@.len()),
            r matches Ok(e) ==> e.wf() && e.spec_image() == image@ && e.spec_secret() == secret@
                && e.spec_bits() == mask.bits,
    {
        let sn = secret.len();
        let iln = image.len();
        proof {
            lemma_mask_geometry(mask.bits);
            assert(sn as int * (mask.chunks as int) <= usize::MAX as int * 8) by {
                vstd::arithmetic::mul::lemma_mul_upper_bound(
                    sn as int,
                    usize::MAX as int,
                    mask.chunks as int,
                    8,
                );
            }
        }
        let secret_size = (sn as u128) * (mask.chunks as u128);
        if (iln as u128) < secret_size {
            return Err(StegError::SecretTooLarge);
        }
        let zeroes = iln - (secret_size as usize);
        Ok(Encoder { image, secret, mask, zeroes })
    }

    /// The carrier bytes.
    pub open spec fn spec_image(self) -> Seq<u8> {
        self.image@
    }

    /// The secret bytes.
    pub open spec fn spec_secret(self) -> Seq<u8> {
        self.secret@
    }

    /// The chunk width.
    pub open spec fn spec_bits(self) -> u8 {
        self.mask.bits
    }

    /// The encoded carrier: every byte keeps its high bits; the low bits
    /// hold zeroes up to the alignment point and the secret's chunks, high
    /// chunks first, from there to the end.
    pub fn encode_bytes(&self) -> (r: Vec<u8>)
        requires
            self.wf(),
        ensures
            r@.len() == self.spec_image().len(),
            forall|i: int|
                0 <= i < r@.len() ==> r@[i] == ((self.spec_image()[i] & !spec_mask(
                    self.spec_bits(),
                )) | (if i < self.zeroes {
                    0u8
                } else {
                    spec_embedded(self.spec_bits(), self.spec_secret(), i - self.zeroes)
                })),
    {
        proof {
            lemma_mask_geometry(self.mask.bits);
        }
        let keep = !self.mask.mask;
        let n = self.image.len();
        let nc = self.mask.chunks as usize;
        let mut out: Vec<u8> = Vec::new();
        let mut i: usize = 0;
        while i < n
            invariant
                i <= n == self.image@.len(),
                self.wf(),
                nc == spec_chunks(self.mask.bits) as int,
                keep == !spec_mask(self.mask.bits),
                out@.len() == i,
                forall|k: int|
                    0 <= k < i ==> out@[k] == ((self.image@[k] & !spec_mask(self.mask.bits)) | (
                    if k < self.zeroes {
                        0u8
                    } else {
                        spec_embedded(self.mask.bits, self.secret@, k - self.zeroes)
                    })),
            decreases n - i,
        {
            let low: u8 = if i < self.zeroes {
                0
            } else {
                let j = i - self.zeroes;
                let sidx = j / nc;
                let step = (j % nc) as u8 + 1;
                proof {
                    // j / nc addresses a secret byte: j < nc * secret.len()
                    assert(j < nc as int * self.secret@.len()) by {
                        vstd::arithmetic::mul::lemma_mul_is_commutative(
                            nc as int,
                            self.secret@.len() as int,
                        );
                    }
                    vstd::arithmetic::div_mod::lemma_multiply_divide_lt(
                        j as int,
                        nc as int,
                        self.secret@.len() as int,
                    );
                    vstd::arithmetic::div_mod::lemma_mod_bound(j as int, nc as int);
                }
                chunk_at(&self.mask, self.secret[sidx], step)
            };
            out.push((self.image[i] & keep) | low);
            i = i + 1;
        }
        out
    }
}

/// Chunk number `step` of a byte, directly.
fn chunk_at(mask: &ByteMask, byte: u8, step: u8) -> (r: u8)
    requires
        mask.wf(),
        1 <= step <= mask.chunks,
    ensures
        r == spec_chunk(mask.bits, byte, step),
{
    proof {
        lemma_mask_geometry(mask.bits);
        lemma_step_bounds(mask.bits, step);
    }
    if mask.padded && step == mask.chunks {
        let shift = mask.bits * step - 8;
        byte & (mask.mask >> shift)
    } else {
        let shift = 8 - mask.bits * step;
        (byte >> shift) & mask.mask
    }
}

/// Recovers a secret from the low bits of a carrier image's bytes: the
/// inverse walk of the encoder's embedding.
pub struct Decoder {
    pub image: Vec<u8>,
    pub mask: ByteMask,
}

/// The position of the first byte with nonzero low bits, or the length.
pub open spec fn first_marked(masked: Seq<u8>, i: int) -> int
    decreases masked.len() - i,
{
    if i < 0 || i >= masked.len() {
        masked.len() as int
    } else if masked[i] != 0 {
        i
    } else {
        first_marked(masked, i + 1)
    }
}

/// The chunk stream a carrier's low bits hold: the masked bytes from the
/// first nonzero one on, preceded by the zero chunks that align the stream
/// to whole bytes counted from the end.
pub open spec fn spec_stream(bits: u8, image: Seq<u8>) -> Seq<u8> {
    let masked = Seq::new(image.len(), |i: int| image[i] & spec_mask(bits));
    let s = first_marked(masked, 0);
    let nc = spec_chunks(bits) as int;
    let pad = (nc - (image.len() - s) % nc) % nc;
    Seq::new(pad as nat, |k: int| 0u8) + masked.subrange(s, masked.len() as int)
}

/// The bytes a carrier's low bits decode to: the chunk stream joined in
/// groups of one byte's worth of chunks.
pub open spec fn spec_extracted(bits: u8, image: Seq<u8>) -> Seq<u8> {
    let stream = spec_stream(bits, image);
    let nc = spec_chunks(bits) as int;
    Seq::new(
        (stream.len() as int / nc) as nat,
        |k: int| spec_join(bits, stream.subrange(k * nc, (k + 1) * nc), nc),
    )
}

impl Decoder {
    /// A decoder for the given carrier bytes.
    pub fn new(image: Vec<u8>, mask: ByteMask) -> (r: Decoder)
        requires
            mask.wf(),
        ensures
            r.wf(),
            r.spec_image() == image@,
            r.spec_bits() == mask.bits,
    {
        Decoder { image, mask }
    }

    /// The mask is sound.
    pub open spec fn wf(self) -> bool {
        self.mask.wf()
    }

    /// The carrier bytes.
    pub open spec fn spec_image(self) -> Seq<u8> {
        self.image@
    }

    /// The chunk width.
    pub open spec fn spec_bits(self) -> u8 {
        self.mask.bits
    }

    /// Recovers the secret bytes from the carrier's low bits.
    pub fn decode_bytes(&self) -> (r: Vec<u8>)
        requires
            self.wf(),
        ensures
            r@ == spec_extracted(self.spec_bits(), self.spec_image()),
    {
        proof {
            lemma_mask_geometry(self.mask.bits);
        }
        let n = self.image.len();
        let nc = self.mask.chunks as usize;
        let ghost masked_s = Seq::new(
            self.image@.len(),
            |i: int| self.image@[i] & spec_mask(self.mask.bits),
        );
        // find the first byte with nonzero low bits
        let mut s: usize = 0;
        while s < n && (self.image[s] & self.mask.mask) == 0
            invariant
                s <= n == self.image@.len(),
                self.wf(),
                masked_s == Seq::new(self.image@.len(), |i: int| self.image@[i] & spec_mask(self.mask.bits)),
                first_marked(masked_s, 0) == first_marked(masked_s, s as int),
            decreases n - s,
        {
            proof {
                assert(masked_s[s as int] == 0);
                assert(first_marked(masked_s, s as int) == first_marked(masked_s, s as int + 1));
            }
            s = s + 1;
        }
        proof {
            assert(first_marked(masked_s, 0) == s);
        }
        // assemble the aligned chunk stream
        let pad = (nc - (n - s) % nc) % nc;
        let mut stream: Vec<u8> = Vec::new();
        let mut k: usize = 0;
        while k < pad
            invariant
                k <= pad,
                stream@ =~= Seq::new(k as nat, |j: int| 0u8),
            decreases pad - k,
        {
            stream.push(0);
            proof {
                assert(stream@ =~= Seq::new((k + 1) as nat, |j: int| 0u8));
            }
            k = k + 1;
        }
        let mut k: usize = s;
        while k < n
            invariant
                s <= k <= n == self.image@.len(),
                self.wf(),
                masked_s == Seq::new(self.image@.len(), |i: int| self.image@[i] & spec_mask(self.mask.bits)),
                stream@ =~= Seq::new(pad as nat, |j: int| 0u8) + masked_s.subrange(
                    s as int,
                    k as int,
                ),
            decreases n - k,
        {
            let x = self.image[k] & self.mask.mask;
            proof {
                assert(x == masked_s[k as int]);
            }
            stream.push(x);
            proof {
                assert(stream@ =~= Seq::new(pad as nat, |j: int| 0u8) + masked_s.subrange(
                    s as int,
                    k + 1,
                ));
            }
            k = k + 1;
        }
        proof {
            assert(stream@ =~= spec_stream(self.mask.bits, self.image@));
        }
        // join each group of chunks into one output byte
        let total = stream.len();
        let groups = total / nc;
        let mut out: Vec<u8> = Vec::new();
        let mut g: usize = 0;
        while g < groups
            invariant
                g <= groups,
                self.wf(),
                1 <= nc <= 8,
                total == stream@.len(),
                nc == spec_chunks(self.mask.bits) as int,
                groups == stream@.len() as int / nc as int,
                stream@ == spec_stream(self.mask.bits, self.image@),
                out@.len() == g,
                forall|q: int|
                    0 <= q < g ==> out@[q] == spec_join(
                        self.mask.bits,
                        stream@.subrange(q * nc, (q + 1) * nc),
                        nc as int,
                    ),
            decreases groups - g,
        {
            let mut group: Vec<u8> = Vec::new();
            proof {
                // the group lies inside the stream
                assert((g as int + 1) * nc as int <= groups as int * nc as int) by {
                    vstd::arithmetic::mul::lemma_mul_inequality(
                        g as int + 1,
                        groups as int,
                        nc as int,
                    );
                }
                assert(groups as int * nc as int <= stream@.len()) by {
                    vstd::arithmetic::div_mod::lemma_fundamental_div_mod(
                        stream@.len() as int,
                        nc as int,
                    );
                    vstd::arithmetic::div_mod::lemma_mod_bound(stream@.len() as int, nc as int);
                    vstd::arithmetic::mul::lemma_mul_is_commutative(
                        groups as int,
                        nc as int,
                    );
                }
                assert((g as int + 1) * nc as int == g as int * nc as int + nc as int) by {
                    vstd::arithmetic::mul::lemma_mul_is_distributive_add_other_way(
                        nc as int,
                        g as int,
                        1,
                    );
                }
                assert(g as int * nc as int >= 0) by {
                    vstd::arithmetic::mul::lemma_mul_nonnegative(g as int, nc as int);
                }
            }
            let st = g * nc;
            let mut q: usize = 0;
            while q < nc
                invariant
                    q <= nc,
                    st + nc <= stream@.len(),
                    stream@.len() <= usize::MAX,
                    st == g * nc,
                    group@ =~= stream@.subrange(st as int, st as int + q as int),
                decreases nc - q,
            {
                group.push(stream[st + q]);
                proof {
                    assert(group@ =~= stream@.subrange(st as int, st as int + q + 1));
                }
                q = q + 1;
            }
            let byte = self.mask.join_chunks(&group);
            out.push(byte);
            proof {
                assert(group@ =~= stream@.subrange(g as int * nc as int, (g as int + 1) * nc
                    as int));
            }
            g = g + 1;
        }
        proof {
            assert(out@ =~= spec_extracted(self.mask.bits, self.image@));
        }
        out
    }
}

// ------------------------------------------------------------------
// Alpha-channel embedding for the shared images.
// ------------------------------------------------------------------

/// The image's byte buffer holds four channels per pixel.
pub open spec fn image_rgba_wf(img: Image) -> bool {
    img.data@.len() == 4 * (img.width as int * img.height as int)
}

/// Embeds the secret bytes into the alpha channel of a carrier image, one
/// secret byte per pixel; a secret with more bytes than the carrier has
/// pixels is refused before anything is written.
pub fn encode_img(secret: &Vec<u8>, img: &Image) -> (r: Result<Image, StegError>)
    requires
        image_rgba_wf(*img),
    ensures
        (r is Ok) == (secret@.len() <= img.width as int * img.height as int),
        r matches Ok(out) ==> {
            &&& out.width == img.width
            &&& out.height == img.height
            &&& out.data@.len() == img.data@.len()
            &&& forall|k: int|
                0 <= k < out.data@.len() ==> out.data@[k] == (if k % 4 == 3 && k / 4
                    < secret@.len() {
                    secret@[k / 4]
                } else {
                    img.data@[k]
                })
        },
{
    proof {
        assert(img.width as int * img.height as int <= u32::MAX as int * u32::MAX as int) by {
            vstd::arithmetic::mul::lemma_mul_upper_bound(
                img.width as int,
                u32::MAX as int,
                img.height as int,
                u32::MAX as int,
            );
        }
    }
    let pixels = (img.width as u64) * (img.height as u64);
    if (secret.len() as u64) > pixels {
        return Err(StegError::SecretTooLarge);
    }
    let n = img.data.len();
    let mut data: Vec<u8> = Vec::new();
    let mut k: usize = 0;
    while k < n
        invariant
            k <= n == img.data@.len(),
            data@.len() == k,
            forall|j: int|
                0 <= j < k ==> data@[j] == (if j % 4 == 3 && j / 4 < secret@.len() {
                    secret@[j / 4]
                } else {
                    img.data@[j]
                }),
        decreases n - k,
    {
        let b = if k % 4 == 3 && k / 4 < secret.len() {
            secret[k / 4]
        } else {
            img.data[k]
        };
        data.push(b);
        k = k + 1;
    }
    Ok(Image { width: img.width, height: img.height, data })
}

/// Extracts the alpha channel of an image: the byte stream a peer's
/// embedded secret was written to.
pub fn decode_img(img: &Image) -> (r: Vec<u8>)
    ensures
        r@.len() == img.data@.len() / 4,
        forall|k: int| 0 <= k < r@.len() ==> r@[k] == img.data@[4 * k + 3],
{
    let n = img.data.len() / 4;
    let mut out: Vec<u8> = Vec::new();
    let mut k: usize = 0;
    while k < n
        invariant
            k <= n == img.data@.len() / 4,
            img.data@.len() <= usize::MAX,
            out@.len() == k,
            forall|j: int| 0 <= j < k ==> out@[j] == img.data@[4 * j + 3],
        decreases n - k,
    {
        proof {
            vstd::arithmetic::div_mod::lemma_fundamental_div_mod(img.data@.len() as int, 4);
            vstd::arithmetic::div_mod::lemma_mod_bound(img.data@.len() as int, 4);
        }
        out.push(img.data[4 * k + 3]);
        k = k + 1;
    }
    out
}

} // verus!
