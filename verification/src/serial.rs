//! Canonical point encoding.
//!
//! A field element travels as 8 little-endian bytes followed, where a flag
//! channel is called for, by one flag byte: finite with the larger root,
//! finite with the smaller root, or infinity. Compressed form carries `x`
//! and the sign flag; uncompressed form carries `x`, then `y` with the
//! infinity flag. Decoding from untrusted bytes re-validates subgroup
//! membership; the unchecked path is for trusted data only.

use vstd::prelude::*;

verus! {

use crate::curve::{
    affine_to_proj, be_bits, canonical_y, has_root, least_root, mul_bits_spec, proj_to_affine,
    sw_rhs, GroupAffine, Parameters, GroupProjective,
};
use crate::fp::{fneg, invertible, modulus_ok, Fp};

/// A decode failure: the bytes do not name a valid group element.
#[derive(Clone, Copy, Debug, PartialEq, Eq, Structural)]
pub enum SerializationError {
    /// No valid root, a non-canonical residue, a bad flag, or a point
    /// outside the prime-order subgroup.
    InvalidData,
}

/// Flag byte: a finite point whose `y` is the lexicographically larger root.
pub const FLAG_POSITIVE: u8 = 0;

/// Flag byte: a finite point whose `y` is not the larger root.
pub const FLAG_NEGATIVE: u8 = 1;

/// Flag byte: the point at infinity.
pub const FLAG_INFINITY: u8 = 2;

/// The 8 little-endian bytes of a 64-bit word.
pub open spec fn le_bytes_of(v: u64) -> Seq<u8> {
    seq![
        (v & 0xff) as u8,
        ((v >> 8) & 0xff) as u8,
        ((v >> 16) & 0xff) as u8,
        ((v >> 24) & 0xff) as u8,
        ((v >> 32) & 0xff) as u8,
        ((v >> 40) & 0xff) as u8,
        ((v >> 48) & 0xff) as u8,
        ((v >> 56) & 0xff) as u8,
    ]
}

/// The 64-bit word read from 8 little-endian bytes.
pub open spec fn u64_of_le(s: Seq<u8>) -> u64
    recommends
        s.len() == 8,
{
    (s[0] as u64) | ((s[1] as u64) << 8) | ((s[2] as u64) << 16) | ((s[3] as u64) << 24) | ((
    s[4] as u64) << 32) | ((s[5] as u64) << 40) | ((s[6] as u64) << 48) | ((s[7] as u64) << 56)
}

/// Reading back the bytes of a word gives the word.
pub proof fn lemma_le_roundtrip(v: u64)
    ensures
        u64_of_le(le_bytes_of(v)) == v,
{
    assert((((v & 0xff) as u8) as u64) | ((((v >> 8) & 0xff) as u8) as u64) << 8 | ((((v >> 16)
        & 0xff) as u8) as u64) << 16 | ((((v >> 24) & 0xff) as u8) as u64) << 24 | ((((v >> 32)
        & 0xff) as u8) as u64) << 32 | ((((v >> 40) & 0xff) as u8) as u64) << 40 | ((((v >> 48)
        & 0xff) as u8) as u64) << 48 | ((((v >> 56) & 0xff) as u8) as u64) << 56 == v)
        by (bit_vector);
}

/// Writing the word read from 8 bytes reproduces the bytes.
pub proof fn lemma_le_canonical(s: Seq<u8>)
    requires
        s.len() == 8,
    ensures
        le_bytes_of(u64_of_le(s)) =~= s,
{
    let b0 = s[0];
    let b1 = s[1];
    let b2 = s[2];
    let b3 = s[3];
    let b4 = s[4];
    let b5 = s[5];
    let b6 = s[6];
    let b7 = s[7];
    let v = u64_of_le(s);
    assert((v & 0xff) as u8 == b0 && ((v >> 8) & 0xff) as u8 == b1 && ((v >> 16) & 0xff) as u8
        == b2 && ((v >> 24) & 0xff) as u8 == b3 && ((v >> 32) & 0xff) as u8 == b4 && ((v >> 40)
        & 0xff) as u8 == b5 && ((v >> 48) & 0xff) as u8 == b6 && ((v >> 56) & 0xff) as u8 == b7)
        by (bit_vector)
        requires
            v == (b0 as u64) | ((b1 as u64) << 8) | ((b2 as u64) << 16) | ((b3 as u64) << 24) | ((
            b4 as u64) << 32) | ((b5 as u64) << 40) | ((b6 as u64) << 48) | ((b7 as u64) << 56),
    ;
}

/// Append the 8 little-endian bytes of `v` to `out`.
fn push_u64_le(out: &mut Vec<u8>, v: u64)
    ensures
        final(out)@ == old(out)@ + le_bytes_of(v),
{
    out.push((v & 0xff) as u8);
    out.push(((v >> 8) & 0xff) as u8);
    out.push(((v >> 16) & 0xff) as u8);
    out.push(((v >> 24) & 0xff) as u8);
    out.push(((v >> 32) & 0xff) as u8);
    out.push(((v >> 40) & 0xff) as u8);
    out.push(((v >> 48) & 0xff) as u8);
    out.push(((v >> 56) & 0xff) as u8);
    proof {
        assert(final(out)@ =~= old(out)@ + le_bytes_of(v));
    }
}

/// Read the 64-bit word at `off`.
fn read_u64_le(bytes: &[u8], off: usize) -> (r: u64)
    requires
        off + 8 <= bytes@.len(),
    ensures
        r == u64_of_le(bytes@.subrange(off as int, off as int + 8)),
{
    let r = (bytes[off] as u64) | ((bytes[off + 1] as u64) << 8) | ((bytes[off + 2] as u64) << 16)
        | ((bytes[off + 3] as u64) << 24) | ((bytes[off + 4] as u64) << 32) | ((bytes[off
        + 5] as u64) << 40) | ((bytes[off + 6] as u64) << 48) | ((bytes[off + 7] as u64) << 56);
    proof {
        let s = bytes@.subrange(off as int, off as int + 8);
        assert(s[0] == bytes@[off as int] && s[1] == bytes@[off as int + 1] && s[2]
            == bytes@[off as int + 2] && s[3] == bytes@[off as int + 3] && s[4]
            == bytes@[off as int + 4] && s[5] == bytes@[off as int + 5] && s[6]
            == bytes@[off as int + 6] && s[7] == bytes@[off as int + 7]);
    }
    r
}

/// The compressed encoding: `x` (or zero for infinity) and the sign flag.
pub open spec fn compressed_bytes(p: int, q: (int, int, bool)) -> Seq<u8> {
    if q.2 {
        le_bytes_of(0).push(FLAG_INFINITY)
    } else {
        let flag = if q.1 > fneg(p, q.1) {
            FLAG_POSITIVE
        } else {
            FLAG_NEGATIVE
        };
        le_bytes_of(q.0 as u64).push(flag)
    }
}

/// The uncompressed encoding: `x`, then `y` carrying the infinity flag.
pub open spec fn uncompressed_bytes(q: (int, int, bool)) -> Seq<u8> {
    let flag = if q.2 {
        FLAG_INFINITY
    } else {
        FLAG_POSITIVE
    };
    le_bytes_of(q.0 as u64) + le_bytes_of(q.1 as u64).push(flag)
}

/// What compressed decoding yields on any byte string: the exact conditions
/// for each rejection, and the reconstructed point on success.
pub open spec fn deserialize_compressed_spec(
    p: int,
    a: int,
    b: int,
    order_limbs: Seq<u64>,
    bytes: Seq<u8>,
) -> Result<(int, int, bool), SerializationError> {
    if bytes.len() != 9 {
        Err(SerializationError::InvalidData)
    } else {
        let x = u64_of_le(bytes.take(8)) as int;
        let flag = bytes[8];
        if x >= p {
            Err(SerializationError::InvalidData)
        } else if flag == FLAG_INFINITY {
            if x == 0 {
                Ok((0, 1, true))
            } else {
                Err(SerializationError::InvalidData)
            }
        } else if flag == FLAG_POSITIVE || flag == FLAG_NEGATIVE {
            let rhs = sw_rhs(p, a, b, x);
            if !has_root(p, rhs) {
                Err(SerializationError::InvalidData)
            } else {
                let pt = (x, canonical_y(p, least_root(p, rhs), flag == FLAG_POSITIVE), false);
                if mul_bits_spec(p, a, be_bits(order_limbs), pt).2 == 0 {
                    Ok(pt)
                } else {
                    Err(SerializationError::InvalidData)
                }
            }
        } else {
            Err(SerializationError::InvalidData)
        }
    }
}

/// What point parsing from arbitrary bytes yields: a field element and a
/// flag read from the leading 9 bytes (the rest ignored), then sign-based
/// reconstruction, with no subgroup check. `None` exactly on short input,
/// a non-canonical residue, an inconsistent or unknown flag, or a
/// rootless right-hand side.
pub open spec fn from_random_bytes_spec(p: int, a: int, b: int, bytes: Seq<u8>) -> Option<
    (int, int, bool),
> {
    if bytes.len() < 9 {
        None
    } else {
        let x = u64_of_le(bytes.take(8)) as int;
        let flag = bytes[8];
        if x >= p {
            None
        } else if flag == FLAG_INFINITY && x == 0 {
            Some((0, 1, true))
        } else if flag == FLAG_POSITIVE || flag == FLAG_NEGATIVE {
            let rhs = sw_rhs(p, a, b, x);
            if has_root(p, rhs) {
                Some((x, canonical_y(p, least_root(p, rhs), flag == FLAG_POSITIVE), false))
            } else {
                None
            }
        } else {
            None
        }
    }
}

/// What unchecked uncompressed decoding yields: canonical coordinates and a
/// known flag, with no curve or subgroup validation.
pub open spec fn deserialize_unchecked_spec(p: int, bytes: Seq<u8>) -> Result<
    (int, int, bool),
    SerializationError,
> {
    if bytes.len() != 17 {
        Err(SerializationError::InvalidData)
    } else {
        let x = u64_of_le(bytes.take(8)) as int;
        let y = u64_of_le(bytes.subrange(8, 16)) as int;
        let flag = bytes[16];
        if x >= p || y >= p || flag > FLAG_INFINITY {
            Err(SerializationError::InvalidData)
        } else {
            Ok((x, y, flag == FLAG_INFINITY))
        }
    }
}

/// What checked uncompressed decoding yields: the unchecked read, then the
/// subgroup test.
pub open spec fn deserialize_uncompressed_spec(
    p: int,
    a: int,
    order_limbs: Seq<u64>,
    bytes: Seq<u8>,
) -> Result<(int, int, bool), SerializationError> {
    match deserialize_unchecked_spec(p, bytes) {
        Err(e) => Err(e),
        Ok(pt) => if mul_bits_spec(p, a, be_bits(order_limbs), pt).2 == 0 {
            Ok(pt)
        } else {
            Err(SerializationError::InvalidData)
        },
    }
}

impl<const P: u64> GroupAffine<P> {
    /// Compressed encoding: 9 bytes.
    pub fn serialize(&self) -> (r: Vec<u8>)
        requires
            self.wf(),
        ensures
            r@ == compressed_bytes(P as int, self@),
            r@.len() == 9,
    {
        let mut out: Vec<u8> = Vec::new();
        if self.is_zero() {
            push_u64_le(&mut out, 0);
            out.push(FLAG_INFINITY);
        } else {
            let negy = self.y.neg();
            let flag = if negy.lt(self.y) {
                FLAG_POSITIVE
            } else {
                FLAG_NEGATIVE
            };
            push_u64_le(&mut out, self.x.as_u64());
            out.push(flag);
        }
        proof {
            assert(out@ =~= compressed_bytes(P as int, self@));
        }
        out
    }

    /// The compressed encoding's size in bytes.
    pub fn serialized_size(&self) -> (r: usize)
        ensures
            r == 9,
    {
        9
    }

    /// Uncompressed encoding: 17 bytes, no sign reconstruction needed.
    pub fn serialize_uncompressed(&self) -> (r: Vec<u8>)
        requires
            self.wf(),
        ensures
            r@ == uncompressed_bytes(self@),
            r@.len() == 17,
    {
        let mut out: Vec<u8> = Vec::new();
        push_u64_le(&mut out, self.x.as_u64());
        push_u64_le(&mut out, self.y.as_u64());
        if self.is_zero() {
            out.push(FLAG_INFINITY);
        } else {
            out.push(FLAG_POSITIVE);
        }
        proof {
            assert(out@ =~= uncompressed_bytes(self@));
        }
        out
    }

    /// The uncompressed encoding's size in bytes.
    pub fn uncompressed_size(&self) -> (r: usize)
        ensures
            r == 17,
    {
        17
    }

    /// Decode a compressed point from untrusted bytes: reconstruct `y` from
    /// the sign flag and re-validate prime-order-subgroup membership.
    pub fn deserialize(bytes: &[u8], params: &Parameters<P>) -> (r: Result<
        Self,
        SerializationError,
    >)
        requires
            params.wf(),
            modulus_ok(P as int),
        ensures
            match r {
                Ok(pt) => {
                    &&& pt.wf()
                    &&& deserialize_compressed_spec(
                        P as int,
                        params.coeff_a@,
                        params.coeff_b@,
                        params.scalar_field_order@,
                        bytes@,
                    ) == Ok::<(int, int, bool), SerializationError>(pt@)
                },
                Err(e) => deserialize_compressed_spec(
                    P as int,
                    params.coeff_a@,
                    params.coeff_b@,
                    params.scalar_field_order@,
                    bytes@,
                ) == Err::<(int, int, bool), SerializationError>(e),
            },
    {
        if bytes.len() != 9 {
            return Err(SerializationError::InvalidData);
        }
        let xw = read_u64_le(bytes, 0);
        let flag = bytes[8];
        proof {
            assert(bytes@.subrange(0, 8) =~= bytes@.take(8));
        }
        if xw >= P {
            return Err(SerializationError::InvalidData);
        }
        let x: Fp<P> = Fp { v: xw };
        if flag == FLAG_INFINITY {
            if xw == 0 {
                return Ok(GroupAffine::zero());
            }
            return Err(SerializationError::InvalidData);
        }
        if flag != FLAG_POSITIVE && flag != FLAG_NEGATIVE {
            return Err(SerializationError::InvalidData);
        }
        match GroupAffine::get_point_from_x(x, flag == FLAG_POSITIVE, params) {
            None => Err(SerializationError::InvalidData),
            Some(pt) => {
                if pt.is_in_correct_subgroup_assuming_on_curve(params) {
                    Ok(pt)
                } else {
                    Err(SerializationError::InvalidData)
                }
            },
        }
    }

    /// Decode an uncompressed point from trusted bytes: no curve or
    /// subgroup validation beyond canonical coordinates and a known flag.
    pub fn deserialize_unchecked(bytes: &[u8]) -> (r: Result<Self, SerializationError>)
        requires
            modulus_ok(P as int),
        ensures
            match r {
                Ok(pt) => {
                    &&& pt.wf()
                    &&& deserialize_unchecked_spec(P as int, bytes@) == Ok::<
                        (int, int, bool),
                        SerializationError,
                    >(pt@)
                },
                Err(e) => deserialize_unchecked_spec(P as int, bytes@) == Err::<
                    (int, int, bool),
                    SerializationError,
                >(e),
            },
    {
        if bytes.len() != 17 {
            return Err(SerializationError::InvalidData);
        }
        let xw = read_u64_le(bytes, 0);
        let yw = read_u64_le(bytes, 8);
        let flag = bytes[16];
        proof {
            assert(bytes@.subrange(0, 8) =~= bytes@.take(8));
        }
        if xw >= P || yw >= P || flag > FLAG_INFINITY {
            return Err(SerializationError::InvalidData);
        }
        Ok(GroupAffine { x: Fp { v: xw }, y: Fp { v: yw }, infinity: flag == FLAG_INFINITY })
    }

    /// Decode an uncompressed point from untrusted bytes: the unchecked
    /// read followed by the subgroup test.
    pub fn deserialize_uncompressed(bytes: &[u8], params: &Parameters<P>) -> (r: Result<
        Self,
        SerializationError,
    >)
        requires
            params.wf(),
            modulus_ok(P as int),
        ensures
            match r {
                Ok(pt) => {
                    &&& pt.wf()
                    &&& deserialize_uncompressed_spec(
                        P as int,
                        params.coeff_a@,
                        params.scalar_field_order@,
                        bytes@,
                    ) == Ok::<(int, int, bool), SerializationError>(pt@)
                },
                Err(e) => deserialize_uncompressed_spec(
                    P as int,
                    params.coeff_a@,
                    params.scalar_field_order@,
                    bytes@,
                ) == Err::<(int, int, bool), SerializationError>(e),
            },
    {
        let p = Self::deserialize_unchecked(bytes)?;
        if !p.is_in_correct_subgroup_assuming_on_curve(params) {
            return Err(SerializationError::InvalidData);
        }
        Ok(p)
    }

    /// Parse a point from arbitrary bytes, as used for sampling: a field
    /// element plus a flag, then sign-based reconstruction; `None` when the
    /// residue is non-canonical, the flags are inconsistent, or no root
    /// exists.
    pub fn from_random_bytes(bytes: &[u8], params: &Parameters<P>) -> (r: Option<Self>)
        requires
            params.wf(),
            modulus_ok(P as int),
        ensures
            match r {
                Some(pt) => pt.wf() && from_random_bytes_spec(
                    P as int,
                    params.coeff_a@,
                    params.coeff_b@,
                    bytes@,
                ) == Some(pt@),
                None => from_random_bytes_spec(
                    P as int,
                    params.coeff_a@,
                    params.coeff_b@,
                    bytes@,
                ) == None::<(int, int, bool)>,
            },
    {
        if bytes.len() < 9 {
            return None;
        }
        let xw = read_u64_le(bytes, 0);
        let flag = bytes[8];
        proof {
            assert(bytes@.subrange(0, 8) =~= bytes@.take(8));
        }
        if xw >= P {
            return None;
        }
        let x: Fp<P> = Fp { v: xw };
        if flag == FLAG_INFINITY && xw == 0 {
            Some(GroupAffine::zero())
        } else if flag == FLAG_POSITIVE || flag == FLAG_NEGATIVE {
            GroupAffine::get_point_from_x(x, flag == FLAG_POSITIVE, params)
        } else {
            None
        }
    }

    /// Flatten to field elements: `x`, `y`, and the infinity bit as 0 or 1.
    pub fn to_field_elements(&self) -> (r: Option<Vec<Fp<P>>>)
        requires
            self.wf(),
            modulus_ok(P as int),
        ensures
            match r {
                Some(v) => v@.len() == 3 && v@[0] == self.x && v@[1] == self.y && v@[2]@ == (
                if self@.2 {
                    1int
                } else {
                    0int
                }),
                None => false,
            },
    {
        let inf: Fp<P> = if self.infinity {
            Fp::one()
        } else {
            Fp::zero()
        };
        let mut out: Vec<Fp<P>> = Vec::new();
        out.push(self.x);
        out.push(self.y);
        out.push(inf);
        Some(out)
    }
}

impl<const P: u64> GroupProjective<P> {
    /// Compressed encoding of the denoted point, through affine form.
    pub fn serialize(&self) -> (r: Vec<u8>)
        requires
            self.wf(),
            self@.2 == 0 || invertible(P as int, self@.2),
        ensures
            r@ == compressed_bytes(P as int, proj_to_affine(P as int, self@)),
            r@.len() == 9,
    {
        let aff = self.into_affine();
        aff.serialize()
    }

    /// Uncompressed encoding of the denoted point, through affine form.
    pub fn serialize_uncompressed(&self) -> (r: Vec<u8>)
        requires
            self.wf(),
            self@.2 == 0 || invertible(P as int, self@.2),
        ensures
            r@ == uncompressed_bytes(proj_to_affine(P as int, self@)),
            r@.len() == 17,
    {
        let aff = self.into_affine();
        aff.serialize_uncompressed()
    }

    /// The compressed encoding's size in bytes.
    pub fn serialized_size(&self) -> (r: usize)
        ensures
            r == 9,
    {
        9
    }

    /// The uncompressed encoding's size in bytes.
    pub fn uncompressed_size(&self) -> (r: usize)
        ensures
            r == 17,
    {
        17
    }

    /// Decode a compressed point and lift it to Jacobian form.
    pub fn deserialize(bytes: &[u8], params: &Parameters<P>) -> (r: Result<
        Self,
        SerializationError,
    >)
        requires
            params.wf(),
            modulus_ok(P as int),
        ensures
            match r {
                Ok(pt) => {
                    &&& pt.wf()
                    &&& exists|q: (int, int, bool)|
                        deserialize_compressed_spec(
                            P as int,
                            params.coeff_a@,
                            params.coeff_b@,
                            params.scalar_field_order@,
                            bytes@,
                        ) == Ok::<(int, int, bool), SerializationError>(q) && pt@
                            == affine_to_proj(q)
                },
                Err(e) => deserialize_compressed_spec(
                    P as int,
                    params.coeff_a@,
                    params.coeff_b@,
                    params.scalar_field_order@,
                    bytes@,
                ) == Err::<(int, int, bool), SerializationError>(e),
            },
    {
        let aff = GroupAffine::deserialize(bytes, params)?;
        Ok(aff.into_projective())
    }

    /// Decode an uncompressed point and lift it to Jacobian form.
    pub fn deserialize_uncompressed(bytes: &[u8], params: &Parameters<P>) -> (r: Result<
        Self,
        SerializationError,
    >)
        requires
            params.wf(),
            modulus_ok(P as int),
        ensures
            match r {
                Ok(pt) => {
                    &&& pt.wf()
                    &&& exists|q: (int, int, bool)|
                        deserialize_uncompressed_spec(
                            P as int,
                            params.coeff_a@,
                            params.scalar_field_order@,
                            bytes@,
                        ) == Ok::<(int, int, bool), SerializationError>(q) && pt@
                            == affine_to_proj(q)
                },
                Err(e) => deserialize_uncompressed_spec(
                    P as int,
                    params.coeff_a@,
                    params.scalar_field_order@,
                    bytes@,
                ) == Err::<(int, int, bool), SerializationError>(e),
            },
    {
        let aff = GroupAffine::deserialize_uncompressed(bytes, params)?;
        Ok(aff.into_projective())
    }

    /// Decode trusted uncompressed bytes and lift to Jacobian form.
    pub fn deserialize_unchecked(bytes: &[u8]) -> (r: Result<Self, SerializationError>)
        requires
            modulus_ok(P as int),
        ensures
            match r {
                Ok(pt) => {
                    &&& pt.wf()
                    &&& exists|q: (int, int, bool)|
                        deserialize_unchecked_spec(P as int, bytes@) == Ok::<
                            (int, int, bool),
                            SerializationError,
                        >(q) && pt@ == affine_to_proj(q)
                },
                Err(e) => deserialize_unchecked_spec(P as int, bytes@) == Err::<
                    (int, int, bool),
                    SerializationError,
                >(e),
            },
    {
        let aff = GroupAffine::<P>::deserialize_unchecked(bytes)?;
        Ok(aff.into_projective())
    }

    /// Flatten the denoted point to field elements, through affine form.
    pub fn to_field_elements(&self) -> (r: Option<Vec<Fp<P>>>)
        requires
            self.wf(),
            self@.2 == 0 || invertible(P as int, self@.2),
            modulus_ok(P as int),
        ensures
            match r {
                Some(v) => {
                    let q = proj_to_affine(P as int, self@);
                    v@.len() == 3 && v@[0]@ == q.0 && v@[1]@ == q.1 && v@[2]@ == (
                    if q.2 {
                        1int
                    } else {
                        0int
                    })
                },
                None => false,
            },
    {
        let aff = self.into_affine();
        aff.to_field_elements()
    }
}

} // verus!
