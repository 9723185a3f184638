use vstd::prelude::*;

use crate::error::PackError;
use crate::source::{ByteSource, get_offset, read_bytes, seek};

verus! {

/// The presence mask after `i` positions: halved once per position.
pub open spec fn shifted(mask: nat, i: nat) -> nat
    decreases i,
{
    if i == 0 {
        mask
    } else {
        shifted(mask, (i - 1) as nat) / 2
    }
}

/// Byte `i` of the field is present in the stream.
pub open spec fn present(mask: nat, i: nat) -> bool {
    shifted(mask, i) % 2 == 1
}

/// How many of the first `i` bytes of the field are present in the stream.
pub open spec fn present_count(mask: nat, i: nat) -> nat
    decreases i,
{
    if i == 0 {
        0
    } else {
        present_count(mask, (i - 1) as nat) + if present(mask, (i - 1) as nat) {
            1nat
        } else {
            0nat
        }
    }
}

/// `256` raised to the power `i`.
pub open spec fn pow256(i: nat) -> nat
    decreases i,
{
    if i == 0 {
        1
    } else {
        256 * pow256((i - 1) as nat)
    }
}

/// The value of the first `i` bytes of the field, read from `s`: each
/// present byte in turn takes the next byte of `s`, placed at its position
/// (byte 0 least significant); absent bytes are zero.
pub open spec fn partial_value(s: Seq<u8>, mask: nat, i: nat) -> nat
    decreases i,
{
    if i == 0 {
        0
    } else {
        let j = (i - 1) as nat;
        partial_value(s, mask, j) + if present(mask, j) {
            s[present_count(mask, j) as int] as nat * pow256(j)
        } else {
            0nat
        }
    }
}

spec fn pow2k(i: nat) -> nat
    decreases i,
{
    if i == 0 {
        1
    } else {
        2 * pow2k((i - 1) as nat)
    }
}

proof fn lemma_pow2k_large(i: nat)
    requires
        i >= 8,
    ensures
        pow2k(i) >= 256,
    decreases i,
{
    if i > 8 {
        lemma_pow2k_large((i - 1) as nat);
    } else {
        reveal_with_fuel(pow2k, 9);
    }
}

proof fn lemma_pow256_mono(i: nat, j: nat)
    requires
        i <= j,
    ensures
        pow256(i) <= pow256(j),
    decreases j,
{
    if i < j {
        lemma_pow256_mono(i, (j - 1) as nat);
    }
}

proof fn lemma_present_count_mono(mask: nat, i: nat, j: nat)
    requires
        i <= j,
    ensures
        present_count(mask, i) <= present_count(mask, j),
    decreases j,
{
    if i < j {
        lemma_present_count_mono(mask, i, (j - 1) as nat);
    }
}

/// Reads an integer of `bytes` bytes of which only some are stored: bit `i`
/// of `present_bytes` (low to high) says whether byte `i` is in the stream.
/// The mask is shifted right once per position. Where the stream ends before
/// a present byte, it fails with `UnexpectedEof`; where the value does not fit
/// a `usize`, with `MalformedEncoding`. On failure neither the stream nor the
/// mask changes.
pub fn read_partial_int(stream: &mut ByteSource, bytes: u8, present_bytes: &mut u8) -> (r: Result<
    usize,
    PackError,
>)
    ensures
        final(stream).content() == old(stream).content(),
        r is Err ==> final(stream).position() == old(stream).position() && *final(present_bytes)
            == *old(present_bytes),
        if present_count(*old(present_bytes) as nat, bytes as nat) > old(stream).rest().len() {
            r == Err::<usize, PackError>(PackError::UnexpectedEof)
        } else if partial_value(old(stream).rest(), *old(present_bytes) as nat, bytes as nat)
            > usize::MAX {
            r == Err::<usize, PackError>(PackError::MalformedEncoding)
        } else {
            &&& r == Ok::<usize, PackError>(
                partial_value(old(stream).rest(), *old(present_bytes) as nat, bytes as nat) as usize,
            )
            &&& final(stream).position() == old(stream).position() + present_count(
                *old(present_bytes) as nat,
                bytes as nat,
            )
            &&& *final(present_bytes) as nat == shifted(*old(present_bytes) as nat, bytes as nat)
        },
{
    let ghost rest = stream.rest();
    let ghost mask0 = *present_bytes as nat;
    let start = match get_offset(stream) {
        Ok(p) => p,
        Err(e) => return Err(e),
    };
    let mut m: u8 = *present_bytes;
    let mut value: u64 = 0;
    let mut mult: u64 = 1;
    let mut i: u8 = 0;
    proof {
        reveal_with_fuel(pow256, 9);
        assert(pow256(8) == 0x1_0000_0000_0000_0000);
        assert(pow256(6) == 0x1_0000_0000_0000);
        assert(pow2k(0) == 1);
    }
    while i < bytes
        invariant
            i <= bytes,
            stream.content() == old(stream).content(),
            rest == old(stream).rest(),
            mask0 == *old(present_bytes) as nat,
            *present_bytes == *old(present_bytes),
            start == old(stream).position(),
            present_count(mask0, i as nat) <= rest.len(),
            stream.position() == start + present_count(mask0, i as nat),
            stream.rest() =~= rest.skip(present_count(mask0, i as nat) as int),
            m as nat == shifted(mask0, i as nat),
            m as nat * pow2k(i as nat) <= 255,
            i <= 7 ==> mult as nat == pow256(i as nat),
            value as nat == partial_value(rest, mask0, i as nat),
            i <= 8 ==> (value as nat) < pow256(i as nat),
            i > 8 ==> (value as nat) < pow256(8),
            pow256(8) == 0x1_0000_0000_0000_0000,
            pow256(6) == 0x1_0000_0000_0000,
        decreases bytes - i,
    {
        let ghost c = present_count(mask0, i as nat);
        if m % 2 == 1 {
            proof {
                if i >= 8 {
                    lemma_pow2k_large(i as nat);
                    let p = pow2k(i as nat);
                    assert(false) by (nonlinear_arith)
                        requires
                            m as nat * p <= 255,
                            p >= 256,
                            m >= 1,
                    ;
                }
            }
            let ghost before = stream.rest();
            let b = match read_bytes::<1>(stream) {
                Ok(a) => a[0],
                Err(_) => {
                    proof {
                        assert(present_count(mask0, (i + 1) as nat) == c + 1);
                        lemma_present_count_mono(mask0, (i + 1) as nat, bytes as nat);
                    }
                    let _ = seek(stream, start);
                    return Err(PackError::UnexpectedEof);
                },
            };
            proof {
                assert(before[0] == rest[c as int]);
                let p = pow256(i as nat);
                let v = value as nat;
                assert(v + (b as nat) * p < 256 * p) by (nonlinear_arith)
                    requires
                        v < p,
                        b <= 255,
                ;
                lemma_pow256_mono((i + 1) as nat, 8);
            }
            value = value + (b as u64) * mult;
        } else {
            proof {
                let p = pow256(i as nat);
                if i < 8 {
                    assert(p <= 256 * p);
                }
            }
        }
        proof {
            let p = pow2k(i as nat);
            assert((m / 2) as nat * (2 * p) <= m as nat * p) by (nonlinear_arith);
        }
        m = m / 2;
        if i < 7 {
            proof {
                lemma_pow256_mono(i as nat, 6);
            }
            mult = mult * 256;
        }
        i = i + 1;
        assert(stream.rest() =~= rest.skip(present_count(mask0, i as nat) as int));
    }
    if value > usize::MAX as u64 {
        let _ = seek(stream, start);
        return Err(PackError::MalformedEncoding);
    }
    *present_bytes = m;
    Ok(value as usize)
}

} // verus!
