use vstd::arithmetic::power2::{lemma2_to64, pow2};
use vstd::prelude::*;

use crate::error::PackError;
use crate::source::{ByteSource, get_offset, read_var_int_byte, seek};

verus! {

/// `128` raised to the power `k`.
pub open spec fn pow128(k: nat) -> nat
    decreases k,
{
    if k == 0 {
        1
    } else {
        128 * pow128((k - 1) as nat)
    }
}

/// `t` is the index of the byte that ends the variable-length integer at the
/// start of `s`: the first byte whose continuation flag is clear.
pub open spec fn ends_at(s: Seq<u8>, t: int) -> bool {
    &&& 0 <= t < s.len()
    &&& s[t] < 128
    &&& forall|j: int| 0 <= j < t ==> s[j] >= 128
}

/// The number of bytes of the variable-length integer at the start of `s`,
/// or `None` where no byte of `s` ends it.
pub open spec fn var_int_len(s: Seq<u8>) -> Option<nat> {
    if exists|t: int| ends_at(s, t) {
        Some(((choose|t: int| ends_at(s, t)) + 1) as nat)
    } else {
        None
    }
}

/// Little-endian groups of seven bits: the low seven bits of each byte, the
/// first byte least significant.
pub open spec fn le7(s: Seq<u8>) -> nat
    decreases s.len(),
{
    if s.len() == 0 {
        0
    } else {
        (s[0] % 128) as nat + 128 * le7(s.drop_first())
    }
}

/// The size encoding at the start of `s`: its value and its length in bytes.
pub open spec fn size_decode(s: Seq<u8>) -> Option<(nat, nat)> {
    match var_int_len(s) {
        Some(n) => Some((le7(s.take(n as int)), n)),
        None => None,
    }
}

/// The type tag, the size, and the length in bytes of the object header at
/// the start of `s`: the first byte holds the low four bits of the size and,
/// above them, the three bits of the type; each further byte adds seven bits
/// of the size.
pub open spec fn type_size_decode(s: Seq<u8>) -> Option<(nat, nat, nat)> {
    if s.len() == 0 {
        None
    } else if s[0] < 128 {
        Some(((s[0] / 16) as nat, (s[0] % 16) as nat, 1))
    } else {
        match size_decode(s.drop_first()) {
            Some((v, n)) => Some(((s[0] % 128 / 16) as nat, (s[0] % 16) as nat + 16 * v, n + 1)),
            None => None,
        }
    }
}

/// The value that the leading bytes of an offset encoding (all with their
/// continuation flag set) accumulate: each shifts the value by seven bits,
/// adds its low seven bits, and adds one.
pub open spec fn offset_acc(p: Seq<u8>) -> nat
    decreases p.len(),
{
    if p.len() == 0 {
        0
    } else {
        offset_acc(p.drop_last()) * 128 + (p.last() % 128) as nat + 1
    }
}

/// The value of a complete offset encoding `s` (its last byte ends it).
pub open spec fn offset_value(s: Seq<u8>) -> nat {
    offset_acc(s.drop_last()) * 128 + (s.last() % 128) as nat
}

/// The offset encoding at the start of `s`: its value and its length in bytes.
pub open spec fn offset_decode(s: Seq<u8>) -> Option<(nat, nat)> {
    match var_int_len(s) {
        Some(n) => Some((offset_value(s.take(n as int)), n)),
        None => None,
    }
}

/// The minimal size encoding of `n`.
pub open spec fn size_bytes(n: nat) -> Seq<u8>
    decreases n,
{
    if n < 128 {
        seq![n as u8]
    } else {
        seq![(n % 128 + 128) as u8] + size_bytes(n / 128)
    }
}

/// The minimal object header for type tag `t` and size `n`.
pub open spec fn type_size_bytes(t: nat, n: nat) -> Seq<u8> {
    if n < 16 {
        seq![(t * 16 + n) as u8]
    } else {
        seq![(128 + t * 16 + n % 16) as u8] + size_bytes(n / 16)
    }
}

/// The leading bytes of the offset encoding of any value whose bits above
/// the lowest seven make `q`.
pub open spec fn offset_prefix(q: nat) -> Seq<u8>
    decreases q,
{
    if q == 0 {
        Seq::empty()
    } else {
        offset_prefix(((q - 1) as nat) / 128).push((((q - 1) as nat) % 128 + 128) as u8)
    }
}

/// The offset encoding of `v`, most significant byte first.
pub open spec fn offset_bytes(v: nat) -> Seq<u8> {
    offset_prefix(v / 128).push((v % 128) as u8)
}

proof fn lemma_ends_unique(s: Seq<u8>, t: int)
    requires
        ends_at(s, t),
    ensures
        var_int_len(s) == Some((t + 1) as nat),
{
    let c = choose|u: int| ends_at(s, u);
    assert(ends_at(s, c));
    if c < t {
        assert(s[c] >= 128);
    } else if c > t {
        assert(s[t] >= 128);
    }
}

proof fn lemma_no_end(s: Seq<u8>)
    requires
        forall|j: int| 0 <= j < s.len() ==> s[j] >= 128,
    ensures
        var_int_len(s) is None,
{
    assert forall|t: int| !ends_at(s, t) by {
        if 0 <= t < s.len() {
            assert(s[t] >= 128);
        }
    }
}

proof fn lemma_le7_append(a: Seq<u8>, b: Seq<u8>)
    ensures
        le7(a + b) == le7(a) + pow128(a.len()) * le7(b),
    decreases a.len(),
{
    if a.len() == 0 {
        assert(a + b =~= b);
    } else {
        assert((a + b).drop_first() =~= a.drop_first() + b);
        assert((a + b)[0] == a[0]);
        lemma_le7_append(a.drop_first(), b);
        assert(le7(a + b) == (a[0] % 128) as nat + 128 * le7(a.drop_first() + b));
        assert(pow128(a.len()) == 128 * pow128((a.len() - 1) as nat));
        let x = le7(a.drop_first());
        let p = pow128((a.len() - 1) as nat);
        let y = le7(b);
        assert(128 * (x + p * y) == 128 * x + (128 * p) * y) by (nonlinear_arith);
    }
}

proof fn lemma_le7_step(s: Seq<u8>, k: int)
    requires
        0 <= k < s.len(),
    ensures
        le7(s.take(k + 1)) == le7(s.take(k)) + pow128(k as nat) * (s[k] % 128) as nat,
{
    assert(s.take(k + 1) =~= s.take(k) + seq![s[k]]);
    lemma_le7_append(s.take(k), seq![s[k]]);
    assert(seq![s[k]].drop_first() =~= Seq::<u8>::empty());
    assert(le7(seq![s[k]]) == (s[k] % 128) as nat + 128 * le7(Seq::<u8>::empty()));
}

proof fn lemma_le7_prefix_le(s: Seq<u8>, k: int, m: int)
    requires
        0 <= k <= m <= s.len(),
    ensures
        le7(s.take(k)) <= le7(s.take(m)),
{
    assert(s.take(m) =~= s.take(k) + s.subrange(k, m));
    lemma_le7_append(s.take(k), s.subrange(k, m));
    let p = pow128(k as nat);
    let y = le7(s.subrange(k, m));
    assert(p * y >= 0) by (nonlinear_arith)
        requires
            p >= 0,
            y >= 0,
    ;
}

proof fn lemma_offset_acc_step(s: Seq<u8>, k: int)
    requires
        0 <= k < s.len(),
    ensures
        offset_acc(s.take(k + 1)) == offset_acc(s.take(k)) * 128 + (s[k] % 128) as nat + 1,
{
    assert(s.take(k + 1).drop_last() =~= s.take(k));
}

/// Reads a size encoding: seven-bit groups, least significant first, while
/// the continuation flag is set. Where no byte ends it, it fails with
/// `UnexpectedEof`; where its value does not fit a `usize`, with
/// `MalformedEncoding`. On failure nothing is consumed.
pub fn read_size_encoding(stream: &mut ByteSource) -> (r: Result<usize, PackError>)
    ensures
        final(stream).content() == old(stream).content(),
        r is Err ==> final(stream).position() == old(stream).position(),
        match size_decode(old(stream).rest()) {
            None => r == Err::<usize, PackError>(PackError::UnexpectedEof),
            Some((v, n)) => if v <= usize::MAX {
                r == Ok::<usize, PackError>(v as usize)
                    && final(stream).position() == old(stream).position() + n
            } else {
                r == Err::<usize, PackError>(PackError::MalformedEncoding)
            },
        },
{
    let ghost rest = stream.rest();
    let start = match get_offset(stream) {
        Ok(p) => p,
        Err(e) => return Err(e),
    };
    let mut value: usize = 0;
    let mut mult: usize = 1;
    let mut big = false;
    let mut overflow = false;
    let ghost mut k: int = 0;
    loop
        invariant
            stream.content() == old(stream).content(),
            rest == old(stream).rest(),
            start == old(stream).position(),
            0 <= k <= rest.len(),
            stream.position() == start + k,
            stream.rest() =~= rest.skip(k),
            forall|j: int| 0 <= j < k ==> rest[j] >= 128,
            !overflow ==> value == le7(rest.take(k)),
            overflow ==> le7(rest.take(k)) > usize::MAX,
            !big ==> mult == pow128(k as nat),
            big ==> pow128(k as nat) > usize::MAX,
        decreases rest.len() - k,
    {
        let ghost before = stream.rest();
        let (chunk, more) = match read_var_int_byte(stream) {
            Ok(p) => p,
            Err(_) => {
                proof {
                    assert(rest.len() == k);
                    lemma_no_end(rest);
                }
                let _ = seek(stream, start);
                return Err(PackError::UnexpectedEof);
            },
        };
        proof {
            assert(before.len() > 0);
            assert(k < rest.len());
            assert(before[0] == rest[k]);
            lemma_le7_step(rest, k);
            lemma_le7_prefix_le(rest, k, k + 1);
            assert(chunk as nat == (rest[k] % 128) as nat);
            if chunk == 0 {
                assert(pow128(k as nat) * 0 == 0);
            }
        }
        if !overflow && chunk != 0 {
            if big {
                proof {
                    let p = pow128(k as nat);
                    let c = chunk as nat;
                    assert(p * c >= p) by (nonlinear_arith)
                        requires
                            c >= 1,
                    ;
                }
                overflow = true;
            } else {
                match (chunk as usize).checked_mul(mult) {
                    Some(p) => match value.checked_add(p) {
                        Some(v) => {
                            value = v;
                        },
                        None => {
                            overflow = true;
                        },
                    },
                    None => {
                        overflow = true;
                    },
                }
            }
        }
        proof {
            k = k + 1;
        }
        assert(stream.rest() =~= rest.skip(k));
        if !more {
            proof {
                assert(ends_at(rest, k - 1));
                lemma_ends_unique(rest, k - 1);
            }
            if overflow {
                let _ = seek(stream, start);
                return Err(PackError::MalformedEncoding);
            }
            assert(size_decode(rest) == Some((le7(rest.take(k)), k as nat)));
            assert(stream.position() == old(stream).position() + k);
            assert(value == le7(rest.take(k)));
            return Ok(value);
        }
        if !big {
            match mult.checked_mul(128) {
                Some(m) => {
                    mult = m;
                },
                None => {
                    big = true;
                },
            }
        } else {
            proof {
                assert(pow128(k as nat) == 128 * pow128((k - 1) as nat));
            }
        }
    }
}

/// The low `bits` bits of `value`.
fn keep_bits(value: usize, bits: u8) -> (r: usize)
    requires
        bits < 32,
    ensures
        r as nat == value as nat % pow2(bits as nat),
{
    proof {
        lemma2_to64();
        vstd::arithmetic::power2::lemma_pow2_strictly_increases(bits as nat, 32);
        vstd::bits::lemma_usize_shl_is_mul(1, bits as usize);
        vstd::bits::lemma_usize_low_bits_mask_is_mod(value, bits as nat);
        vstd::bits::lemma_low_bits_mask_values();
    }
    let mask: usize = (1usize << bits) - 1;
    proof {
        assert(mask == vstd::bits::low_bits_mask(bits as nat));
    }
    value & mask
}

/// Writes the minimal size encoding of `number`: seven-bit groups, least
/// significant first, each but the last with its continuation flag set.
pub fn write_size_encoding(number: usize) -> (r: Vec<u8>)
    ensures
        r@ == size_bytes(number as nat),
{
    let mut num: Vec<u8> = Vec::new();
    let mut n: usize = number;
    loop
        invariant
            num@ + size_bytes(n as nat) == size_bytes(number as nat),
        decreases n,
    {
        if n / 128 > 0 {
            let byte: u8 = (n % 128) as u8 + 128;
            proof {
                assert(size_bytes(n as nat) == seq![byte] + size_bytes(n as nat / 128));
                assert(num@.push(byte) + size_bytes(n as nat / 128) =~= num@ + size_bytes(n as nat));
            }
            num.push(byte);
        } else {
            let byte: u8 = n as u8;
            proof {
                assert(size_bytes(n as nat) == seq![byte]);
                assert(num@.push(byte) =~= num@ + size_bytes(n as nat));
            }
            num.push(byte);
            return num;
        }
        n = n / 128;
    }
}

/// Writes the minimal object header for type tag `object_type` and `size`.
pub fn write_type_and_size(object_type: u8, size: usize) -> (r: Vec<u8>)
    requires
        object_type < 8,
    ensures
        r@ == type_size_bytes(object_type as nat, size as nat),
{
    if size < 16 {
        vec![object_type * 16 + size as u8]
    } else {
        let mut r: Vec<u8> = vec![128 + object_type * 16 + (size % 16) as u8];
        let mut tail = write_size_encoding(size / 16);
        r.append(&mut tail);
        r
    }
}

/// Reads an object header: its type tag and its size. Where no byte ends it,
/// it fails with `UnexpectedEof`; where the size does not fit a `usize`, with
/// `MalformedEncoding`. On failure nothing is consumed.
#[verifier::rlimit(30)]
pub fn read_type_and_size(stream: &mut ByteSource) -> (r: Result<(u8, usize), PackError>)
    ensures
        final(stream).content() == old(stream).content(),
        r is Err ==> final(stream).position() == old(stream).position(),
        match type_size_decode(old(stream).rest()) {
            None => r == Err::<(u8, usize), PackError>(PackError::UnexpectedEof),
            Some((t, n, len)) => if n <= usize::MAX {
                r == Ok::<(u8, usize), PackError>((t as u8, n as usize))
                    && final(stream).position() == old(stream).position() + len
            } else {
                r == Err::<(u8, usize), PackError>(PackError::MalformedEncoding)
            },
        },
{
    let ghost rest = stream.rest();
    let start = match get_offset(stream) {
        Ok(p) => p,
        Err(e) => return Err(e),
    };
    let (first, more) = match read_var_int_byte(stream) {
        Ok(p) => p,
        Err(e) => return Err(e),
    };
    proof {
        assert(pow2(3) == 8 && pow2(4) == 16) by {
            lemma2_to64();
        }
    }
    let object_type = keep_bits((first / 16) as usize, 3) as u8;
    let low = keep_bits(first as usize, 4);
    if !more {
        return Ok((object_type, low));
    }
    assert(stream.rest() =~= rest.drop_first());
    match read_size_encoding(stream) {
        Ok(v) => match v.checked_mul(16) {
            Some(m) => match m.checked_add(low) {
                Some(size) => Ok((object_type, size)),
                None => {
                    let _ = seek(stream, start);
                    Err(PackError::MalformedEncoding)
                },
            },
            None => {
                let _ = seek(stream, start);
                Err(PackError::MalformedEncoding)
            },
        },
        Err(e) => {
            let _ = seek(stream, start);
            Err(e)
        },
    }
}

/// Reads an offset encoding: seven-bit groups, most significant first, with
/// one added after each byte whose continuation flag is set. Where no byte
/// ends it, it fails with `UnexpectedEof`; where its value does not fit a
/// `u64`, with `MalformedEncoding`. On failure nothing is consumed.
pub fn read_offset_encoding(stream: &mut ByteSource) -> (r: Result<u64, PackError>)
    ensures
        final(stream).content() == old(stream).content(),
        r is Err ==> final(stream).position() == old(stream).position(),
        match offset_decode(old(stream).rest()) {
            None => r == Err::<u64, PackError>(PackError::UnexpectedEof),
            Some((v, n)) => if v <= u64::MAX {
                r == Ok::<u64, PackError>(v as u64)
                    && final(stream).position() == old(stream).position() + n
            } else {
                r == Err::<u64, PackError>(PackError::MalformedEncoding)
            },
        },
{
    let ghost rest = stream.rest();
    let start = match get_offset(stream) {
        Ok(p) => p,
        Err(e) => return Err(e),
    };
    let mut value: u64 = 0;
    let mut overflow = false;
    let ghost mut k: int = 0;
    loop
        invariant
            stream.content() == old(stream).content(),
            rest == old(stream).rest(),
            start == old(stream).position(),
            0 <= k <= rest.len(),
            stream.position() == start + k,
            stream.rest() =~= rest.skip(k),
            forall|j: int| 0 <= j < k ==> rest[j] >= 128,
            !overflow ==> value == offset_acc(rest.take(k)),
            overflow ==> offset_acc(rest.take(k)) > u64::MAX,
        decreases rest.len() - k,
    {
        let ghost before = stream.rest();
        let (chunk, more) = match read_var_int_byte(stream) {
            Ok(p) => p,
            Err(_) => {
                proof {
                    assert(rest.len() == k);
                    lemma_no_end(rest);
                }
                let _ = seek(stream, start);
                return Err(PackError::UnexpectedEof);
            },
        };
        proof {
            assert(before.len() > 0);
            assert(before[0] == rest[k]);
            assert(chunk as nat == (rest[k] % 128) as nat);
            let a = offset_acc(rest.take(k));
            assert(a * 128 >= a) by (nonlinear_arith)
                requires
                    a >= 0,
            ;
        }
        if !more {
            proof {
                assert(ends_at(rest, k));
                lemma_ends_unique(rest, k);
                assert(rest.take(k + 1).drop_last() =~= rest.take(k));
                assert(rest.take(k + 1).last() == rest[k]);
                assert(offset_decode(rest) == Some((offset_value(rest.take(k + 1)), (k + 1) as nat)));
            }
            let result = if overflow {
                None
            } else {
                match value.checked_mul(128) {
                    Some(m) => m.checked_add(chunk as u64),
                    None => None,
                }
            };
            match result {
                Some(v) => {
                    assert(stream.position() == old(stream).position() + k + 1);
                    return Ok(v);
                },
                None => {
                    let _ = seek(stream, start);
                    return Err(PackError::MalformedEncoding);
                },
            }
        }
        proof {
            lemma_offset_acc_step(rest, k);
        }
        if !overflow {
            match value.checked_mul(128) {
                Some(m) => match m.checked_add(chunk as u64 + 1) {
                    Some(x) => {
                        value = x;
                    },
                    None => {
                        overflow = true;
                    },
                },
                None => {
                    overflow = true;
                },
            }
        }
        proof {
            k = k + 1;
        }
        assert(stream.rest() =~= rest.skip(k));
    }
}

/// Writes the offset encoding of `number`, most significant byte first:
/// the low seven bits last, and before them, for what remains above, that
/// remainder less one, seven bits at a time, with the continuation flag set.
pub fn write_offset_encoding(number: u64) -> (r: Vec<u8>)
    ensures
        r@ == offset_bytes(number as nat),
{
    let ghost target = offset_bytes(number as nat);
    let mut num: Vec<u8> = Vec::new();
    let mut n: u64 = number;
    num.push((n % 128) as u8);
    n = n / 128;
    assert(offset_prefix(n as nat) =~= target.take(target.len() - 1));
    while n > 0
        invariant
            offset_prefix(n as nat).len() + num.len() == target.len(),
            offset_prefix(n as nat) == target.take(offset_prefix(n as nat).len() as int),
            forall|i: int| 0 <= i < num.len() ==> num@[i] == target[target.len() - 1 - i],
        decreases n,
    {
        let ghost q = n as nat;
        let ghost pre = offset_prefix(q);
        n = n - 1;
        let byte: u8 = (n % 128) as u8 + 128;
        n = n / 128;
        proof {
            assert(pre == offset_prefix(n as nat).push(byte));
            assert(offset_prefix(n as nat) =~= target.take(offset_prefix(n as nat).len() as int));
            assert(target[pre.len() - 1] == pre[pre.len() - 1]);
        }
        num.push(byte);
    }
    assert(num.len() == target.len());
    let mut out: Vec<u8> = Vec::new();
    let mut i: usize = num.len();
    while i > 0
        invariant
            i <= num.len(),
            num.len() == target.len(),
            forall|j: int| 0 <= j < num.len() ==> num@[j] == target[target.len() - 1 - j],
            out@ == target.take(target.len() - i),
        decreases i,
    {
        i = i - 1;
        out.push(num[i]);
        assert(out@ =~= target.take(target.len() - i));
    }
    assert(out@ =~= target);
    out
}

proof fn lemma_size_bytes(n: nat)
    ensures
        size_bytes(n).len() >= 1,
        size_bytes(n).last() < 128,
        forall|j: int| 0 <= j < size_bytes(n).len() - 1 ==> size_bytes(n)[j] >= 128,
        le7(size_bytes(n)) == n,
    decreases n,
{
    if n < 128 {
        assert(seq![n as u8].drop_first() =~= Seq::<u8>::empty());
        assert(le7(seq![n as u8]) == (n as u8 % 128) as nat + 128 * le7(Seq::<u8>::empty()));
    } else {
        let head = seq![(n % 128 + 128) as u8];
        let tail = size_bytes(n / 128);
        lemma_size_bytes(n / 128);
        assert((head + tail).drop_first() =~= tail);
        assert((head + tail)[0] == (n % 128 + 128) as u8);
        assert(le7(head + tail) == ((n % 128 + 128) as u8 % 128) as nat + 128 * le7(tail));
        assert forall|j: int| 0 <= j < size_bytes(n).len() - 1 implies size_bytes(n)[j] >= 128 by {
            if j > 0 {
                assert(size_bytes(n)[j] == tail[j - 1]);
            }
        }
    }
}

proof fn lemma_offset_prefix(q: nat)
    ensures
        offset_acc(offset_prefix(q)) == q,
        forall|j: int| 0 <= j < offset_prefix(q).len() ==> offset_prefix(q)[j] >= 128,
    decreases q,
{
    if q > 0 {
        let q2 = ((q - 1) as nat) / 128;
        lemma_offset_prefix(q2);
        assert(offset_prefix(q).drop_last() =~= offset_prefix(q2));
    }
}

/// Decoding the size encoding that `write_size_encoding` gives for `n`,
/// whatever follows it, yields `n` and consumes exactly that encoding.
pub proof fn lemma_size_round_trip(n: nat, rest: Seq<u8>)
    ensures
        size_decode(size_bytes(n) + rest) == Some((n, size_bytes(n).len())),
{
    let e = size_bytes(n);
    let s = e + rest;
    lemma_size_bytes(n);
    assert(ends_at(s, e.len() - 1));
    lemma_ends_unique(s, e.len() - 1);
    assert(s.take(e.len() as int) =~= e);
}

/// Decoding the object header that `write_type_and_size` gives for type tag
/// `t` and size `n`, whatever follows it, yields `(t, n)` and consumes
/// exactly that header.
pub proof fn lemma_type_size_round_trip(t: nat, n: nat, rest: Seq<u8>)
    requires
        t < 8,
    ensures
        type_size_decode(type_size_bytes(t, n) + rest) == Some((t, n, type_size_bytes(t, n).len())),
{
    let e = type_size_bytes(t, n);
    let s = e + rest;
    if n >= 16 {
        lemma_size_round_trip(n / 16, rest);
        assert(s.drop_first() =~= size_bytes(n / 16) + rest);
    }
}

/// Decoding the offset encoding that `write_offset_encoding` gives for `v`,
/// whatever follows it, yields `v` and consumes exactly that encoding.
pub proof fn lemma_offset_round_trip(v: u64, rest: Seq<u8>)
    ensures
        offset_decode(offset_bytes(v as nat) + rest) == Some((v as nat, offset_bytes(v as nat).len())),
{
    let e = offset_bytes(v as nat);
    let s = e + rest;
    lemma_offset_prefix(v as nat / 128);
    assert(ends_at(s, e.len() - 1));
    lemma_ends_unique(s, e.len() - 1);
    assert(s.take(e.len() as int) =~= e);
    assert(e.drop_last() =~= offset_prefix(v as nat / 128));
}

/// Packing type tag `t` and size `n` into one value (the low four bits of
/// the size, the tag above them, the rest of the size from bit seven up) and
/// writing that value as a size encoding gives the same bytes as
/// `write_type_and_size(t, n)`.
pub proof fn lemma_packed_header(t: nat, n: nat)
    requires
        t < 8,
    ensures
        size_bytes(n % 16 + 16 * t + 128 * (n / 16)) == type_size_bytes(t, n),
{
    let p = n % 16 + 16 * t + 128 * (n / 16);
    if n >= 16 {
        assert(p % 128 == n % 16 + 16 * t && p / 128 == n / 16) by (nonlinear_arith)
            requires
                p == n % 16 + 16 * t + 128 * (n / 16),
                t < 8,
                n % 16 < 16,
        ;
        assert(p >= 128) by (nonlinear_arith)
            requires
                p == n % 16 + 16 * t + 128 * (n / 16),
                n >= 16,
        ;
    } else {
        assert(n / 16 == 0 && n % 16 == n);
    }
}

} // verus!
