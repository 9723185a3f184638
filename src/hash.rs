use vstd::prelude::*;

verus! {

/// A 20-byte object identifier, compared byte by byte.
#[derive(Debug, Clone, Copy, PartialEq, Eq, PartialOrd, Ord)]
pub struct Hash(pub [u8; 20]);

/// The value of a hexadecimal digit, either case.
pub open spec fn hex_digit(c: char) -> Option<nat> {
    if '0' <= c && c <= '9' {
        Some((c as nat - '0' as nat) as nat)
    } else if 'a' <= c && c <= 'f' {
        Some((c as nat - 'a' as nat + 10) as nat)
    } else if 'A' <= c && c <= 'F' {
        Some((c as nat - 'A' as nat + 10) as nat)
    } else {
        None
    }
}

/// `s` is the 40-digit hexadecimal form of some hash.
pub open spec fn is_hash_hex(s: Seq<char>) -> bool {
    s.len() == 40 && forall|i: int| 0 <= i < 40 ==> (#[trigger] hex_digit(s[i])) is Some
}

/// The byte that the digits `2 * i` and `2 * i + 1` of `s` spell.
pub open spec fn hex_byte(s: Seq<char>, i: int) -> nat {
    hex_digit(s[2 * i]).unwrap() * 16 + hex_digit(s[2 * i + 1]).unwrap()
}

/// `h` is the hash that the hexadecimal text `s` spells.
pub open spec fn spells(s: Seq<char>, h: Hash) -> bool {
    is_hash_hex(s) && forall|i: int| 0 <= i < 20 ==> h.0@[i] as nat == #[trigger] hex_byte(s, i)
}

fn digit_value(c: char) -> (r: Option<u8>)
    ensures
        match hex_digit(c) {
            Some(d) => r == Some(d as u8),
            None => r is None,
        },
{
    if '0' <= c && c <= '9' {
        Some((c as u32 - '0' as u32) as u8)
    } else if 'a' <= c && c <= 'f' {
        Some((c as u32 - 'a' as u32 + 10) as u8)
    } else if 'A' <= c && c <= 'F' {
        Some((c as u32 - 'A' as u32 + 10) as u8)
    } else {
        None
    }
}

impl Hash {
    /// Parses the 40-digit hexadecimal form of a hash.
    pub fn new_from_str(s: &str) -> (r: Option<Hash>)
        ensures
            r is Some <==> is_hash_hex(s@),
            r matches Some(h) ==> spells(s@, h),
    {
        if s.unicode_len() != 40 {
            return None;
        }
        let mut bytes: [u8; 20] = vstd::array::array_fill_for_copy_types(0u8);
        let mut i: usize = 0;
        while i < 20
            invariant
                s@.len() == 40,
                i <= 20,
                forall|j: int| 0 <= j < 2 * i ==> (#[trigger] hex_digit(s@[j])) is Some,
                forall|j: int| 0 <= j < i ==> bytes@[j] as nat == #[trigger] hex_byte(s@, j),
            decreases 20 - i,
        {
            let hi = digit_value(s.get_char(2 * i));
            let lo = digit_value(s.get_char(2 * i + 1));
            match (hi, lo) {
                (Some(h), Some(l)) => {
                    bytes[i] = h * 16 + l;
                    assert(hex_byte(s@, i as int) == h * 16 + l);
                },
                _ => {
                    assert(!is_hash_hex(s@)) by {
                        if hi is None {
                            assert(hex_digit(s@[2 * i as int]) is None);
                        } else {
                            assert(hex_digit(s@[2 * i + 1]) is None);
                        }
                    }
                    return None;
                },
            }
            i = i + 1;
        }
        Some(Hash(bytes))
    }
}

} // verus!
