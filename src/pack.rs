use vstd::prelude::*;

use crate::error::PackError;
use crate::hash::{is_hash_hex, spells};

verus! {

/// The length of a pack archive's header, before its entries.
pub const PACK_HEADER_LEN: usize = 12;

/// The length of a pack archive's trailing checksum.
pub const PACK_TRAILER_LEN: usize = 20;

/// The entries of a pack archive: what lies between its 12-byte header and
/// its 20-byte trailing checksum.
pub fn get_pack_raw_data(data: Vec<u8>) -> (r: Vec<u8>)
    requires
        data.len() >= PACK_HEADER_LEN + PACK_TRAILER_LEN,
    ensures
        r@ == data@.subrange(PACK_HEADER_LEN as int, data.len() - PACK_TRAILER_LEN),
{
    let result = vstd::slice::slice_subrange(
        data.as_slice(),
        PACK_HEADER_LEN,
        data.len() - PACK_TRAILER_LEN,
    );
    vstd::slice::slice_to_vec(result)
}

/// The file name of a pack archive ends in `.pack` (case-sensitive).
pub open spec fn is_pack_name(name: Seq<char>) -> bool {
    name.len() >= 5 && name.subrange(name.len() - 5, name.len() as int) == seq![
        '.',
        'p',
        'a',
        'c',
        'k',
    ]
}

/// The characters of a pack archive's file name that spell its hash: the 40
/// after the 5-character prefix `pack-`.
pub open spec fn hash_part(name: Seq<char>) -> Seq<char> {
    name.subrange(5, 45)
}

/// The name of a pack archive carries a parseable hash where one is expected.
pub open spec fn has_hash_part(name: Seq<char>) -> bool {
    name.len() >= 45 && is_hash_hex(hash_part(name))
}

/// The indices, in order, of the pack archives among the first `k` names.
pub open spec fn pack_indices(names: Seq<String>, k: int) -> Seq<int>
    decreases k,
{
    if k <= 0 {
        Seq::empty()
    } else if is_pack_name(names[k - 1]@) {
        pack_indices(names, k - 1).push(k - 1)
    } else {
        pack_indices(names, k - 1)
    }
}

fn is_pack_file_name(name: &str) -> (r: bool)
    ensures
        r == is_pack_name(name@),
{
    let len = name.unicode_len();
    if len < 5 {
        return false;
    }
    let r = name.get_char(len - 5) == '.' && name.get_char(len - 4) == 'p' && name.get_char(len - 3)
        == 'a' && name.get_char(len - 2) == 'c' && name.get_char(len - 1) == 'k';
    proof {
        let tail = name@.subrange(len - 5, len as int);
        if r {
            assert(tail =~= seq!['.', 'p', 'a', 'c', 'k']);
        } else if tail == seq!['.', 'p', 'a', 'c', 'k'] {
            assert(tail[0] == '.' && tail[1] == 'p' && tail[2] == 'a' && tail[3] == 'c' && tail[4]
                == 'k');
        }
    }
    r
}

/// The characters of a pack archive's file name that spell its hash.
fn get_hash_form_filename(filename: &str) -> (r: String)
    requires
        filename@.len() >= 45,
    ensures
        r@ == hash_part(filename@),
{
    String::from_str(filename.substring_char(5, 45))
}

/// Picks the pack archives out of the file names of a directory: the names
/// that end in `.pack`; all other names are skipped. Gives their indices in `names`, in order, and the
/// hash that each one's name spells after its `pack-` prefix. A pack
/// archive's name without such a hash fails with `MalformedEncoding`.
pub fn select_pack_files(names: &Vec<String>) -> (r: Result<
    (Vec<usize>, Vec<crate::hash::Hash>),
    PackError,
>)
    ensures
        r is Ok <==> forall|i: int|
            0 <= i < names.len() && is_pack_name(#[trigger] names@[i]@) ==> has_hash_part(
                names@[i]@,
            ),
        r matches Err(e) ==> e == PackError::MalformedEncoding,
        r matches Ok((idx, hashes)) ==> {
            let want = pack_indices(names@, names.len() as int);
            &&& idx.len() == want.len()
            &&& hashes.len() == want.len()
            &&& forall|j: int| 0 <= j < want.len() ==> idx@[j] as int == #[trigger] want[j]
            &&& forall|j: int|
                0 <= j < want.len() ==> spells(hash_part(names@[want[j]]@), #[trigger] hashes@[j])
        },
{
    let mut idx: Vec<usize> = Vec::new();
    let mut hashes: Vec<crate::hash::Hash> = Vec::new();
    let mut i: usize = 0;
    while i < names.len()
        invariant
            i <= names.len(),
            idx.len() == pack_indices(names@, i as int).len(),
            hashes.len() == idx.len(),
            forall|j: int|
                0 <= j < idx.len() ==> idx@[j] as int == #[trigger] pack_indices(
                    names@,
                    i as int,
                )[j],
            forall|j: int|
                0 <= j < idx.len() ==> spells(
                    hash_part(names@[pack_indices(names@, i as int)[j]]@),
                    #[trigger] hashes@[j],
                ),
            forall|k: int|
                0 <= k < i && is_pack_name(#[trigger] names@[k]@) ==> has_hash_part(names@[k]@),
        decreases names.len() - i,
    {
        let name = names[i].as_str();
        if is_pack_file_name(name) {
            if name.unicode_len() < 45 {
                return Err(PackError::MalformedEncoding);
            }
            let hash_string = get_hash_form_filename(name);
            match crate::hash::Hash::new_from_str(hash_string.as_str()) {
                Some(h) => {
                    idx.push(i);
                    hashes.push(h);
                },
                None => {
                    return Err(PackError::MalformedEncoding);
                },
            }
        }
        i = i + 1;
    }
    Ok((idx, hashes))
}

} // verus!
