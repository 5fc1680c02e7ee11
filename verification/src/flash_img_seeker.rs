//! Block-hash tables over in-memory images, and the scan that locates one
//! image's table inside another's.

use crate::error::Error;
use std::collections::hash_map::DefaultHasher;
use std::hash::{Hash, Hasher};
use vstd::prelude::*;

verus! {

pub const HEADER_SZ: usize = 16;

/// One block of an image: its offset, its hash, and its leading bytes.
#[derive(Debug)]
pub struct ImgHashTable {
    pub offset: usize,
    pub hash: u64,
    pub header: [u8; HEADER_SZ],
}

/// Relies on std's `DefaultHasher` (`new`, `Hash::hash`, `finish`): a
/// 64-bit hash of the bytes. The value is stable within one process but
/// not documented to be stable across Rust releases, so nothing is stated
/// of it.
#[verifier::external_body]
pub(crate) fn compute_hash(t: &Vec<u8>) -> u64 {
    let mut s = DefaultHasher::new();
    t.hash(&mut s);
    s.finish()
}

/// Whether a table can be built: the data either splits into whole
/// blocks, or its final partial block still holds a full header.
pub open spec fn blocks_ok(len: int, block_size: int) -> bool {
    len % block_size == 0 || len % block_size >= HEADER_SZ
}

/// Number of blocks: every full one, plus a final partial one if any.
pub open spec fn spec_block_count(len: int, block_size: int) -> int {
    (len + block_size - 1) / block_size
}

/// Builds the block-hash table of in-memory image data: one entry per
/// `block_size` slice (the last may be shorter), each carrying its
/// offset and its leading `HEADER_SZ` bytes. Data whose final partial
/// block cannot hold a header is rejected.
pub fn compute_hash_by_block(data: &Vec<u8>, block_size: usize) -> (r: Result<
    Vec<ImgHashTable>,
    Error,
>)
    requires
        block_size > HEADER_SZ,
    ensures
        blocks_ok(data@.len() as int, block_size as int) ==> {
            &&& r is Ok
            &&& r->Ok_0@.len() == spec_block_count(data@.len() as int, block_size as int)
            &&& forall|i: int|
                0 <= i < r->Ok_0@.len() ==> (#[trigger] r->Ok_0@[i]).offset == i * block_size
            &&& forall|i: int|
                0 <= i < r->Ok_0@.len() ==> (#[trigger] r->Ok_0@[i]).header@ == data@.subrange(
                    i * block_size,
                    i * block_size + HEADER_SZ,
                )
        },
        !blocks_ok(data@.len() as int, block_size as int) ==> r == Err::<Vec<ImgHashTable>, Error>(
            Error::ReadErr,
        ),
{
    let len = data.len();
    let remaining = len % block_size;
    if remaining != 0 && remaining < HEADER_SZ {
        return Err(Error::ReadErr);
    }
    let mut table: Vec<ImgHashTable> = Vec::new();
    let mut offset: usize = 0;
    proof {
        assert(table@.len() == 0);
        assert(table@.len() * block_size == 0);
        if len == 0 {
            vstd::arithmetic::div_mod::lemma_fundamental_div_mod_converse(
                block_size as int - 1,
                block_size as int,
                0,
                block_size as int - 1,
            );
            assert(spec_block_count(0, block_size as int) == 0);
        }
    }
    while offset < len
        invariant
            block_size > HEADER_SZ,
            len == data@.len(),
            remaining == len as int % (block_size as int),
            remaining == 0 || remaining >= HEADER_SZ,
            0 <= offset <= len,
            offset < len ==> offset == table@.len() * block_size,
            offset >= len ==> offset == len && table@.len() == spec_block_count(
                len as int,
                block_size as int,
            ),
            forall|i: int|
                0 <= i < table@.len() ==> (#[trigger] table@[i]).offset == i * block_size,
            forall|i: int|
                0 <= i < table@.len() ==> (#[trigger] table@[i]).header@ == data@.subrange(
                    i * block_size,
                    i * block_size + HEADER_SZ,
                ),
        decreases len - offset,
    {
        let ghost nb = table@.len() as int;
        let full = len - offset >= block_size;
        let block_end = if full {
            offset + block_size
        } else {
            len
        };
        proof {
            if !full {
                // a final partial block: its length is the remainder, so
                // it holds at least a header
                vstd::arithmetic::div_mod::lemma_fundamental_div_mod_converse(
                    len as int,
                    block_size as int,
                    nb,
                    len - offset,
                );
                assert(len - offset == remaining);
            }
            assert(offset + HEADER_SZ <= block_end);
        }
        let mut buffer: Vec<u8> = Vec::new();
        let mut k: usize = offset;
        while k < block_end
            invariant
                offset <= k <= block_end <= len,
                len == data@.len(),
                buffer@ == data@.subrange(offset as int, k as int),
            decreases block_end - k,
        {
            buffer.push(data[k]);
            proof {
                assert(buffer@ =~= data@.subrange(offset as int, k as int + 1));
            }
            k = k + 1;
        }
        let hash = compute_hash(&buffer);
        let mut header = [0u8; HEADER_SZ];
        let mut h: usize = 0;
        while h < HEADER_SZ
            invariant
                0 <= h <= HEADER_SZ,
                offset + HEADER_SZ <= len,
                len == data@.len(),
                header@.len() == HEADER_SZ,
                forall|i: int| 0 <= i < h ==> header@[i] == data@[offset + i],
            decreases HEADER_SZ - h,
        {
            header[h] = data[offset + h];
            h = h + 1;
        }
        proof {
            assert(header@ =~= data@.subrange(offset as int, offset as int + HEADER_SZ));
        }
        let entry = ImgHashTable { offset, hash, header };
        table.push(entry);
        offset = block_end;
        proof {
            assert(table@.len() == nb + 1);
            assert(table@[nb].offset == nb * block_size);
            if full {
                assert(offset == (nb + 1) * block_size) by (nonlinear_arith)
                    requires
                        offset == nb * block_size + block_size,
                ;
                if offset >= len {
                    // the data split into whole blocks exactly
                    vstd::arithmetic::div_mod::lemma_fundamental_div_mod_converse(
                        len as int + block_size - 1,
                        block_size as int,
                        nb + 1,
                        block_size - 1,
                    );
                    assert(table@.len() == spec_block_count(len as int, block_size as int));
                }
            } else {
                // the final partial block: its remainder rounds the count up
                assert((nb + 1) * block_size == nb * block_size + block_size) by (nonlinear_arith);
                vstd::arithmetic::div_mod::lemma_fundamental_div_mod_converse(
                    len as int + block_size - 1,
                    block_size as int,
                    nb + 1,
                    remaining as int - 1,
                );
                assert(table@.len() == spec_block_count(len as int, block_size as int));
            }
        }
    }
    Ok(table)
}

/// The window of `flash` starting at `i` matches `image`: every header
/// agrees, and every hash but the last. The last block's hash is left
/// unchecked on purpose: a non-aligned image's final block differs in
/// length and padding from the flash's.
pub open spec fn match_at(flash: Seq<ImgHashTable>, image: Seq<ImgHashTable>, i: int) -> bool {
    &&& forall|k: int| 0 <= k < image.len() ==> (#[trigger] flash[i + k].header)@ == image[k].header@
    &&& forall|k: int| 0 <= k < image.len() - 1 ==> (#[trigger] flash[i + k].hash) == image[k].hash
}

/// The offsets of every matching window at or after `i`, in scan order.
pub open spec fn spec_locate(flash: Seq<ImgHashTable>, image: Seq<ImgHashTable>, i: int) -> Seq<
    usize,
>
    decreases flash.len() - image.len() + 1 - i,
{
    if i > flash.len() - image.len() || i < 0 {
        Seq::empty()
    } else {
        (if match_at(flash, image, i) {
            seq![flash[i].offset]
        } else {
            Seq::empty()
        }) + spec_locate(flash, image, i + 1)
    }
}

fn header_eq(a: &[u8; HEADER_SZ], b: &[u8; HEADER_SZ]) -> (r: bool)
    ensures
        r == (a@ == b@),
{
    let mut i: usize = 0;
    while i < HEADER_SZ
        invariant
            0 <= i <= HEADER_SZ,
            forall|j: int| 0 <= j < i ==> a@[j] == b@[j],
        decreases HEADER_SZ - i,
    {
        if a[i] != b[i] {
            return false;
        }
        i = i + 1;
    }
    proof {
        assert(a@ =~= b@);
    }
    true
}

/// Scans the flash table for every window that matches the image table,
/// returning the offsets of the matches in increasing scan order.
pub fn locate_image_in_table(
    flash_hash_table: &Vec<ImgHashTable>,
    image_hash_table: &Vec<ImgHashTable>,
) -> (r: Vec<usize>)
    requires
        1 <= image_hash_table@.len() <= flash_hash_table@.len(),
    ensures
        r@ == spec_locate(flash_hash_table@, image_hash_table@, 0),
{
    let image_len = image_hash_table.len();
    let flash_len = flash_hash_table.len();
    let end = flash_len - image_len + 1;
    let mut found: Vec<usize> = Vec::new();
    let mut i: usize = 0;
    while i < end
        invariant
            1 <= image_len == image_hash_table@.len(),
            flash_len == flash_hash_table@.len(),
            image_len <= flash_len,
            end == flash_len - image_len + 1,
            0 <= i <= end,
            found@ + spec_locate(flash_hash_table@, image_hash_table@, i as int) == spec_locate(
                flash_hash_table@,
                image_hash_table@,
                0,
            ),
        decreases end - i,
    {
        let mut ok: bool = true;
        let mut k: usize = 0;
        // the headers must match
        while k < image_len
            invariant
                1 <= image_len == image_hash_table@.len(),
                flash_len == flash_hash_table@.len(),
                image_len <= flash_len,
                0 <= i <= flash_len - image_len,
                0 <= k <= image_len,
                ok ==> forall|j: int|
                    0 <= j < k ==> (#[trigger] flash_hash_table@[i + j].header)@
                        == image_hash_table@[j].header@,
                !ok ==> !match_at(flash_hash_table@, image_hash_table@, i as int),
            decreases image_len - k,
        {
            if !header_eq(&flash_hash_table[i + k].header, &image_hash_table[k].header) {
                ok = false;
            }
            k = k + 1;
        }
        // then the hashes, all but the last block's
        let mut k2: usize = 0;
        while k2 < image_len - 1
            invariant
                1 <= image_len == image_hash_table@.len(),
                flash_len == flash_hash_table@.len(),
                image_len <= flash_len,
                0 <= i <= flash_len - image_len,
                0 <= k2 <= image_len - 1,
                ok ==> forall|j: int|
                    0 <= j < image_len ==> (#[trigger] flash_hash_table@[i + j].header)@
                        == image_hash_table@[j].header@,
                ok ==> forall|j: int|
                    0 <= j < k2 ==> (#[trigger] flash_hash_table@[i + j].hash)
                        == image_hash_table@[j].hash,
                !ok ==> !match_at(flash_hash_table@, image_hash_table@, i as int),
            decreases image_len - 1 - k2,
        {
            if flash_hash_table[i + k2].hash != image_hash_table[k2].hash {
                ok = false;
            }
            k2 = k2 + 1;
        }
        proof {
            if ok {
                assert(match_at(flash_hash_table@, image_hash_table@, i as int));
            }
        }
        if ok {
            found.push(flash_hash_table[i].offset);
        }
        proof {
            assert(spec_locate(flash_hash_table@, image_hash_table@, i as int) == (if match_at(
                flash_hash_table@,
                image_hash_table@,
                i as int,
            ) {
                seq![flash_hash_table@[i as int].offset]
            } else {
                Seq::empty()
            }) + spec_locate(flash_hash_table@, image_hash_table@, i as int + 1));
            assert(found@ + spec_locate(flash_hash_table@, image_hash_table@, i as int + 1)
                =~= spec_locate(flash_hash_table@, image_hash_table@, 0));
        }
        i = i + 1;
    }
    proof {
        assert(spec_locate(flash_hash_table@, image_hash_table@, end as int) == Seq::<
            usize,
        >::empty());
        assert(found@ =~= spec_locate(flash_hash_table@, image_hash_table@, 0));
    }
    found
}

/// A flash image's block-hash table and total size.
pub struct FlashImage {
    table: Vec<ImgHashTable>,
    size: u64,
}

impl FlashImage {
    /// The table over the image's blocks.
    pub closed spec fn spec_table(self) -> Seq<ImgHashTable> {
        self.table@
    }

    /// The image's total size in bytes.
    pub closed spec fn spec_size(self) -> u64 {
        self.size
    }

    /// Builds the flash image state from the raw image bytes: its size,
    /// and the block-hash table of exactly those bytes.
    pub fn new(data: &Vec<u8>, block_size: usize) -> (r: Result<Self, Error>)
        requires
            block_size > HEADER_SZ,
        ensures
            blocks_ok(data@.len() as int, block_size as int) ==> {
                &&& r is Ok
                &&& r->Ok_0.spec_size() == data@.len()
                &&& r->Ok_0.spec_table().len() == spec_block_count(
                    data@.len() as int,
                    block_size as int,
                )
                &&& forall|i: int|
                    0 <= i < r->Ok_0.spec_table().len() ==> (#[trigger] r->Ok_0.spec_table()[
                    i]).offset == i * block_size
                &&& forall|i: int|
                    0 <= i < r->Ok_0.spec_table().len() ==> (#[trigger] r->Ok_0.spec_table()[
                    i]).header@ == data@.subrange(i * block_size, i * block_size + HEADER_SZ)
            },
            !blocks_ok(data@.len() as int, block_size as int) ==> r is Err && r->Err_0
                == Error::ReadErr,
    {
        let size = data.len() as u64;
        match compute_hash_by_block(data, block_size) {
            Ok(table) => Ok(FlashImage { table, size }),
            Err(e) => Err(e),
        }
    }

    pub fn size(&self) -> (r: u64)
        ensures
            r == self.spec_size(),
    {
        self.size
    }

    /// Locates a candidate image, given as raw bytes, inside this flash
    /// image: hashes its blocks and scans this image's table for matching
    /// windows.
    pub fn seek_image(&self, image_data: &Vec<u8>, block_size: usize) -> (r: Result<
        Vec<usize>,
        Error,
    >)
        requires
            block_size > HEADER_SZ,
            1 <= spec_block_count(image_data@.len() as int, block_size as int)
                <= self.spec_table().len(),
        ensures
            blocks_ok(image_data@.len() as int, block_size as int) ==> r is Ok && (exists|
                t: Seq<ImgHashTable>,
            |
                {
                    &&& t.len() == spec_block_count(image_data@.len() as int, block_size as int)
                    &&& (forall|i: int|
                        0 <= i < t.len() ==> (#[trigger] t[i]).header@ == image_data@.subrange(
                            i * block_size,
                            i * block_size + HEADER_SZ,
                        ))
                    &&& r->Ok_0@ == spec_locate(self.spec_table(), t, 0)
                }),
            !blocks_ok(image_data@.len() as int, block_size as int) ==> r is Err && r->Err_0
                == Error::ReadErr,
    {
        let image_hash_table = match compute_hash_by_block(image_data, block_size) {
            Ok(t) => t,
            Err(e) => return Err(e),
        };
        let found = locate_image_in_table(&self.table, &image_hash_table);
        proof {
            assert(found@ == spec_locate(self.spec_table(), image_hash_table@, 0));
        }
        Ok(found)
    }
}

} // verus!
