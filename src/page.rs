//! Fixed-size pages: a byte buffer with typed, offset-addressed accessors.
use vstd::prelude::*;
use crate::block::Block;
use vstd::utf8::{decode_utf8, encode_utf8, valid_utf8, encode_utf8_valid_utf8, encode_utf8_decode_utf8};
use crate::codec::{le_decode, le_encode, pow256, lemma_le_encode_len, lemma_le_decode_bound, lemma_pow256_values, lemma_pow256_monotonic, lemma_le_round_trip};

verus! {

/// The number of bytes in every page.
pub const PAGE_SIZE: usize = 4096;

/// Why a page access was refused.
#[derive(Clone, Copy, Debug, PartialEq, Eq)]
pub enum PageError {
    /// The addressed bytes do not lie within the page.
    OutOfBounds,
    /// A stored length prefix points past the end of the page.
    InvalidLength,
}

/// The provenance of a page, as a plain value.
pub open spec fn block_view(b: Option<Block>) -> Option<(Seq<char>, u64)> {
    match b {
        Some(blk) => Some(blk@),
        None => None,
    }
}

/// `c` with the bytes from `offset` on replaced by `b`.
pub open spec fn splice(c: Seq<u8>, offset: int, b: Seq<u8>) -> Seq<u8> {
    c.subrange(0, offset) + b + c.subrange(offset + b.len(), c.len() as int)
}

/// Whether `len` bytes from `offset` lie within a page.
pub open spec fn in_page(offset: int, len: int) -> bool {
    0 <= offset && 0 <= len && offset + len <= PAGE_SIZE
}

/// A 4096-byte buffer, optionally bound to the block it belongs to.
pub struct Page {
    content: [u8; PAGE_SIZE],
    block: Option<Block>,
}

impl Page {
    /// The bytes of the page.
    pub closed spec fn bytes(&self) -> Seq<u8> {
        self.content@
    }

    /// The block the page is bound to, if any.
    pub closed spec fn block_spec(&self) -> Option<(Seq<char>, u64)> {
        block_view(self.block)
    }

    /// Every page holds exactly `PAGE_SIZE` bytes.
    pub proof fn lemma_size(&self)
        ensures
            self.bytes().len() == PAGE_SIZE,
    {
    }

    /// A zero-filled page bound to `blk`.
    pub fn new(blk: Option<Block>) -> (r: Page)
        ensures
            r.bytes() == Seq::new(PAGE_SIZE as nat, |i: int| 0u8),
            r.block_spec() == block_view(blk),
    {
        let r = Page { content: [0u8; PAGE_SIZE], block: blk };
        assert(r.content@ =~= Seq::new(PAGE_SIZE as nat, |i: int| 0u8));
        r
    }
}

} // verus!

verus! {

/// The value stored in `len` little-endian bytes of `c` from `offset`.
pub open spec fn le_at(c: Seq<u8>, offset: int, len: int) -> nat {
    le_decode(c.subrange(offset, offset + len))
}

/// The four bytes that store `v`.
pub open spec fn int_bytes(v: i32) -> Seq<u8> {
    le_encode(v as u32 as nat, 4)
}

/// The eight bytes that store `v`.
pub open spec fn u64_bytes(v: u64) -> Seq<u8> {
    le_encode(v as nat, 8)
}

/// The 32-bit signed integer stored at `offset`.
pub open spec fn int_at(c: Seq<u8>, offset: int) -> i32 {
    le_at(c, offset, 4) as u32 as i32
}

/// The 64-bit unsigned integer stored at `offset`.
pub open spec fn u64_at(c: Seq<u8>, offset: int) -> u64 {
    le_at(c, offset, 8) as u64
}

impl Page {
    /// Stores the `width` low bytes of `v` at `offset`, least significant first.
    fn write_le(&mut self, offset: u64, v: u64, width: u64)
        requires
            width <= 8,
            offset + width <= PAGE_SIZE,
            v < pow256(width as nat),
        ensures
            final(self).content@ == splice(old(self).content@, offset as int, le_encode(v as nat, width as nat)),
            final(self).block == old(self).block,
    {
        let ghost enc = le_encode(v as nat, width as nat);
        proof {
            lemma_le_encode_len(v as nat, width as nat);
        }
        let mut x: u64 = v;
        let mut i: u64 = 0;
        while i < width
            invariant
                i <= width,
                width <= 8,
                offset + width <= PAGE_SIZE,
                enc == le_encode(v as nat, width as nat),
                enc.len() == width,
                self.block == old(self).block,
                le_encode(x as nat, (width - i) as nat) == enc.subrange(i as int, width as int),
                self.content@.len() == PAGE_SIZE,
                forall|j: int|
                    0 <= j < PAGE_SIZE ==> #[trigger] self.content@[j] == if offset <= j < offset + i {
                        enc[j - offset]
                    } else {
                        old(self).content@[j]
                    },
            decreases width - i,
        {
            let ghost rest = le_encode(x as nat, (width - i) as nat);
            proof {
                assert(rest[0] == enc[i as int]);
                assert(rest.drop_first() =~= enc.subrange(i + 1, width as int));
            }
            self.content[(offset + i) as usize] = (x % 256) as u8;
            x = x / 256;
            i = i + 1;
        }
        proof {
            assert(self.content@ =~= splice(old(self).content@, offset as int, enc));
        }
    }

    /// The value of the `width` bytes at `offset`, least significant first.
    fn read_le(&self, offset: u64, width: u64) -> (r: u64)
        requires
            width <= 8,
            offset + width <= PAGE_SIZE,
        ensures
            r as nat == le_at(self.content@, offset as int, width as int),
    {
        let ghost c = self.content@;
        let mut acc: u64 = 0;
        let mut i: u64 = width;
        while i > 0
            invariant
                i <= width,
                width <= 8,
                offset + width <= PAGE_SIZE,
                c == self.content@,
                c.len() == PAGE_SIZE,
                acc as nat == le_decode(c.subrange(offset + i, offset + width)),
            decreases i,
        {
            let ghost s = c.subrange(offset + i - 1, offset + width);
            proof {
                assert(s.drop_first() =~= c.subrange(offset + i, offset + width));
                lemma_le_decode_bound(s.drop_first());
                lemma_pow256_monotonic((width - i) as nat, 7);
                lemma_pow256_values();
            }
            let b = self.content[(offset + i - 1) as usize];
            acc = b as u64 + 256 * acc;
            i = i - 1;
        }
        acc
    }
}

} // verus!

verus! {

impl Page {
    /// A copy of the block the page is bound to, if any.
    pub fn get_block(&self) -> (r: Option<Block>)
        ensures
            block_view(r) == self.block_spec(),
    {
        match &self.block {
            Some(b) => Some(b.duplicate()),
            None => None,
        }
    }

    /// The whole buffer, for writing a page out in one piece.
    pub fn get_content(&self) -> (r: &[u8])
        ensures
            r@ == self.bytes(),
    {
        self.content.as_slice()
    }

    /// The whole buffer, mutable, for reading a page in in one piece.
    pub fn get_mut_content(&mut self) -> (r: &mut [u8])
        ensures
            r@ == old(self).bytes(),
            final(r)@ == final(self).bytes(),
            final(self).block_spec() == old(self).block_spec(),
    {
        &mut self.content
    }

    /// Stores `val` in four little-endian bytes at `offset`.
    pub fn set_int(&mut self, offset: u64, val: i32) -> (r: Result<(), PageError>)
        ensures
            in_page(offset as int, 4) ==> r == Ok::<(), PageError>(())
                && final(self).bytes() == splice(old(self).bytes(), offset as int, int_bytes(val)),
            !in_page(offset as int, 4) ==> r == Err::<(), PageError>(PageError::OutOfBounds)
                && final(self).bytes() == old(self).bytes(),
            final(self).block_spec() == old(self).block_spec(),
    {
        if offset > (PAGE_SIZE - 4) as u64 {
            return Err(PageError::OutOfBounds);
        }
        proof {
            lemma_pow256_values();
        }
        self.write_le(offset, val as u32 as u64, 4);
        Ok(())
    }

    /// The 32-bit signed integer in the four little-endian bytes at `offset`.
    pub fn get_int(&self, offset: u64) -> (r: Result<i32, PageError>)
        ensures
            in_page(offset as int, 4) ==> r == Ok::<i32, PageError>(int_at(self.bytes(), offset as int)),
            !in_page(offset as int, 4) ==> r == Err::<i32, PageError>(PageError::OutOfBounds),
    {
        if offset > (PAGE_SIZE - 4) as u64 {
            return Err(PageError::OutOfBounds);
        }
        let v = self.read_le(offset, 4);
        Ok(v as u32 as i32)
    }

    /// Stores `val` in eight little-endian bytes at `offset`.
    pub fn set_u64(&mut self, offset: u64, val: u64) -> (r: Result<(), PageError>)
        ensures
            in_page(offset as int, 8) ==> r == Ok::<(), PageError>(())
                && final(self).bytes() == splice(old(self).bytes(), offset as int, u64_bytes(val)),
            !in_page(offset as int, 8) ==> r == Err::<(), PageError>(PageError::OutOfBounds)
                && final(self).bytes() == old(self).bytes(),
            final(self).block_spec() == old(self).block_spec(),
    {
        if offset > (PAGE_SIZE - 8) as u64 {
            return Err(PageError::OutOfBounds);
        }
        proof {
            lemma_pow256_values();
        }
        self.write_le(offset, val, 8);
        Ok(())
    }

    /// The 64-bit unsigned integer in the eight little-endian bytes at `offset`.
    pub fn get_u64(&self, offset: u64) -> (r: Result<u64, PageError>)
        ensures
            in_page(offset as int, 8) ==> r == Ok::<u64, PageError>(u64_at(self.bytes(), offset as int)),
            !in_page(offset as int, 8) ==> r == Err::<u64, PageError>(PageError::OutOfBounds),
    {
        if offset > (PAGE_SIZE - 8) as u64 {
            return Err(PageError::OutOfBounds);
        }
        let v = self.read_le(offset, 8);
        Ok(v)
    }
}

/// Storing an integer and reading it back at the same offset gives the integer.
pub proof fn lemma_int_round_trip(c: Seq<u8>, offset: int, v: i32)
    requires
        c.len() == PAGE_SIZE,
        in_page(offset, 4),
    ensures
        int_at(splice(c, offset, int_bytes(v)), offset) == v,
{
    lemma_pow256_values();
    lemma_le_encode_len(v as u32 as nat, 4);
    lemma_le_round_trip(v as u32 as nat, 4);
    let c2 = splice(c, offset, int_bytes(v));
    assert(c2.subrange(offset, offset + 4) =~= int_bytes(v));
    assert((v as u32) as i32 == v) by (bit_vector);
}

/// Storing a 64-bit integer and reading it back at the same offset gives the integer.
pub proof fn lemma_u64_round_trip(c: Seq<u8>, offset: int, v: u64)
    requires
        c.len() == PAGE_SIZE,
        in_page(offset, 8),
    ensures
        u64_at(splice(c, offset, u64_bytes(v)), offset) == v,
{
    lemma_pow256_values();
    lemma_le_encode_len(v as nat, 8);
    lemma_le_round_trip(v as nat, 8);
    let c2 = splice(c, offset, u64_bytes(v));
    assert(c2.subrange(offset, offset + 8) =~= u64_bytes(v));
}

} // verus!

verus! {

/// The bytes that store the text `s`: its UTF-8 byte length in eight
/// little-endian bytes, then its UTF-8 bytes.
pub open spec fn string_bytes(s: Seq<char>) -> Seq<u8> {
    le_encode(encode_utf8(s).len(), 8) + encode_utf8(s)
}

/// The byte length recorded by a string's prefix at `offset`.
pub open spec fn stored_len(c: Seq<u8>, offset: int) -> int {
    le_at(c, offset, 8) as int
}

/// The payload bytes of the string whose prefix is at `offset`.
pub open spec fn string_payload(c: Seq<u8>, offset: int) -> Seq<u8> {
    c.subrange(offset + 8, offset + 8 + stored_len(c, offset))
}

/// The text that `String::from_utf8_lossy` makes of a byte sequence.
pub uninterp spec fn lossy_decode(b: Seq<u8>) -> Seq<char>;

/// Relies on `String::from_utf8_lossy`: it depends on the bytes alone, and
/// bytes that are valid UTF-8 come back as the text they encode.
#[verifier::external_body]
fn utf8_lossy(b: &[u8]) -> (r: String)
    ensures
        r@ == lossy_decode(b@),
        valid_utf8(b@) ==> r@ == decode_utf8(b@),
{
    String::from_utf8_lossy(b).into_owned()
}

impl Page {
    /// Copies `b` into the page from `offset`.
    fn copy_in(&mut self, offset: u64, b: &[u8])
        requires
            offset + b@.len() <= PAGE_SIZE,
        ensures
            final(self).content@ == splice(old(self).content@, offset as int, b@),
            final(self).block == old(self).block,
    {
        let n = b.len();
        let mut i: usize = 0;
        while i < n
            invariant
                i <= n,
                n == b@.len(),
                offset + n <= PAGE_SIZE,
                self.block == old(self).block,
                self.content@.len() == PAGE_SIZE,
                forall|j: int|
                    0 <= j < PAGE_SIZE ==> #[trigger] self.content@[j] == if offset <= j < offset + i {
                        b@[j - offset]
                    } else {
                        old(self).content@[j]
                    },
            decreases n - i,
        {
            self.content[offset as usize + i] = b[i];
            i = i + 1;
        }
        proof {
            assert(self.content@ =~= splice(old(self).content@, offset as int, b@));
        }
    }

    /// Appends the page's bytes from `start` up to `stop` to `out`.
    fn copy_out(&self, start: u64, stop: u64, out: &mut Vec<u8>)
        requires
            start <= stop <= PAGE_SIZE,
        ensures
            final(out)@ == old(out)@ + self.content@.subrange(start as int, stop as int),
    {
        let mut i: u64 = start;
        while i < stop
            invariant
                start <= i <= stop <= PAGE_SIZE,
                self.content@.len() == PAGE_SIZE,
                out@ == old(out)@ + self.content@.subrange(start as int, i as int),
            decreases stop - i,
        {
            out.push(self.content[i as usize]);
            proof {
                assert(self.content@.subrange(start as int, i + 1) =~= self.content@.subrange(
                    start as int,
                    i as int,
                ).push(self.content@[i as int]));
            }
            i = i + 1;
        }
    }

    /// Copies the bytes of `vec` into the page from `offset`, all or none.
    pub fn write_u8_vec(&mut self, offset: u64, vec: &Vec<u8>) -> (r: Result<(), PageError>)
        ensures
            in_page(offset as int, vec@.len() as int) ==> r == Ok::<(), PageError>(())
                && final(self).bytes() == splice(old(self).bytes(), offset as int, vec@),
            !in_page(offset as int, vec@.len() as int) ==> r == Err::<(), PageError>(PageError::OutOfBounds)
                && final(self).bytes() == old(self).bytes(),
            final(self).block_spec() == old(self).block_spec(),
    {
        if vec.len() > PAGE_SIZE || offset > (PAGE_SIZE - vec.len()) as u64 {
            return Err(PageError::OutOfBounds);
        }
        self.copy_in(offset, vec.as_slice());
        Ok(())
    }

    /// Appends the bytes from `start_pos` up to `stop_pos` to `vec`; a bound
    /// past the page is refused, and an empty range appends nothing.
    pub fn read_u8_vec(&self, start_pos: u64, stop_pos: u64, vec: &mut Vec<u8>) -> (r: Result<(), PageError>)
        ensures
            start_pos > PAGE_SIZE || stop_pos > PAGE_SIZE ==> r == Err::<(), PageError>(PageError::OutOfBounds)
                && final(vec)@ == old(vec)@,
            start_pos <= PAGE_SIZE && stop_pos <= PAGE_SIZE && start_pos >= stop_pos ==> r == Ok::<(), PageError>(())
                && final(vec)@ == old(vec)@,
            start_pos < stop_pos <= PAGE_SIZE ==> r == Ok::<(), PageError>(())
                && final(vec)@ == old(vec)@ + self.bytes().subrange(start_pos as int, stop_pos as int),
    {
        if start_pos > PAGE_SIZE as u64 || stop_pos > PAGE_SIZE as u64 {
            return Err(PageError::OutOfBounds);
        }
        if start_pos >= stop_pos {
            return Ok(());
        }
        self.copy_out(start_pos, stop_pos, vec);
        Ok(())
    }

    /// Stores `val` at `offset` as its UTF-8 byte length in eight
    /// little-endian bytes followed by its UTF-8 bytes, all or none.
    pub fn set_string(&mut self, offset: u64, val: String) -> (r: Result<(), PageError>)
        ensures
            in_page(offset as int, 8 + encode_utf8(val@).len() as int) ==> r == Ok::<(), PageError>(())
                && final(self).bytes() == splice(old(self).bytes(), offset as int, string_bytes(val@)),
            !in_page(offset as int, 8 + encode_utf8(val@).len() as int) ==> r == Err::<(), PageError>(
                PageError::OutOfBounds,
            ) && final(self).bytes() == old(self).bytes(),
            final(self).block_spec() == old(self).block_spec(),
    {
        let bytes = val.as_str().as_bytes();
        let n = bytes.len();
        if n > PAGE_SIZE - 8 || offset > (PAGE_SIZE - 8 - n) as u64 {
            return Err(PageError::OutOfBounds);
        }
        proof {
            lemma_pow256_values();
            lemma_le_encode_len(n as nat, 8);
        }
        let ghost c0 = self.content@;
        self.write_le(offset, n as u64, 8);
        self.copy_in(offset + 8, bytes);
        proof {
            assert(self.content@ =~= splice(c0, offset as int, string_bytes(val@)));
        }
        Ok(())
    }

    /// Reads the string stored at `offset`: the byte length in its eight-byte
    /// prefix, then that many bytes as UTF-8, with invalid sequences replaced
    /// by U+FFFD.
    pub fn get_string(&self, offset: u64) -> (r: Result<String, PageError>)
        ensures
            !in_page(offset as int, 8) <==> r == Err::<String, PageError>(PageError::OutOfBounds),
            in_page(offset as int, 8) && !in_page(offset + 8, stored_len(self.bytes(), offset as int))
                <==> r == Err::<String, PageError>(PageError::InvalidLength),
            r is Ok ==> r->Ok_0@ == lossy_decode(string_payload(self.bytes(), offset as int)),
            r is Ok && valid_utf8(string_payload(self.bytes(), offset as int)) ==> r->Ok_0@
                == decode_utf8(string_payload(self.bytes(), offset as int)),
    {
        if offset > (PAGE_SIZE - 8) as u64 {
            return Err(PageError::OutOfBounds);
        }
        let n = self.read_le(offset, 8);
        if n > (PAGE_SIZE - 8) as u64 - offset {
            return Err(PageError::InvalidLength);
        }
        let mut payload: Vec<u8> = Vec::new();
        self.copy_out(offset + 8, offset + 8 + n, &mut payload);
        proof {
            assert(payload@ =~= string_payload(self.bytes(), offset as int));
        }
        Ok(utf8_lossy(payload.as_slice()))
    }
}

/// Storing a text and reading it back at the same offset gives the text: the
/// prefix records the payload's byte length, and the payload is the text's
/// UTF-8 encoding.
pub proof fn lemma_string_round_trip(c: Seq<u8>, offset: int, s: Seq<char>)
    requires
        c.len() == PAGE_SIZE,
        in_page(offset, 8 + encode_utf8(s).len() as int),
    ensures
        in_page(offset + 8, stored_len(splice(c, offset, string_bytes(s)), offset)),
        string_payload(splice(c, offset, string_bytes(s)), offset) == encode_utf8(s),
        valid_utf8(string_payload(splice(c, offset, string_bytes(s)), offset)),
        decode_utf8(string_payload(splice(c, offset, string_bytes(s)), offset)) == s,
{
    let e = encode_utf8(s);
    let c2 = splice(c, offset, string_bytes(s));
    lemma_pow256_values();
    lemma_le_encode_len(e.len(), 8);
    lemma_le_round_trip(e.len(), 8);
    assert(c2.subrange(offset, offset + 8) =~= le_encode(e.len(), 8));
    assert(string_payload(c2, offset) =~= e);
    encode_utf8_valid_utf8(s);
    encode_utf8_decode_utf8(s);
}

} // verus!
