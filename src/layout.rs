use vstd::prelude::*;

use crate::error::CotarError;
use crate::le::{
    le_bytes, le_value, lemma_le_bytes_len, lemma_le_round_trip, lemma_pow256_8, push_le,
};

verus! {

/// Length of the header, and of the identical footer: magic and slot count.
pub const COTAR_V2_HEADER_SIZE: u64 = 8;

/// Length of one slot: fingerprint, block offset and file size.
pub const COTAR_V2_INDEX_ENTRY_SIZE: u64 = 16;

/// "COT\x02" read as a little-endian u32.
pub const COTAR_V2_HEADER_MAGIC: u32 = 39079747;

/// Tar archives are laid out in blocks of this many bytes.
pub const TAR_BLOCK_SIZE: u64 = 512;

/// One file of the archive as the index knows it.
///
/// `file_offset` is the byte offset of the payload in the tar; in the
/// on-disk slot it is stored divided by the tar block size.
#[derive(Debug, Clone, Copy, PartialEq, Eq, Structural)]
pub struct CotarIndexEntry {
    /// FNV-1a 64 hash of the path; zero marks an empty slot.
    pub hash: u64,
    /// Byte offset of the payload from the start of the tar.
    pub file_offset: u64,
    /// Length of the payload in bytes.
    pub file_size: u32,
}

/// The fields of a header or footer.
#[derive(Debug, Clone, Copy, PartialEq, Eq, Structural)]
pub struct CotarHeader {
    /// Always `COTAR_V2_HEADER_MAGIC` in a parsed header.
    pub magic: u32,
    /// Format version, carried by the last byte of the magic.
    pub version: u8,
    /// Number of slots in the table.
    pub entries: u32,
}

/// The slot value that marks an empty slot.
pub open spec fn empty_entry() -> CotarIndexEntry {
    CotarIndexEntry { hash: 0, file_offset: 0, file_size: 0 }
}

/// Bytes of a header (and footer) for a table of `slot_count` slots.
pub open spec fn header_bytes(slot_count: nat) -> Seq<u8> {
    le_bytes(COTAR_V2_HEADER_MAGIC as nat, 4) + le_bytes(slot_count, 4)
}

/// What reading a header out of `b` gives: the slot count, or why it failed.
pub open spec fn parse_header(b: Seq<u8>) -> Result<u32, CotarError> {
    if b.len() < 8 {
        Err(CotarError::TruncatedIndex)
    } else if le_value(b.subrange(0, 4)) != COTAR_V2_HEADER_MAGIC as nat {
        Err(CotarError::InvalidMagic)
    } else {
        Ok(le_value(b.subrange(4, 8)) as u32)
    }
}

/// A slot can be stored when its offset is block aligned and its block number fits in 32 bits.
pub open spec fn storable(e: CotarIndexEntry) -> bool {
    &&& e.file_offset % 512 == 0
    &&& e.file_offset / 512 < 0x1_0000_0000
}

/// The 16 bytes of one slot.
pub open spec fn slot_bytes(e: CotarIndexEntry) -> Seq<u8> {
    le_bytes(e.hash as nat, 8) + le_bytes((e.file_offset / 512) as nat, 4) + le_bytes(
        e.file_size as nat,
        4,
    )
}

/// The slot that 16 bytes denote, with the block number turned back into a byte offset.
pub open spec fn decode_slot(b: Seq<u8>) -> CotarIndexEntry {
    CotarIndexEntry {
        hash: le_value(b.subrange(0, 8)) as u64,
        file_offset: (le_value(b.subrange(8, 12)) * 512) as u64,
        file_size: le_value(b.subrange(12, 16)) as u32,
    }
}

/// The bytes of a slot table, slot after slot.
pub open spec fn table_bytes(t: Seq<CotarIndexEntry>) -> Seq<u8>
    decreases t.len(),
{
    if t.len() == 0 {
        Seq::empty()
    } else {
        table_bytes(t.drop_last()) + slot_bytes(t.last())
    }
}

/// A whole index image: header, slot table, footer.
pub open spec fn image_bytes(t: Seq<CotarIndexEntry>) -> Seq<u8> {
    header_bytes(t.len()) + table_bytes(t) + header_bytes(t.len())
}

/// Slot `i` of an image whose header starts at `off` in `view`.
pub open spec fn slot_in(view: Seq<u8>, off: int, i: int) -> CotarIndexEntry {
    decode_slot(view.subrange(off + 8 + 16 * i, off + 24 + 16 * i))
}

/// The `n` slots of an image whose header starts at `off` in `view`.
pub open spec fn table_in(view: Seq<u8>, off: int, n: nat) -> Seq<CotarIndexEntry> {
    Seq::new(n, |i: int| slot_in(view, off, i))
}

pub proof fn lemma_header_bytes(slot_count: nat)
    requires
        slot_count < 0x1_0000_0000,
    ensures
        header_bytes(slot_count).len() == 8,
        le_value(header_bytes(slot_count).subrange(0, 4)) == COTAR_V2_HEADER_MAGIC as nat,
        le_value(header_bytes(slot_count).subrange(4, 8)) == slot_count,
{
    lemma_pow256_8();
    lemma_le_round_trip(COTAR_V2_HEADER_MAGIC as nat, 4);
    lemma_le_round_trip(slot_count, 4);
    let h = header_bytes(slot_count);
    assert(h.subrange(0, 4) =~= le_bytes(COTAR_V2_HEADER_MAGIC as nat, 4));
    assert(h.subrange(4, 8) =~= le_bytes(slot_count, 4));
}

/// Writing a header for `slot_count` slots and reading it back gives `slot_count`.
pub proof fn lemma_header_round_trip(slot_count: u32)
    ensures
        parse_header(header_bytes(slot_count as nat)) == Ok::<u32, CotarError>(slot_count),
{
    lemma_header_bytes(slot_count as nat);
}

pub proof fn lemma_slot_round_trip(e: CotarIndexEntry)
    requires
        storable(e),
    ensures
        slot_bytes(e).len() == 16,
        decode_slot(slot_bytes(e)) == e,
{
    lemma_pow256_8();
    let b = slot_bytes(e);
    lemma_le_round_trip(e.hash as nat, 8);
    lemma_le_round_trip((e.file_offset / 512) as nat, 4);
    lemma_le_round_trip(e.file_size as nat, 4);
    assert(b.subrange(0, 8) =~= le_bytes(e.hash as nat, 8));
    assert(b.subrange(8, 12) =~= le_bytes((e.file_offset / 512) as nat, 4));
    assert(b.subrange(12, 16) =~= le_bytes(e.file_size as nat, 4));
}

/// The table bytes hold each slot at its place.
pub proof fn lemma_table_bytes(t: Seq<CotarIndexEntry>)
    ensures
        table_bytes(t).len() == 16 * t.len(),
        forall|i: int|
            0 <= i < t.len() ==> #[trigger] table_bytes(t).subrange(16 * i, 16 * i + 16)
                == slot_bytes(t[i]),
    decreases t.len(),
{
    if t.len() > 0 {
        let p = t.drop_last();
        lemma_table_bytes(p);
        lemma_le_bytes_len(t.last().hash as nat, 8);
        lemma_le_bytes_len((t.last().file_offset / 512) as nat, 4);
        lemma_le_bytes_len(t.last().file_size as nat, 4);
        let b = table_bytes(t);
        assert(b == table_bytes(p) + slot_bytes(t.last()));
        assert forall|i: int| 0 <= i < t.len() implies #[trigger] b.subrange(16 * i, 16 * i + 16)
            == slot_bytes(t[i]) by {
            if i < p.len() {
                assert(b.subrange(16 * i, 16 * i + 16) =~= table_bytes(p).subrange(
                    16 * i,
                    16 * i + 16,
                ));
                assert(p[i] == t[i]);
            } else {
                assert(b.subrange(16 * i, 16 * i + 16) =~= slot_bytes(t.last()));
            }
        }
    }
}

/// Reading the slots back out of an image gives the table it was made of.
pub proof fn lemma_image_table(t: Seq<CotarIndexEntry>)
    requires
        t.len() < 0x1_0000_0000,
        forall|i: int| 0 <= i < t.len() ==> storable(#[trigger] t[i]),
    ensures
        image_bytes(t).len() == 16 + 16 * t.len(),
        table_in(image_bytes(t), 0, t.len()) == t,
{
    let img = image_bytes(t);
    lemma_header_bytes(t.len());
    lemma_table_bytes(t);
    assert forall|i: int| 0 <= i < t.len() implies #[trigger] slot_in(img, 0, i) == t[i] by {
        assert(img.subrange(8 + 16 * i, 24 + 16 * i) =~= table_bytes(t).subrange(
            16 * i,
            16 * i + 16,
        ));
        lemma_slot_round_trip(t[i]);
    }
    assert(table_in(img, 0, t.len()) =~= t);
}

/// An image read at its own place inside a larger byte sequence gives the same slots.
pub proof fn lemma_table_in_shift(prefix: Seq<u8>, img: Seq<u8>, n: nat)
    requires
        img.len() >= 16 + 16 * n,
    ensures
        table_in(prefix + img, prefix.len() as int, n) == table_in(img, 0, n),
{
    let v = prefix + img;
    let off = prefix.len() as int;
    assert forall|i: int| 0 <= i < n implies #[trigger] slot_in(v, off, i) == slot_in(img, 0, i) by {
        assert(v.subrange(off + 8 + 16 * i, off + 24 + 16 * i) =~= img.subrange(
            8 + 16 * i,
            24 + 16 * i,
        ));
    }
    assert(table_in(v, off, n) =~= table_in(img, 0, n));
}

/// Appends the header (or footer) for `slot_count` slots to `out`.
pub fn write_header(out: &mut Vec<u8>, slot_count: u32)
    ensures
        final(out)@ == old(out)@ + header_bytes(slot_count as nat),
{
    push_le(out, COTAR_V2_HEADER_MAGIC as u64, 4);
    push_le(out, slot_count as u64, 4);
    assert(out@ =~= old(out)@ + header_bytes(slot_count as nat));
}

/// Appends the 16 bytes of slot `e` to `out`.
pub fn write_slot(out: &mut Vec<u8>, e: &CotarIndexEntry)
    requires
        storable(*e),
    ensures
        final(out)@ == old(out)@ + slot_bytes(*e),
{
    push_le(out, e.hash, 8);
    push_le(out, e.file_offset / TAR_BLOCK_SIZE, 4);
    push_le(out, e.file_size as u64, 4);
    assert(out@ =~= old(out)@ + slot_bytes(*e));
}

} // verus!
