use vstd::prelude::*;
use vstd::slice::{slice_subrange, slice_to_vec};

use crate::error::CotarError;
use crate::fnv1a::{fnv1a_64, path_hash};
use crate::layout::{
    decode_slot, parse_header, table_in, CotarHeader, CotarIndexEntry,
    COTAR_V2_HEADER_MAGIC, COTAR_V2_HEADER_SIZE, COTAR_V2_INDEX_ENTRY_SIZE, TAR_BLOCK_SIZE,
};
use crate::le::{lemma_le_value_bound, lemma_pow256_8, read_le};
use crate::table::{lookup, probe_from, wrap};

verus! {

/// A tar archive opened together with its index.
///
/// `view` holds the bytes of the tar. The index image lies in `view_index`
/// when it came from a sidecar file, else at the end of `view`.
#[derive(Debug)]
pub struct Cotar {
    /// Format version of the index.
    pub version: u8,
    /// Number of slots in the index.
    pub entries: u64,
    /// Where the index header starts, in the bytes that hold the index.
    pub index_offset: u64,
    /// The tar archive.
    pub view: Vec<u8>,
    /// The sidecar index image, when the index is not embedded.
    pub view_index: Option<Vec<u8>>,
}

/// Where the footer of an embedded index says the index lies: its slot count, or why it cannot be used.
pub open spec fn embedded_slot_count(data: Seq<u8>) -> Result<u32, CotarError> {
    let len = data.len() as int;
    if len < 8 {
        Err(CotarError::TruncatedIndex)
    } else {
        match parse_header(data.subrange(len - 8, len)) {
            Err(e) => Err(e),
            Ok(n) => if len < 16 + 16 * n {
                Err(CotarError::TruncatedIndex)
            } else {
                let off = len - 16 - 16 * n;
                match parse_header(data.subrange(off, off + 8)) {
                    Err(e) => Err(e),
                    Ok(m) => if m != n {
                        Err(CotarError::TruncatedIndex)
                    } else {
                        Ok(n)
                    },
                }
            },
        }
    }
}

/// The slot count that a sidecar index image declares, or why it cannot be used.
pub open spec fn sidecar_slot_count(index: Seq<u8>) -> Result<u32, CotarError> {
    match parse_header(index) {
        Err(e) => Err(e),
        Ok(n) => if index.len() < 16 + 16 * n {
            Err(CotarError::TruncatedIndex)
        } else {
            match parse_header(index.subrange(8 + 16 * n, 16 + 16 * n)) {
                Err(e) => Err(e),
                Ok(m) => if m != n {
                    Err(CotarError::TruncatedIndex)
                } else {
                    Ok(n)
                },
            }
        },
    }
}

/// Reads the header that starts at `off` in `buf`.
fn header_at(buf: &[u8], off: usize) -> (r: Result<u32, CotarError>)
    requires
        off + 8 <= buf@.len(),
    ensures
        r == parse_header(buf@.subrange(off as int, off + 8)),
{
    let ghost b = buf@.subrange(off as int, off + 8);
    let blen: usize = buf.len();
    let magic = read_le(buf, off, 4);
    assert(b.subrange(0, 4) =~= buf@.subrange(off as int, off + 4));
    if magic != COTAR_V2_HEADER_MAGIC as u64 {
        return Err(CotarError::InvalidMagic);
    }
    let count = read_le(buf, off + 4, 4);
    assert(b.subrange(4, 8) =~= buf@.subrange(off + 4, off + 8));
    proof {
        lemma_pow256_8();
        lemma_le_value_bound(b.subrange(4, 8));
    }
    Ok(count as u32)
}

/// Reads the slot whose 16 bytes start at `off` in `buf`.
fn slot_at(buf: &[u8], off: usize) -> (r: CotarIndexEntry)
    requires
        off + 16 <= buf@.len(),
    ensures
        r == decode_slot(buf@.subrange(off as int, off + 16)),
{
    let ghost b = buf@.subrange(off as int, off + 16);
    let blen: usize = buf.len();
    assert(b.subrange(0, 8) =~= buf@.subrange(off as int, off + 8));
    assert(b.subrange(8, 12) =~= buf@.subrange(off + 8, off + 12));
    assert(b.subrange(12, 16) =~= buf@.subrange(off + 12, off + 16));
    let hash = read_le(buf, off, 8);
    let block = read_le(buf, off + 8, 4);
    let size = read_le(buf, off + 12, 4);
    proof {
        lemma_pow256_8();
        lemma_le_value_bound(b.subrange(8, 12));
        lemma_le_value_bound(b.subrange(12, 16));
    }
    CotarIndexEntry { hash, file_offset: block * TAR_BLOCK_SIZE, file_size: size as u32 }
}

/// Linear probing for `hash` in the `n` slots of the image whose header starts at `index_offset`.
fn probe(view: &[u8], index_offset: u64, n: u64, hash: u64) -> (r: Option<CotarIndexEntry>)
    requires
        n < 0x1_0000_0000,
        index_offset + 16 + 16 * n <= view@.len(),
    ensures
        r == lookup(table_in(view@, index_offset as int, n as nat), hash),
{
    let ghost t = table_in(view@, index_offset as int, n as nat);
    if n == 0 {
        return None;
    }
    let vlen: usize = view.len();
    let start = hash % n;
    let mut index = start;
    let ghost mut k: int = 0;
    loop
        invariant
            0 < n < 0x1_0000_0000,
            index_offset + 16 + 16 * n <= view@.len(),
            vlen == view@.len(),
            t == table_in(view@, index_offset as int, n as nat),
            start == hash % n,
            0 <= k < n,
            index == wrap(start as int, k, n as int),
            lookup(t, hash) == probe_from(t, hash, start as int, k),
        decreases n - k,
    {
        let off: usize = (index_offset + COTAR_V2_HEADER_SIZE + index * COTAR_V2_INDEX_ENTRY_SIZE) as usize;
        assert(off == index_offset + 8 + 16 * index);
        let slot = slot_at(view, off);
        assert(slot == t[index as int]);
        if slot.hash == 0 {
            return None;
        }
        if slot.hash == hash {
            return Some(slot);
        }
        index = index + 1;
        if index >= n {
            index = 0;
        }
        proof {
            k = k + 1;
        }
        if index == start {
            return None;
        }
    }
}

impl Cotar {
    /// The bytes that hold the index image.
    pub open spec fn index_view(&self) -> Seq<u8> {
        match self.view_index {
            Some(v) => v@,
            None => self.view@,
        }
    }

    /// The index lies wholly inside the bytes that hold it.
    pub open spec fn wf(&self) -> bool {
        &&& self.entries < 0x1_0000_0000
        &&& self.index_offset + 16 + 16 * self.entries <= self.index_view().len()
    }

    /// The slot table of the index.
    pub open spec fn table(&self) -> Seq<CotarIndexEntry> {
        table_in(self.index_view(), self.index_offset as int, self.entries as nat)
    }

    /// Parses a header (or footer): the magic, then the slot count, both little-endian.
    pub fn header_from_bytes(header_bytes: &[u8]) -> (r: Result<CotarHeader, CotarError>)
        ensures
            match parse_header(header_bytes@) {
                Ok(n) => r == Ok::<CotarHeader, CotarError>(
                    CotarHeader { magic: COTAR_V2_HEADER_MAGIC, version: 2, entries: n },
                ),
                Err(e) => r == Err::<CotarHeader, CotarError>(e),
            },
    {
        if header_bytes.len() < COTAR_V2_HEADER_SIZE as usize {
            return Err(CotarError::TruncatedIndex);
        }
        let r = header_at(header_bytes, 0);
        assert(header_bytes@.subrange(0, 8).subrange(0, 4) =~= header_bytes@.subrange(0, 4));
        assert(header_bytes@.subrange(0, 8).subrange(4, 8) =~= header_bytes@.subrange(4, 8));
        match r {
            Ok(n) => Ok(CotarHeader { magic: COTAR_V2_HEADER_MAGIC, version: 2, entries: n }),
            Err(e) => Err(e),
        }
    }

    /// Opens a tar whose index was appended to it: the footer is its last 8
    /// bytes, and the header it repeats must stand where the footer says.
    pub fn from_tar(data: Vec<u8>) -> (r: Result<Cotar, CotarError>)
        ensures
            match embedded_slot_count(data@) {
                Ok(n) => r is Ok && {
                    let c = r->Ok_0;
                    &&& c.wf()
                    &&& c.version == 2
                    &&& c.entries == n
                    &&& c.view@ == data@
                    &&& c.view_index is None
                    &&& c.index_offset == data@.len() - 16 - 16 * n
                },
                Err(e) => r == Err::<Cotar, CotarError>(e),
            },
    {
        let len = data.len();
        if len < 8 {
            return Err(CotarError::TruncatedIndex);
        }
        let n = match header_at(data.as_slice(), len - 8) {
            Ok(n) => n,
            Err(e) => return Err(e),
        };
        let need: u64 = 16 + 16 * n as u64;
        if (len as u64) < need {
            return Err(CotarError::TruncatedIndex);
        }
        let off = len - need as usize;
        match header_at(data.as_slice(), off) {
            Ok(m) => {
                if m != n {
                    return Err(CotarError::TruncatedIndex);
                }
            },
            Err(e) => return Err(e),
        }
        Ok(Cotar { version: 2, entries: n as u64, index_offset: off as u64, view: data, view_index: None })
    }

    /// Opens a tar together with a sidecar index image, whose header is its
    /// first 8 bytes and whose footer must repeat it.
    pub fn from_tar_index(tar: Vec<u8>, index: Vec<u8>) -> (r: Result<Cotar, CotarError>)
        ensures
            match sidecar_slot_count(index@) {
                Ok(n) => r is Ok && {
                    let c = r->Ok_0;
                    &&& c.wf()
                    &&& c.version == 2
                    &&& c.entries == n
                    &&& c.view@ == tar@
                    &&& c.view_index is Some
                    &&& c.index_view() == index@
                    &&& c.index_offset == 0
                },
                Err(e) => r == Err::<Cotar, CotarError>(e),
            },
    {
        let header = Cotar::header_from_bytes(index.as_slice());
        let n = match header {
            Ok(h) => h.entries,
            Err(e) => return Err(e),
        };
        let need: u64 = 16 + 16 * n as u64;
        if (index.len() as u64) < need {
            return Err(CotarError::TruncatedIndex);
        }
        match header_at(index.as_slice(), need as usize - 8) {
            Ok(m) => {
                if m != n {
                    return Err(CotarError::TruncatedIndex);
                }
            },
            Err(e) => return Err(e),
        }
        Ok(Cotar { version: 2, entries: n as u64, index_offset: 0, view: tar, view_index: Some(index) })
    }

    /// Fingerprint of a path: FNV-1a 64 of its UTF-8 bytes.
    pub fn hash(path: &str) -> (r: u64)
        ensures
            r == path_hash(path@),
    {
        fnv1a_64(path.as_bytes())
    }

    /// Looks `path` up in the index by linear probing from its home slot.
    ///
    /// The entry found carries the payload's byte offset in the tar.
    pub fn info(&self, path: &str) -> (r: Option<CotarIndexEntry>)
        requires
            self.wf(),
        ensures
            r == lookup(self.table(), path_hash(path@)),
    {
        let hash = Cotar::hash(path);
        let view: &Vec<u8> = match &self.view_index {
            Some(v) => v,
            None => &self.view,
        };
        probe(view.as_slice(), self.index_offset, self.entries, hash)
    }

    /// Reads the payload of `path` from the tar.
    pub fn get(&self, path: &str) -> (r: Result<Option<Vec<u8>>, CotarError>)
        requires
            self.wf(),
        ensures
            match lookup(self.table(), path_hash(path@)) {
                None => r matches Ok(None),
                Some(e) => if e.file_offset + e.file_size > self.view@.len() {
                    r == Err::<Option<Vec<u8>>, CotarError>(CotarError::UnexpectedEof)
                } else {
                    r is Ok && r->Ok_0 is Some && r->Ok_0->Some_0@ == self.view@.subrange(
                        e.file_offset as int,
                        e.file_offset + e.file_size,
                    )
                },
            },
    {
        match self.info(path) {
            None => Ok(None),
            Some(entry) => {
                let len = self.view.len() as u64;
                if entry.file_offset > len || entry.file_size as u64 > len - entry.file_offset {
                    return Err(CotarError::UnexpectedEof);
                }
                let start = entry.file_offset as usize;
                let end = start + entry.file_size as usize;
                let bytes = slice_to_vec(slice_subrange(self.view.as_slice(), start, end));
                Ok(Some(bytes))
            },
        }
    }
}

} // verus!
