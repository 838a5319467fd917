use std::collections::HashMap;
use vstd::prelude::*;

use crate::error::CotarError;
use crate::fnv1a::path_hash;
use crate::layout::{storable, CotarIndexEntry, TAR_BLOCK_SIZE};
use crate::reader::Cotar;
use crate::table::{entries_ok, find};

verus! {

broadcast use vstd::std_specs::hash::group_hash_axioms;

/// What kind of tar member a header describes.
#[derive(Debug, Clone, Copy, PartialEq, Eq, Structural)]
pub enum MemberKind {
    /// A regular file with its payload after the header.
    Regular,
    /// A hard link to a member stored earlier.
    HardLink,
    /// Anything else: directories, symbolic links, extension headers.
    Other,
}

/// One member of a tar archive, as a tar reader reports it.
#[derive(Debug, Clone)]
pub struct TarMember {
    /// Path inside the archive.
    pub path: String,
    /// Kind of the member.
    pub kind: MemberKind,
    /// Byte offset of the member's 512-byte header.
    pub header_offset: u64,
    /// Payload length from the header.
    pub size: u64,
    /// For a hard link, the path it points to.
    pub link_target: Option<String>,
}

/// Builds the index of a tar archive: one entry per path, keyed by fingerprint.
pub struct CotarIndex {
    entries: Vec<CotarIndexEntry>,
    positions: HashMap<u64, usize>,
}

/// Entries that a builder can hold: placeable, and each storable in a slot.
pub open spec fn builder_ok(s: Seq<CotarIndexEntry>) -> bool {
    &&& entries_ok(s)
    &&& forall|j: int| 0 <= j < s.len() ==> storable(#[trigger] s[j])
}

/// The entries after adding `fp` with the payload at byte `file_offset`, or why it is refused.
pub open spec fn add_result(
    s: Seq<CotarIndexEntry>,
    fp: u64,
    file_offset: u64,
    size: u32,
) -> Result<Seq<CotarIndexEntry>, CotarError> {
    if file_offset % 512 != 0 {
        Err(CotarError::UnalignedOffset)
    } else if file_offset / 512 >= 0x1_0000_0000 {
        Err(CotarError::EntryTooLarge)
    } else if fp == 0 {
        Err(CotarError::ReservedFingerprint)
    } else if find(s, fp) is Some {
        Err(CotarError::DuplicateFingerprint)
    } else {
        Ok(s.push(CotarIndexEntry { hash: fp, file_offset, file_size: size }))
    }
}

/// The entries after adding `source` as a hard link to `target`, or why it is refused.
pub open spec fn link_result(s: Seq<CotarIndexEntry>, source: u64, target: u64) -> Result<
    Seq<CotarIndexEntry>,
    CotarError,
> {
    match find(s, target) {
        None => Err(CotarError::MissingLinkTarget),
        Some(t) => if source == 0 {
            Err(CotarError::ReservedFingerprint)
        } else if find(s, source) is Some {
            Err(CotarError::DuplicateFingerprint)
        } else {
            Ok(s.push(CotarIndexEntry { hash: source, file_offset: t.file_offset, file_size: t.file_size }))
        },
    }
}

/// The entries after taking in one tar member: a regular file is added with
/// its payload just after its header, a hard link is linked, the rest is skipped.
pub open spec fn member_result(s: Seq<CotarIndexEntry>, m: TarMember) -> Result<
    Seq<CotarIndexEntry>,
    CotarError,
> {
    match m.kind {
        MemberKind::Regular => if m.header_offset + 512 >= 0x1_0000_0000_0000_0000 || m.size
            >= 0x1_0000_0000 {
            Err(CotarError::EntryTooLarge)
        } else {
            add_result(s, path_hash(m.path@), (m.header_offset + 512) as u64, m.size as u32)
        },
        MemberKind::HardLink => match m.link_target {
            None => Err(CotarError::MissingLinkTarget),
            Some(t) => link_result(s, path_hash(m.path@), path_hash(t@)),
        },
        MemberKind::Other => Ok(s),
    }
}

/// The entries after taking in the members in order, or the first refusal.
pub open spec fn members_result(ms: Seq<TarMember>) -> Result<Seq<CotarIndexEntry>, CotarError>
    decreases ms.len(),
{
    if ms.len() == 0 {
        Ok(Seq::empty())
    } else {
        match members_result(ms.drop_last()) {
            Err(e) => Err(e),
            Ok(s) => member_result(s, ms.last()),
        }
    }
}

impl View for CotarIndex {
    type V = Seq<CotarIndexEntry>;

    /// The entries in the order they were added.
    closed spec fn view(&self) -> Seq<CotarIndexEntry> {
        self.entries@
    }
}

impl CotarIndex {
    /// The position map indexes the entries exactly.
    pub closed spec fn wf(&self) -> bool {
        &&& builder_ok(self.entries@)
        &&& forall|h: u64| #[trigger]
            self.positions@.contains_key(h) ==> self.positions@[h] < self.entries@.len()
                && self.entries@[self.positions@[h] as int].hash == h
        &&& forall|j: int|
            0 <= j < self.entries@.len() ==> self.positions@.contains_key(
                (#[trigger] self.entries@[j]).hash,
            ) && self.positions@[self.entries@[j].hash] == j
    }

    /// A well-formed builder holds entries that can be placed and stored.
    pub proof fn lemma_wf(&self)
        requires
            self.wf(),
        ensures
            builder_ok(self@),
    {
    }

    /// An empty builder.
    pub fn new() -> (r: CotarIndex)
        ensures
            r.wf(),
            r@ == Seq::<CotarIndexEntry>::empty(),
            builder_ok(r@),
    {
        CotarIndex { entries: Vec::new(), positions: HashMap::new() }
    }

    /// The entries in the order they were added.
    pub(crate) fn entries(&self) -> (r: &Vec<CotarIndexEntry>)
        requires
            self.wf(),
        ensures
            r@ == self@,
            builder_ok(r@),
    {
        &self.entries
    }

    /// Number of entries.
    pub fn len(&self) -> (r: usize)
        requires
            self.wf(),
        ensures
            r == self@.len(),
    {
        self.entries.len()
    }

    /// The entry with fingerprint `fp`, found through the position map.
    fn entry_for(&self, fp: u64) -> (r: Option<CotarIndexEntry>)
        requires
            self.wf(),
        ensures
            r == find(self@, fp),
    {
        match self.positions.get(&fp) {
            None => {
                assert(!(exists|j: int| 0 <= j < self@.len() && (#[trigger] self@[j]).hash == fp))
                    by {
                    if exists|j: int| 0 <= j < self@.len() && (#[trigger] self@[j]).hash == fp {
                        let j = choose|j: int| 0 <= j < self@.len() && (#[trigger] self@[j]).hash == fp;
                        assert(self.positions@.contains_key(self.entries@[j].hash));
                    }
                }
                None
            },
            Some(i) => {
                let e = self.entries[*i];
                proof {
                    let j = choose|j: int| 0 <= j < self@.len() && (#[trigger] self@[j]).hash == fp;
                    assert(self@[*i as int].hash == fp);
                    if j != *i as int {
                        assert(self@[j].hash != self@[*i as int].hash);
                    }
                }
                Some(e)
            },
        }
    }

    /// Stores `e`, whose fingerprint is new, after the others.
    fn push_entry(&mut self, e: CotarIndexEntry)
        requires
            old(self).wf(),
            find(old(self)@, e.hash) is None,
            e.hash != 0,
            storable(e),
        ensures
            final(self).wf(),
            final(self)@ == old(self)@.push(e),
    {
        let ghost old_entries = self.entries@;
        let ghost old_positions = self.positions@;
        let i = self.entries.len();
        proof {
            assert forall|j: int| 0 <= j < old_entries.len() implies (#[trigger] old_entries[j]).hash
                != e.hash by {
                if old_entries[j].hash == e.hash {
                    assert(exists|k: int| 0 <= k < old_entries.len() && (#[trigger] old_entries[k]).hash == e.hash);
                }
            }
        }
        self.entries.push(e);
        self.positions.insert(e.hash, i);
        proof {
            let s = self.entries@;
            assert(s.len() == old_entries.len() + 1);
            assert forall|j: int| 0 <= j < s.len() implies storable(#[trigger] s[j]) by {
                if j < old_entries.len() {
                    assert(s[j] == old_entries[j]);
                }
            }
            assert forall|a: int, b: int|
                0 <= a < s.len() && 0 <= b < s.len() && a != b implies #[trigger] s[a].hash
                != #[trigger] s[b].hash by {
                if a < old_entries.len() && b < old_entries.len() {
                    assert(s[a] == old_entries[a] && s[b] == old_entries[b]);
                } else if a < old_entries.len() {
                    assert(s[a] == old_entries[a]);
                } else {
                    assert(s[b] == old_entries[b]);
                }
            }
            assert forall|j: int| 0 <= j < s.len() implies (#[trigger] s[j]).hash != 0 by {
                if j < old_entries.len() {
                    assert(s[j] == old_entries[j]);
                }
            }
            assert forall|h: u64| #[trigger]
                self.positions@.contains_key(h) implies self.positions@[h] < s.len()
                && s[self.positions@[h] as int].hash == h by {
                if h != e.hash {
                    assert(old_positions.contains_key(h));
                    assert(s[old_positions[h] as int] == old_entries[old_positions[h] as int]);
                }
            }
            assert forall|j: int| 0 <= j < s.len() implies self.positions@.contains_key(
                (#[trigger] s[j]).hash,
            ) && self.positions@[s[j].hash] == j by {
                if j < old_entries.len() {
                    assert(s[j] == old_entries[j]);
                    assert(old_positions.contains_key(old_entries[j].hash));
                }
            }
        }
    }

    /// Adds `path` with its payload at byte `file_offset` of the tar, `size` bytes long.
    ///
    /// The offset must be a whole number of tar blocks; the entry stores it as
    /// a block number, which must fit in 32 bits.
    pub fn add(&mut self, path: &str, file_offset: u64, size: u32) -> (r: Result<(), CotarError>)
        requires
            old(self).wf(),
        ensures
            final(self).wf(),
            match add_result(old(self)@, path_hash(path@), file_offset, size) {
                Ok(s) => r is Ok && final(self)@ == s,
                Err(e) => r == Err::<(), CotarError>(e) && final(self)@ == old(self)@,
            },
            builder_ok(final(self)@),
    {
        let hash = Cotar::hash(path);
        if file_offset % TAR_BLOCK_SIZE != 0 {
            return Err(CotarError::UnalignedOffset);
        }
        if file_offset / TAR_BLOCK_SIZE >= 0x1_0000_0000 {
            return Err(CotarError::EntryTooLarge);
        }
        if hash == 0 {
            return Err(CotarError::ReservedFingerprint);
        }
        if self.entry_for(hash).is_some() {
            return Err(CotarError::DuplicateFingerprint);
        }
        self.push_entry(CotarIndexEntry { hash, file_offset, file_size: size });
        Ok(())
    }

    /// Adds `source_path` as a hard link to `target_path`: it gets the target's
    /// offset and size.
    pub fn link(&mut self, source_path: &str, target_path: &str) -> (r: Result<(), CotarError>)
        requires
            old(self).wf(),
        ensures
            final(self).wf(),
            match link_result(old(self)@, path_hash(source_path@), path_hash(target_path@)) {
                Ok(s) => r is Ok && final(self)@ == s,
                Err(e) => r == Err::<(), CotarError>(e) && final(self)@ == old(self)@,
            },
            builder_ok(final(self)@),
    {
        let source = Cotar::hash(source_path);
        let target = Cotar::hash(target_path);
        let found = self.entry_for(target);
        let t = match found {
            None => return Err(CotarError::MissingLinkTarget),
            Some(t) => t,
        };
        if source == 0 {
            return Err(CotarError::ReservedFingerprint);
        }
        if self.entry_for(source).is_some() {
            return Err(CotarError::DuplicateFingerprint);
        }
        proof {
            let j = choose|j: int| 0 <= j < self@.len() && (#[trigger] self@[j]).hash == target;
            assert(storable(self@[j]));
        }
        self.push_entry(CotarIndexEntry { hash: source, file_offset: t.file_offset, file_size: t.file_size });
        Ok(())
    }

    /// Takes in one tar member: a regular file is added with its payload just
    /// after its 512-byte header, a hard link is linked to its target, anything
    /// else is skipped.
    pub fn add_member(&mut self, member: &TarMember) -> (r: Result<(), CotarError>)
        requires
            old(self).wf(),
        ensures
            final(self).wf(),
            match member_result(old(self)@, *member) {
                Ok(s) => r is Ok && final(self)@ == s,
                Err(e) => r == Err::<(), CotarError>(e) && final(self)@ == old(self)@,
            },
            builder_ok(final(self)@),
    {
        match member.kind {
            MemberKind::Regular => {
                if member.header_offset >= 0xFFFF_FFFF_FFFF_FE00 || member.size >= 0x1_0000_0000 {
                    return Err(CotarError::EntryTooLarge);
                }
                self.add(member.path.as_str(), member.header_offset + TAR_BLOCK_SIZE, member.size as u32)
            },
            MemberKind::HardLink => match &member.link_target {
                None => Err(CotarError::MissingLinkTarget),
                Some(target) => self.link(member.path.as_str(), target.as_str()),
            },
            MemberKind::Other => Ok(()),
        }
    }

    /// Builds the index of the members of a tar archive, in archive order.
    pub fn from_members(members: &[TarMember]) -> (r: Result<CotarIndex, CotarError>)
        ensures
            match members_result(members@) {
                Ok(s) => r is Ok && r->Ok_0.wf() && r->Ok_0@ == s && builder_ok(s),
                Err(e) => r == Err::<CotarIndex, CotarError>(e),
            },
    {
        let mut index = CotarIndex::new();
        let mut i: usize = 0;
        while i < members.len()
            invariant
                i <= members@.len(),
                members_result(members@.subrange(0, i as int)) == Ok::<
                    Seq<CotarIndexEntry>,
                    CotarError,
                >(index@),
                index.wf(),
                builder_ok(index@),
            decreases members@.len() - i,
        {
            let ghost prefix = members@.subrange(0, i as int + 1);
            assert(prefix.drop_last() =~= members@.subrange(0, i as int));
            match index.add_member(&members[i]) {
                Ok(()) => {},
                Err(e) => {
                    proof {
                        lemma_members_result_err(members@, i as int + 1, e);
                    }
                    return Err(e);
                },
            }
            i = i + 1;
        }
        assert(members@.subrange(0, i as int) =~= members@);
        Ok(index)
    }
}

/// Once taking in members fails, taking in more fails the same way.
pub proof fn lemma_members_result_err(ms: Seq<TarMember>, i: int, e: CotarError)
    requires
        0 <= i <= ms.len(),
        members_result(ms.subrange(0, i)) == Err::<Seq<CotarIndexEntry>, CotarError>(e),
    ensures
        members_result(ms) == Err::<Seq<CotarIndexEntry>, CotarError>(e),
    decreases ms.len() - i,
{
    if i < ms.len() {
        let p = ms.subrange(0, i + 1);
        assert(p.drop_last() =~= ms.subrange(0, i));
        lemma_members_result_err(ms, i + 1, e);
    } else {
        assert(ms.subrange(0, i) =~= ms);
    }
}

} // verus!
