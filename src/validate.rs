use vstd::prelude::*;

use crate::builder::{MemberKind, TarMember};
use crate::error::CotarError;
use crate::fnv1a::path_hash;
use crate::layout::CotarIndexEntry;
use crate::reader::{embedded_slot_count, sidecar_slot_count, Cotar};
use crate::table::lookup;

verus! {

/// Opens a tar with its sidecar index when one is given, else with the index
/// embedded at its end.
pub fn create_cotar(tar: Vec<u8>, index: Option<Vec<u8>>) -> (r: Result<Cotar, CotarError>)
    ensures
        r is Ok ==> r->Ok_0.wf() && r->Ok_0.view@ == tar@,
        match index {
            Some(i) => match sidecar_slot_count(i@) {
                Ok(n) => r is Ok && r->Ok_0.entries == n && r->Ok_0.index_offset == 0
                    && r->Ok_0.index_view() == i@,
                Err(e) => r == Err::<Cotar, CotarError>(e),
            },
            None => match embedded_slot_count(tar@) {
                Ok(n) => r is Ok && r->Ok_0.entries == n && r->Ok_0.index_offset == tar@.len()
                    - 16 - 16 * n && r->Ok_0.index_view() == tar@,
                Err(e) => r == Err::<Cotar, CotarError>(e),
            },
        },
{
    match index {
        Some(i) => Cotar::from_tar_index(tar, i),
        None => Cotar::from_tar(tar),
    }
}

/// Whether the index agrees with one tar member: a regular file must be found,
/// with its payload just after its header and the header's size.
pub open spec fn member_check(t: Seq<CotarIndexEntry>, m: TarMember) -> Result<(), CotarError> {
    match m.kind {
        MemberKind::Regular => match lookup(t, path_hash(m.path@)) {
            None => Err(CotarError::MissingEntry),
            Some(e) => if e.file_offset == m.header_offset + 512 && e.file_size == m.size {
                Ok(())
            } else {
                Err(CotarError::EntryMismatch)
            },
        },
        _ => Ok(()),
    }
}

/// The number of members checked, or the failure of the first member that disagrees.
pub open spec fn members_check(t: Seq<CotarIndexEntry>, ms: Seq<TarMember>) -> Result<
    nat,
    CotarError,
>
    decreases ms.len(),
{
    if ms.len() == 0 {
        Ok(0)
    } else {
        match members_check(t, ms.drop_last()) {
            Err(e) => Err(e),
            Ok(c) => match member_check(t, ms.last()) {
                Err(e) => Err(e),
                Ok(()) => Ok(c + 1),
            },
        }
    }
}

/// Checks every member of a tar against the index; gives the number of members.
pub fn validate_members(cotar: &Cotar, members: &[TarMember]) -> (r: Result<u64, CotarError>)
    requires
        cotar.wf(),
    ensures
        match members_check(cotar.table(), members@) {
            Ok(c) => r == Ok::<u64, CotarError>(c as u64),
            Err(e) => r == Err::<u64, CotarError>(e),
        },
{
    let mut i: usize = 0;
    while i < members.len()
        invariant
            cotar.wf(),
            i <= members@.len(),
            members_check(cotar.table(), members@.subrange(0, i as int)) == Ok::<nat, CotarError>(
                i as nat,
            ),
        decreases members@.len() - i,
    {
        let m = &members[i];
        let ghost prefix = members@.subrange(0, i as int + 1);
        assert(prefix.drop_last() =~= members@.subrange(0, i as int));
        assert(prefix.last() == *m);
        match m.kind {
            MemberKind::Regular => match cotar.info(m.path.as_str()) {
                None => {
                    proof {
                        lemma_members_check_err(cotar.table(), members@, i as int + 1, CotarError::MissingEntry);
                    }
                    return Err(CotarError::MissingEntry);
                },
                Some(e) => {
                    if m.header_offset > 0xFFFF_FFFF_FFFF_FDFF || e.file_offset != m.header_offset + 512
                        || e.file_size as u64 != m.size {
                        proof {
                            lemma_members_check_err(cotar.table(), members@, i as int + 1, CotarError::EntryMismatch);
                        }
                        return Err(CotarError::EntryMismatch);
                    }
                },
            },
            _ => {},
        }
        i = i + 1;
    }
    assert(members@.subrange(0, i as int) =~= members@);
    Ok(i as u64)
}

/// Once a member disagrees, checking more members fails the same way.
pub proof fn lemma_members_check_err(
    t: Seq<CotarIndexEntry>,
    ms: Seq<TarMember>,
    i: int,
    e: CotarError,
)
    requires
        0 <= i <= ms.len(),
        members_check(t, ms.subrange(0, i)) == Err::<nat, CotarError>(e),
    ensures
        members_check(t, ms) == Err::<nat, CotarError>(e),
    decreases ms.len() - i,
{
    if i < ms.len() {
        let p = ms.subrange(0, i + 1);
        assert(p.drop_last() =~= ms.subrange(0, i));
        lemma_members_check_err(t, ms, i + 1, e);
    } else {
        assert(ms.subrange(0, i) =~= ms);
    }
}

} // verus!
