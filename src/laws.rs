use vstd::prelude::*;
use vstd::seq_lib::lemma_sorted_unique;

use crate::builder::{builder_ok, link_result};
use crate::error::CotarError;
use crate::layout::{image_bytes, lemma_table_in_shift, table_in, CotarIndexEntry};
use crate::pack::{
    key_order, keys_of, lemma_key_order_total, lemma_pack_order, lemma_packed_table,
    pack_order, pack_slot_count, packed_table,
};
use crate::table::{find, lemma_fill_lookup, lookup};

verus! {

broadcast use vstd::seq_lib::group_to_multiset_ensures;

/// Round trip: in the image packed from a builder's entries, looking up a
/// fingerprint finds the entry with that fingerprint, and nothing when no
/// entry has it.
pub proof fn lemma_round_trip(s: Seq<CotarIndexEntry>, n: nat, fp: u64)
    requires
        builder_ok(s),
        s.len() <= n < 0x1_0000_0000,
        fp != 0,
    ensures
        lookup(table_in(image_bytes(packed_table(s, n)), 0, n), fp) == find(s, fp),
{
    lemma_packed_table(s, n);
    lemma_fill_lookup(pack_order(s, n), n, fp);
    if n > 0 {
        lemma_pack_order(s, n);
    } else {
        assert(!(exists|j: int| 0 <= j < s.len() && (#[trigger] s[j]).hash == fp));
    }
}

/// The same round trip for an image appended to the end of a tar.
pub proof fn lemma_embedded_round_trip(tar: Seq<u8>, s: Seq<CotarIndexEntry>, n: nat, fp: u64)
    requires
        builder_ok(s),
        s.len() <= n < 0x1_0000_0000,
        fp != 0,
    ensures
        lookup(table_in(tar + image_bytes(packed_table(s, n)), tar.len() as int, n), fp) == find(
            s,
            fp,
        ),
{
    lemma_packed_table(s, n);
    crate::layout::lemma_image_table(packed_table(s, n));
    lemma_table_in_shift(tar, image_bytes(packed_table(s, n)), n);
    lemma_round_trip(s, n, fp);
}

/// Packing depends only on which entries a builder holds: two builders with
/// the same entries, added in any order, pack into the same table and the
/// same image. In particular packing one builder twice gives identical bytes.
pub proof fn lemma_pack_deterministic(a: Seq<CotarIndexEntry>, b: Seq<CotarIndexEntry>, n: nat)
    requires
        builder_ok(a),
        builder_ok(b),
        a.to_multiset() == b.to_multiset(),
    ensures
        packed_table(a, n) == packed_table(b, n),
        image_bytes(packed_table(a, n)) == image_bytes(packed_table(b, n)),
{
    let ka = keys_of(a, n);
    let kb = keys_of(b, n);
    assert(ka.no_duplicates()) by {
        assert forall|i: int, j: int| 0 <= i < ka.len() && 0 <= j < ka.len() && i != j implies ka[i]
            != ka[j] by {
            assert(a[i].hash != a[j].hash);
        }
    }
    assert(kb.no_duplicates()) by {
        assert forall|i: int, j: int| 0 <= i < kb.len() && 0 <= j < kb.len() && i != j implies kb[i]
            != kb[j] by {
            assert(b[i].hash != b[j].hash);
        }
    }
    assert forall|k: (u64, u64, u64, u32)| ka.contains(k) <==> kb.contains(k) by {
        if ka.contains(k) {
            let i = choose|i: int| 0 <= i < ka.len() && ka[i] == k;
            assert(a.contains(a[i]));
            assert(a.to_multiset().count(a[i]) > 0);
            assert(b.contains(a[i]));
            let j = choose|j: int| 0 <= j < b.len() && b[j] == a[i];
            assert(kb[j] == k);
        }
        if kb.contains(k) {
            let j = choose|j: int| 0 <= j < kb.len() && kb[j] == k;
            assert(b.contains(b[j]));
            assert(b.to_multiset().count(b[j]) > 0);
            assert(a.contains(b[j]));
            let i = choose|i: int| 0 <= i < a.len() && a[i] == b[j];
            assert(ka[i] == k);
        }
    }
    ka.lemma_multiset_has_no_duplicates();
    kb.lemma_multiset_has_no_duplicates();
    assert forall|k: (u64, u64, u64, u32)| ka.to_multiset().count(k) == kb.to_multiset().count(k) by {
        if ka.contains(k) {
            assert(ka.to_multiset().contains(k));
            assert(kb.to_multiset().contains(k));
        }
    }
    assert(ka.to_multiset() =~= kb.to_multiset());
    lemma_key_order_total();
    ka.lemma_sort_by_ensures(key_order());
    kb.lemma_sort_by_ensures(key_order());
    lemma_sorted_unique(ka.sort_by(key_order()), kb.sort_by(key_order()), key_order());
    assert(pack_order(a, n) =~= pack_order(b, n));
}

/// After `link(a, b)`, looking `a` and `b` up in the packed image gives
/// entries with the same offset and the same size.
pub proof fn lemma_link_equivalence(s: Seq<CotarIndexEntry>, fa: u64, fb: u64, n: nat)
    requires
        builder_ok(s),
        link_result(s, fa, fb) is Ok,
        builder_ok(link_result(s, fa, fb)->Ok_0),
        link_result(s, fa, fb)->Ok_0.len() <= n < 0x1_0000_0000,
    ensures
        ({
            let t = table_in(image_bytes(packed_table(link_result(s, fa, fb)->Ok_0, n)), 0, n);
            &&& lookup(t, fa) is Some
            &&& lookup(t, fb) is Some
            &&& lookup(t, fa)->Some_0.file_offset == lookup(t, fb)->Some_0.file_offset
            &&& lookup(t, fa)->Some_0.file_size == lookup(t, fb)->Some_0.file_size
        }),
{
    let linked = link_result(s, fa, fb)->Ok_0;
    let target = find(s, fb)->Some_0;
    let last = linked.len() - 1;
    assert(linked == s.push(linked[last]));
    assert(fb != 0) by {
        let j = choose|j: int| 0 <= j < s.len() && (#[trigger] s[j]).hash == fb;
    }
    lemma_round_trip(linked, n, fa);
    lemma_round_trip(linked, n, fb);
    // the entry with fingerprint fa is the one the link added
    assert(linked[last].hash == fa);
    let ja = choose|j: int| 0 <= j < linked.len() && (#[trigger] linked[j]).hash == fa;
    if ja != last {
        assert(linked[ja].hash != linked[last].hash);
    }
    // the entry with fingerprint fb is the target, already in s
    let jt = choose|j: int| 0 <= j < s.len() && (#[trigger] s[j]).hash == fb;
    assert(linked[jt] == s[jt]);
    let jb = choose|j: int| 0 <= j < linked.len() && (#[trigger] linked[j]).hash == fb;
    if jb != jt {
        assert(linked[jb].hash != linked[jt].hash);
    }
}

/// Packing factor one gives exactly one slot per entry; a factor below one is
/// refused; so is any table of 2^32 slots or more, which 2^32 entries or more need.
pub proof fn lemma_factor_boundaries(len: nat, num: nat, den: nat)
    ensures
        den > 0 && len < 0x1_0000_0000 ==> pack_slot_count(len, den, den) == Ok::<
            nat,
            CotarError,
        >(len),
        num < den ==> pack_slot_count(len, num, den) == Err::<nat, CotarError>(
            CotarError::InvalidPackingFactor,
        ),
        den > 0 && num >= den && len >= 0x1_0000_0000 ==> pack_slot_count(len, num, den) == Err::<
            nat,
            CotarError,
        >(CotarError::TooLarge),
{
    if den > 0 {
        assert((len * den + den - 1) / (den as int) == len) by (nonlinear_arith)
            requires
                den > 0,
        ;
        if num >= den {
            crate::pack::lemma_slot_count_covers(len, num, den);
        }
    }
}

} // verus!
