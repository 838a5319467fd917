use vstd::arithmetic::div_mod::lemma_fundamental_div_mod;
use vstd::prelude::*;
use vstd::relations::{sorted_by, total_ordering};
use vstd::seq_lib::lemma_sorted_unique;

use crate::builder::{builder_ok, CotarIndex};
use crate::error::CotarError;
use crate::layout::{
    empty_entry, header_bytes, image_bytes, lemma_image_table, storable, table_bytes,
    table_in, write_header, write_slot, CotarIndexEntry,
};
use crate::table::{
    entries_ok, fill, fill_inv, find, first_free, lemma_fill, lemma_first_free, lemma_free_slot,
    lemma_max_probe_bounds, max_probe, place, probe_len, total_probe, wrap, home,
};

verus! {

broadcast use vstd::seq_lib::group_to_multiset_ensures;

/// Denominator of the packing factors that the auto-tune loop tries.
pub const FACTOR_BASE: u64 = 10000;

/// Step, over `FACTOR_BASE`, by which the auto-tune loop grows the packing factor.
pub const FACTOR_STEP: u64 = 223;

/// The auto-tune loop gives up past this numerator: any entry then needs 2^32 slots.
pub const FACTOR_LIMIT: u64 = 42949672960000;

/// Sort key of an entry: home slot, payload offset, fingerprint, size.
pub type SlotKey = (u64, u64, u64, u32);

/// The result of packing an index.
#[derive(Debug)]
pub struct CotarIndexResult {
    /// The index image: header, slot table, footer.
    pub vec: Vec<u8>,
    /// Number of entries packed.
    pub entries: u64,
    /// Number of slots in the table.
    pub slot_count: u32,
    /// The longest probe from an entry's home slot to its slot.
    pub search_max: u64,
    /// The sum of all probes; over `entries` it gives the mean probe.
    pub search_total: u64,
}

/// The sort key of `e` in a table of `n` slots.
pub open spec fn key_of(e: CotarIndexEntry, n: nat) -> SlotKey {
    (home(e.hash, n) as u64, e.file_offset, e.hash, e.file_size)
}

/// The entry a sort key was made from.
pub open spec fn entry_of(k: SlotKey) -> CotarIndexEntry {
    CotarIndexEntry { hash: k.2, file_offset: k.1, file_size: k.3 }
}

/// Lexicographic order of sort keys, the order of Rust's tuple comparison.
pub open spec fn key_le(a: SlotKey, b: SlotKey) -> bool {
    a.0 < b.0 || (a.0 == b.0 && (a.1 < b.1 || (a.1 == b.1 && (a.2 < b.2 || (a.2 == b.2 && a.3
        <= b.3)))))
}

/// `key_le` as a relation, for sorting.
pub open spec fn key_order() -> spec_fn(SlotKey, SlotKey) -> bool {
    |a: SlotKey, b: SlotKey| key_le(a, b)
}

/// The sort keys of the entries, in the entries' order.
pub open spec fn keys_of(s: Seq<CotarIndexEntry>, n: nat) -> Seq<SlotKey> {
    Seq::new(s.len(), |i: int| key_of(s[i], n))
}

/// The entries in the order they are placed: by home slot, then offset, then fingerprint.
pub open spec fn pack_order(s: Seq<CotarIndexEntry>, n: nat) -> Seq<CotarIndexEntry> {
    let k = keys_of(s, n).sort_by(key_order());
    Seq::new(k.len(), |i: int| entry_of(k[i]))
}

/// The slot table that packing `s` into `n` slots produces.
pub open spec fn packed_table(s: Seq<CotarIndexEntry>, n: nat) -> Seq<CotarIndexEntry> {
    fill(pack_order(s, n), n)
}

/// Slot count for `len` entries at packing factor `num / den`: rounded up,
/// or why that factor is refused.
pub open spec fn pack_slot_count(len: nat, num: nat, den: nat) -> Result<nat, CotarError> {
    if den == 0 || num < den {
        Err(CotarError::InvalidPackingFactor)
    } else {
        let c = (len * num + den - 1) / (den as int);
        if c >= 0x1_0000_0000 {
            Err(CotarError::TooLarge)
        } else {
            Ok(c as nat)
        }
    }
}

/// `res` is what packing `s` into `n` slots gives.
pub open spec fn packed_as(res: CotarIndexResult, s: Seq<CotarIndexEntry>, n: nat) -> bool {
    let t = packed_table(s, n);
    &&& res.slot_count == n
    &&& res.entries == s.len()
    &&& res.vec@ == image_bytes(t)
    &&& res.search_max == max_probe(t, n as int)
    &&& res.search_total == total_probe(t, n as int)
}

/// The packing factor numerator, over `FACTOR_BASE`, that the auto-tune loop
/// settles on when started at `num`: the first whose longest probe is at most
/// `max_search`.
pub open spec fn auto_factor(s: Seq<CotarIndexEntry>, max_search: u64, num: nat) -> Result<
    nat,
    CotarError,
>
    decreases FACTOR_LIMIT - num,
{
    match pack_slot_count(s.len(), num, FACTOR_BASE as nat) {
        Err(e) => Err(e),
        Ok(n) => if max_probe(packed_table(s, n), n as int) <= max_search {
            Ok(num)
        } else if num + FACTOR_STEP > FACTOR_LIMIT {
            Err(CotarError::TooLarge)
        } else {
            auto_factor(s, max_search, (num + FACTOR_STEP) as nat)
        },
    }
}

/// The key order is a total order.
pub proof fn lemma_key_order_total()
    ensures
        total_ordering(key_order()),
{
    let r = key_order();
    assert forall|a: SlotKey| #[trigger] r(a, a) by {}
    assert forall|a: SlotKey, b: SlotKey| #[trigger] r(a, b) && #[trigger] r(b, a) implies a == b by {}
    assert forall|a: SlotKey, b: SlotKey, c: SlotKey| #[trigger] r(a, b) && #[trigger] r(b, c) implies r(a, c) by {}
    assert forall|a: SlotKey, b: SlotKey| #[trigger] r(a, b) || #[trigger] r(b, a) by {}
}

/// The packing order holds the same entries as `s`, each once.
pub proof fn lemma_pack_order(s: Seq<CotarIndexEntry>, n: nat)
    requires
        builder_ok(s),
        n > 0,
    ensures
        pack_order(s, n).len() == s.len(),
        builder_ok(pack_order(s, n)),
        forall|x: CotarIndexEntry| pack_order(s, n).contains(x) <==> s.contains(x),
        forall|fp: u64| #[trigger] find(pack_order(s, n), fp) == find(s, fp),
{
    let k = keys_of(s, n);
    let sorted = k.sort_by(key_order());
    let o = pack_order(s, n);
    lemma_key_order_total();
    k.lemma_sort_by_ensures(key_order());
    assert(k.no_duplicates()) by {
        assert forall|i: int, j: int| 0 <= i < k.len() && 0 <= j < k.len() && i != j implies k[i]
            != k[j] by {
            assert(s[i].hash != s[j].hash);
        }
    }
    k.lemma_multiset_has_no_duplicates();
    assert forall|x: SlotKey| sorted.to_multiset().contains(x) implies sorted.to_multiset().count(x)
        == 1 by {}
    sorted.lemma_multiset_has_no_duplicates_conv();
    assert(k.to_multiset().len() == k.len());
    assert(sorted.to_multiset().len() == sorted.len());
    assert(sorted.len() == k.len());
    // every key in the sorted sequence is the key of an entry of s
    assert forall|i: int| 0 <= i < sorted.len() implies exists|j: int|
        0 <= j < s.len() && #[trigger] sorted[i] == key_of(s[j], n) && o[i] == s[j] by {
        assert(sorted.contains(sorted[i]));
        assert(sorted.to_multiset().count(sorted[i]) > 0);
        assert(k.contains(sorted[i]));
        let j = choose|j: int| 0 <= j < k.len() && k[j] == sorted[i];
        assert(o[i] == entry_of(sorted[i]));
    }
    assert forall|x: CotarIndexEntry| o.contains(x) <==> s.contains(x) by {
        if o.contains(x) {
            let i = choose|i: int| 0 <= i < o.len() && o[i] == x;
            let j = choose|j: int| 0 <= j < s.len() && #[trigger] sorted[i] == key_of(s[j], n) && o[i] == s[j];
            assert(s[j] == x);
        }
        if s.contains(x) {
            let j = choose|j: int| 0 <= j < s.len() && s[j] == x;
            assert(k.contains(k[j]));
            assert(k.to_multiset().count(k[j]) > 0);
            assert(sorted.contains(k[j]));
            let i = choose|i: int| 0 <= i < sorted.len() && sorted[i] == k[j];
            assert(o[i] == x);
        }
    }
    assert forall|a: int, b: int|
        #![trigger o[a], o[b]]
        0 <= a < o.len() && 0 <= b < o.len() && a != b implies o[a].hash != o[b].hash by {
        let ja = choose|j: int| 0 <= j < s.len() && #[trigger] sorted[a] == key_of(s[j], n) && o[a] == s[j];
        let jb = choose|j: int| 0 <= j < s.len() && #[trigger] sorted[b] == key_of(s[j], n) && o[b] == s[j];
        if ja != jb {
            assert(s[ja].hash != s[jb].hash);
        } else {
            assert(sorted[a] == sorted[b]);
        }
    }
    assert forall|j: int| 0 <= j < o.len() implies (#[trigger] o[j]).hash != 0 && storable(o[j]) by {
        let i = choose|i: int| 0 <= i < s.len() && #[trigger] sorted[j] == key_of(s[i], n) && o[j] == s[i];
        assert(s[i] == o[j]);
    }
    assert forall|fp: u64| #[trigger] find(o, fp) == find(s, fp) by {
        if exists|j: int| 0 <= j < s.len() && (#[trigger] s[j]).hash == fp {
            let j = choose|j: int| 0 <= j < s.len() && (#[trigger] s[j]).hash == fp;
            assert(o.contains(s[j]));
            let i = choose|i: int| 0 <= i < o.len() && o[i] == s[j];
            assert(o[i].hash == fp);
            let oi = choose|i: int| 0 <= i < o.len() && (#[trigger] o[i]).hash == fp;
            assert(s.contains(o[oi]));
            let sj = choose|j: int| 0 <= j < s.len() && s[j] == o[oi];
            if sj != j {
                assert(s[sj].hash != s[j].hash);
            }
        } else {
            if exists|i: int| 0 <= i < o.len() && (#[trigger] o[i]).hash == fp {
                let i = choose|i: int| 0 <= i < o.len() && (#[trigger] o[i]).hash == fp;
                assert(s.contains(o[i]));
                let j = choose|j: int| 0 <= j < s.len() && s[j] == o[i];
                assert(s[j].hash == fp);
            }
        }
    }
}

/// Relies on `slice::sort_unstable`: it reorders the keys into ascending
/// order of the tuple comparison, which is lexicographic.
#[verifier::external_body]
fn sort_keys(keys: &mut Vec<SlotKey>)
    ensures
        final(keys)@.to_multiset() == old(keys)@.to_multiset(),
        sorted_by(final(keys)@, key_order()),
{
    keys.sort_unstable();
}

/// The entries of `s` in packing order for `n` slots.
fn order_entries(s: &Vec<CotarIndexEntry>, n: u64) -> (r: Vec<CotarIndexEntry>)
    requires
        n > 0,
    ensures
        r@ == pack_order(s@, n as nat),
{
    let mut keys: Vec<SlotKey> = Vec::new();
    let mut j: usize = 0;
    while j < s.len()
        invariant
            n > 0,
            j <= s@.len(),
            keys@ =~= Seq::new(j as nat, |i: int| key_of(s@[i], n as nat)),
        decreases s@.len() - j,
    {
        let e = s[j];
        keys.push((e.hash % n, e.file_offset, e.hash, e.file_size));
        j = j + 1;
    }
    let ghost k = keys_of(s@, n as nat);
    assert(keys@ =~= k);
    sort_keys(&mut keys);
    proof {
        lemma_key_order_total();
        k.lemma_sort_by_ensures(key_order());
        lemma_sorted_unique(keys@, k.sort_by(key_order()), key_order());
    }
    let mut out: Vec<CotarIndexEntry> = Vec::new();
    let mut i: usize = 0;
    while i < keys.len()
        invariant
            i <= keys@.len(),
            out@ =~= Seq::new(i as nat, |x: int| entry_of(keys@[x])),
        decreases keys@.len() - i,
    {
        let key = keys[i];
        out.push(CotarIndexEntry { hash: key.2, file_offset: key.1, file_size: key.3 });
        i = i + 1;
    }
    out
}

/// Places the entries of `order`, in order, into a table of `n` slots.
fn place_all(order: &Vec<CotarIndexEntry>, n: u64) -> (r: Vec<CotarIndexEntry>)
    requires
        builder_ok(order@),
        order@.len() <= n,
        n < 0x1_0000_0000,
    ensures
        r@ == fill(order@, n as nat),
        fill_inv(r@, order@, n as nat),
{
    let mut t: Vec<CotarIndexEntry> = Vec::new();
    let mut i: u64 = 0;
    while i < n
        invariant
            i <= n,
            t@ =~= Seq::new(i as nat, |x: int| empty_entry()),
        decreases n - i,
    {
        t.push(CotarIndexEntry { hash: 0, file_offset: 0, file_size: 0 });
        i = i + 1;
    }
    assert(t@ =~= fill(order@.subrange(0, 0), n as nat));
    let mut j: usize = 0;
    while j < order.len()
        invariant
            builder_ok(order@),
            order@.len() <= n < 0x1_0000_0000,
            j <= order@.len(),
            t@ == fill(order@.subrange(0, j as int), n as nat),
        decreases order@.len() - j,
    {
        let ghost done = order@.subrange(0, j as int);
        proof {
            assert(entries_ok(done)) by {
                assert forall|a: int, b: int|
                    0 <= a < done.len() && 0 <= b < done.len() && a != b implies #[trigger] done[a].hash
                    != #[trigger] done[b].hash by {
                    assert(done[a] == order@[a] && done[b] == order@[b]);
                }
                assert forall|a: int| 0 <= a < done.len() implies (#[trigger] done[a]).hash != 0 by {
                    assert(done[a] == order@[a]);
                }
            }
            lemma_fill(done, n as nat);
        }
        let e = order[j];
        let h = e.hash % n;
        let ghost free = first_free(t@, h as int, 0);
        proof {
            lemma_free_slot(t@, h as int);
            lemma_first_free(t@, h as int, 0);
        }
        let mut pos = h;
        let ghost mut k: int = 0;
        while t[pos as usize].hash != 0
            invariant
                0 < n < 0x1_0000_0000,
                t@.len() == n,
                0 <= h < n,
                0 <= k <= free < n,
                pos == wrap(h as int, k, n as int),
                free == first_free(t@, h as int, 0),
                forall|x: int| 0 <= x < free ==> #[trigger] t@[wrap(h as int, x, n as int)].hash != 0,
                t@[wrap(h as int, free, n as int)].hash == 0,
            decreases free - k,
        {
            pos = pos + 1;
            if pos >= n {
                pos = 0;
            }
            proof {
                k = k + 1;
            }
        }
        assert(k == free);
        let ghost before = t@;
        t.set(pos as usize, e);
        proof {
            let next = order@.subrange(0, j as int + 1);
            assert(next.drop_last() =~= done);
            assert(next.last() == e);
            assert(e.hash != 0);
            assert(home(e.hash, n as nat) == h as int);
            assert(fill(next, n as nat) == place(before, e));
            assert(t@ =~= before.update(wrap(h as int, free, n as int), e));
        }
        j = j + 1;
    }
    assert(order@.subrange(0, j as int) =~= order@);
    proof {
        lemma_fill(order@, n as nat);
    }
    t
}

/// The longest probe and the sum of all probes of a table.
fn probe_stats(t: &Vec<CotarIndexEntry>) -> (r: (u64, u64))
    requires
        t@.len() < 0x1_0000_0000,
    ensures
        r.0 == max_probe(t@, t@.len() as int),
        r.1 == total_probe(t@, t@.len() as int),
{
    let n = t.len() as u64;
    let mut max: u64 = 0;
    let mut total: u64 = 0;
    let mut i: u64 = 0;
    while i < n
        invariant
            n == t@.len(),
            n < 0x1_0000_0000,
            i <= n,
            max == max_probe(t@, i as int),
            total == total_probe(t@, i as int),
            total <= i * n,
        decreases n - i,
    {
        let e = t[i as usize];
        let mut d: u64 = 0;
        if e.hash != 0 {
            let h = e.hash % n;
            d = if i >= h {
                i - h
            } else {
                i + n - h
            };
        }
        assert(d == probe_len(t@, i as int));
        assert(total + d <= (i + 1) * n) by (nonlinear_arith)
            requires
                total <= i * n,
                d < n,
        ;
        assert((i + 1) * n <= n * n) by (nonlinear_arith)
            requires
                i < n,
        ;
        assert(n * n < 0x1_0000_0000_0000_0000) by (nonlinear_arith)
            requires
                n < 0x1_0000_0000,
        ;
        if d > max {
            max = d;
        }
        total = total + d;
        i = i + 1;
    }
    (max, total)
}

/// The image of table `t`: header, slots, footer.
fn write_image(t: &Vec<CotarIndexEntry>) -> (r: Vec<u8>)
    requires
        t@.len() < 0x1_0000_0000,
        forall|i: int| 0 <= i < t@.len() ==> storable(#[trigger] t@[i]),
    ensures
        r@ == image_bytes(t@),
{
    let n = t.len() as u32;
    let mut out: Vec<u8> = Vec::new();
    write_header(&mut out, n);
    let mut i: usize = 0;
    while i < t.len()
        invariant
            n == t@.len(),
            i <= t@.len(),
            forall|x: int| 0 <= x < t@.len() ==> storable(#[trigger] t@[x]),
            out@ == header_bytes(n as nat) + table_bytes(t@.subrange(0, i as int)),
        decreases t@.len() - i,
    {
        let ghost before = out@;
        write_slot(&mut out, &t[i]);
        proof {
            let next = t@.subrange(0, i as int + 1);
            assert(next.drop_last() =~= t@.subrange(0, i as int));
            assert(next.last() == t@[i as int]);
            assert(out@ =~= header_bytes(n as nat) + table_bytes(next));
        }
        i = i + 1;
    }
    assert(t@.subrange(0, i as int) =~= t@);
    write_header(&mut out, n);
    out
}

/// A packing factor of at least one gives at least one slot per entry.
pub proof fn lemma_slot_count_covers(len: nat, num: nat, den: nat)
    requires
        den > 0,
        num >= den,
    ensures
        (len * num + den - 1) / (den as int) >= len,
{
    let x = len * num + den - 1;
    lemma_fundamental_div_mod(x as int, den as int);
    let q = x as int / den as int;
    let m = x as int % den as int;
    assert(len * num >= len * den) by (nonlinear_arith)
        requires
            num >= den,
    ;
    assert(q >= len) by (nonlinear_arith)
        requires
            x == den * q + m,
            0 <= m < den,
            x >= len * den,
            den > 0,
    ;
}

/// With no entries there is nothing to order.
proof fn lemma_pack_order_empty(s: Seq<CotarIndexEntry>, n: nat)
    requires
        s.len() == 0,
    ensures
        pack_order(s, n) == Seq::<CotarIndexEntry>::empty(),
{
    let k = keys_of(s, n);
    lemma_key_order_total();
    k.lemma_sort_by_ensures(key_order());
    assert(k.to_multiset().len() == 0);
    assert(k.sort_by(key_order()).to_multiset().len() == k.sort_by(key_order()).len());
    assert(pack_order(s, n) =~= Seq::<CotarIndexEntry>::empty());
}

/// The packed table keeps each entry once, reachable from its home slot, and
/// every slot of it can be stored and read back from the image.
pub proof fn lemma_packed_table(s: Seq<CotarIndexEntry>, n: nat)
    requires
        builder_ok(s),
        s.len() <= n < 0x1_0000_0000,
    ensures
        builder_ok(pack_order(s, n)),
        pack_order(s, n).len() == s.len(),
        fill_inv(packed_table(s, n), pack_order(s, n), n),
        forall|i: int| 0 <= i < n ==> storable(#[trigger] packed_table(s, n)[i]),
        table_in(image_bytes(packed_table(s, n)), 0, n) == packed_table(s, n),
{
    if n == 0 {
        lemma_pack_order_empty(s, n);
    } else {
        lemma_pack_order(s, n);
    }
    let o = pack_order(s, n);
    let t = packed_table(s, n);
    lemma_fill(o, n);
    assert forall|i: int| 0 <= i < n implies storable(#[trigger] t[i]) by {
        if t[i].hash != 0 {
            assert(o.contains(t[i]));
        }
    }
    lemma_image_table(t);
}

impl CotarIndex {
    /// Packs the entries into `n` slots.
    fn pack_slots(&self, n: u64) -> (r: CotarIndexResult)
        requires
            self.wf(),
            self@.len() <= n < 0x1_0000_0000,
        ensures
            packed_as(r, self@, n as nat),
    {
        let entries = self.entries();
        proof {
            lemma_packed_table(self@, n as nat);
        }
        let order = if n == 0 {
            Vec::new()
        } else {
            order_entries(entries, n)
        };
        assert(order@ == pack_order(self@, n as nat));
        let t = place_all(&order, n);
        let (max, total) = probe_stats(&t);
        let vec = write_image(&t);
        CotarIndexResult {
            vec,
            entries: entries.len() as u64,
            slot_count: n as u32,
            search_max: max,
            search_total: total,
        }
    }

    /// Packs the entries into an index image at packing factor
    /// `factor_num / factor_den`, which must be at least one. The table has
    /// `entries * factor` slots, rounded up, and fewer than 2^32 of them.
    pub fn pack(&self, factor_num: u64, factor_den: u64) -> (r: Result<CotarIndexResult, CotarError>)
        requires
            self.wf(),
        ensures
            match pack_slot_count(self@.len(), factor_num as nat, factor_den as nat) {
                Ok(n) => r is Ok && packed_as(r->Ok_0, self@, n),
                Err(e) => r == Err::<CotarIndexResult, CotarError>(e),
            },
    {
        if factor_den == 0 || factor_num < factor_den {
            return Err(CotarError::InvalidPackingFactor);
        }
        let len = self.len() as u64;
        let num = factor_num as u128;
        let den = factor_den as u128;
        assert(len * num <= 0xFFFF_FFFF_FFFF_FFFF * 0xFFFF_FFFF_FFFF_FFFF) by (nonlinear_arith)
            requires
                len <= 0xFFFF_FFFF_FFFF_FFFF,
                num <= 0xFFFF_FFFF_FFFF_FFFF,
        ;
        let x: u128 = len as u128 * num + den - 1;
        let c: u128 = x / den;
        if c >= 0x1_0000_0000 {
            return Err(CotarError::TooLarge);
        }
        proof {
            lemma_slot_count_covers(len as nat, num as nat, den as nat);
        }
        Ok(self.pack_slots(c as u64))
    }

    /// Packs at packing factor 1, then at factors growing by
    /// `FACTOR_STEP / FACTOR_BASE`, until no entry lies more than `max_search`
    /// slots past its home slot.
    pub fn pack_auto(&self, max_search: u64) -> (r: Result<CotarIndexResult, CotarError>)
        requires
            self.wf(),
        ensures
            match auto_factor(self@, max_search, FACTOR_BASE as nat) {
                Ok(num) => r is Ok && pack_slot_count(self@.len(), num, FACTOR_BASE as nat) == Ok::<
                    nat,
                    CotarError,
                >(r->Ok_0.slot_count as nat) && packed_as(r->Ok_0, self@, r->Ok_0.slot_count as nat),
                Err(e) => r == Err::<CotarIndexResult, CotarError>(e),
            },
            r is Ok ==> r->Ok_0.search_max <= max_search,
            r is Ok ==> forall|i: int|
                0 <= i < r->Ok_0.slot_count ==> #[trigger] probe_len(
                    table_in(r->Ok_0.vec@, 0, r->Ok_0.slot_count as nat),
                    i,
                ) <= max_search,
    {
        let mut num: u64 = FACTOR_BASE;
        loop
            invariant
                self.wf(),
                FACTOR_BASE <= num <= FACTOR_LIMIT,
                auto_factor(self@, max_search, num as nat) == auto_factor(
                    self@,
                    max_search,
                    FACTOR_BASE as nat,
                ),
            decreases FACTOR_LIMIT - num,
        {
            match self.pack(num, FACTOR_BASE) {
                Err(e) => return Err(e),
                Ok(res) => {
                    if res.search_max <= max_search {
                        proof {
                            let n = res.slot_count as nat;
                            let t = packed_table(self@, n);
                            self.lemma_wf();
                            lemma_slot_count_covers(self@.len(), num as nat, FACTOR_BASE as nat);
                            lemma_packed_table(self@, n);
                            lemma_max_probe_bounds(t, n as int);
                        }
                        return Ok(res);
                    }
                },
            }
            if num > FACTOR_LIMIT - FACTOR_STEP {
                return Err(CotarError::TooLarge);
            }
            num = num + FACTOR_STEP;
        }
    }
}

} // verus!
