use vstd::prelude::*;

use crate::layout::{empty_entry, CotarIndexEntry};

verus! {

/// The slot `k` places after slot `h` in a table of `n` slots, wrapping at the end.
pub open spec fn wrap(h: int, k: int, n: int) -> int {
    if h + k < n {
        h + k
    } else {
        h + k - n
    }
}

/// How many places after slot `h` slot `i` lies, wrapping at the end of a table of `n` slots.
pub open spec fn distance(i: int, h: int, n: int) -> int {
    if i >= h {
        i - h
    } else {
        i + n - h
    }
}

/// The home slot of fingerprint `fp` in a table of `n` slots.
pub open spec fn home(fp: u64, n: nat) -> int {
    (fp as int) % (n as int)
}

/// The probe that starts `k` places after home slot `h`: it stops at an empty
/// slot, at the slot that holds `fp`, or after visiting every slot once.
pub open spec fn probe_from(t: Seq<CotarIndexEntry>, fp: u64, h: int, k: int) -> Option<
    CotarIndexEntry,
>
    decreases t.len() - k,
{
    if k < 0 || k >= t.len() {
        None
    } else {
        let s = t[wrap(h, k, t.len() as int)];
        if s.hash == 0 {
            None
        } else if s.hash == fp {
            Some(s)
        } else {
            probe_from(t, fp, h, k + 1)
        }
    }
}

/// What a linear-probing lookup of `fp` in table `t` finds.
pub open spec fn lookup(t: Seq<CotarIndexEntry>, fp: u64) -> Option<CotarIndexEntry> {
    if t.len() == 0 {
        None
    } else {
        probe_from(t, fp, home(fp, t.len()), 0)
    }
}

/// Every slot between the home of slot `i`'s entry and slot `i` is occupied.
pub open spec fn reached(t: Seq<CotarIndexEntry>, i: int) -> bool {
    let n = t.len() as int;
    let h = home(t[i].hash, t.len());
    forall|k: int| 0 <= k < distance(i, h, n) ==> #[trigger] t[wrap(h, k, n)].hash != 0
}

/// No stored entry has an empty slot on the way from its home slot.
pub open spec fn no_gaps(t: Seq<CotarIndexEntry>) -> bool {
    forall|i: int| 0 <= i < t.len() && t[i].hash != 0 ==> #[trigger] reached(t, i)
}

/// No fingerprint is stored twice.
pub open spec fn distinct_slots(t: Seq<CotarIndexEntry>) -> bool {
    forall|i: int, j: int|
        #![trigger t[i], t[j]]
        0 <= i < t.len() && 0 <= j < t.len() && i != j && t[i].hash != 0 ==> t[i].hash
            != t[j].hash
}

/// Entries that can be placed: fingerprints non-zero and pairwise different.
pub open spec fn entries_ok(s: Seq<CotarIndexEntry>) -> bool {
    &&& forall|j: int| 0 <= j < s.len() ==> (#[trigger] s[j]).hash != 0
    &&& forall|i: int, j: int|
        #![trigger s[i], s[j]]
        0 <= i < s.len() && 0 <= j < s.len() && i != j ==> s[i].hash != s[j].hash
}

/// The entry of `s` with fingerprint `fp`, if there is one.
pub open spec fn find(s: Seq<CotarIndexEntry>, fp: u64) -> Option<CotarIndexEntry> {
    if exists|j: int| 0 <= j < s.len() && (#[trigger] s[j]).hash == fp {
        Some(s[choose|j: int| 0 <= j < s.len() && (#[trigger] s[j]).hash == fp])
    } else {
        None
    }
}

/// The first `j >= k` for which the slot `j` places after `h` is empty; the
/// table length when there is none.
pub open spec fn first_free(t: Seq<CotarIndexEntry>, h: int, k: int) -> int
    decreases t.len() - k,
{
    if k < 0 || k >= t.len() {
        t.len() as int
    } else if t[wrap(h, k, t.len() as int)].hash == 0 {
        k
    } else {
        first_free(t, h, k + 1)
    }
}

/// `t` with `e` stored in the first empty slot at or after its home slot.
pub open spec fn place(t: Seq<CotarIndexEntry>, e: CotarIndexEntry) -> Seq<CotarIndexEntry> {
    if t.len() == 0 {
        t
    } else {
        let h = home(e.hash, t.len());
        let d = first_free(t, h, 0);
        if d < t.len() {
            t.update(wrap(h, d, t.len() as int), e)
        } else {
            t
        }
    }
}

/// The table of `n` slots after placing the entries of `s` in order.
pub open spec fn fill(s: Seq<CotarIndexEntry>, n: nat) -> Seq<CotarIndexEntry>
    decreases s.len(),
{
    if s.len() == 0 {
        Seq::new(n, |i: int| empty_entry())
    } else {
        place(fill(s.drop_last(), n), s.last())
    }
}

/// Number of occupied slots.
pub open spec fn occupied_count(t: Seq<CotarIndexEntry>) -> nat
    decreases t.len(),
{
    if t.len() == 0 {
        0
    } else {
        occupied_count(t.drop_last()) + if t.last().hash != 0 {
            1nat
        } else {
            0nat
        }
    }
}

/// How far slot `i` lies from the home slot of what it holds; zero for an empty slot.
pub open spec fn probe_len(t: Seq<CotarIndexEntry>, i: int) -> nat {
    if t[i].hash == 0 {
        0
    } else {
        distance(i, home(t[i].hash, t.len()), t.len() as int) as nat
    }
}

/// The longest probe among the first `m` slots.
pub open spec fn max_probe(t: Seq<CotarIndexEntry>, m: int) -> nat
    decreases m,
{
    if m <= 0 {
        0
    } else {
        let a = max_probe(t, m - 1);
        let b = probe_len(t, m - 1);
        if a >= b {
            a
        } else {
            b
        }
    }
}

/// The sum of the probes of the first `m` slots.
pub open spec fn total_probe(t: Seq<CotarIndexEntry>, m: int) -> nat
    decreases m,
{
    if m <= 0 {
        0
    } else {
        total_probe(t, m - 1) + probe_len(t, m - 1)
    }
}

/// What holds of a table after the entries of `s` were placed in it.
pub open spec fn fill_inv(t: Seq<CotarIndexEntry>, s: Seq<CotarIndexEntry>, n: nat) -> bool {
    &&& t.len() == n
    &&& occupied_count(t) == s.len()
    &&& forall|i: int| 0 <= i < n && (#[trigger] t[i]).hash != 0 ==> s.contains(t[i])
    &&& forall|i: int| 0 <= i < n && (#[trigger] t[i]).hash == 0 ==> t[i] == empty_entry()
    &&& forall|j: int| 0 <= j < s.len() ==> t.contains(#[trigger] s[j])
    &&& distinct_slots(t)
    &&& no_gaps(t)
}

pub proof fn lemma_probe_finds_from(t: Seq<CotarIndexEntry>, fp: u64, p: int, k: int)
    requires
        t.len() > 0,
        0 <= p < t.len(),
        t[p].hash == fp,
        fp != 0,
        no_gaps(t),
        distinct_slots(t),
        0 <= k <= distance(p, home(fp, t.len()), t.len() as int),
    ensures
        probe_from(t, fp, home(fp, t.len()), k) == Some(t[p]),
    decreases distance(p, home(fp, t.len()), t.len() as int) - k,
{
    let n = t.len() as int;
    let h = home(fp, t.len());
    let d = distance(p, h, n);
    let s = wrap(h, k, n);
    if k < d {
        assert(reached(t, p));
        assert(t[wrap(h, k, n)].hash != 0);
        assert(s != p);
        assert(t[s].hash != t[p].hash);
        lemma_probe_finds_from(t, fp, p, k + 1);
    } else {
        assert(s == p);
    }
}

/// A lookup finds a stored fingerprint, in a table without gaps or repeats.
pub proof fn lemma_probe_finds(t: Seq<CotarIndexEntry>, fp: u64, p: int)
    requires
        0 <= p < t.len(),
        t[p].hash == fp,
        fp != 0,
        no_gaps(t),
        distinct_slots(t),
    ensures
        lookup(t, fp) == Some(t[p]),
{
    lemma_probe_finds_from(t, fp, p, 0);
}

pub proof fn lemma_probe_misses(t: Seq<CotarIndexEntry>, fp: u64, h: int, k: int)
    requires
        0 <= h < t.len(),
        forall|i: int| 0 <= i < t.len() ==> (#[trigger] t[i]).hash != fp,
    ensures
        probe_from(t, fp, h, k) is None,
    decreases t.len() - k,
{
    if 0 <= k < t.len() {
        assert(t[wrap(h, k, t.len() as int)].hash != fp);
        lemma_probe_misses(t, fp, h, k + 1);
    }
}

pub proof fn lemma_first_free(t: Seq<CotarIndexEntry>, h: int, k: int)
    requires
        0 <= h < t.len(),
        0 <= k <= t.len(),
    ensures
        k <= first_free(t, h, k) <= t.len(),
        forall|j: int|
            k <= j < first_free(t, h, k) ==> #[trigger] t[wrap(h, j, t.len() as int)].hash != 0,
        first_free(t, h, k) < t.len() ==> t[wrap(h, first_free(t, h, k), t.len() as int)].hash
            == 0,
    decreases t.len() - k,
{
    if k < t.len() && t[wrap(h, k, t.len() as int)].hash != 0 {
        lemma_first_free(t, h, k + 1);
    }
}

pub proof fn lemma_count_update(t: Seq<CotarIndexEntry>, i: int, e: CotarIndexEntry)
    requires
        0 <= i < t.len(),
        t[i].hash == 0,
        e.hash != 0,
    ensures
        occupied_count(t.update(i, e)) == occupied_count(t) + 1,
    decreases t.len(),
{
    let u = t.update(i, e);
    if i == t.len() - 1 {
        assert(u.drop_last() =~= t.drop_last());
    } else {
        assert(u.drop_last() =~= t.drop_last().update(i, e));
        lemma_count_update(t.drop_last(), i, e);
    }
}

pub proof fn lemma_count_full(t: Seq<CotarIndexEntry>)
    requires
        forall|i: int| 0 <= i < t.len() ==> (#[trigger] t[i]).hash != 0,
    ensures
        occupied_count(t) == t.len(),
    decreases t.len(),
{
    if t.len() > 0 {
        let p = t.drop_last();
        assert forall|i: int| 0 <= i < p.len() implies (#[trigger] p[i]).hash != 0 by {
            assert(p[i] == t[i]);
        }
        lemma_count_full(p);
    }
}

pub proof fn lemma_count_empty(n: nat)
    ensures
        occupied_count(Seq::new(n, |i: int| empty_entry())) == 0,
    decreases n,
{
    if n > 0 {
        let t = Seq::new(n, |i: int| empty_entry());
        assert(t.drop_last() =~= Seq::new((n - 1) as nat, |i: int| empty_entry()));
        lemma_count_empty((n - 1) as nat);
    }
}

/// A table with fewer occupied slots than slots has an empty slot on every probe path.
pub proof fn lemma_free_slot(t: Seq<CotarIndexEntry>, h: int)
    requires
        0 <= h < t.len(),
        occupied_count(t) < t.len(),
    ensures
        first_free(t, h, 0) < t.len(),
{
    lemma_first_free(t, h, 0);
    let ni = t.len() as int;
    if first_free(t, h, 0) >= ni {
        assert forall|i: int| 0 <= i < t.len() implies (#[trigger] t[i]).hash != 0 by {
            let k = distance(i, h, ni);
            assert(wrap(h, k, ni) == i);
            assert(t[wrap(h, k, ni)].hash != 0);
        }
        lemma_count_full(t);
    }
}

/// Placing entries one by one keeps each reachable, once, from its home slot.
pub proof fn lemma_fill(s: Seq<CotarIndexEntry>, n: nat)
    requires
        entries_ok(s),
        s.len() <= n,
    ensures
        fill_inv(fill(s, n), s, n),
    decreases s.len(),
{
    if s.len() == 0 {
        let t = fill(s, n);
        lemma_count_empty(n);
        assert(t =~= Seq::new(n, |i: int| empty_entry()));
    } else {
        let p = s.drop_last();
        let e = s.last();
        assert(entries_ok(p)) by {
            assert forall|i: int, j: int|
                0 <= i < p.len() && 0 <= j < p.len() && i != j implies #[trigger] p[i].hash
                != #[trigger] p[j].hash by {
                assert(p[i] == s[i] && p[j] == s[j]);
            }
            assert forall|j: int| 0 <= j < p.len() implies (#[trigger] p[j]).hash != 0 by {
                assert(p[j] == s[j]);
            }
        }
        lemma_fill(p, n);
        let t0 = fill(p, n);
        let ni = n as int;
        let h = home(e.hash, n);
        assert(e == s[s.len() - 1]);
        assert(e.hash != 0);
        // every entry already placed has a fingerprint other than e's
        assert forall|x: CotarIndexEntry| p.contains(x) implies x.hash != e.hash && s.contains(x)
            && x.hash != 0 by {
            let j = choose|j: int| 0 <= j < p.len() && p[j] == x;
            assert(s[j] == x);
            assert(s[j].hash != s[s.len() - 1].hash);
        }
        lemma_first_free(t0, h, 0);
        let d = first_free(t0, h, 0);
        if d >= ni {
            assert forall|i: int| 0 <= i < t0.len() implies (#[trigger] t0[i]).hash != 0 by {
                let k = distance(i, h, ni);
                assert(wrap(h, k, ni) == i);
                assert(t0[wrap(h, k, ni)].hash != 0);
            }
            lemma_count_full(t0);
            assert(false);
        }
        let q = wrap(h, d, ni);
        let t1 = t0.update(q, e);
        assert(fill(s, n) == place(t0, e));
        assert(fill(s, n) == t1);
        lemma_count_update(t0, q, e);
        assert forall|i: int| 0 <= i < n && (#[trigger] t1[i]).hash != 0 implies s.contains(
            t1[i],
        ) by {
            if i == q {
                assert(s[s.len() - 1] == e);
            } else {
                assert(t1[i] == t0[i]);
                assert(p.contains(t0[i]));
            }
        }
        assert forall|i: int| 0 <= i < n && (#[trigger] t1[i]).hash == 0 implies t1[i]
            == empty_entry() by {
            assert(i != q);
            assert(t1[i] == t0[i]);
        }
        assert forall|j: int| 0 <= j < s.len() implies t1.contains(#[trigger] s[j]) by {
            if j == s.len() - 1 {
                assert(t1[q] == s[j]);
            } else {
                assert(s[j] == p[j]);
                assert(t0.contains(p[j]));
                let i = choose|i: int| 0 <= i < t0.len() && t0[i] == p[j];
                assert(p.contains(p[j]));
                assert(i != q);
                assert(t1[i] == s[j]);
            }
        }
        assert forall|i: int, j: int|
            0 <= i < t1.len() && 0 <= j < t1.len() && i != j && t1[i].hash != 0 implies (
            #[trigger] t1[i]).hash != (#[trigger] t1[j]).hash by {
            if i == q {
                if t1[j].hash != 0 {
                    assert(t1[j] == t0[j]);
                    assert(p.contains(t0[j]));
                }
            } else if j == q {
                assert(t1[i] == t0[i]);
                assert(p.contains(t0[i]));
            } else {
                assert(t1[i] == t0[i] && t1[j] == t0[j]);
                assert(t0[i].hash != t0[j].hash);
            }
        }
        assert forall|i: int| 0 <= i < t1.len() && t1[i].hash != 0 implies #[trigger] reached(
            t1,
            i,
        ) by {
            let hi = home(t1[i].hash, n);
            if i == q {
                assert(distance(q, h, ni) == d);
                assert forall|k: int| 0 <= k < distance(i, hi, ni) implies #[trigger] t1[wrap(
                    hi,
                    k,
                    ni,
                )].hash != 0 by {
                    assert(t0[wrap(h, k, ni)].hash != 0);
                }
            } else {
                assert(t1[i] == t0[i]);
                assert(reached(t0, i));
                assert forall|k: int| 0 <= k < distance(i, hi, ni) implies #[trigger] t1[wrap(
                    hi,
                    k,
                    ni,
                )].hash != 0 by {
                    assert(t0[wrap(hi, k, ni)].hash != 0);
                }
            }
        }
        assert(distinct_slots(t1));
        assert(no_gaps(t1));
    }
}

/// Looking up a fingerprint in the table filled from `s` finds the entry of `s`
/// with that fingerprint, and nothing when `s` has none.
pub proof fn lemma_fill_lookup(s: Seq<CotarIndexEntry>, n: nat, fp: u64)
    requires
        entries_ok(s),
        s.len() <= n,
        fp != 0,
    ensures
        lookup(fill(s, n), fp) == find(s, fp),
{
    lemma_fill(s, n);
    let t = fill(s, n);
    if exists|j: int| 0 <= j < s.len() && (#[trigger] s[j]).hash == fp {
        let j = choose|j: int| 0 <= j < s.len() && (#[trigger] s[j]).hash == fp;
        assert(t.contains(s[j]));
        let p = choose|p: int| 0 <= p < t.len() && t[p] == s[j];
        lemma_probe_finds(t, fp, p);
    } else {
        assert forall|i: int| 0 <= i < t.len() implies (#[trigger] t[i]).hash != fp by {
            if t[i].hash != 0 {
                assert(s.contains(t[i]));
                let j = choose|j: int| 0 <= j < s.len() && s[j] == t[i];
                assert(s[j].hash == t[i].hash);
            }
        }
        if t.len() > 0 {
            lemma_probe_misses(t, fp, home(fp, t.len()), 0);
        }
    }
}

/// The longest probe bounds the probe of every slot.
pub proof fn lemma_max_probe_bounds(t: Seq<CotarIndexEntry>, m: int)
    requires
        0 <= m <= t.len(),
    ensures
        forall|i: int| 0 <= i < m ==> #[trigger] probe_len(t, i) <= max_probe(t, m),
    decreases m,
{
    if m > 0 {
        lemma_max_probe_bounds(t, m - 1);
    }
}

} // verus!
