//! Per-day tallies: how often each date occurs, one metric per date in date order.
use vstd::prelude::*;

use crate::data::date::{lemma_dn_injective, Date};
use crate::data::{DayMetric, MetricKind};

verus! {

/// How often `d` occurs in `ds`.
pub open spec fn count_of(ds: Seq<Date>, d: Date) -> int
    decreases ds.len(),
{
    if ds.len() == 0 {
        0
    } else {
        count_of(ds.drop_last(), d) + if ds.last() == d {
            1int
        } else {
            0int
        }
    }
}

/// `ms` tallies `ds`: one metric of `kind` for each distinct date of `ds`, in
/// strictly increasing date order, whose value is the number of times the date
/// occurs in `ds`.
pub open spec fn tallies(ms: Seq<DayMetric>, ds: Seq<Date>, kind: MetricKind) -> bool {
    &&& forall|a: int, b: int|
        0 <= a < b < ms.len() ==> (#[trigger] ms[a]).date.dn() < (#[trigger] ms[b]).date.dn()
    &&& forall|k: int|
        0 <= k < ms.len() ==> {
            &&& (#[trigger] ms[k]).kind == kind
            &&& ms[k].date.wf()
            &&& ms[k].value == count_of(ds, ms[k].date)
            &&& ms[k].value > 0
        }
    &&& forall|j: int|
        0 <= j < ds.len() ==> exists|k: int| 0 <= k < ms.len() && (#[trigger] ms[k]).date == #[trigger] ds[j]
}

pub proof fn lemma_count_bounds(ds: Seq<Date>, d: Date)
    ensures
        0 <= count_of(ds, d) <= ds.len(),
        count_of(ds, d) > 0 ==> exists|j: int| 0 <= j < ds.len() && ds[j] == d,
    decreases ds.len(),
{
    if ds.len() > 0 {
        lemma_count_bounds(ds.drop_last(), d);
        if count_of(ds.drop_last(), d) > 0 {
            let j = choose|j: int| 0 <= j < ds.drop_last().len() && ds.drop_last()[j] == d;
            assert(ds[j] == d);
        }
    }
}

proof fn lemma_count_push(ds: Seq<Date>, d: Date, x: Date)
    ensures
        count_of(ds.push(d), x) == count_of(ds, x) + if d == x {
            1int
        } else {
            0int
        },
{
    assert(ds.push(d).drop_last() =~= ds);
}

/// No date occurs in `ds` more than `u32::MAX` times, so each day's count fits a metric.
pub open spec fn counts_fit(ds: Seq<Date>) -> bool {
    forall|d: Date| #[trigger] count_of(ds, d) <= u32::MAX
}

/// A tally exists only where every count fits.
pub proof fn lemma_tallies_fit(ms: Seq<DayMetric>, ds: Seq<Date>, kind: MetricKind)
    requires
        tallies(ms, ds, kind),
    ensures
        counts_fit(ds),
{
    assert forall|d: Date| #[trigger] count_of(ds, d) <= u32::MAX by {
        lemma_count_bounds(ds, d);
        if count_of(ds, d) > 0 {
            let j = choose|j: int| 0 <= j < ds.len() && ds[j] == d;
            let q = choose|q: int| 0 <= q < ms.len() && (#[trigger] ms[q]).date == ds[j];
            assert(ms[q].value == count_of(ds, d));
        }
    }
}

/// A sequence of at most `u32::MAX` dates counts no date more often than that.
pub proof fn lemma_short_counts_fit(ds: Seq<Date>)
    requires
        ds.len() <= u32::MAX,
    ensures
        counts_fit(ds),
{
    assert forall|d: Date| #[trigger] count_of(ds, d) <= u32::MAX by {
        lemma_count_bounds(ds, d);
    }
}

/// Counting in a longer sequence never gives less.
pub proof fn lemma_count_push_ge(ds: Seq<Date>, d: Date, x: Date)
    ensures
        count_of(ds, x) <= count_of(ds.push(d), x),
        count_of(ds.push(d), d) == count_of(ds, d) + 1,
{
    lemma_count_push(ds, d, x);
    lemma_count_push(ds, d, d);
}

/// No date has been tallied yet.
pub proof fn lemma_tallies_empty(kind: MetricKind)
    ensures
        tallies(Seq::<DayMetric>::empty(), Seq::<Date>::empty(), kind),
{
}

#[verifier::spinoff_prover]
proof fn lemma_tally_bump(ms: Seq<DayMetric>, ds: Seq<Date>, d: Date, kind: MetricKind, p: int)
    requires
        tallies(ms, ds, kind),
        0 <= p < ms.len(),
        ms[p].date == d,
        ms[p].value + 1 <= u32::MAX,
    ensures
        tallies(
            ms.update(p, DayMetric { date: d, kind, value: (ms[p].value + 1) as u32 }),
            ds.push(d),
            kind,
        ),
{
    let ds2 = ds.push(d);
    let ns = ms.update(p, DayMetric { date: d, kind, value: (ms[p].value + 1) as u32 });
    assert forall|k: int| 0 <= k < ns.len() implies {
        &&& (#[trigger] ns[k]).kind == kind
        &&& ns[k].date.wf()
        &&& ns[k].value == count_of(ds2, ns[k].date)
        &&& ns[k].value > 0
    } by {
        lemma_count_push(ds, d, ns[k].date);
        if k < p {
            assert(ms[k].date.dn() < ms[p].date.dn());
        } else if k > p {
            assert(ms[p].date.dn() < ms[k].date.dn());
        }
    }
    assert forall|j: int| 0 <= j < ds2.len() implies exists|k: int|
        0 <= k < ns.len() && (#[trigger] ns[k]).date == #[trigger] ds2[j] by {
        if j < ds.len() {
            assert(ds2[j] == ds[j]);
            let k = choose|k: int| 0 <= k < ms.len() && (#[trigger] ms[k]).date == ds[j];
            assert(ns[k].date == ds2[j]);
        } else {
            assert(ns[p].date == ds2[j]);
        }
    }
    assert forall|a: int, b: int| 0 <= a < b < ns.len() implies (#[trigger] ns[a]).date.dn()
        < (#[trigger] ns[b]).date.dn() by {
        assert(ms[a].date.dn() < ms[b].date.dn());
    }
}

#[verifier::spinoff_prover]
proof fn lemma_tally_insert(ms: Seq<DayMetric>, ds: Seq<Date>, d: Date, kind: MetricKind, p: int)
    requires
        tallies(ms, ds, kind),
        d.wf(),
        0 <= p <= ms.len(),
        forall|k: int| 0 <= k < p ==> (#[trigger] ms[k]).date.dn() < d.dn(),
        p < ms.len() ==> d.dn() < ms[p].date.dn(),
    ensures
        tallies(ms.insert(p, DayMetric { date: d, kind, value: 1 }), ds.push(d), kind),
{
    let ds2 = ds.push(d);
    let ns = ms.insert(p, DayMetric { date: d, kind, value: 1 });
    lemma_count_bounds(ds, d);
    if count_of(ds, d) > 0 {
        let j = choose|j: int| 0 <= j < ds.len() && ds[j] == d;
        let k = choose|k: int| 0 <= k < ms.len() && (#[trigger] ms[k]).date == ds[j];
        if k > p {
            assert(ms[p].date.dn() < ms[k].date.dn());
        }
        assert(false);
    }
    assert forall|k: int| 0 <= k < ns.len() implies {
        &&& (#[trigger] ns[k]).kind == kind
        &&& ns[k].date.wf()
        &&& ns[k].value == count_of(ds2, ns[k].date)
        &&& ns[k].value > 0
    } by {
        lemma_count_push(ds, d, ns[k].date);
        if k < p {
            assert(ns[k] == ms[k]);
        } else if k > p {
            assert(ns[k] == ms[k - 1]);
            if k - 1 > p {
                assert(ms[p].date.dn() < ms[k - 1].date.dn());
            }
        }
    }
    assert forall|j: int| 0 <= j < ds2.len() implies exists|k: int|
        0 <= k < ns.len() && (#[trigger] ns[k]).date == #[trigger] ds2[j] by {
        if j < ds.len() {
            assert(ds2[j] == ds[j]);
            let k = choose|k: int| 0 <= k < ms.len() && (#[trigger] ms[k]).date == ds[j];
            if k < p {
                assert(ns[k].date == ds2[j]);
            } else {
                assert(ns[k + 1].date == ds2[j]);
            }
        } else {
            assert(ns[p].date == ds2[j]);
        }
    }
    assert forall|a: int, b: int| 0 <= a < b < ns.len() implies (#[trigger] ns[a]).date.dn()
        < (#[trigger] ns[b]).date.dn() by {
        if a < p && b == p {
        } else if a == p && b > p {
            if b > p + 1 {
                assert(ms[p].date.dn() < ms[b - 1].date.dn());
            }
        } else if a < p && b > p {
            if b > p + 1 {
                assert(ms[p].date.dn() < ms[b - 1].date.dn());
            }
        } else if a > p {
            assert(ms[a - 1].date.dn() < ms[b - 1].date.dn());
        } else {
            assert(ms[a].date.dn() < ms[b].date.dn());
        }
    }
}

/// How many times a tally of the dates `ds` has counted `d`.
pub fn tally_count(ms: &Vec<DayMetric>, d: Date, kind: MetricKind, Ghost(ds): Ghost<Seq<Date>>) -> (r: u32)
    requires
        tallies(ms@, ds, kind),
    ensures
        r == count_of(ds, d),
{
    let mut k: usize = 0;
    while k < ms.len()
        invariant
            k <= ms@.len(),
            tallies(ms@, ds, kind),
            forall|j: int| 0 <= j < k ==> (#[trigger] ms@[j]).date != d,
        decreases ms.len() - k,
    {
        if ms[k].date == d {
            return ms[k].value;
        }
        k = k + 1;
    }
    proof {
        lemma_count_bounds(ds, d);
        if count_of(ds, d) > 0 {
            let j = choose|j: int| 0 <= j < ds.len() && ds[j] == d;
            let q = choose|q: int| 0 <= q < ms@.len() && (#[trigger] ms@[q]).date == ds[j];
            assert(ms@[q].date == d);
        }
    }
    0
}

/// Adds one occurrence of `d` to a tally of the dates `ds`.
pub fn tally_add(ms: &mut Vec<DayMetric>, d: Date, kind: MetricKind, Ghost(ds): Ghost<Seq<Date>>)
    requires
        tallies(old(ms)@, ds, kind),
        d.wf(),
        count_of(ds, d) < u32::MAX,
    ensures
        tallies(final(ms)@, ds.push(d), kind),
{
    let ghost before = ms@;
    let mut p: usize = 0;
    let key = d.dn_wide();
    while p < ms.len() && ms[p].date.dn_wide() < key
        invariant
            p <= ms@.len(),
            ms@ == before,
            key == d.dn(),
            forall|k: int| 0 <= k < p ==> (#[trigger] ms@[k]).date.dn() < d.dn(),
        decreases ms.len() - p,
    {
        p = p + 1;
    }
    if p < ms.len() && ms[p].date == d {
        proof {
            lemma_tally_bump(before, ds, d, kind, p as int);
        }
        let old_value = ms[p].value;
        ms.set(p, DayMetric { date: d, kind, value: old_value + 1 });
    } else {
        proof {
            if p < ms@.len() {
                if d.dn() == ms@[p as int].date.dn() {
                    lemma_dn_injective(d, ms@[p as int].date);
                }
            }
            lemma_tally_insert(before, ds, d, kind, p as int);
        }
        ms.insert(p, DayMetric { date: d, kind, value: 1 });
    }
}

/// The sum of the metrics' values.
pub open spec fn values_total(ms: Seq<DayMetric>) -> int
    decreases ms.len(),
{
    if ms.len() == 0 {
        0
    } else {
        values_total(ms.drop_last()) + ms.last().value
    }
}

proof fn lemma_values_total_update(ms: Seq<DayMetric>, k: int, x: DayMetric)
    requires
        0 <= k < ms.len(),
    ensures
        values_total(ms.update(k, x)) == values_total(ms) - ms[k].value + x.value,
    decreases ms.len(),
{
    if k < ms.len() - 1 {
        lemma_values_total_update(ms.drop_last(), k, x);
        assert(ms.update(k, x).drop_last() =~= ms.drop_last().update(k, x));
    } else {
        assert(ms.update(k, x).drop_last() =~= ms.drop_last());
    }
}

proof fn lemma_values_total_remove(ms: Seq<DayMetric>, k: int)
    requires
        0 <= k < ms.len(),
    ensures
        values_total(ms.remove(k)) == values_total(ms) - ms[k].value,
    decreases ms.len(),
{
    if k < ms.len() - 1 {
        lemma_values_total_remove(ms.drop_last(), k);
        assert(ms.remove(k).drop_last() =~= ms.drop_last().remove(k));
    } else {
        assert(ms.remove(k) =~= ms.drop_last());
    }
}

proof fn lemma_count_drop_other(ds: Seq<Date>, x: Date)
    requires
        ds.len() > 0,
        x != ds.last(),
    ensures
        count_of(ds.drop_last(), x) == count_of(ds, x),
{
}

#[verifier::spinoff_prover]
proof fn lemma_tally_drop_entry(ms: Seq<DayMetric>, ds: Seq<Date>, kind: MetricKind, p: int)
    requires
        tallies(ms, ds, kind),
        ds.len() > 0,
        0 <= p < ms.len(),
        ms[p].date == ds.last(),
        ms[p].value == 1,
        forall|k: int| 0 <= k < ms.len() && k != p ==> (#[trigger] ms[k]).date != ds.last(),
    ensures
        tallies(ms.remove(p), ds.drop_last(), kind),
        values_total(ms.remove(p)) + 1 == values_total(ms),
{
    let d = ds.last();
    let rest = ds.drop_last();
    let r = ms.remove(p);
    lemma_values_total_remove(ms, p);
    assert(count_of(rest, d) == 0);
    assert forall|a: int, b: int| 0 <= a < b < r.len() implies (#[trigger] r[a]).date.dn()
        < (#[trigger] r[b]).date.dn() by {
        let a2 = if a < p { a } else { a + 1 };
        let b2 = if b < p { b } else { b + 1 };
        assert(r[a] == ms[a2] && r[b] == ms[b2]);
        assert(ms[a2].date.dn() < ms[b2].date.dn());
    }
    assert forall|k: int| 0 <= k < r.len() implies {
        &&& (#[trigger] r[k]).kind == kind
        &&& r[k].date.wf()
        &&& r[k].value == count_of(rest, r[k].date)
        &&& r[k].value > 0
    } by {
        let k2 = if k < p { k } else { k + 1 };
        assert(r[k] == ms[k2]);
        lemma_count_drop_other(ds, ms[k2].date);
    }
    assert forall|j: int| 0 <= j < rest.len() implies exists|k: int|
        0 <= k < r.len() && (#[trigger] r[k]).date == #[trigger] rest[j] by {
        assert(rest[j] == ds[j]);
        let k = choose|k: int| 0 <= k < ms.len() && (#[trigger] ms[k]).date == ds[j];
        if k == p {
            lemma_count_positive(rest, j);
            assert(false);
        } else if k < p {
            assert(r[k].date == rest[j]);
        } else {
            assert(r[k - 1].date == rest[j]);
        }
    }
}

#[verifier::spinoff_prover]
proof fn lemma_tally_lower_entry(ms: Seq<DayMetric>, ds: Seq<Date>, kind: MetricKind, p: int)
    requires
        tallies(ms, ds, kind),
        ds.len() > 0,
        0 <= p < ms.len(),
        ms[p].date == ds.last(),
        ms[p].value > 1,
        forall|k: int| 0 <= k < ms.len() && k != p ==> (#[trigger] ms[k]).date != ds.last(),
    ensures
        tallies(
            ms.update(p, DayMetric { date: ds.last(), kind, value: (ms[p].value - 1) as u32 }),
            ds.drop_last(),
            kind,
        ),
        values_total(ms.update(p, DayMetric { date: ds.last(), kind, value: (ms[p].value - 1) as u32 }))
            + 1 == values_total(ms),
{
    let d = ds.last();
    let rest = ds.drop_last();
    let x = DayMetric { date: d, kind, value: (ms[p].value - 1) as u32 };
    let r = ms.update(p, x);
    lemma_values_total_update(ms, p, x);
    assert forall|a: int, b: int| 0 <= a < b < r.len() implies (#[trigger] r[a]).date.dn()
        < (#[trigger] r[b]).date.dn() by {
        assert(ms[a].date.dn() < ms[b].date.dn());
    }
    assert forall|k: int| 0 <= k < r.len() implies {
        &&& (#[trigger] r[k]).kind == kind
        &&& r[k].date.wf()
        &&& r[k].value == count_of(rest, r[k].date)
        &&& r[k].value > 0
    } by {
        if k != p {
            lemma_count_drop_other(ds, ms[k].date);
        }
    }
    assert forall|j: int| 0 <= j < rest.len() implies exists|k: int|
        0 <= k < r.len() && (#[trigger] r[k]).date == #[trigger] rest[j] by {
        assert(rest[j] == ds[j]);
        let k = choose|k: int| 0 <= k < ms.len() && (#[trigger] ms[k]).date == ds[j];
        assert(r[k].date == rest[j]);
    }
}

/// Removing the last date from the tallied dates: the tally of the rest, with one
/// less for that date.
proof fn lemma_tally_shrink(ms: Seq<DayMetric>, ds: Seq<Date>, kind: MetricKind) -> (r: Seq<DayMetric>)
    requires
        tallies(ms, ds, kind),
        ds.len() > 0,
    ensures
        tallies(r, ds.drop_last(), kind),
        values_total(r) + 1 == values_total(ms),
{
    let d = ds.last();
    let p = choose|k: int| 0 <= k < ms.len() && (#[trigger] ms[k]).date == ds[ds.len() - 1];
    assert forall|k: int| 0 <= k < ms.len() && k != p implies (#[trigger] ms[k]).date != d by {
        if k < p {
            assert(ms[k].date.dn() < ms[p].date.dn());
        } else {
            assert(ms[p].date.dn() < ms[k].date.dn());
        }
    }
    if ms[p].value == 1 {
        lemma_tally_drop_entry(ms, ds, kind, p);
        ms.remove(p)
    } else {
        lemma_tally_lower_entry(ms, ds, kind, p);
        ms.update(p, DayMetric { date: d, kind, value: (ms[p].value - 1) as u32 })
    }
}

proof fn lemma_count_positive(ds: Seq<Date>, j: int)
    requires
        0 <= j < ds.len(),
    ensures
        count_of(ds, ds[j]) > 0,
    decreases ds.len(),
{
    if j < ds.len() - 1 {
        lemma_count_positive(ds.drop_last(), j);
        lemma_count_bounds(ds.drop_last(), ds[j]);
    }
    lemma_count_bounds(ds.drop_last(), ds[j]);
}

/// A tally counts every date once: its values add up to the number of dates.
pub proof fn law_tally_total(ms: Seq<DayMetric>, ds: Seq<Date>, kind: MetricKind)
    requires
        tallies(ms, ds, kind),
    ensures
        values_total(ms) == ds.len(),
    decreases ds.len(),
{
    if ds.len() == 0 {
        if ms.len() > 0 {
            assert(ms[0].value > 0);
            assert(count_of(ds, ms[0].date) == 0);
        }
    } else {
        let r = lemma_tally_shrink(ms, ds, kind);
        law_tally_total(r, ds.drop_last(), kind);
    }
}

} // verus!
