//! Weighted random recall: draw records without replacement, with
//! probability proportional to staleness (and, in the priority-weighted
//! mode, to priority), excluding records touched more recently than the
//! cutoff.
use crate::task::{lemma_filter_congruence, lemma_filter_push, Task, TaskV};
use rand::RngExt;
use vstd::prelude::*;

verus! {

/// Relies on rand's thread-local generator for a uniform integer in
/// `0 ..= max`. Only the range is promised: the value depends on the
/// generator's state.
#[verifier::external_body]
fn random_at_most(max: u64) -> (r: u64)
    ensures
        r <= max,
{
    rand::rng().random_range(0..=max)
}

/// At least `cutoff` seconds have passed since the record was last touched.
pub open spec fn eligible(t: TaskV, now: i64, cutoff: u64) -> bool {
    now - t.metadata.last_completed >= cutoff
}

/// How many records of `list` are eligible.
pub open spec fn count_eligible(list: Seq<TaskV>, now: i64, cutoff: u64) -> int {
    list.filter(|t: TaskV| eligible(t, now, cutoff)).len() as int
}

/// An integer clamped into the range of `u64`.
pub open spec fn sat_cap(x: int) -> u64 {
    if x > u64::MAX {
        u64::MAX
    } else if x < 0 {
        0
    } else {
        x as u64
    }
}

/// The sampling weight of a record: seconds elapsed since the last touch,
/// multiplied by the priority in the priority-weighted mode, saturating
/// rather than wrapping on pathological magnitudes.
pub open spec fn spec_weight(t: TaskV, now: i64, weighted: bool) -> u64 {
    let e = now - t.metadata.last_completed;
    sat_cap(
        if weighted {
            e * t.metadata.priority
        } else {
            e
        },
    )
}

/// Saturating addition on `u64`.
fn sat_add_u64(a: u64, b: u64) -> (r: u64)
    ensures
        r == sat_cap(a + b),
{
    if a > u64::MAX - b {
        u64::MAX
    } else {
        a + b
    }
}

/// The record's sampling weight, saturating on overflow.
fn weight_for(t: &Task, now: i64, weighted: bool) -> (r: u64)
    requires
        now - t@.metadata.last_completed >= 0,
    ensures
        r == spec_weight(t@, now, weighted),
{
    let e128: i128 = now as i128 - t.last_touched() as i128;
    let e: u64 = if e128 > u64::MAX as i128 {
        u64::MAX
    } else {
        e128 as u64
    };
    proof {
        let ei = now - t@.metadata.last_completed;
        assert(ei >= 0);
        if e128 > u64::MAX {
            assert(e == u64::MAX);
        } else {
            assert(ei == e);
        }
    }
    if !weighted {
        return e;
    }
    let p: u64 = t.priority() as u64;
    if p == 0 {
        proof {
            let ei = now - t@.metadata.last_completed;
            assert(ei * t@.metadata.priority == 0) by (nonlinear_arith)
                requires
                    t@.metadata.priority == 0,
            {
            }
        }
        0
    } else if e > u64::MAX / p {
        proof {
            let ei = now - t@.metadata.last_completed;
            assert(ei >= e);
            assert(e * p > u64::MAX) by (nonlinear_arith)
                requires
                    p > 0,
                    e > u64::MAX / p,
                    u64::MAX / p == u64::MAX as int / p as int,
            {
            }
            assert(ei * p >= e * p) by (nonlinear_arith)
                requires
                    ei >= e,
                    p > 0,
            {
            }
        }
        u64::MAX
    } else {
        proof {
            let ei = now - t@.metadata.last_completed;
            if e128 <= u64::MAX {
                assert(ei == e);
                assert(e * p <= u64::MAX) by (nonlinear_arith)
                    requires
                        p > 0,
                        e <= u64::MAX / p,
                        u64::MAX / p == u64::MAX as int / p as int,
                {
                }
            } else {
                assert(e == u64::MAX);
                assert(p == 1);
                assert(ei * p == ei) by (nonlinear_arith)
                    requires
                        p == 1,
                {
                }
            }
            assert(ei * p >= 0) by (nonlinear_arith)
                requires
                    ei >= 0,
                    p >= 0,
            {
            }
            assert(e * p >= 0) by (nonlinear_arith)
                requires
                    e >= 0,
                    p >= 0,
            {
            }
        }
        e * p
    }
}

/// The first position of `cums` holding a value at least `s`: the
/// lower-bound search of the cumulative-weight array.
fn lower_bound(cums: &Vec<u64>, s: u64) -> (r: usize)
    requires
        cums@.len() > 0,
        s <= cums@[cums@.len() - 1],
    ensures
        r < cums@.len(),
        cums@[r as int] >= s,
        forall|j: int| 0 <= j < r ==> cums@[j] < s,
{
    let mut k: usize = 0;
    while k < cums.len() - 1
        invariant
            k < cums@.len(),
            forall|j: int| 0 <= j < k ==> cums@[j] < s,
        decreases cums@.len() - k,
    {
        if cums[k] >= s {
            return k;
        }
        k += 1;
    }
    k
}

/// `sel` lists distinct positions of eligible records of `list`.
pub open spec fn valid_selection(list: Seq<TaskV>, now: i64, cutoff: u64, sel: Seq<int>) -> bool {
    &&& forall|i: int|
        0 <= i < sel.len() ==> 0 <= #[trigger] sel[i] < list.len() && eligible(
            list[sel[i]],
            now,
            cutoff,
        )
    &&& forall|i: int, j: int| 0 <= i < j < sel.len() ==> sel[i] != sel[j]
}

/// What a draw returns: as many records as asked for, capped at the number
/// of eligible records, each a distinct eligible entry of `list`.
pub open spec fn selection_ok(
    list: Seq<TaskV>,
    n: u8,
    cutoff: u64,
    now: i64,
    out: Seq<TaskV>,
) -> bool {
    &&& out.len() == vstd::math::min(n as int, count_eligible(list, now, cutoff))
    &&& exists|sel: Seq<int>|
        #[trigger] valid_selection(list, now, cutoff, sel) && sel.len() == out.len() && (forall|
            i: int,
        |
            0 <= i < sel.len() ==> out[i] == list[sel[i]])
}

/// Draw up to `n` distinct records from `list` at time `now`, weighted by
/// staleness (times priority when `weighted`), excluding records whose
/// elapsed time is under `cutoff`. Asking for more than the eligible count
/// yields every eligible record.
pub fn select_weighted_at(list: &Vec<Task>, n: u8, cutoff: u64, now: i64, weighted: bool) -> (r:
    Vec<Task>)
    ensures
        selection_ok(list.deep_view(), n, cutoff, now, r.deep_view()),
{
    let ghost ldv = list.deep_view();
    let ghost epred = |t: TaskV| eligible(t, now, cutoff);

    // Collect the positions of the eligible records, in order.
    let mut pool: Vec<usize> = Vec::new();
    let mut i: usize = 0;
    while i < list.len()
        invariant
            i <= list.len(),
            ldv == list.deep_view(),
            pool@.len() == ldv.subrange(0, i as int).filter(epred).len(),
            forall|k: int|
                0 <= k < pool@.len() ==> #[trigger] pool@[k] < i && eligible(
                    ldv[pool@[k] as int],
                    now,
                    cutoff,
                ),
            forall|k1: int, k2: int| 0 <= k1 < k2 < pool@.len() ==> pool@[k1] < pool@[k2],
        decreases list.len() - i,
    {
        let ghost prefix = ldv.subrange(0, i as int);
        proof {
            assert(ldv.subrange(0, i + 1) =~= prefix.push(ldv[i as int]));
            lemma_filter_push(prefix, ldv[i as int], epred);
        }
        let t = &list[i];
        let elig = now as i128 - t.last_touched() as i128 >= cutoff as i128;
        if elig {
            pool.push(i);
        }
        i += 1;
    }
    proof {
        assert(ldv.subrange(0, list.len() as int) =~= ldv);
        lemma_filter_congruence(ldv, epred, |t: TaskV| eligible(t, now, cutoff));
    }
    let ghost total_count = pool@.len() as int;

    let picks: usize = if (n as usize) < pool.len() {
        n as usize
    } else {
        pool.len()
    };

    let mut chosen: Vec<usize> = Vec::new();
    while chosen.len() < picks
        invariant
            picks <= n as usize,
            chosen@.len() <= picks,
            chosen@.len() + pool@.len() == total_count,
            picks == vstd::math::min(n as int, total_count),
            forall|k: int|
                0 <= k < chosen@.len() ==> #[trigger] chosen@[k] < list@.len() && eligible(
                    ldv[chosen@[k] as int],
                    now,
                    cutoff,
                ),
            forall|k: int|
                0 <= k < pool@.len() ==> #[trigger] pool@[k] < list@.len() && eligible(
                    ldv[pool@[k] as int],
                    now,
                    cutoff,
                ),
            forall|k1: int, k2: int|
                0 <= k1 < k2 < chosen@.len() ==> chosen@[k1] != chosen@[k2],
            forall|k1: int, k2: int|
                0 <= k1 < chosen@.len() && 0 <= k2 < pool@.len() ==> chosen@[k1] != pool@[k2],
            forall|k1: int, k2: int| 0 <= k1 < k2 < pool@.len() ==> pool@[k1] != pool@[k2],
            ldv == list.deep_view(),
        decreases picks - chosen.len(),
    {
        // Cumulative weights over the records still in the pool.
        let mut cums: Vec<u64> = Vec::new();
        let mut j: usize = 0;
        while j < pool.len()
            invariant
                j <= pool@.len(),
                cums@.len() == j,
                forall|k: int|
                    0 <= k < pool@.len() ==> #[trigger] pool@[k] < list@.len() && eligible(
                        ldv[pool@[k] as int],
                        now,
                        cutoff,
                    ),
                ldv == list.deep_view(),
            decreases pool@.len() - j,
        {
            let idx = pool[j];
            let w = weight_for(&list[idx], now, weighted);
            let c = if j == 0 {
                w
            } else {
                sat_add_u64(cums[j - 1], w)
            };
            cums.push(c);
            j += 1;
        }
        let total = cums[cums.len() - 1];
        let s = random_at_most(total);
        let loc = lower_bound(&cums, s);
        chosen.push(pool[loc]);
        pool.remove(loc);
    }

    // Map the chosen positions back to records.
    let mut out: Vec<Task> = Vec::new();
    let mut k: usize = 0;
    while k < chosen.len()
        invariant
            k <= chosen@.len(),
            out.deep_view().len() == k,
            forall|m: int|
                0 <= m < chosen@.len() ==> #[trigger] chosen@[m] < list@.len(),
            forall|m: int| 0 <= m < k ==> out.deep_view()[m] == ldv[chosen@[m] as int],
            ldv == list.deep_view(),
        decreases chosen@.len() - k,
    {
        let ghost prev = out.deep_view();
        out.push(list[chosen[k]].clone());
        proof {
            assert(out.deep_view() =~= prev.push(ldv[chosen@[k as int] as int]));
        }
        k += 1;
    }
    proof {
        let sel = Seq::new(chosen@.len() as nat, |m: int| chosen@[m] as int);
        assert(valid_selection(ldv, now, cutoff, sel));
        assert(forall|m: int| 0 <= m < sel.len() ==> out.deep_view()[m] == ldv[sel[m]]);
        assert(out.deep_view().len() == vstd::math::min(
            n as int,
            count_eligible(ldv, now, cutoff),
        ));
    }
    out
}

/// With a single eligible candidate and one draw asked for, the draw always
/// returns exactly that candidate.
pub proof fn lemma_single_candidate(list: Seq<TaskV>, now: i64, cutoff: u64, out: Seq<TaskV>)
    requires
        list.len() == 1,
        eligible(list[0], now, cutoff),
        selection_ok(list, 1, cutoff, now, out),
    ensures
        out =~= seq![list[0]],
{
    reveal_with_fuel(Seq::filter, 3);
    assert(list.drop_last() =~= Seq::<TaskV>::empty());
    assert(count_eligible(list, now, cutoff) == 1);
    let sel = choose|sel: Seq<int>|
        #[trigger] valid_selection(list, now, cutoff, sel) && sel.len() == out.len() && (forall|
            i: int,
        |
            0 <= i < sel.len() ==> out[i] == list[sel[i]]);
    assert(sel[0] == 0);
}

/// `t` stands in `list` as a record whose elapsed time reaches the cutoff.
pub open spec fn drawn_from_eligible(list: Seq<TaskV>, now: i64, cutoff: u64, t: TaskV) -> bool {
    exists|j: int|
        0 <= j < list.len() && t == #[trigger] list[j] && now
            - list[j].metadata.last_completed >= cutoff
}

/// Every drawn record is an eligible record of the list: none whose elapsed
/// time is under the cutoff is ever returned.
pub proof fn lemma_selection_excludes_fresh(
    list: Seq<TaskV>,
    n: u8,
    cutoff: u64,
    now: i64,
    out: Seq<TaskV>,
)
    requires
        selection_ok(list, n, cutoff, now, out),
    ensures
        forall|i: int| 0 <= i < out.len() ==> drawn_from_eligible(list, now, cutoff, #[trigger] out[i]),
{
    let sel = choose|sel: Seq<int>|
        #[trigger] valid_selection(list, now, cutoff, sel) && sel.len() == out.len() && (forall|
            i: int,
        |
            0 <= i < sel.len() ==> out[i] == list[sel[i]]);
    assert forall|i: int| 0 <= i < out.len() implies drawn_from_eligible(
        list,
        now,
        cutoff,
        #[trigger] out[i],
    ) by {
        assert(0 <= sel[i] < list.len());
        assert(out[i] == list[sel[i]] && eligible(list[sel[i]], now, cutoff));
    }
}

} // verus!
