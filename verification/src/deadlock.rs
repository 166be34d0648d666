//! Deadlock avoidance for semaphores (the banker's safety check).
//!
//! A state is given by the free units of each semaphore (`work`) and, for
//! each task slot, the task's outstanding needs and current allocations.
//! The state is safe when the tasks can be ordered so that each one's needs
//! are covered by the free units plus what the tasks before it hand back.
use vstd::prelude::*;
use crate::task::{
    can_increment, claims_view, distinct_ids, find_entry, find_entry_spec, ids_of, increment_spec,
    lemma_find_some, TaskResources, TaskResourcesView,
};

verus! {

/// Sum of the counts of the entries of `list` that carry `id`.
pub open spec fn entry_total(list: Seq<(usize, isize)>, id: usize) -> int
    decreases list.len(),
{
    if list.len() == 0 {
        0
    } else {
        entry_total(list.drop_last(), id) + if list.last().0 == id {
            list.last().1 as int
        } else {
            0
        }
    }
}

/// Units of `id` handed back by the finished tasks among slots `0..k`.
pub open spec fn released(
    claims: Seq<Option<TaskResourcesView>>,
    finished: Seq<bool>,
    id: usize,
    k: int,
) -> int
    decreases k,
{
    if k <= 0 {
        0
    } else {
        released(claims, finished, id, k - 1) + if finished[k - 1] && claims[k - 1] is Some {
            entry_total(claims[k - 1].unwrap().allocation, id)
        } else {
            0
        }
    }
}

/// The free units recorded for `id` in `work` (0 where there is none).
pub open spec fn work_value(work: Seq<(usize, isize)>, id: usize) -> int {
    match find_entry_spec(work, id) {
        Some(k) => work[k].1 as int,
        None => 0,
    }
}

/// Every entry of `need` is covered by the free units once the tasks marked
/// in `finished` have handed back their allocations.
pub open spec fn need_met(
    work: Seq<(usize, isize)>,
    claims: Seq<Option<TaskResourcesView>>,
    finished: Seq<bool>,
    need: Seq<(usize, isize)>,
) -> bool {
    forall|j: int|
        0 <= j < need.len() ==> {
            &&& find_entry_spec(work, #[trigger] need[j].0) is Some
            &&& work_value(work, need[j].0) + released(claims, finished, need[j].0, claims.len() as int)
                >= need[j].1
        }
}

/// The slots listed in `prefix`, as flags over `n` slots.
pub open spec fn finished_by(n: int, prefix: Seq<int>) -> Seq<bool> {
    Seq::new(n as nat, |i: int| prefix.contains(i))
}

/// Every slot marked.
pub open spec fn all_finished(n: int) -> Seq<bool> {
    Seq::new(n as nat, |i: int| true)
}

/// `order` runs every task, each once, each with its needs covered when its
/// turn comes.
pub open spec fn is_safe_sequence(
    work: Seq<(usize, isize)>,
    claims: Seq<Option<TaskResourcesView>>,
    order: Seq<int>,
) -> bool {
    &&& order.no_duplicates()
    &&& forall|k: int|
        0 <= k < order.len() ==> 0 <= #[trigger] order[k] < claims.len() && claims[order[k]] is Some
    &&& forall|i: int| 0 <= i < claims.len() && #[trigger] claims[i] is Some ==> order.contains(i)
    &&& forall|k: int|
        0 <= k < order.len() ==> need_met(
            work,
            claims,
            finished_by(claims.len() as int, order.take(k)),
            claims[#[trigger] order[k]].unwrap().need,
        )
}

/// The state admits a safe sequence.
pub open spec fn is_deadlock_free(
    work: Seq<(usize, isize)>,
    claims: Seq<Option<TaskResourcesView>>,
) -> bool {
    exists|order: Seq<int>| is_safe_sequence(work, claims, order)
}

/// What the safety check needs of its input: the semaphore ids in `work`
/// are distinct, every id a task names is among them, allocations are not
/// negative, and no free count can grow past `isize::MAX` while tasks hand
/// their allocations back.
pub open spec fn check_input_ok(
    work: Seq<(usize, isize)>,
    claims: Seq<Option<TaskResourcesView>>,
) -> bool {
    &&& distinct_ids(work)
    &&& needs_known(work, claims)
    &&& allocations_known(work, claims)
    &&& allocations_nonneg(claims)
    &&& forall|k: int|
        #![trigger work[k]]
        0 <= k < work.len() ==> work[k].1 + released(
            claims,
            all_finished(claims.len() as int),
            work[k].0,
            claims.len() as int,
        ) <= isize::MAX
}

/// Every semaphore id a task needs has an entry in `work`.
pub open spec fn needs_known(work: Seq<(usize, isize)>, claims: Seq<Option<TaskResourcesView>>) -> bool {
    forall|t: int, j: int|
        0 <= t < claims.len() && claims[t] is Some && 0 <= j < claims[t].unwrap().need.len()
            ==> find_entry_spec(work, #[trigger] claims[t].unwrap().need[j].0) is Some
}

/// Every semaphore id a task holds has an entry in `work`.
pub open spec fn allocations_known(
    work: Seq<(usize, isize)>,
    claims: Seq<Option<TaskResourcesView>>,
) -> bool {
    forall|t: int, j: int|
        0 <= t < claims.len() && claims[t] is Some && 0 <= j < claims[t].unwrap().allocation.len()
            ==> find_entry_spec(work, #[trigger] claims[t].unwrap().allocation[j].0) is Some
}

/// Number of unmarked slots.
pub open spec fn count_unfinished(f: Seq<bool>) -> nat
    decreases f.len(),
{
    if f.len() == 0 {
        0
    } else {
        count_unfinished(f.drop_last()) + if f.last() {
            0nat
        } else {
            1nat
        }
    }
}

proof fn lemma_count_unfinished_mark(f: Seq<bool>, i: int)
    requires
        0 <= i < f.len(),
        !f[i],
    ensures
        count_unfinished(f.update(i, true)) + 1 == count_unfinished(f),
    decreases f.len(),
{
    let g = f.update(i, true);
    if i == f.len() - 1 {
        assert(g.drop_last() =~= f.drop_last());
    } else {
        assert(g.drop_last() =~= f.drop_last().update(i, true));
        lemma_count_unfinished_mark(f.drop_last(), i);
    }
}

proof fn lemma_entry_total_nonneg(list: Seq<(usize, isize)>, id: usize)
    requires
        forall|j: int| 0 <= j < list.len() ==> #[trigger] list[j].1 >= 0,
    ensures
        entry_total(list, id) >= 0,
    decreases list.len(),
{
    if list.len() > 0 {
        lemma_entry_total_nonneg(list.drop_last(), id);
    }
}

proof fn lemma_entry_total_take(list: Seq<(usize, isize)>, id: usize, j: int)
    requires
        0 <= j < list.len(),
    ensures
        entry_total(list.take(j + 1), id) == entry_total(list.take(j), id) + if list[j].0 == id {
            list[j].1 as int
        } else {
            0
        },
{
    assert(list.take(j + 1).drop_last() =~= list.take(j));
}

proof fn lemma_entry_total_prefix(list: Seq<(usize, isize)>, id: usize, m: int)
    requires
        0 <= m <= list.len(),
        forall|j: int| 0 <= j < list.len() ==> #[trigger] list[j].1 >= 0,
    ensures
        entry_total(list.take(m), id) <= entry_total(list, id),
    decreases list.len() - m,
{
    if m == list.len() {
        assert(list.take(m) =~= list);
    } else {
        lemma_entry_total_take(list, id, m);
        lemma_entry_total_prefix(list, id, m + 1);
    }
}

/// Allocation counts of the task slots are not negative.
pub open spec fn allocations_nonneg(claims: Seq<Option<TaskResourcesView>>) -> bool {
    forall|t: int, j: int|
        0 <= t < claims.len() && claims[t] is Some && 0 <= j < claims[t].unwrap().allocation.len()
            ==> #[trigger] claims[t].unwrap().allocation[j].1 >= 0
}

proof fn lemma_released_mark(
    claims: Seq<Option<TaskResourcesView>>,
    f: Seq<bool>,
    id: usize,
    i: int,
    k: int,
)
    requires
        f.len() == claims.len(),
        0 <= i < f.len(),
        !f[i],
        claims[i] is Some,
        0 <= k <= f.len(),
    ensures
        released(claims, f.update(i, true), id, k) == released(claims, f, id, k) + if i < k {
            entry_total(claims[i].unwrap().allocation, id)
        } else {
            0
        },
    decreases k,
{
    if k > 0 {
        lemma_released_mark(claims, f, id, i, k - 1);
    }
}

proof fn lemma_released_mono(
    claims: Seq<Option<TaskResourcesView>>,
    f1: Seq<bool>,
    f2: Seq<bool>,
    id: usize,
    k: int,
)
    requires
        f1.len() == claims.len(),
        f2.len() == claims.len(),
        0 <= k <= claims.len(),
        allocations_nonneg(claims),
        forall|i: int| 0 <= i < claims.len() && claims[i] is Some && #[trigger] f1[i] ==> f2[i],
    ensures
        released(claims, f1, id, k) <= released(claims, f2, id, k),
    decreases k,
{
    if k > 0 {
        lemma_released_mono(claims, f1, f2, id, k - 1);
        if claims[k - 1] is Some {
            let a = claims[k - 1].unwrap().allocation;
            assert forall|j: int| 0 <= j < a.len() implies #[trigger] a[j].1 >= 0 by {
                assert(claims[k - 1].unwrap().allocation[j].1 >= 0);
            }
            lemma_entry_total_nonneg(a, id);
        }
    }
}

proof fn lemma_need_met_mono(
    work: Seq<(usize, isize)>,
    claims: Seq<Option<TaskResourcesView>>,
    f1: Seq<bool>,
    f2: Seq<bool>,
    need: Seq<(usize, isize)>,
)
    requires
        f1.len() == claims.len(),
        f2.len() == claims.len(),
        allocations_nonneg(claims),
        forall|i: int| 0 <= i < claims.len() && claims[i] is Some && #[trigger] f1[i] ==> f2[i],
        need_met(work, claims, f1, need),
    ensures
        need_met(work, claims, f2, need),
{
    assert forall|j: int| 0 <= j < need.len() implies {
        &&& find_entry_spec(work, #[trigger] need[j].0) is Some
        &&& work_value(work, need[j].0) + released(claims, f2, need[j].0, claims.len() as int)
            >= need[j].1
    } by {
        lemma_released_mono(claims, f1, f2, need[j].0, claims.len() as int);
    }
}

/// When every unfinished task is stuck, no safe sequence exists: along any
/// candidate sequence, each task would have to be among the finished ones.
proof fn lemma_stuck_prefix(
    work: Seq<(usize, isize)>,
    claims: Seq<Option<TaskResourcesView>>,
    finish: Seq<bool>,
    order: Seq<int>,
    k: int,
)
    requires
        finish.len() == claims.len(),
        allocations_nonneg(claims),
        is_safe_sequence(work, claims, order),
        forall|i: int|
            0 <= i < claims.len() && claims[i] is Some && !#[trigger] finish[i] ==> !need_met(
                work,
                claims,
                finish,
                claims[i].unwrap().need,
            ),
        0 <= k <= order.len(),
    ensures
        forall|m: int| 0 <= m < k ==> finish[#[trigger] order[m]],
    decreases k,
{
    if k > 0 {
        lemma_stuck_prefix(work, claims, finish, order, k - 1);
        let n = claims.len() as int;
        let fp = finished_by(n, order.take(k - 1));
        assert forall|i: int| 0 <= i < n && claims[i] is Some && #[trigger] fp[i] implies finish[i] by {
            assert(order.take(k - 1).contains(i));
            let m = choose|m: int| 0 <= m < k - 1 && #[trigger] order.take(k - 1)[m] == i;
            assert(order[m] == i);
        }
        let t = order[k - 1];
        assert(need_met(work, claims, fp, claims[t].unwrap().need));
        lemma_need_met_mono(work, claims, fp, finish, claims[t].unwrap().need);
    }
}

proof fn lemma_stuck_unsafe(
    work: Seq<(usize, isize)>,
    claims: Seq<Option<TaskResourcesView>>,
    finish: Seq<bool>,
    u: int,
)
    requires
        finish.len() == claims.len(),
        allocations_nonneg(claims),
        forall|i: int|
            0 <= i < claims.len() && claims[i] is Some && !#[trigger] finish[i] ==> !need_met(
                work,
                claims,
                finish,
                claims[i].unwrap().need,
            ),
        0 <= u < claims.len(),
        claims[u] is Some,
        !finish[u],
    ensures
        !is_deadlock_free(work, claims),
{
    if is_deadlock_free(work, claims) {
        let order = choose|order: Seq<int>| is_safe_sequence(work, claims, order);
        lemma_stuck_prefix(work, claims, finish, order, order.len() as int);
        assert(order.contains(u));
        let m = choose|m: int| 0 <= m < order.len() && order[m] == u;
        assert(finish[order[m]]);
    }
}

/// Whether every entry of `need` is covered by `work`.
fn need_covered(work: &Vec<(usize, isize)>, need: &Vec<(usize, isize)>) -> (r: bool)
    requires
        forall|j: int| 0 <= j < need@.len() ==> find_entry_spec(work@, #[trigger] need@[j].0) is Some,
    ensures
        r == forall|j: int|
            0 <= j < need@.len() ==> work_value(work@, #[trigger] need@[j].0) >= need@[j].1,
{
    for j in 0..need.len()
        invariant
            forall|m: int| 0 <= m < need@.len() ==> find_entry_spec(work@, #[trigger] need@[m].0) is Some,
            forall|m: int| 0 <= m < j ==> work_value(work@, #[trigger] need@[m].0) >= need@[m].1,
    {
        let (id, c) = need[j];
        assert(need@[j as int].0 == id);
        let k = find_entry(work, id).unwrap();
        if work[k].1 < c {
            return false;
        }
    }
    true
}

/// Adds every entry of `alloc` to the matching entry of `work`.
fn hand_back(work: &mut Vec<(usize, isize)>, alloc: &Vec<(usize, isize)>)
    requires
        distinct_ids(old(work)@),
        forall|j: int|
            #![trigger alloc@[j]]
            0 <= j < alloc@.len() ==> find_entry_spec(old(work)@, alloc@[j].0) is Some
                && alloc@[j].1 >= 0,
        forall|k: int|
            #![trigger old(work)@[k]]
            0 <= k < old(work)@.len() ==> old(work)@[k].1 + entry_total(alloc@, old(work)@[k].0)
                <= isize::MAX,
    ensures
        final(work)@.len() == old(work)@.len(),
        forall|k: int|
            #![trigger final(work)@[k]]
            0 <= k < old(work)@.len() ==> final(work)@[k].0 == old(work)@[k].0
                && final(work)@[k].1 == old(work)@[k].1 + entry_total(alloc@, old(work)@[k].0),
{
    let ghost w0 = work@;
    for j in 0..alloc.len()
        invariant
            work@.len() == w0.len(),
            distinct_ids(w0),
            forall|m: int|
                #![trigger alloc@[m]]
                0 <= m < alloc@.len() ==> find_entry_spec(w0, alloc@[m].0) is Some && alloc@[m].1
                    >= 0,
            forall|k: int|
                #![trigger w0[k]]
                0 <= k < w0.len() ==> w0[k].1 + entry_total(alloc@, w0[k].0) <= isize::MAX,
            forall|k: int|
                #![trigger work@[k]]
                0 <= k < w0.len() ==> work@[k].0 == w0[k].0 && work@[k].1 == w0[k].1
                    + entry_total(alloc@.take(j as int), w0[k].0),
    {
        let (id, c) = alloc[j];
        assert(alloc@[j as int].0 == id && alloc@[j as int].1 == c);
        assert(ids_of(work@) =~= ids_of(w0));
        let k = find_entry(work, id).unwrap();
        let ghost kk = k as int;
        proof {
            lemma_find_some(w0, id);
            assert(forall|m: int| 0 <= m < alloc@.len() ==> #[trigger] alloc@[m].1 >= 0);
            assert forall|q: int| 0 <= q < w0.len() implies entry_total(alloc@.take(j + 1), #[trigger] w0[q].0)
                == entry_total(alloc@.take(j as int), w0[q].0) + if q == kk {
                c as int
            } else {
                0
            } by {
                lemma_entry_total_take(alloc@, w0[q].0, j as int);
                if q != kk {
                    assert(w0[q].0 != w0[kk].0);
                }
            }
            lemma_entry_total_prefix(alloc@, id, j + 1);
            assert(w0[kk].0 == id);
            assert(work@[kk].1 == w0[kk].1 + entry_total(alloc@.take(j as int), id));
            assert(w0[kk].1 + entry_total(alloc@, id) <= isize::MAX);
        }
        let v = work[k].1 + c;
        work.set(k, (id, v));
    }
    assert(alloc@.take(alloc@.len() as int) =~= alloc@);
}

/// Decides whether the state given by the free units `work` and the task
/// slots `claims` admits a safe sequence: tasks are marked finished, pass
/// after pass, whenever the free units cover their needs, which returns
/// their allocations; the state is safe when every task gets marked.
pub fn is_safe_state(work: Vec<(usize, isize)>, claims: &Vec<Option<TaskResources>>) -> (safe: bool)
    requires
        check_input_ok(work@, claims_view(claims@)),
    ensures
        safe == is_deadlock_free(work@, claims_view(claims@)),
{
    let ghost w0 = work@;
    let ghost cv = claims_view(claims@);
    let n = claims.len();
    let mut work = work;
    let mut finish: Vec<bool> = Vec::new();
    for i in 0..n
        invariant
            n == claims@.len(),
            cv == claims_view(claims@),
            finish@.len() == i,
            forall|j: int| 0 <= j < i ==> #[trigger] finish@[j] == (cv[j] is None),
    {
        finish.push(claims[i].is_none());
    }
    let ghost mut order: Seq<int> = Seq::empty();
    let mut progress = true;
    proof {
        assert forall|k: int| 0 <= k < w0.len() implies #[trigger] work@[k].1 == w0[k].1 + released(
            cv,
            finish@,
            w0[k].0,
            n as int,
        ) by {
            lemma_released_zero(cv, finish@, w0[k].0, n as int);
        }
    }
    while progress
        invariant
            n == claims@.len(),
            cv == claims_view(claims@),
            check_input_ok(w0, cv),
            allocations_nonneg(cv),
            finish@.len() == n,
            work@.len() == w0.len(),
            forall|k: int| 0 <= k < w0.len() ==> (#[trigger] work@[k]).0 == w0[k].0,
            forall|k: int|
                0 <= k < w0.len() ==> #[trigger] work@[k].1 == w0[k].1 + released(
                    cv,
                    finish@,
                    w0[k].0,
                    n as int,
                ),
            forall|i: int| 0 <= i < n && cv[i] is None ==> #[trigger] finish@[i],
            order.no_duplicates(),
            forall|k: int| 0 <= k < order.len() ==> 0 <= #[trigger] order[k] < n && cv[order[k]] is Some,
            forall|i: int| 0 <= i < n && cv[i] is Some ==> (#[trigger] finish@[i] <==> order.contains(i)),
            forall|k: int|
                0 <= k < order.len() ==> need_met(
                    w0,
                    cv,
                    finished_by(n as int, order.take(k)),
                    cv[#[trigger] order[k]].unwrap().need,
                ),
            !progress ==> forall|i: int|
                0 <= i < n && !#[trigger] finish@[i] ==> !need_met(w0, cv, finish@, cv[i].unwrap().need),
        decreases count_unfinished(finish@) + if progress {
            1nat
        } else {
            0nat
        },
    {
        progress = false;
        let ghost start = finish@;
        for i in 0..n
            invariant
                n == claims@.len(),
                cv == claims_view(claims@),
                check_input_ok(w0, cv),
                allocations_nonneg(cv),
                finish@.len() == n,
                work@.len() == w0.len(),
                forall|k: int| 0 <= k < w0.len() ==> (#[trigger] work@[k]).0 == w0[k].0,
                forall|k: int|
                    0 <= k < w0.len() ==> #[trigger] work@[k].1 == w0[k].1 + released(
                        cv,
                        finish@,
                        w0[k].0,
                        n as int,
                    ),
                forall|q: int| 0 <= q < n && cv[q] is None ==> #[trigger] finish@[q],
                order.no_duplicates(),
                forall|k: int| 0 <= k < order.len() ==> 0 <= #[trigger] order[k] < n && cv[order[k]] is Some,
                forall|q: int| 0 <= q < n && cv[q] is Some ==> (#[trigger] finish@[q] <==> order.contains(q)),
                forall|k: int|
                    0 <= k < order.len() ==> need_met(
                        w0,
                        cv,
                        finished_by(n as int, order.take(k)),
                        cv[#[trigger] order[k]].unwrap().need,
                    ),
                !progress ==> finish@ == start,
                progress ==> count_unfinished(finish@) < count_unfinished(start),
                !progress ==> forall|q: int|
                    0 <= q < i && !#[trigger] finish@[q] ==> !need_met(w0, cv, finish@, cv[q].unwrap().need),
        {
            if !finish[i] {
                match &claims[i] {
                    Some(task) => {
                        proof {
                            assert(cv[i as int] == Some(task@));
                            lemma_claim_needs_known(w0, cv, i as int);
                            lemma_work_tracks(w0, cv, work@, finish@, task@.need);
                        }
                        if need_covered(&work, &task.need) {
                            proof {
                                lemma_hand_back_fits(w0, cv, work@, finish@, i as int);
                            }
                            let ghost wb = work@;
                            hand_back(&mut work, &task.allocation);
                            let ghost before = finish@;
                            finish.set(i, true);
                            proof {
                                lemma_count_unfinished_mark(before, i as int);
                                assert forall|k: int| 0 <= k < w0.len() implies #[trigger] work@[k].1 == w0[k].1 + released(
                                    cv,
                                    finish@,
                                    w0[k].0,
                                    n as int,
                                ) by {
                                    assert(wb[k].0 == w0[k].0);
                                    assert(wb[k].1 == w0[k].1 + released(cv, before, w0[k].0, n as int));
                                    lemma_released_mark(cv, before, w0[k].0, i as int, n as int);
                                }
                                lemma_order_extend(w0, cv, before, order, i as int);
                                order = order.push(i as int);
                            }
                            progress = true;
                        }
                    },
                    None => {},
                }
            }
        }
    }
    let mut all = true;
    let mut i: usize = 0;
    while i < n
        invariant
            i <= n,
            finish@.len() == n,
            all == forall|q: int| 0 <= q < i ==> #[trigger] finish@[q],
        decreases n - i,
    {
        if !finish[i] {
            all = false;
        }
        i = i + 1;
    }
    proof {
        if all {
            assert forall|q: int| 0 <= q < cv.len() && #[trigger] cv[q] is Some implies order.contains(q) by {
                assert(finish@[q]);
            }
            assert(is_safe_sequence(w0, cv, order));
        } else {
            let u = choose|u: int| 0 <= u < n && !finish@[u];
            lemma_stuck_unsafe(w0, cv, finish@, u);
        }
    }
    all
}

proof fn lemma_released_zero(claims: Seq<Option<TaskResourcesView>>, f: Seq<bool>, id: usize, k: int)
    requires
        0 <= k <= claims.len(),
        f.len() == claims.len(),
        forall|i: int| 0 <= i < k && #[trigger] f[i] ==> claims[i] is None,
    ensures
        released(claims, f, id, k) == 0,
    decreases k,
{
    if k > 0 {
        lemma_released_zero(claims, f, id, k - 1);
    }
}

proof fn lemma_claim_needs_known(
    w0: Seq<(usize, isize)>,
    cv: Seq<Option<TaskResourcesView>>,
    i: int,
)
    requires
        needs_known(w0, cv),
        0 <= i < cv.len(),
        cv[i] is Some,
    ensures
        forall|j: int|
            0 <= j < cv[i].unwrap().need.len() ==> find_entry_spec(w0, #[trigger] cv[i].unwrap().need[j].0) is Some,
{
}

/// While the work entries track the hand-backs, covering a need in the
/// current work is the same as `need_met` under the current marks.
proof fn lemma_work_tracks(
    w0: Seq<(usize, isize)>,
    cv: Seq<Option<TaskResourcesView>>,
    work: Seq<(usize, isize)>,
    finish: Seq<bool>,
    need: Seq<(usize, isize)>,
)
    requires
        distinct_ids(w0),
        work.len() == w0.len(),
        forall|k: int| 0 <= k < w0.len() ==> (#[trigger] work[k]).0 == w0[k].0,
        forall|k: int|
            0 <= k < w0.len() ==> #[trigger] work[k].1 == w0[k].1 + released(
                cv,
                finish,
                w0[k].0,
                cv.len() as int,
            ),
        forall|j: int| 0 <= j < need.len() ==> find_entry_spec(w0, #[trigger] need[j].0) is Some,
    ensures
        forall|j: int| 0 <= j < need.len() ==> find_entry_spec(work, #[trigger] need[j].0) is Some,
        (forall|j: int| 0 <= j < need.len() ==> work_value(work, #[trigger] need[j].0) >= need[j].1)
            == need_met(w0, cv, finish, need),
{
    assert(ids_of(work) =~= ids_of(w0));
    assert forall|j: int| 0 <= j < need.len() implies work_value(work, #[trigger] need[j].0)
        == work_value(w0, need[j].0) + released(cv, finish, need[j].0, cv.len() as int) by {
        lemma_find_some(w0, need[j].0);
    }
}

/// Handing back task `i`'s allocation cannot overflow any work entry.
proof fn lemma_hand_back_fits(
    w0: Seq<(usize, isize)>,
    cv: Seq<Option<TaskResourcesView>>,
    work: Seq<(usize, isize)>,
    finish: Seq<bool>,
    i: int,
)
    requires
        check_input_ok(w0, cv),
        allocations_nonneg(cv),
        finish.len() == cv.len(),
        0 <= i < cv.len(),
        cv[i] is Some,
        !finish[i],
        work.len() == w0.len(),
        forall|k: int| 0 <= k < w0.len() ==> (#[trigger] work[k]).0 == w0[k].0,
        forall|k: int|
            0 <= k < w0.len() ==> #[trigger] work[k].1 == w0[k].1 + released(
                cv,
                finish,
                w0[k].0,
                cv.len() as int,
            ),
    ensures
        distinct_ids(work),
        forall|j: int|
            0 <= j < cv[i].unwrap().allocation.len() ==> find_entry_spec(
                work,
                #[trigger] cv[i].unwrap().allocation[j].0,
            ) is Some && cv[i].unwrap().allocation[j].1 >= 0,
        forall|k: int|
            0 <= k < work.len() ==> #[trigger] work[k].1 + entry_total(
                cv[i].unwrap().allocation,
                work[k].0,
            ) <= isize::MAX,
{
    let n = cv.len() as int;
    let a = cv[i].unwrap().allocation;
    assert(ids_of(work) =~= ids_of(w0));
    assert forall|x: int, y: int|
        0 <= x < work.len() && 0 <= y < work.len() && x != y implies #[trigger] work[x].0
        != #[trigger] work[y].0 by {
        assert(w0[x].0 != w0[y].0);
    }
    assert forall|j: int| 0 <= j < a.len() implies find_entry_spec(work, #[trigger] a[j].0) is Some
        && a[j].1 >= 0 by {
        assert(find_entry_spec(w0, cv[i].unwrap().allocation[j].0) is Some);
        assert(cv[i].unwrap().allocation[j].1 >= 0);
    }
    assert forall|k: int| 0 <= k < work.len() implies #[trigger] work[k].1 + entry_total(a, work[k].0)
        <= isize::MAX by {
        let id = w0[k].0;
        lemma_released_mark(cv, finish, id, i, n);
        lemma_released_mono(cv, finish.update(i, true), all_finished(n), id, n);
        assert(w0[k].1 + released(cv, all_finished(n), w0[k].0, n) <= isize::MAX);
    }
}

/// Appending a task whose need is met under the current marks keeps the
/// recorded order a valid prefix of a safe sequence.
proof fn lemma_order_extend(
    w0: Seq<(usize, isize)>,
    cv: Seq<Option<TaskResourcesView>>,
    finish: Seq<bool>,
    order: Seq<int>,
    i: int,
)
    requires
        allocations_nonneg(cv),
        finish.len() == cv.len(),
        0 <= i < cv.len(),
        cv[i] is Some,
        !finish[i],
        need_met(w0, cv, finish, cv[i].unwrap().need),
        order.no_duplicates(),
        forall|k: int| 0 <= k < order.len() ==> 0 <= #[trigger] order[k] < cv.len() && cv[order[k]] is Some,
        forall|q: int| 0 <= q < cv.len() && cv[q] is Some ==> (#[trigger] finish[q] <==> order.contains(q)),
        forall|k: int|
            0 <= k < order.len() ==> need_met(
                w0,
                cv,
                finished_by(cv.len() as int, order.take(k)),
                cv[#[trigger] order[k]].unwrap().need,
            ),
    ensures
        order.push(i).no_duplicates(),
        forall|k: int|
            0 <= k < order.push(i).len() ==> 0 <= #[trigger] order.push(i)[k] < cv.len() && cv[order.push(i)[k]] is Some,
        forall|q: int|
            0 <= q < cv.len() && cv[q] is Some ==> (#[trigger] finish.update(i, true)[q] <==> order.push(i).contains(q)),
        forall|k: int|
            0 <= k < order.push(i).len() ==> need_met(
                w0,
                cv,
                finished_by(cv.len() as int, order.push(i).take(k)),
                cv[#[trigger] order.push(i)[k]].unwrap().need,
            ),
{
    let n = cv.len() as int;
    let o2 = order.push(i);
    assert(!order.contains(i));
    assert forall|q: int| 0 <= q < cv.len() && cv[q] is Some implies (#[trigger] finish.update(i, true)[q]
        <==> o2.contains(q)) by {
        if q == i {
            assert(o2[order.len() as int] == i);
        } else {
            if o2.contains(q) {
                let m = choose|m: int| 0 <= m < o2.len() && o2[m] == q;
                assert(order[m] == q);
            }
            if order.contains(q) {
                let m = choose|m: int| 0 <= m < order.len() && order[m] == q;
                assert(o2[m] == q);
            }
        }
    }
    let fo = finished_by(n, order);
    assert forall|q: int| 0 <= q < n && cv[q] is Some && #[trigger] finish[q] implies fo[q] by {}
    lemma_need_met_mono(w0, cv, finish, fo, cv[i].unwrap().need);
    assert forall|k: int| 0 <= k < o2.len() implies need_met(
        w0,
        cv,
        finished_by(n, o2.take(k)),
        cv[#[trigger] o2[k]].unwrap().need,
    ) by {
        if k < order.len() {
            assert(o2.take(k) =~= order.take(k));
            assert(o2[k] == order[k]);
        } else {
            assert(o2.take(k) =~= order);
        }
    }
}

/// Replacing one entry changes the total of an id by the difference of the
/// two entries' contributions.
pub proof fn lemma_entry_total_update(list: Seq<(usize, isize)>, k: int, e: (usize, isize), id: usize)
    requires
        0 <= k < list.len(),
    ensures
        entry_total(list.update(k, e), id) == entry_total(list, id) - (if list[k].0 == id {
            list[k].1 as int
        } else {
            0
        }) + (if e.0 == id {
            e.1 as int
        } else {
            0
        }),
    decreases list.len(),
{
    let u = list.update(k, e);
    if k == list.len() - 1 {
        assert(u.drop_last() =~= list.drop_last());
    } else {
        assert(u.drop_last() =~= list.drop_last().update(k, e));
        lemma_entry_total_update(list.drop_last(), k, e, id);
    }
}

/// One more unit of `id` in a list raises its total by one.
pub proof fn lemma_entry_total_increment(list: Seq<(usize, isize)>, id: usize)
    requires
        can_increment(list, id),
    ensures
        entry_total(increment_spec(list, id), id) == entry_total(list, id) + 1,
{
    match find_entry_spec(list, id) {
        Some(k) => {
            lemma_find_some(list, id);
            lemma_entry_total_update(list, k, (id, (list[k].1 + 1) as isize), id);
        },
        None => {
            assert(list.push((id, 1isize)).drop_last() =~= list);
        },
    }
}

/// Replacing one task slot changes what the finished tasks hand back by the
/// difference of the two allocations, when that slot counts.
pub proof fn lemma_released_update_slot(
    claims: Seq<Option<TaskResourcesView>>,
    f: Seq<bool>,
    id: usize,
    c: int,
    t: TaskResourcesView,
    k: int,
)
    requires
        0 <= c < claims.len(),
        claims[c] is Some,
        0 <= k <= claims.len(),
    ensures
        released(claims.update(c, Some(t)), f, id, k) == released(claims, f, id, k) + if c < k
            && f[c] {
            entry_total(t.allocation, id) - entry_total(claims[c].unwrap().allocation, id)
        } else {
            0
        },
    decreases k,
{
    if k > 0 {
        lemma_released_update_slot(claims, f, id, c, t, k - 1);
    }
}

/// More free units never make a safe state unsafe: a safe sequence for
/// `w1` is one for any `w2` with the same semaphores and at least as many
/// free units of each.
pub proof fn lemma_more_units_stay_safe(
    w1: Seq<(usize, isize)>,
    w2: Seq<(usize, isize)>,
    claims: Seq<Option<TaskResourcesView>>,
)
    requires
        w1.len() == w2.len(),
        forall|k: int| 0 <= k < w1.len() ==> (#[trigger] w2[k]).0 == w1[k].0 && w2[k].1 >= w1[k].1,
    ensures
        is_deadlock_free(w1, claims) ==> is_deadlock_free(w2, claims),
{
    if is_deadlock_free(w1, claims) {
        let order = choose|order: Seq<int>| is_safe_sequence(w1, claims, order);
        assert(ids_of(w2) =~= ids_of(w1));
        assert forall|k: int| 0 <= k < order.len() implies need_met(
            w2,
            claims,
            finished_by(claims.len() as int, order.take(k)),
            claims[#[trigger] order[k]].unwrap().need,
        ) by {
            let f = finished_by(claims.len() as int, order.take(k));
            let need = claims[order[k]].unwrap().need;
            assert(need_met(w1, claims, f, need));
            assert forall|j: int| 0 <= j < need.len() implies {
                &&& find_entry_spec(w2, #[trigger] need[j].0) is Some
                &&& work_value(w2, need[j].0) + released(claims, f, need[j].0, claims.len() as int)
                    >= need[j].1
            } by {
                lemma_find_some(w1, need[j].0);
            }
        }
        assert(is_safe_sequence(w2, claims, order));
    }
}

} // verus!
