//! Per-task resource bookkeeping: which semaphores a task holds
//! (`allocation`) and which it waits for (`need`), as lists of
//! `(semaphore id, count)` entries.
use vstd::prelude::*;

verus! {

/// The resource lists of one task.
pub struct TaskResources {
    /// Semaphores the task is blocked on, with counts.
    pub need: Vec<(usize, isize)>,
    /// Semaphores the task has acquired, with counts.
    pub allocation: Vec<(usize, isize)>,
}

/// Mathematical view of [`TaskResources`].
pub struct TaskResourcesView {
    pub need: Seq<(usize, isize)>,
    pub allocation: Seq<(usize, isize)>,
}

impl View for TaskResources {
    type V = TaskResourcesView;

    open spec fn view(&self) -> TaskResourcesView {
        TaskResourcesView { need: self.need@, allocation: self.allocation@ }
    }
}

/// The ids of a resource list, in order.
pub open spec fn ids_of(list: Seq<(usize, isize)>) -> Seq<usize> {
    list.map_values(|e: (usize, isize)| e.0)
}

/// `k` is the position of the first occurrence of `id` in `ids`.
pub open spec fn is_first_index(ids: Seq<usize>, id: usize, k: int) -> bool {
    &&& 0 <= k < ids.len()
    &&& ids[k] == id
    &&& forall|j: int| 0 <= j < k ==> ids[j] != id
}

/// Position of the first occurrence of `id` in `ids`, if any.
pub open spec fn first_index(ids: Seq<usize>, id: usize) -> Option<int> {
    if exists|k: int| is_first_index(ids, id, k) {
        Some(choose|k: int| is_first_index(ids, id, k))
    } else {
        None
    }
}

/// Position of the first entry of `list` with the given id, if any.
pub open spec fn find_entry_spec(list: Seq<(usize, isize)>, id: usize) -> Option<int> {
    first_index(ids_of(list), id)
}

/// `list` after one more unit of `id`: the first entry with that id is
/// incremented, or a new entry `(id, 1)` is appended.
pub open spec fn increment_spec(list: Seq<(usize, isize)>, id: usize) -> Seq<(usize, isize)> {
    match find_entry_spec(list, id) {
        Some(k) => list.update(k, (id, (list[k].1 + 1) as isize)),
        None => list.push((id, 1isize)),
    }
}

/// The increment of `id` in `list` does not overflow.
pub open spec fn can_increment(list: Seq<(usize, isize)>, id: usize) -> bool {
    match find_entry_spec(list, id) {
        Some(k) => list[k].1 < isize::MAX,
        None => true,
    }
}

/// `list` after the first entry with `id` (if any) is dropped.
pub open spec fn remove_spec(list: Seq<(usize, isize)>, id: usize) -> Seq<(usize, isize)> {
    match find_entry_spec(list, id) {
        Some(k) => list.remove(k),
        None => list,
    }
}

/// No id occurs twice in `list`.
pub open spec fn distinct_ids(list: Seq<(usize, isize)>) -> bool {
    forall|a: int, b: int|
        0 <= a < list.len() && 0 <= b < list.len() && a != b ==> #[trigger] list[a].0
            != #[trigger] list[b].0
}

/// Every entry of `list` carries a positive count.
pub open spec fn positive_counts(list: Seq<(usize, isize)>) -> bool {
    forall|k: int| 0 <= k < list.len() ==> #[trigger] list[k].1 >= 1
}

/// The shape every resource list keeps: distinct ids, positive counts.
pub open spec fn list_wf(list: Seq<(usize, isize)>) -> bool {
    distinct_ids(list) && positive_counts(list)
}

pub proof fn lemma_first_index_is(ids: Seq<usize>, id: usize, k: int)
    requires
        is_first_index(ids, id, k),
    ensures
        first_index(ids, id) == Some(k),
{
    let c = choose|c: int| is_first_index(ids, id, c);
    assert(is_first_index(ids, id, c));
    if c < k {
        assert(ids[c] != id);
    }
    if k < c {
        assert(ids[k] != id);
    }
}

pub proof fn lemma_first_index_none(ids: Seq<usize>, id: usize)
    requires
        forall|j: int| 0 <= j < ids.len() ==> ids[j] != id,
    ensures
        first_index(ids, id) == None::<int>,
{
}

/// The found entry carries the id looked for.
pub proof fn lemma_find_some(list: Seq<(usize, isize)>, id: usize)
    requires
        find_entry_spec(list, id) is Some,
    ensures
        0 <= find_entry_spec(list, id).unwrap() < list.len(),
        list[find_entry_spec(list, id).unwrap()].0 == id,
{
    let ids = ids_of(list);
    let k = find_entry_spec(list, id).unwrap();
    assert(is_first_index(ids, id, k));
    assert(ids[k] == list[k].0);
}

/// Looks up the first entry of `list` with the given id.
pub fn find_entry(list: &Vec<(usize, isize)>, id: usize) -> (r: Option<usize>)
    ensures
        match r {
            Some(k) => find_entry_spec(list@, id) == Some(k as int),
            None => find_entry_spec(list@, id) == None::<int>,
        },
{
    let ghost ids = ids_of(list@);
    let mut k: usize = 0;
    while k < list.len()
        invariant
            k <= list.len(),
            ids == ids_of(list@),
            forall|j: int| 0 <= j < k ==> ids[j] != id,
        decreases list.len() - k,
    {
        assert(ids[k as int] == list@[k as int].0);
        if list[k].0 == id {
            proof {
                lemma_first_index_is(ids, id, k as int);
            }
            return Some(k);
        }
        k = k + 1;
    }
    proof {
        lemma_first_index_none(ids, id);
    }
    None
}

/// Adds one unit of `id` to `list`.
pub fn increment_entry(list: &mut Vec<(usize, isize)>, id: usize)
    requires
        can_increment(old(list)@, id),
    ensures
        final(list)@ == increment_spec(old(list)@, id),
{
    match find_entry(list, id) {
        Some(k) => {
            proof {
                lemma_find_some(list@, id);
            }
            let c = list[k].1;
            list.set(k, (id, c + 1));
        },
        None => {
            list.push((id, 1));
        },
    }
}

/// Incrementing keeps a resource list well formed.
pub proof fn lemma_increment_wf(list: Seq<(usize, isize)>, id: usize)
    requires
        list_wf(list),
        can_increment(list, id),
    ensures
        list_wf(increment_spec(list, id)),
{
    let r = increment_spec(list, id);
    match find_entry_spec(list, id) {
        Some(k) => {
            lemma_find_some(list, id);
            assert forall|a: int| 0 <= a < r.len() implies #[trigger] r[a].0 == list[a].0 by {}
        },
        None => {
            assert forall|a: int| 0 <= a < list.len() implies list[a].0 != id by {
                if list[a].0 == id {
                    assert(ids_of(list)[a] == id);
                    lemma_first_exists(ids_of(list), id, a);
                }
            }
        },
    }
}

/// If `id` occurs at position `a`, a first occurrence exists.
pub proof fn lemma_first_exists(ids: Seq<usize>, id: usize, a: int)
    requires
        0 <= a < ids.len(),
        ids[a] == id,
    ensures
        first_index(ids, id) is Some,
    decreases a,
{
    if exists|j: int| 0 <= j < a && ids[j] == id {
        let j = choose|j: int| 0 <= j < a && ids[j] == id;
        lemma_first_exists(ids, id, j);
    } else {
        assert(is_first_index(ids, id, a));
    }
}

/// Releasing `id` from `list` is defined: the first entry with `id`, if
/// any, has a count of at most one, so that it drops to zero or below when
/// decremented, and the decrement does not overflow.
pub open spec fn can_release(list: Seq<(usize, isize)>, id: usize) -> bool {
    match find_entry_spec(list, id) {
        Some(k) => isize::MIN < list[k].1 <= 1,
        None => true,
    }
}

/// Takes one unit of `id` off `list`; the entry, whose count drops to
/// zero or below, is removed.
pub fn release_entry(list: &mut Vec<(usize, isize)>, id: usize)
    requires
        can_release(old(list)@, id),
    ensures
        final(list)@ == remove_spec(old(list)@, id),
{
    if let Some(k) = find_entry(list, id) {
        proof {
            lemma_find_some(list@, id);
        }
        let c = list[k].1 - 1;
        if c <= 0 {
            list.remove(k);
        }
    }
}

/// Removing an entry keeps a resource list well formed.
pub proof fn lemma_remove_wf(list: Seq<(usize, isize)>, id: usize)
    requires
        list_wf(list),
    ensures
        list_wf(remove_spec(list, id)),
{
    match find_entry_spec(list, id) {
        Some(k) => {
            lemma_find_some(list, id);
            let r = list.remove(k);
            assert forall|a: int| 0 <= a < r.len() implies #[trigger] r[a] == (if a < k {
                list[a]
            } else {
                list[a + 1]
            }) by {}
        },
        None => {},
    }
}

/// The views of a table of task slots.
pub open spec fn claims_view(claims: Seq<Option<TaskResources>>) -> Seq<Option<TaskResourcesView>> {
    claims.map_values(
        |o: Option<TaskResources>|
            match o {
                Some(t) => Some(t@),
                None => None,
            },
    )
}

/// Appending keeps the first entry of an id already present.
pub proof fn lemma_find_push_found(list: Seq<(usize, isize)>, e: (usize, isize), id: usize)
    requires
        find_entry_spec(list, id) is Some,
    ensures
        find_entry_spec(list.push(e), id) == find_entry_spec(list, id),
{
    let k = find_entry_spec(list, id).unwrap();
    assert(is_first_index(ids_of(list), id, k));
    assert(ids_of(list.push(e)) =~= ids_of(list).push(e.0));
    lemma_first_index_is(ids_of(list.push(e)), id, k);
}

/// Appending an entry with an id absent so far makes it the first entry of
/// that id; other absent ids stay absent.
pub proof fn lemma_find_push_absent(list: Seq<(usize, isize)>, e: (usize, isize), id: usize)
    requires
        forall|j: int| 0 <= j < list.len() ==> #[trigger] list[j].0 != id,
    ensures
        find_entry_spec(list, id) == None::<int>,
        e.0 == id ==> find_entry_spec(list.push(e), id) == Some(list.len() as int),
        e.0 != id ==> find_entry_spec(list.push(e), id) == None::<int>,
{
    let ids = ids_of(list);
    let ids2 = ids_of(list.push(e));
    assert(ids2 =~= ids.push(e.0));
    assert forall|j: int| 0 <= j < ids.len() implies ids[j] != id by {
        assert(ids[j] == list[j].0);
    }
    lemma_first_index_none(ids, id);
    if e.0 == id {
        lemma_first_index_is(ids2, id, list.len() as int);
    } else {
        lemma_first_index_none(ids2, id);
    }
}

/// Every entry after an increment carries the id incremented or the id of
/// the entry at the same position before.
pub proof fn lemma_increment_ids(list: Seq<(usize, isize)>, id: usize)
    ensures
        forall|j: int|
            0 <= j < increment_spec(list, id).len() ==> #[trigger] increment_spec(list, id)[j].0 == id
                || (j < list.len() && increment_spec(list, id)[j].0 == list[j].0),
{
    if let Some(k) = find_entry_spec(list, id) {
        lemma_find_some(list, id);
    }
}

/// Every entry after a removal carries the id of the entry at the same
/// position, or at the next one, before.
pub proof fn lemma_remove_ids(list: Seq<(usize, isize)>, id: usize)
    ensures
        forall|j: int|
            0 <= j < remove_spec(list, id).len() ==> (j < list.len() && #[trigger] remove_spec(list, id)[j].0 == list[j].0)
                || (j + 1 < list.len() && remove_spec(list, id)[j].0 == list[j + 1].0),
{
    if let Some(k) = find_entry_spec(list, id) {
        lemma_find_some(list, id);
        let r = list.remove(k);
        assert forall|j: int| 0 <= j < r.len() implies #[trigger] r[j] == (if j < k {
            list[j]
        } else {
            list[j + 1]
        }) by {}
    }
}

} // verus!
