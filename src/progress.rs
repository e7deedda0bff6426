//! Per-task transcoding progress: for each task, one optional percentage
//! per output format, and the task's overall progress as the mean of the
//! formats that have reported.
use vstd::prelude::*;

verus! {

/// Progress of every task, by task id. The caller guards it with a lock.
pub struct ProgressMap {
    entries: Vec<(String, Vec<Option<i32>>)>,
}

/// Entries as (task id, per-format progress) pairs.
pub open spec fn entries_view(e: Seq<(String, Vec<Option<i32>>)>) -> Seq<(Seq<char>, Seq<Option<i32>>)> {
    e.map_values(|p: (String, Vec<Option<i32>>)| (p.0@, p.1@))
}

/// Index of the entry of `task` from `i` on.
pub open spec fn entry_index(ev: Seq<(Seq<char>, Seq<Option<i32>>)>, task: Seq<char>, i: int) -> Option<int>
    decreases ev.len() - i,
{
    if i < 0 || i >= ev.len() {
        None
    } else if ev[i].0 == task {
        Some(i)
    } else {
        entry_index(ev, task, i + 1)
    }
}

proof fn lemma_entry_index_range(ev: Seq<(Seq<char>, Seq<Option<i32>>)>, task: Seq<char>, i: int)
    ensures
        entry_index(ev, task, i) matches Some(j) ==> i <= j < ev.len() && ev[j].0 == task,
    decreases ev.len() - i,
{
    if 0 <= i < ev.len() && ev[i].0 != task {
        lemma_entry_index_range(ev, task, i + 1);
    }
}

proof fn lemma_entry_index_none(ev: Seq<(Seq<char>, Seq<Option<i32>>)>, task: Seq<char>, i: int)
    requires
        0 <= i,
    ensures
        entry_index(ev, task, i) is None ==> forall|j: int| i <= j < ev.len() ==> ev[j].0 != task,
    decreases ev.len() - i,
{
    if 0 <= i < ev.len() && ev[i].0 != task {
        lemma_entry_index_none(ev, task, i + 1);
    }
}

/// `l` grown with unset entries so that index `i` exists, then entry `i`
/// set to `p`.
pub open spec fn set_progress(l: Seq<Option<i32>>, i: nat, p: i32) -> Seq<Option<i32>> {
    let grown = if l.len() <= i { l + Seq::new((i + 1 - l.len()) as nat, |k: int| None::<i32>) } else { l };
    grown.update(i as int, Some(p))
}

/// Sum of the percentages that have been reported.
pub open spec fn reported_sum(l: Seq<Option<i32>>) -> int
    decreases l.len(),
{
    if l.len() == 0 {
        0
    } else {
        reported_sum(l.drop_last()) + match l.last() {
            Some(p) => p as int,
            None => 0,
        }
    }
}

/// Number of formats that have reported.
pub open spec fn reported_count(l: Seq<Option<i32>>) -> nat
    decreases l.len(),
{
    if l.len() == 0 {
        0
    } else {
        reported_count(l.drop_last()) + if l.last() is Some { 1nat } else { 0nat }
    }
}

/// `a / b` rounded toward zero, as integer division in Rust.
pub open spec fn div_toward_zero(a: int, b: int) -> int {
    if a >= 0 {
        a / b
    } else {
        -((-a) / b)
    }
}

/// Mean of the reported percentages, rounded toward zero; 0 when none has
/// reported.
pub open spec fn overall_spec(l: Seq<Option<i32>>) -> int {
    if reported_count(l) == 0 {
        0
    } else {
        div_toward_zero(reported_sum(l), reported_count(l) as int)
    }
}

impl ProgressMap {
    /// The per-format progress of each task, by task id.
    pub closed spec fn view(&self) -> Map<Seq<char>, Seq<Option<i32>>> {
        Map::new(
            |t: Seq<char>| entry_index(entries_view(self.entries@), t, 0) is Some,
            |t: Seq<char>| entries_view(self.entries@)[entry_index(entries_view(self.entries@), t, 0)->0].1,
        )
    }

    /// An empty map.
    pub fn new() -> (r: Self)
        ensures
            r.view() == Map::<Seq<char>, Seq<Option<i32>>>::empty(),
    {
        let r = ProgressMap { entries: Vec::new() };
        proof {
            assert(entries_view(r.entries@) =~= Seq::empty());
            assert(r.view() =~= Map::<Seq<char>, Seq<Option<i32>>>::empty());
        }
        r
    }

    /// The per-format progress of `task_id`, if it has any.
    pub fn get(&self, task_id: &str) -> (r: Option<Vec<Option<i32>>>)
        ensures
            match r {
                Some(l) => self.view().contains_key(task_id@) && self.view()[task_id@] == l@,
                None => !self.view().contains_key(task_id@),
            },
    {
        match self.index_of(task_id) {
            Some(i) => Some(self.entries[i].1.clone()),
            None => None,
        }
    }

    fn index_of(&self, task_id: &str) -> (r: Option<usize>)
        ensures
            match entry_index(entries_view(self.entries@), task_id@, 0) {
                Some(i) => r matches Some(j) && j as int == i,
                None => r is None,
            },
            r matches Some(j) ==> j < self.entries@.len(),
    {
        let ghost ev = entries_view(self.entries@);
        let mut i: usize = 0;
        while i < self.entries.len()
            invariant
                ev == entries_view(self.entries@),
                i <= self.entries@.len(),
                entry_index(ev, task_id@, 0) == entry_index(ev, task_id@, i as int),
            decreases self.entries@.len() - i,
        {
            proof {
                assert(ev[i as int] == (self.entries@[i as int].0@, self.entries@[i as int].1@));
            }
            if self.entries[i].0.as_str().unicode_len() == task_id.unicode_len() && str_eq(self.entries[i].0.as_str(), task_id) {
                return Some(i);
            }
            i = i + 1;
        }
        None
    }
}

/// Whether two strings hold the same characters.
fn str_eq(a: &str, b: &str) -> (r: bool)
    ensures
        r == (a@ == b@),
{
    let n = a.unicode_len();
    if n != b.unicode_len() {
        return false;
    }
    let mut i: usize = 0;
    while i < n
        invariant
            n == a@.len() == b@.len(),
            i <= n,
            forall|k: int| 0 <= k < i ==> a@[k] == b@[k],
        decreases n - i,
    {
        if a.get_char(i) != b.get_char(i) {
            return false;
        }
        i = i + 1;
    }
    proof {
        assert(a@ =~= b@);
    }
    true
}

/// Records that format `format_index` of task `task_id` is at `progress`
/// percent. A task or format not seen before is added; formats before it
/// that have not reported stay unset.
pub fn update_progress(map: &mut ProgressMap, task_id: &str, format_index: usize, progress: i32)
    requires
        format_index < usize::MAX,
    ensures
        final(map).view() == old(map).view().insert(
            task_id@,
            set_progress(
                if old(map).view().contains_key(task_id@) { old(map).view()[task_id@] } else { Seq::empty() },
                format_index as nat,
                progress,
            ),
        ),
{
    let ghost old_ev = entries_view(map.entries@);
    let ghost old_view = map.view();
    let idx = map.index_of(task_id);
    let mut list: Vec<Option<i32>> = match idx {
        Some(i) => map.entries[i].1.clone(),
        None => Vec::new(),
    };
    let ghost before = list@;
    proof {
        lemma_entry_index_range(old_ev, task_id@, 0);
        if idx is Some {
            assert(old_ev[idx->0 as int] == (map.entries@[idx->0 as int].0@, map.entries@[idx->0 as int].1@));
        }
        assert(before == if old_view.contains_key(task_id@) { old_view[task_id@] } else { Seq::<Option<i32>>::empty() });
    }
    while list.len() <= format_index
        invariant
            format_index < usize::MAX,
            before.len() <= list@.len(),
            list@.len() <= format_index + 1 || list@ == before,
            list@ =~= before + Seq::new((list@.len() - before.len()) as nat, |k: int| None::<i32>),
        decreases format_index + 1 - list@.len(),
    {
        list.push(None);
    }
    proof {
        let grown = if before.len() <= format_index { before + Seq::new((format_index + 1 - before.len()) as nat, |k: int| None::<i32>) } else { before };
        assert(list@ =~= grown);
    }
    list.set(format_index, Some(progress));
    let ghost new_list = list@;
    let key = String::from_str(task_id);
    match idx {
        Some(i) => {
            map.entries.set(i, (key, list));
            proof {
                let ev = entries_view(map.entries@);
                assert(ev =~= old_ev.update(i as int, (task_id@, new_list)));
                lemma_update_keeps_index(old_ev, i as int, task_id@, new_list);
                assert(map.view() =~= old_view.insert(task_id@, new_list)) by {
                    assert forall|t: Seq<char>| #[trigger] map.view().contains_key(t) == old_view.insert(task_id@, new_list).contains_key(t) by {
                        lemma_update_keeps_index_of(old_ev, i as int, task_id@, new_list, t);
                    }
                    assert forall|t: Seq<char>| map.view().contains_key(t) implies #[trigger] map.view()[t] == old_view.insert(task_id@, new_list)[t] by {
                        lemma_update_keeps_index_of(old_ev, i as int, task_id@, new_list, t);
                        lemma_entry_index_range(old_ev, t, 0);
                    }
                }
            }
        },
        None => {
            map.entries.push((key, list));
            proof {
                let ev = entries_view(map.entries@);
                assert(ev =~= old_ev.push((task_id@, new_list)));
                assert(map.view() =~= old_view.insert(task_id@, new_list)) by {
                    assert forall|t: Seq<char>| #[trigger] map.view().contains_key(t) == old_view.insert(task_id@, new_list).contains_key(t) by {
                        lemma_push_index_of(old_ev, task_id@, new_list, t);
                    }
                    assert forall|t: Seq<char>| map.view().contains_key(t) implies #[trigger] map.view()[t] == old_view.insert(task_id@, new_list)[t] by {
                        lemma_push_index_of(old_ev, task_id@, new_list, t);
                        lemma_entry_index_range(old_ev, t, 0);
                    }
                }
            }
        },
    }
}

proof fn lemma_update_keeps_index(ev: Seq<(Seq<char>, Seq<Option<i32>>)>, i: int, task: Seq<char>, l: Seq<Option<i32>>)
    requires
        entry_index(ev, task, 0) == Some(i),
    ensures
        entry_index(ev.update(i, (task, l)), task, 0) == Some(i),
{
    lemma_update_keeps_index_of(ev, i, task, l, task);
}

proof fn lemma_update_keeps_index_of(ev: Seq<(Seq<char>, Seq<Option<i32>>)>, i: int, task: Seq<char>, l: Seq<Option<i32>>, t: Seq<char>)
    requires
        entry_index(ev, task, 0) == Some(i),
    ensures
        entry_index(ev.update(i, (task, l)), t, 0) == entry_index(ev, t, 0),
{
    lemma_entry_index_range(ev, task, 0);
    lemma_update_index_from(ev, i, task, l, t, 0);
}

proof fn lemma_update_index_from(ev: Seq<(Seq<char>, Seq<Option<i32>>)>, i: int, task: Seq<char>, l: Seq<Option<i32>>, t: Seq<char>, k: int)
    requires
        0 <= i < ev.len(),
        ev[i].0 == task,
        0 <= k,
    ensures
        entry_index(ev.update(i, (task, l)), t, k) == entry_index(ev, t, k),
    decreases ev.len() - k,
{
    if k < ev.len() {
        lemma_update_index_from(ev, i, task, l, t, k + 1);
    }
}

proof fn lemma_push_index_of(ev: Seq<(Seq<char>, Seq<Option<i32>>)>, task: Seq<char>, l: Seq<Option<i32>>, t: Seq<char>)
    requires
        entry_index(ev, task, 0) is None,
    ensures
        entry_index(ev.push((task, l)), t, 0) == if t == task { Some(ev.len() as int) } else { entry_index(ev, t, 0) },
{
    lemma_entry_index_none(ev, task, 0);
    lemma_push_index_from(ev, task, l, t, 0);
}

proof fn lemma_push_index_from(ev: Seq<(Seq<char>, Seq<Option<i32>>)>, task: Seq<char>, l: Seq<Option<i32>>, t: Seq<char>, k: int)
    requires
        0 <= k <= ev.len(),
        forall|j: int| 0 <= j < ev.len() ==> ev[j].0 != task,
    ensures
        entry_index(ev.push((task, l)), t, k) == if t == task { Some(ev.len() as int) } else { entry_index(ev, t, k) },
    decreases ev.len() - k,
{
    let pushed = ev.push((task, l));
    if k < ev.len() {
        assert(pushed[k] == ev[k]);
        lemma_push_index_from(ev, task, l, t, k + 1);
    } else {
        assert(pushed[k] == (task, l));
        assert(entry_index(pushed, t, k + 1) is None);
    }
}

/// Overall progress of `task_id`: the mean of the percentages of the
/// formats that have reported, rounded toward zero; 0 for an unknown task
/// or one whose formats have not reported yet.
pub fn calculate_overall_progress(map: &ProgressMap, task_id: &str) -> (r: i32)
    ensures
        r as int == if map.view().contains_key(task_id@) { overall_spec(map.view()[task_id@]) } else { 0 },
{
    let list = match map.get(task_id) {
        Some(l) => l,
        None => return 0,
    };
    let mut sum: i128 = 0;
    let mut count: u64 = 0;
    let mut i: usize = 0;
    proof {
        assert(list@.subrange(0, 0) =~= Seq::<Option<i32>>::empty());
    }
    while i < list.len()
        invariant
            i <= list@.len(),
            count as nat == reported_count(list@.subrange(0, i as int)),
            sum as int == reported_sum(list@.subrange(0, i as int)),
            count <= i,
            -2147483648 * (count as int) <= sum <= 2147483647 * (count as int),
        decreases list@.len() - i,
    {
        proof {
            assert(list@.subrange(0, i + 1).drop_last() =~= list@.subrange(0, i as int));
        }
        match list[i] {
            Some(p) => {
                sum = sum + p as i128;
                count = count + 1;
            },
            None => {},
        }
        i = i + 1;
    }
    proof {
        assert(list@.subrange(0, list@.len() as int) =~= list@);
    }
    if count == 0 {
        return 0;
    }
    let c = count as i128;
    if sum >= 0 {
        proof {
            assert(sum / c <= 2147483647) by (nonlinear_arith)
                requires sum <= 2147483647 * c, c > 0, sum >= 0;
            assert(sum / c >= 0) by (nonlinear_arith)
                requires c > 0, sum >= 0;
        }
        (sum / c) as i32
    } else {
        let m = -sum;
        proof {
            assert(m / c <= 2147483648) by (nonlinear_arith)
                requires m <= 2147483648 * c, c > 0, m >= 0;
            assert(m / c >= 0) by (nonlinear_arith)
                requires c > 0, m >= 0;
        }
        (-(m / c)) as i32
    }
}

} // verus!
