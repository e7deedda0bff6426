//! The bounded first-in-first-out task queue between the request handlers
//! and the single worker, and the store of finished results.
use vstd::prelude::*;

verus! {

/// Tasks the queue holds at most; further submissions are turned back.
pub const QUEUE_CAPACITY: usize = 100;

/// A request to transcode a source: its address, the requested formats (a
/// JSON list; empty for the configured default), whether the source and
/// outputs are encrypted, and whether to use a hardware accelerator.
pub struct TranscodeTask {
    pub source_cid: String,
    pub media_formats: String,
    pub is_encrypted: bool,
    pub is_gpu: bool,
}

/// The queue of tasks waiting for the worker, oldest first.
pub struct TaskQueue {
    tasks: Vec<TranscodeTask>,
}

impl TaskQueue {
    /// The waiting tasks, oldest first.
    pub closed spec fn view(&self) -> Seq<TranscodeTask> {
        self.tasks@
    }

    /// The queue never holds more than its capacity.
    pub open spec fn wf(&self) -> bool {
        self.view().len() <= QUEUE_CAPACITY
    }

    /// An empty queue.
    pub fn new() -> (r: Self)
        ensures
            r.wf(),
            r.view() == Seq::<TranscodeTask>::empty(),
    {
        TaskQueue { tasks: Vec::new() }
    }

    /// Number of waiting tasks.
    pub fn len(&self) -> (r: usize)
        ensures
            r == self.view().len(),
    {
        self.tasks.len()
    }

    /// Adds `task` at the back. A full queue leaves it out and hands it back,
    /// for the caller to offer again later.
    pub fn try_submit(&mut self, task: TranscodeTask) -> (r: Result<(), TranscodeTask>)
        requires
            old(self).wf(),
        ensures
            final(self).wf(),
            old(self).view().len() < QUEUE_CAPACITY ==> r is Ok && final(self).view() == old(self).view().push(task),
            old(self).view().len() >= QUEUE_CAPACITY ==> r == Err::<(), TranscodeTask>(task) && final(self).view() == old(self).view(),
    {
        if self.tasks.len() >= QUEUE_CAPACITY {
            return Err(task);
        }
        self.tasks.push(task);
        Ok(())
    }

    /// Takes the oldest waiting task, if any.
    pub fn next_task(&mut self) -> (r: Option<TranscodeTask>)
        requires
            old(self).wf(),
        ensures
            final(self).wf(),
            old(self).view().len() == 0 ==> r is None && final(self).view() == old(self).view(),
            old(self).view().len() > 0 ==> r == Some(old(self).view()[0]) && final(self).view() == old(self).view().drop_first(),
    {
        if self.tasks.len() == 0 {
            return None;
        }
        let t = self.tasks.remove(0);
        proof {
            assert(self.tasks@ =~= old(self).view().drop_first());
        }
        Some(t)
    }
}

/// Results of finished tasks, by source address: the JSON list of the
/// formats produced, each with its CID.
pub struct TranscodedResults {
    entries: Vec<(String, String)>,
}

/// Index of the entry of `source` from `i` on.
pub open spec fn result_index(ev: Seq<(Seq<char>, Seq<char>)>, source: Seq<char>, i: int) -> Option<int>
    decreases ev.len() - i,
{
    if i < 0 || i >= ev.len() {
        None
    } else if ev[i].0 == source {
        Some(i)
    } else {
        result_index(ev, source, i + 1)
    }
}

/// Entries as text pairs.
pub open spec fn results_view(e: Seq<(String, String)>) -> Seq<(Seq<char>, Seq<char>)> {
    e.map_values(|p: (String, String)| (p.0@, p.1@))
}

proof fn lemma_result_index_range(ev: Seq<(Seq<char>, Seq<char>)>, s: Seq<char>, i: int)
    ensures
        result_index(ev, s, i) matches Some(j) ==> i <= j < ev.len() && ev[j].0 == s,
    decreases ev.len() - i,
{
    if 0 <= i < ev.len() && ev[i].0 != s {
        lemma_result_index_range(ev, s, i + 1);
    }
}

proof fn lemma_result_index_update(ev: Seq<(Seq<char>, Seq<char>)>, i: int, s: Seq<char>, v: Seq<char>, t: Seq<char>, k: int)
    requires
        0 <= i < ev.len(),
        ev[i].0 == s,
        0 <= k,
    ensures
        result_index(ev.update(i, (s, v)), t, k) == result_index(ev, t, k),
    decreases ev.len() - k,
{
    if k < ev.len() {
        lemma_result_index_update(ev, i, s, v, t, k + 1);
    }
}

proof fn lemma_result_index_push(ev: Seq<(Seq<char>, Seq<char>)>, s: Seq<char>, v: Seq<char>, t: Seq<char>, k: int)
    requires
        0 <= k <= ev.len(),
        forall|j: int| 0 <= j < ev.len() ==> ev[j].0 != s,
    ensures
        result_index(ev.push((s, v)), t, k) == if t == s { Some(ev.len() as int) } else { result_index(ev, t, k) },
    decreases ev.len() - k,
{
    let pushed = ev.push((s, v));
    if k < ev.len() {
        assert(pushed[k] == ev[k]);
        lemma_result_index_push(ev, s, v, t, k + 1);
    } else {
        assert(pushed[k] == (s, v));
        assert(result_index(pushed, t, k + 1) is None);
    }
}

proof fn lemma_result_index_none(ev: Seq<(Seq<char>, Seq<char>)>, s: Seq<char>, i: int)
    requires
        0 <= i,
    ensures
        result_index(ev, s, i) is None ==> forall|j: int| i <= j < ev.len() ==> ev[j].0 != s,
    decreases ev.len() - i,
{
    if 0 <= i < ev.len() && ev[i].0 != s {
        lemma_result_index_none(ev, s, i + 1);
    }
}

impl TranscodedResults {
    /// The recorded results, by source address.
    pub closed spec fn view(&self) -> Map<Seq<char>, Seq<char>> {
        Map::new(
            |s: Seq<char>| result_index(results_view(self.entries@), s, 0) is Some,
            |s: Seq<char>| results_view(self.entries@)[result_index(results_view(self.entries@), s, 0)->0].1,
        )
    }

    /// No results yet.
    pub fn new() -> (r: Self)
        ensures
            r.view() == Map::<Seq<char>, Seq<char>>::empty(),
    {
        let r = TranscodedResults { entries: Vec::new() };
        proof {
            assert(results_view(r.entries@) =~= Seq::empty());
            assert(r.view() =~= Map::<Seq<char>, Seq<char>>::empty());
        }
        r
    }

    fn index_of(&self, source: &String) -> (r: Option<usize>)
        ensures
            match result_index(results_view(self.entries@), source@, 0) {
                Some(i) => r matches Some(j) && j as int == i,
                None => r is None,
            },
    {
        let ghost ev = results_view(self.entries@);
        let mut i: usize = 0;
        while i < self.entries.len()
            invariant
                ev == results_view(self.entries@),
                i <= self.entries@.len(),
                result_index(ev, source@, 0) == result_index(ev, source@, i as int),
            decreases self.entries@.len() - i,
        {
            proof {
                assert(ev[i as int] == (self.entries@[i as int].0@, self.entries@[i as int].1@));
            }
            if self.entries[i].0 == *source {
                return Some(i);
            }
            i = i + 1;
        }
        None
    }

    /// The result recorded for `source`, if any.
    pub fn get(&self, source: &String) -> (r: Option<String>)
        ensures
            match r {
                Some(v) => self.view().contains_key(source@) && self.view()[source@] == v@,
                None => !self.view().contains_key(source@),
            },
    {
        proof {
            lemma_result_index_range(results_view(self.entries@), source@, 0);
        }
        match self.index_of(source) {
            Some(i) => {
                proof {
                    assert(results_view(self.entries@)[i as int] == (self.entries@[i as int].0@, self.entries@[i as int].1@));
                }
                Some(self.entries[i].1.clone())
            },
            None => None,
        }
    }

    /// Records `result` for `source`, replacing an earlier one.
    pub fn record(&mut self, source: String, result: String)
        ensures
            final(self).view() == old(self).view().insert(source@, result@),
    {
        let ghost ev = results_view(self.entries@);
        let ghost old_view = self.view();
        let ghost s = source@;
        let ghost v = result@;
        proof {
            lemma_result_index_range(ev, s, 0);
            lemma_result_index_none(ev, s, 0);
        }
        match self.index_of(&source) {
            Some(i) => {
                self.entries.set(i, (source, result));
                proof {
                    assert(results_view(self.entries@) =~= ev.update(i as int, (s, v)));
                    assert(self.view() =~= old_view.insert(s, v)) by {
                        assert forall|t: Seq<char>| #[trigger] self.view().contains_key(t) == old_view.insert(s, v).contains_key(t) by {
                            lemma_result_index_update(ev, i as int, s, v, t, 0);
                        }
                        assert forall|t: Seq<char>| self.view().contains_key(t) implies #[trigger] self.view()[t] == old_view.insert(s, v)[t] by {
                            lemma_result_index_update(ev, i as int, s, v, t, 0);
                            lemma_result_index_range(ev, t, 0);
                        }
                    }
                }
            },
            None => {
                self.entries.push((source, result));
                proof {
                    assert(results_view(self.entries@) =~= ev.push((s, v)));
                    assert(self.view() =~= old_view.insert(s, v)) by {
                        assert forall|t: Seq<char>| #[trigger] self.view().contains_key(t) == old_view.insert(s, v).contains_key(t) by {
                            lemma_result_index_push(ev, s, v, t, 0);
                        }
                        assert forall|t: Seq<char>| self.view().contains_key(t) implies #[trigger] self.view()[t] == old_view.insert(s, v)[t] by {
                            lemma_result_index_push(ev, s, v, t, 0);
                            lemma_result_index_range(ev, t, 0);
                        }
                    }
                }
            },
        }
    }
}

/// The formats that succeeded, in order, each with its CID: `outcomes`
/// pairs each requested format with its CID or the reason it failed.
pub open spec fn successes_spec<F>(outcomes: Seq<(F, Result<String, String>)>) -> Seq<(F, String)>
    decreases outcomes.len(),
{
    if outcomes.len() == 0 {
        Seq::empty()
    } else {
        let rest = successes_spec(outcomes.drop_last());
        match outcomes.last().1 {
            Ok(cid) => rest.push((outcomes.last().0, cid)),
            Err(_) => rest,
        }
    }
}

/// The list a finished task records: the formats that succeeded, in the
/// order they were requested, each with its CID; failed formats are left
/// out.
pub fn transcoded_formats<F>(outcomes: Vec<(F, Result<String, String>)>) -> (r: Vec<(F, String)>)
    ensures
        r@ == successes_spec(outcomes@),
{
    let ghost all = outcomes@;
    let n = outcomes.len();
    let mut rest = outcomes;
    let mut out: Vec<(F, String)> = Vec::new();
    let mut taken: usize = 0;
    proof {
        assert(all.subrange(0, 0) =~= Seq::<(F, Result<String, String>)>::empty());
        assert(all.subrange(0, all.len() as int) =~= all);
    }
    while rest.len() > 0
        invariant
            taken <= all.len(),
            all.len() == n,
            rest@ == all.subrange(taken as int, all.len() as int),
            out@ == successes_spec(all.subrange(0, taken as int)),
        decreases rest@.len(),
    {
        let (f, res) = rest.remove(0);
        proof {
            assert(all.subrange(0, taken + 1).drop_last() =~= all.subrange(0, taken as int));
            assert(all.subrange(0, taken + 1).last() == all[taken as int]);
            assert(all[taken as int] == (f, res));
            assert(all.subrange(taken + 1, all.len() as int) =~= all.subrange(taken as int, all.len() as int).drop_first());
        }
        match res {
            Ok(cid) => out.push((f, cid)),
            Err(_) => {},
        }
        taken = taken + 1;
    }
    proof {
        assert(all.subrange(0, taken as int) =~= all);
    }
    out
}

} // verus!
