//! Which novels have a task running, and what becomes of automatic runs.
use vstd::prelude::*;
use crate::assoc::{
    assoc_map, has_key, keys_differ, lemma_assoc_insert, lemma_assoc_remove, lemma_assoc_update,
    lemma_value_of,
};
use crate::domain::opt_text;
use crate::text::{holds_text, lemma_views_push, same_text, views};

verus! {

// ---- running tasks --------------------------------------------------------------------------
/// A task that is running, with the profiles it uses.
#[derive(Debug)]
pub struct ActiveTask {
    pub job_type: String,
    pub profile_ids: Vec<String>,
}

pub struct ActiveTaskView {
    pub job_type: Seq<char>,
    pub profile_ids: Set<Seq<char>>,
}

impl View for ActiveTask {
    type V = ActiveTaskView;

    open spec fn view(&self) -> ActiveTaskView {
        ActiveTaskView {
            job_type: self.job_type@,
            profile_ids: views(self.profile_ids@).to_set(),
        }
    }
}

/// The running tasks, at most one for each novel.
pub struct ActiveTaskRegistry {
    tasks: Vec<(String, ActiveTask)>,
}

/// The right to run a task on a novel, by the identifier of the novel. A registry gives it out.
pub struct ActiveTaskPermit {
    novel_id: String,
}

impl View for ActiveTaskPermit {
    type V = Seq<char>;

    closed spec fn view(&self) -> Seq<char> {
        self.novel_id@
    }
}

impl View for ActiveTaskRegistry {
    type V = Map<Seq<char>, ActiveTaskView>;

    closed spec fn view(&self) -> Map<Seq<char>, ActiveTaskView> {
        assoc_map(views(self.tasks@))
    }
}

/// What is said to one who wants to run a second task on a novel.
pub open spec fn busy_message(job_type: Seq<char>) -> Seq<char> {
    "《当前小说》已有"@ + job_type + "任务正在运行，请等待任务结束或先终止任务。"@
}

impl ActiveTaskRegistry {
    /// No novel has two tasks.
    pub closed spec fn well_formed(&self) -> bool {
        keys_differ(views(self.tasks@))
    }

    pub fn new() -> (r: ActiveTaskRegistry)
        ensures
            r.well_formed(),
            r@ == Map::<Seq<char>, ActiveTaskView>::empty(),
    {
        let tasks: Vec<(String, ActiveTask)> = Vec::new();
        proof {
            assert(assoc_map(views(tasks@)) =~= Map::<Seq<char>, ActiveTaskView>::empty());
        }
        ActiveTaskRegistry { tasks }
    }

    fn find(&self, novel_id: &str) -> (r: Option<usize>)
        ensures
            match r {
                Some(i) => i < self.tasks@.len() && self.tasks@[i as int].0@ == novel_id@,
                None => !has_key(views(self.tasks@), novel_id@),
            },
    {
        let mut i: usize = 0;
        while i < self.tasks.len()
            invariant
                i <= self.tasks@.len(),
                forall|k: int| 0 <= k < i ==> (#[trigger] views(self.tasks@)[k]).0 != novel_id@,
            decreases self.tasks@.len() - i,
        {
            if same_text(self.tasks[i].0.as_str(), novel_id) {
                return Some(i);
            }
            i += 1;
        }
        None
    }

    /// Starts a task on a novel that has none.
    pub fn acquire(&mut self, novel_id: &str, profile_ids: Vec<String>, job_type: &str) -> (r:
        Result<ActiveTaskPermit, String>)
        requires
            old(self).well_formed(),
        ensures
            final(self).well_formed(),
            match r {
                Ok(permit) => !old(self)@.contains_key(novel_id@) && permit@ == novel_id@
                    && final(self)@ == old(self)@.insert(
                    novel_id@,
                    (ActiveTaskView {
                        job_type: job_type@,
                        profile_ids: views(profile_ids@).to_set(),
                    }),
                ),
                Err(m) => old(self)@.contains_key(novel_id@) && m@ == busy_message(
                    old(self)@[novel_id@].job_type,
                ) && final(self)@ == old(self)@,
            },
    {
        if let Some(i) = self.find(novel_id) {
            proof {
                lemma_value_of(views(self.tasks@), i as int);
            }
            let mut m = "《当前小说》已有".to_string();
            m.append(self.tasks[i].1.job_type.as_str());
            m.append("任务正在运行，请等待任务结束或先终止任务。");
            return Err(m);
        }
        let task = ActiveTask { job_type: job_type.to_string(), profile_ids };
        let ghost before = self.tasks@;
        let ghost added = task@;
        proof {
            lemma_assoc_insert(views(before), before.len() as int, novel_id@, added);
            assert(views(before).insert(before.len() as int, (novel_id@, added)) =~= views(
                before,
            ).push((novel_id@, added)));
            assert forall|x: (String, ActiveTask)|
                x.0@ == novel_id@ && x.1@ == added implies views(#[trigger] before.push(x))
                == views(before).push((novel_id@, added)) by {
                lemma_views_push(before, x);
            }
        }
        self.tasks.push((novel_id.to_string(), task));
        Ok(ActiveTaskPermit { novel_id: novel_id.to_string() })
    }

    /// Ends a task.
    pub fn release(&mut self, permit: ActiveTaskPermit)
        requires
            old(self).well_formed(),
        ensures
            final(self).well_formed(),
            final(self)@ == old(self)@.remove(permit@),
    {
        match self.find(permit.novel_id.as_str()) {
            Some(i) => {
                proof {
                    lemma_assoc_remove(views(self.tasks@), i as int);
                    assert(views(self.tasks@.remove(i as int)) =~= views(self.tasks@).remove(
                        i as int,
                    ));
                }
                self.tasks.remove(i);
            },
            None => {
                proof {
                    assert(self@.remove(permit.novel_id@) =~= self@);
                }
            },
        }
    }

    pub fn novel_is_active(&self, novel_id: &str) -> (r: bool)
        requires
            self.well_formed(),
        ensures
            r == self@.contains_key(novel_id@),
    {
        match self.find(novel_id) {
            Some(i) => {
                proof {
                    lemma_value_of(views(self.tasks@), i as int);
                }
                true
            },
            None => false,
        }
    }

    pub fn novel_active_job_type(&self, novel_id: &str) -> (r: Option<String>)
        requires
            self.well_formed(),
        ensures
            opt_text(r) == if self@.contains_key(novel_id@) {
                Some(self@[novel_id@].job_type)
            } else {
                None
            },
    {
        match self.find(novel_id) {
            Some(i) => {
                proof {
                    lemma_value_of(views(self.tasks@), i as int);
                }
                Some(self.tasks[i].1.job_type.clone())
            },
            None => None,
        }
    }

    pub fn profile_is_active(&self, profile_id: &str) -> (r: bool)
        requires
            self.well_formed(),
        ensures
            r == exists|novel_id: Seq<char>| #[trigger]
                self@.contains_key(novel_id) && self@[novel_id].profile_ids.contains(profile_id@),
    {
        let ghost all = views(self.tasks@);
        let mut i: usize = 0;
        while i < self.tasks.len()
            invariant
                i <= self.tasks@.len(),
                all == views(self.tasks@),
                keys_differ(all),
                forall|k: int|
                    0 <= k < i ==> !(#[trigger] all[k]).1.profile_ids.contains(profile_id@),
            decreases self.tasks@.len() - i,
        {
            proof {
                assert(all[i as int] == self.tasks@[i as int]@);
            }
            if holds_text(self.tasks[i].1.profile_ids.as_slice(), profile_id) {
                proof {
                    lemma_value_of(all, i as int);
                    assert(self@.contains_key(all[i as int].0));
                }
                return true;
            }
            i += 1;
        }
        proof {
            assert forall|novel_id: Seq<char>| #[trigger] self@.contains_key(novel_id) implies !self@[
            novel_id].profile_ids.contains(profile_id@) by {
                let k = choose|k: int| 0 <= k < all.len() && (#[trigger] all[k]).0 == novel_id;
                lemma_value_of(all, k);
            }
        }
        false
    }

    pub fn any_active(&self) -> (r: bool)
        requires
            self.well_formed(),
        ensures
            r == (self@ != Map::<Seq<char>, ActiveTaskView>::empty()),
    {
        proof {
            if self.tasks@.len() > 0 {
                lemma_value_of(views(self.tasks@), 0);
                assert(!Map::<Seq<char>, ActiveTaskView>::empty().contains_key(
                    views(self.tasks@)[0].0,
                ));
            } else {
                assert(self@ =~= Map::<Seq<char>, ActiveTaskView>::empty());
            }
        }
        self.tasks.len() > 0
    }
}

// ---- tasks that can be cancelled ------------------------------------------------------------
/// Running tasks that can be cancelled, at most one for each novel, with whether they are to stop.
pub struct CancellableTasks {
    tasks: Vec<(String, bool)>,
}

impl View for CancellableTasks {
    type V = Map<Seq<char>, bool>;

    closed spec fn view(&self) -> Map<Seq<char>, bool> {
        assoc_map(views(self.tasks@))
    }
}

impl CancellableTasks {
    /// No novel has two tasks.
    pub closed spec fn well_formed(&self) -> bool {
        keys_differ(views(self.tasks@))
    }

    pub fn new() -> (r: CancellableTasks)
        ensures
            r.well_formed(),
            r@ == Map::<Seq<char>, bool>::empty(),
    {
        let tasks: Vec<(String, bool)> = Vec::new();
        proof {
            assert(assoc_map(views(tasks@)) =~= Map::<Seq<char>, bool>::empty());
        }
        CancellableTasks { tasks }
    }

    fn find(&self, novel_id: &str) -> (r: Option<usize>)
        ensures
            match r {
                Some(i) => i < self.tasks@.len() && self.tasks@[i as int].0@ == novel_id@,
                None => !has_key(views(self.tasks@), novel_id@),
            },
    {
        let mut i: usize = 0;
        while i < self.tasks.len()
            invariant
                i <= self.tasks@.len(),
                forall|k: int| 0 <= k < i ==> (#[trigger] views(self.tasks@)[k]).0 != novel_id@,
            decreases self.tasks@.len() - i,
        {
            if same_text(self.tasks[i].0.as_str(), novel_id) {
                return Some(i);
            }
            i += 1;
        }
        None
    }

    /// Enters a task of a novel that has none.
    pub fn register(&mut self, novel_id: &str) -> (r: Result<(), String>)
        requires
            old(self).well_formed(),
        ensures
            final(self).well_formed(),
            match r {
                Ok(_) => !old(self)@.contains_key(novel_id@) && final(self)@ == old(self)@.insert(
                    novel_id@,
                    false,
                ),
                Err(m) => old(self)@.contains_key(novel_id@) && final(self)@ == old(self)@ && m@
                    == "当前小说已有可终止任务正在运行。"@,
            },
    {
        if let Some(i) = self.find(novel_id) {
            proof {
                lemma_value_of(views(self.tasks@), i as int);
            }
            return Err("当前小说已有可终止任务正在运行。".to_string());
        }
        let ghost before = self.tasks@;
        proof {
            lemma_assoc_insert(views(before), before.len() as int, novel_id@, false);
            assert(views(before).insert(before.len() as int, (novel_id@, false)) =~= views(
                before,
            ).push((novel_id@, false)));
            assert forall|x: (String, bool)| x.0@ == novel_id@ && !x.1 implies views(
                #[trigger] before.push(x),
            ) == views(before).push((novel_id@, false)) by {
                lemma_views_push(before, x);
            }
        }
        self.tasks.push((novel_id.to_string(), false));
        Ok(())
    }

    /// Tells the task of a novel to stop; says whether there is one.
    pub fn cancel(&mut self, novel_id: &str) -> (r: bool)
        requires
            old(self).well_formed(),
        ensures
            final(self).well_formed(),
            r == old(self)@.contains_key(novel_id@),
            final(self)@ == if r {
                old(self)@.insert(novel_id@, true)
            } else {
                old(self)@
            },
    {
        match self.find(novel_id) {
            Some(i) => {
                let ghost before = self.tasks@;
                proof {
                    lemma_value_of(views(before), i as int);
                    lemma_assoc_update(views(before), i as int, true);
                    assert forall|x: (String, bool)| x.0@ == novel_id@ && x.1 implies views(
                        #[trigger] before.update(i as int, x),
                    ) == views(before).update(i as int, (novel_id@, true)) by {
                        assert(views(before.update(i as int, x)) =~= views(before).update(
                            i as int,
                            (novel_id@, true),
                        ));
                    }
                }
                self.tasks.set(i, (novel_id.to_string(), true));
                true
            },
            None => false,
        }
    }

    /// Whether the task of a novel is to stop.
    pub fn is_cancelled(&self, novel_id: &str) -> (r: bool)
        requires
            self.well_formed(),
        ensures
            r == (self@.contains_key(novel_id@) && self@[novel_id@]),
    {
        match self.find(novel_id) {
            Some(i) => {
                proof {
                    lemma_value_of(views(self.tasks@), i as int);
                }
                self.tasks[i].1
            },
            None => false,
        }
    }

    /// Ends the task of a novel.
    pub fn release(&mut self, novel_id: &str)
        requires
            old(self).well_formed(),
        ensures
            final(self).well_formed(),
            final(self)@ == old(self)@.remove(novel_id@),
    {
        match self.find(novel_id) {
            Some(i) => {
                proof {
                    lemma_assoc_remove(views(self.tasks@), i as int);
                    assert(views(self.tasks@.remove(i as int)) =~= views(self.tasks@).remove(
                        i as int,
                    ));
                }
                self.tasks.remove(i);
            },
            None => {
                proof {
                    assert(self@.remove(novel_id@) =~= self@);
                }
            },
        }
    }

    pub fn any_active(&self) -> (r: bool)
        requires
            self.well_formed(),
        ensures
            r == (self@ != Map::<Seq<char>, bool>::empty()),
    {
        proof {
            if self.tasks@.len() > 0 {
                lemma_value_of(views(self.tasks@), 0);
                assert(!Map::<Seq<char>, bool>::empty().contains_key(views(self.tasks@)[0].0));
            } else {
                assert(self@ =~= Map::<Seq<char>, bool>::empty());
            }
        }
        self.tasks.len() > 0
    }
}

// ---- automatic runs -------------------------------------------------------------------------
/// The state of the automatic run of a novel.
#[derive(Debug)]
pub struct AutoRunControl {
    pub status: String,
    pub pause_kind: String,
    pub start_batch_index: i64,
    pub completed_batches: i64,
    pub job_id: Option<String>,
    pub profile_ids: Vec<String>,
    pub recoverable: bool,
}

/// Whether a wish to end a run can be met at once.
pub fn should_terminate_paused_run(current_status: &str, requested_status: &str) -> (r: bool)
    ensures
        r == (current_status@ == "paused"@ && requested_status@ == "terminate_requested"@),
{
    same_text(current_status, "paused") && same_text(requested_status, "terminate_requested")
}

/// Whether a wish to pause a run is met already.
pub fn should_hold_paused_run(current_status: &str, requested_status: &str) -> (r: bool)
    ensures
        r == (current_status@ == "paused"@ && requested_status@ == "pause_requested"@),
{
    same_text(current_status, "paused") && same_text(requested_status, "pause_requested")
}

/// Whether all runs are paused.
pub open spec fn all_paused(runs: Seq<AutoRunControl>) -> bool {
    forall|i: int| 0 <= i < runs.len() ==> (#[trigger] runs[i]).status@ == "paused"@
}

pub fn auto_runs_have_non_paused(runs: &[AutoRunControl]) -> (r: bool)
    ensures
        r == !all_paused(runs@),
{
    let mut i: usize = 0;
    while i < runs.len()
        invariant
            i <= runs@.len(),
            forall|k: int| 0 <= k < i ==> (#[trigger] runs@[k]).status@ == "paused"@,
        decreases runs@.len() - i,
    {
        if !same_text(runs[i].status.as_str(), "paused") {
            return true;
        }
        i += 1;
    }
    false
}

pub fn auto_runs_are_only_paused(runs: &[AutoRunControl]) -> (r: bool)
    ensures
        r == (runs@.len() > 0 && all_paused(runs@)),
{
    runs.len() > 0 && !auto_runs_have_non_paused(runs)
}

/// Whether what is kept of a run goes once the run has ended: it stays only where the run was
/// paused.
pub fn should_clean_up(control: Option<&AutoRunControl>) -> (r: bool)
    ensures
        r == match control {
            Some(c) => c.status@ != "paused"@,
            None => true,
        },
{
    match control {
        Some(c) => !same_text(c.status.as_str(), "paused"),
        None => true,
    }
}

// ---- laws -----------------------------------------------------------------------------------
/// A task that ends leaves the running tasks as they were before it began.
pub proof fn law_release_undoes_acquire(
    running: Map<Seq<char>, ActiveTaskView>,
    novel_id: Seq<char>,
    task: ActiveTaskView,
)
    requires
        !running.contains_key(novel_id),
    ensures
        running.insert(novel_id, task).remove(novel_id) == running,
{
    assert(running.insert(novel_id, task).remove(novel_id) =~= running);
}

} // verus!
