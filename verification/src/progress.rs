//! How far a running job has come: its batch, its shards and its chapters.
use vstd::prelude::*;
use crate::assoc::{
    assoc_map, keys_differ, lemma_assoc_insert, lemma_assoc_remove, lemma_assoc_update,
    lemma_value_of,
};
use crate::domain::{copy_option, duplicate_all, opt_text, Chapter, Duplicate};
use crate::shard_context::ids_of;
use crate::task_control::AutoRunControl;
use crate::text::{
    decimal, holds_text, i64_text, join, join_texts, lemma_views_push, same_text, usize_text, views,
};

verus! {

/// What a phase of a job is called.
pub open spec fn phase_name(phase: Seq<char>) -> Seq<char> {
    if phase == "analysis"@ {
        "分析"@
    } else if phase == "planning"@ {
        "规划"@
    } else if phase == "rewrite"@ {
        "改写"@
    } else if phase == "review"@ {
        "审查"@
    } else if phase == "revision"@ {
        "修复"@
    } else if phase == "final_review"@ {
        "终审"@
    } else if phase == "export"@ {
        "导出"@
    } else {
        "处理中"@
    }
}

pub fn phase_label(phase: &str) -> (r: &'static str)
    ensures
        r@ == phase_name(phase@),
{
    if same_text(phase, "analysis") {
        "分析"
    } else if same_text(phase, "planning") {
        "规划"
    } else if same_text(phase, "rewrite") {
        "改写"
    } else if same_text(phase, "review") {
        "审查"
    } else if same_text(phase, "revision") {
        "修复"
    } else if same_text(phase, "final_review") {
        "终审"
    } else if same_text(phase, "export") {
        "导出"
    } else {
        "处理中"
    }
}

// ---- the state of a job ---------------------------------------------------------------------
/// A shard that is being worked on.
#[derive(Debug, PartialEq, Eq)]
pub struct ActiveShardProgress {
    pub index: usize,
    pub total: usize,
    pub start_chapter: i64,
    pub end_chapter: i64,
    pub phase: String,
}

pub struct ActiveShardView {
    pub index: usize,
    pub total: usize,
    pub start_chapter: i64,
    pub end_chapter: i64,
    pub phase: Seq<char>,
}

impl View for ActiveShardProgress {
    type V = ActiveShardView;

    open spec fn view(&self) -> ActiveShardView {
        ActiveShardView {
            index: self.index,
            total: self.total,
            start_chapter: self.start_chapter,
            end_chapter: self.end_chapter,
            phase: self.phase@,
        }
    }
}

impl Duplicate for ActiveShardProgress {
    fn duplicate(&self) -> (r: Self) {
        ActiveShardProgress {
            index: self.index,
            total: self.total,
            start_chapter: self.start_chapter,
            end_chapter: self.end_chapter,
            phase: self.phase.clone(),
        }
    }
}

/// How far a job has come. The shards that are worked on are kept by their places, in order.
#[derive(Debug)]
pub struct AutoRunProgressState {
    pub job_id: Option<String>,
    pub phase: Option<String>,
    pub batch_index: Option<i64>,
    pub batch_total: Option<i64>,
    pub batch_label: Option<String>,
    pub shard_total: usize,
    pub completed_shards: Vec<usize>,
    pub chapter_total: usize,
    pub completed_chapter_ids: Vec<String>,
    pub active_shards: Vec<(usize, ActiveShardProgress)>,
}

#[verifier::ext_equal]
pub struct ProgressView {
    pub job_id: Option<Seq<char>>,
    pub phase: Option<Seq<char>>,
    pub batch_index: Option<i64>,
    pub batch_total: Option<i64>,
    pub batch_label: Option<Seq<char>>,
    pub shard_total: usize,
    pub completed_shards: Set<usize>,
    pub chapter_total: usize,
    pub completed_chapter_ids: Set<Seq<char>>,
    pub active_shards: Map<usize, ActiveShardView>,
}

impl View for AutoRunProgressState {
    type V = ProgressView;

    open spec fn view(&self) -> ProgressView {
        ProgressView {
            job_id: opt_text(self.job_id),
            phase: opt_text(self.phase),
            batch_index: self.batch_index,
            batch_total: self.batch_total,
            batch_label: opt_text(self.batch_label),
            shard_total: self.shard_total,
            completed_shards: self.completed_shards@.to_set(),
            chapter_total: self.chapter_total,
            completed_chapter_ids: views(self.completed_chapter_ids@).to_set(),
            active_shards: assoc_map(views(self.active_shards@)),
        }
    }
}

fn copy_places(v: &[usize]) -> (r: Vec<usize>)
    ensures
        r@ == v@,
{
    let mut out: Vec<usize> = Vec::new();
    let mut i: usize = 0;
    while i < v.len()
        invariant
            i <= v@.len(),
            out@ == v@.take(i as int),
        decreases v@.len() - i,
    {
        out.push(v[i]);
        i += 1;
    }
    out
}

fn copy_shards(v: &[(usize, ActiveShardProgress)]) -> (r: Vec<(usize, ActiveShardProgress)>)
    ensures
        views(r@) == views(v@),
{
    let mut out: Vec<(usize, ActiveShardProgress)> = Vec::new();
    let mut i: usize = 0;
    while i < v.len()
        invariant
            i <= v@.len(),
            views(out@) == views(v@).take(i as int),
        decreases v@.len() - i,
    {
        let ghost before = out@;
        out.push((v[i].0, v[i].1.duplicate()));
        proof {
            lemma_views_push(before, out@.last());
            assert(views(out@) =~= views(v@).take(i + 1));
        }
        i += 1;
    }
    proof {
        assert(views(v@).take(i as int) =~= views(v@));
    }
    out
}

impl Clone for AutoRunProgressState {
    fn clone(&self) -> (r: Self)
        ensures
            r@ == self@,
            self.well_formed() ==> r.well_formed(),
    {
        AutoRunProgressState {
            job_id: copy_option(&self.job_id),
            phase: copy_option(&self.phase),
            batch_index: self.batch_index,
            batch_total: self.batch_total,
            batch_label: copy_option(&self.batch_label),
            shard_total: self.shard_total,
            completed_shards: copy_places(self.completed_shards.as_slice()),
            chapter_total: self.chapter_total,
            completed_chapter_ids: duplicate_all(self.completed_chapter_ids.as_slice()),
            active_shards: copy_shards(self.active_shards.as_slice()),
        }
    }
}

/// Nothing done and nothing begun.
pub open spec fn no_progress() -> ProgressView {
    ProgressView {
        job_id: None,
        phase: None,
        batch_index: None,
        batch_total: None,
        batch_label: None,
        shard_total: 0,
        completed_shards: Set::empty(),
        chapter_total: 0,
        completed_chapter_ids: Set::empty(),
        active_shards: Map::empty(),
    }
}

/// Whether the places of the shards ascend.
pub open spec fn places_ascend(s: Seq<(usize, ActiveShardView)>) -> bool {
    forall|i: int, j: int| 0 <= i < j < s.len() ==> (#[trigger] s[i]).0 < (#[trigger] s[j]).0
}

/// The shard between two chapters with the lowest place.
pub open spec fn is_shard_between(
    shards: Map<usize, ActiveShardView>,
    place: usize,
    start: i64,
    end: i64,
) -> bool {
    &&& shards.contains_key(place)
    &&& shards[place].start_chapter == start && shards[place].end_chapter == end
    &&& forall|other: usize| #[trigger]
        shards.contains_key(other) && other < place ==> !(shards[other].start_chapter == start
            && shards[other].end_chapter == end)
}

pub open spec fn no_shard_between(
    shards: Map<usize, ActiveShardView>,
    start: i64,
    end: i64,
) -> bool {
    forall|other: usize| #[trigger]
        shards.contains_key(other) ==> !(shards[other].start_chapter == start
            && shards[other].end_chapter == end)
}

proof fn lemma_ascending_keys_differ(s: Seq<(usize, ActiveShardView)>)
    requires
        places_ascend(s),
    ensures
        keys_differ(s),
{
    assert forall|i: int, j: int| 0 <= i < j < s.len() implies (#[trigger] s[i]).0 != (
    #[trigger] s[j]).0 by {}
}

impl AutoRunProgressState {
    /// Nothing is listed as completed twice, and the shards stand in order.
    pub open spec fn well_formed(&self) -> bool {
        &&& self.completed_shards@.no_duplicates()
        &&& views(self.completed_chapter_ids@).no_duplicates()
        &&& places_ascend(views(self.active_shards@))
    }

    pub fn new() -> (r: AutoRunProgressState)
        ensures
            r.well_formed(),
            r@ == no_progress(),
    {
        let r = AutoRunProgressState {
            job_id: None,
            phase: None,
            batch_index: None,
            batch_total: None,
            batch_label: None,
            shard_total: 0,
            completed_shards: Vec::new(),
            chapter_total: 0,
            completed_chapter_ids: Vec::new(),
            active_shards: Vec::new(),
        };
        proof {
            assert(r@.completed_shards =~= Set::empty());
            assert(r@.completed_chapter_ids =~= Set::empty());
            assert(r@.active_shards =~= Map::empty());
            assert(r@ =~= no_progress());
        }
        r
    }

    /// The beginning of a batch of an automatic run.
    pub fn begin_auto_batch(
        job_id: Option<String>,
        phase: &str,
        batch_index: i64,
        batch_total: i64,
        batch_label: &str,
    ) -> (r: AutoRunProgressState)
        ensures
            r.well_formed(),
            r@ == (ProgressView {
                job_id: opt_text(job_id),
                phase: Some(phase@),
                batch_index: Some(batch_index),
                batch_total: Some(batch_total),
                batch_label: Some(batch_label@),
                ..no_progress()
            }),
    {
        let mut r = AutoRunProgressState::new();
        r.job_id = job_id;
        r.phase = Some(phase.to_string());
        r.batch_index = Some(batch_index);
        r.batch_total = Some(batch_total);
        r.batch_label = Some(batch_label.to_string());
        r
    }

    /// The beginning of a job of its own: the one batch of one.
    pub fn begin_job(job_id: &str, phase: &str, batch_label: &str) -> (r: AutoRunProgressState)
        ensures
            r.well_formed(),
            r@ == (ProgressView {
                job_id: Some(job_id@),
                phase: Some(phase@),
                batch_index: Some(1),
                batch_total: Some(1),
                batch_label: Some(batch_label@),
                ..no_progress()
            }),
    {
        AutoRunProgressState::begin_auto_batch(Some(job_id.to_string()), phase, 1, 1, batch_label)
    }

    /// Whether this is the state of a job.
    pub fn belongs_to(&self, job_id: &str) -> (r: bool)
        ensures
            r == (self@.job_id == Some(job_id@)),
    {
        match &self.job_id {
            Some(id) => same_text(id.as_str(), job_id),
            None => false,
        }
    }

    /// The shards and chapters of a phase are known; none of the shards has begun. Without a state
    /// one begins where the novel has an automatic run with a job.
    pub fn set_shard_total(
        entry: Option<AutoRunProgressState>,
        auto_job_id: Option<String>,
        phase: &str,
        shard_total: usize,
        chapter_total: usize,
        completed_chapter_ids: Vec<String>,
    ) -> (r: Option<AutoRunProgressState>)
        requires
            entry matches Some(e) ==> e.well_formed(),
            views(completed_chapter_ids@).no_duplicates(),
        ensures
            r is None <==> entry is None && auto_job_id is None,
            r matches Some(s) ==> s.well_formed() && s@ == (ProgressView {
                job_id: match entry {
                    Some(e) if e.job_id is Some => opt_text(e.job_id),
                    _ => opt_text(auto_job_id),
                },
                phase: Some(phase@),
                shard_total,
                completed_shards: Set::empty(),
                chapter_total,
                completed_chapter_ids: views(completed_chapter_ids@).to_set(),
                active_shards: Map::empty(),
                ..match entry {
                    Some(e) => e@,
                    None => no_progress(),
                }
            }),
    {
        let mut state = match entry {
            Some(e) => e,
            None => {
                if auto_job_id.is_none() {
                    return None;
                }
                AutoRunProgressState::new()
            },
        };
        if state.job_id.is_none() {
            state.job_id = auto_job_id;
        }
        state.phase = Some(phase.to_string());
        state.shard_total = shard_total;
        state.completed_shards = Vec::new();
        state.chapter_total = chapter_total;
        state.completed_chapter_ids = completed_chapter_ids;
        state.active_shards = Vec::new();
        proof {
            assert(state@.completed_shards =~= Set::empty());
            assert(state@.active_shards =~= Map::empty());
        }
        Some(state)
    }

    fn place_of(&self, shard_index: usize) -> (r: usize)
        requires
            self.well_formed(),
        ensures
            r <= self.active_shards@.len(),
            forall|k: int| 0 <= k < r ==> (#[trigger] views(self.active_shards@)[k]).0 < shard_index,
            r < self.active_shards@.len() ==> views(self.active_shards@)[r as int].0 >= shard_index,
    {
        let mut i: usize = 0;
        while i < self.active_shards.len() && self.active_shards[i].0 < shard_index
            invariant
                i <= self.active_shards@.len(),
                forall|k: int|
                    0 <= k < i ==> (#[trigger] views(self.active_shards@)[k]).0 < shard_index,
            decreases self.active_shards@.len() - i,
        {
            i += 1;
        }
        i
    }

    /// A shard begins.
    pub fn report_shard_started(
        &mut self,
        phase: &str,
        shard_index: usize,
        shard_total: usize,
        shard: &[Chapter],
    )
        requires
            old(self).well_formed(),
            shard_index < usize::MAX,
        ensures
            final(self).well_formed(),
            final(self)@ == if shard@.len() == 0 {
                old(self)@
            } else {
                ProgressView {
                    phase: Some(phase@),
                    shard_total,
                    active_shards: old(self)@.active_shards.insert(
                        shard_index,
                        ActiveShardView {
                            index: (shard_index + 1) as usize,
                            total: shard_total,
                            start_chapter: views(shard@)[0].index,
                            end_chapter: views(shard@).last().index,
                            phase: phase@,
                        },
                    ),
                    ..old(self)@
                }
            },
    {
        if shard.len() == 0 {
            return;
        }
        let entry = ActiveShardProgress {
            index: shard_index + 1,
            total: shard_total,
            start_chapter: shard[0].index,
            end_chapter: shard[shard.len() - 1].index,
            phase: phase.to_string(),
        };
        let ghost added = entry@;
        let ghost before = self.active_shards@;
        let ghost list = views(before);
        let at = self.place_of(shard_index);
        proof {
            lemma_ascending_keys_differ(list);
        }
        if at < self.active_shards.len() && self.active_shards[at].0 == shard_index {
            proof {
                lemma_assoc_update(list, at as int, added);
                assert forall|x: (usize, ActiveShardProgress)|
                    x.0 == shard_index && x.1@ == added implies views(
                    #[trigger] before.update(at as int, x),
                ) == list.update(at as int, (shard_index, added)) by {
                    assert(views(before.update(at as int, x)) =~= list.update(
                        at as int,
                        (shard_index, added),
                    ));
                }
            }
            self.active_shards.set(at, (shard_index, entry));
        } else {
            proof {
                assert forall|k: int| 0 <= k < list.len() implies (#[trigger] list[k]).0
                    != shard_index by {
                    if k > at {
                        assert(list[at as int].0 < list[k].0);
                    }
                }
                lemma_assoc_insert(list, at as int, shard_index, added);
                assert forall|x: (usize, ActiveShardProgress)|
                    x.0 == shard_index && x.1@ == added implies views(
                    #[trigger] before.insert(at as int, x),
                ) == list.insert(at as int, (shard_index, added)) by {
                    assert(views(before.insert(at as int, x)) =~= list.insert(
                        at as int,
                        (shard_index, added),
                    ));
                }
                let next = list.insert(at as int, (shard_index, added));
                assert forall|i: int, j: int| 0 <= i < j < next.len() implies (
                #[trigger] next[i]).0 < (#[trigger] next[j]).0 by {
                    let a = if i < at {
                        i
                    } else {
                        i - 1
                    };
                    let b = if j < at {
                        j
                    } else {
                        j - 1
                    };
                    if i == at {
                        assert(next[j] == list[b]);
                        if b > at {
                            assert(list[at as int].0 < list[b].0);
                        }
                    } else if j == at {
                        assert(next[i] == list[a]);
                    } else {
                        assert(next[i] == list[a] && next[j] == list[b]);
                    }
                }
            }
            self.active_shards.insert(at, (shard_index, entry));
        }
        self.phase = Some(phase.to_string());
        self.shard_total = shard_total;
    }

    fn set_phase_at(&mut self, at: usize, phase: &str)
        requires
            old(self).well_formed(),
            at < old(self).active_shards@.len(),
        ensures
            final(self).well_formed(),
            final(self)@ == (ProgressView {
                active_shards: old(self)@.active_shards.insert(
                    old(self).active_shards@[at as int].0,
                    (ActiveShardView {
                        phase: phase@,
                        ..old(self)@.active_shards[old(self).active_shards@[at as int].0]
                    }),
                ),
                ..old(self)@
            }),
    {
        let ghost before = self.active_shards@;
        let ghost list = views(before);
        let place = self.active_shards[at].0;
        let mut entry = self.active_shards[at].1.duplicate();
        entry.phase = phase.to_string();
        let ghost added = entry@;
        proof {
            lemma_ascending_keys_differ(list);
            lemma_value_of(list, at as int);
            lemma_assoc_update(list, at as int, added);
            assert forall|x: (usize, ActiveShardProgress)|
                x.0 == place && x.1@ == added implies views(#[trigger] before.update(at as int, x))
                == list.update(at as int, (place, added)) by {
                assert(views(before.update(at as int, x)) =~= list.update(
                    at as int,
                    (place, added),
                ));
            }
            let next = list.update(at as int, (place, added));
            assert forall|i: int, j: int| 0 <= i < j < next.len() implies (#[trigger] next[i]).0 < (
            #[trigger] next[j]).0 by {
                assert(next[i].0 == list[i].0 && next[j].0 == list[j].0);
            }
        }
        self.active_shards.set(at, (place, entry));
    }

    /// A shard comes into a phase.
    pub fn report_shard_phase(&mut self, shard_index: usize, phase: &str)
        requires
            old(self).well_formed(),
        ensures
            final(self).well_formed(),
            final(self)@ == (ProgressView {
                phase: Some(phase@),
                active_shards: if old(self)@.active_shards.contains_key(shard_index) {
                    old(self)@.active_shards.insert(
                        shard_index,
                        ActiveShardView {
                            phase: phase@,
                            ..old(self)@.active_shards[shard_index]
                        },
                    )
                } else {
                    old(self)@.active_shards
                },
                ..old(self)@
            }),
    {
        let ghost list = views(self.active_shards@);
        let at = self.place_of(shard_index);
        proof {
            lemma_ascending_keys_differ(list);
        }
        if at < self.active_shards.len() && self.active_shards[at].0 == shard_index {
            proof {
                lemma_value_of(list, at as int);
            }
            self.set_phase_at(at, phase);
        } else {
            proof {
                assert forall|k: int| 0 <= k < list.len() implies (#[trigger] list[k]).0
                    != shard_index by {
                    if k > at {
                        assert(list[at as int].0 < list[k].0);
                    }
                }
            }
        }
        self.phase = Some(phase.to_string());
    }

    /// The shard between the first and the last of some chapters comes into a phase.
    pub fn report_shard_phase_for_chapters(&mut self, chapters: &[Chapter], phase: &str)
        requires
            old(self).well_formed(),
        ensures
            final(self).well_formed(),
            chapters@.len() == 0 ==> final(self)@ == old(self)@,
            chapters@.len() > 0 ==> ({
                let start = views(chapters@)[0].index;
                let end = views(chapters@).last().index;
                let shards = old(self)@.active_shards;
                &&& no_shard_between(shards, start, end) ==> final(self)@ == (ProgressView {
                    phase: Some(phase@),
                    ..old(self)@
                })
                &&& forall|place: usize| #[trigger]
                    is_shard_between(shards, place, start, end) ==> final(self)@ == (ProgressView {
                        phase: Some(phase@),
                        active_shards: shards.insert(
                            place,
                            ActiveShardView { phase: phase@, ..shards[place] },
                        ),
                        ..old(self)@
                    })
            }),
    {
        if chapters.len() == 0 {
            return;
        }
        let start = chapters[0].index;
        let end = chapters[chapters.len() - 1].index;
        let ghost list = views(self.active_shards@);
        let ghost shards = self@.active_shards;
        proof {
            lemma_ascending_keys_differ(list);
        }
        let mut i: usize = 0;
        while i < self.active_shards.len() && !(self.active_shards[i].1.start_chapter == start
            && self.active_shards[i].1.end_chapter == end)
            invariant
                i <= self.active_shards@.len(),
                *self == *old(self),
                list == views(self.active_shards@),
                forall|k: int|
                    0 <= k < i ==> !((#[trigger] list[k]).1.start_chapter == start
                        && list[k].1.end_chapter == end),
            decreases self.active_shards@.len() - i,
        {
            i += 1;
        }
        let found = i < self.active_shards.len();
        proof {
            if found {
                lemma_value_of(list, i as int);
                let here = list[i as int].0;
                assert(list[i as int].1.start_chapter == start && list[i as int].1.end_chapter
                    == end);
                assert forall|place: usize| #[trigger]
                    is_shard_between(shards, place, start, end) implies place == here by {
                    let k = choose|k: int| 0 <= k < list.len() && (#[trigger] list[k]).0 == place;
                    lemma_value_of(list, k);
                    if k > i {
                        assert(list[i as int].0 < list[k].0);
                        assert(shards.contains_key(here));
                    }
                }
                assert(shards.contains_key(here));
            } else {
                assert forall|place: usize| #[trigger]
                    is_shard_between(shards, place, start, end) implies false by {
                    let k = choose|k: int| 0 <= k < list.len() && (#[trigger] list[k]).0 == place;
                    lemma_value_of(list, k);
                }
            }
        }
        if found {
            self.set_phase_at(i, phase);
        }
        self.phase = Some(phase.to_string());
    }

    /// A shard is completed, and its chapters with it.
    pub fn report_shard_completed(&mut self, shard_index: usize, chapters: &[Chapter])
        requires
            old(self).well_formed(),
        ensures
            final(self).well_formed(),
            final(self)@ == (ProgressView {
                active_shards: old(self)@.active_shards.remove(shard_index),
                completed_shards: old(self)@.completed_shards.insert(shard_index),
                completed_chapter_ids: old(self)@.completed_chapter_ids.union(
                    ids_of(views(chapters@)).to_set(),
                ),
                ..old(self)@
            }),
    {
        let ghost list = views(self.active_shards@);
        let at = self.place_of(shard_index);
        proof {
            lemma_ascending_keys_differ(list);
        }
        if at < self.active_shards.len() && self.active_shards[at].0 == shard_index {
            proof {
                lemma_assoc_remove(list, at as int);
                assert(views(self.active_shards@.remove(at as int)) =~= list.remove(at as int));
                let next = list.remove(at as int);
                assert forall|i: int, j: int| 0 <= i < j < next.len() implies (
                #[trigger] next[i]).0 < (#[trigger] next[j]).0 by {
                    let a = if i < at {
                        i
                    } else {
                        i + 1
                    };
                    let b = if j < at {
                        j
                    } else {
                        j + 1
                    };
                    assert(next[i] == list[a] && next[j] == list[b]);
                }
            }
            self.active_shards.remove(at);
        } else {
            proof {
                assert forall|k: int| 0 <= k < list.len() implies (#[trigger] list[k]).0
                    != shard_index by {
                    if k > at {
                        assert(list[at as int].0 < list[k].0);
                    }
                }
                assert(!assoc_map(list).contains_key(shard_index));
                assert(assoc_map(list).remove(shard_index) =~= assoc_map(list));
            }
        }
        add_place(&mut self.completed_shards, shard_index);
        add_ids(&mut self.completed_chapter_ids, chapters);
        proof {
            assert(self@ =~= ProgressView {
                active_shards: old(self)@.active_shards.remove(shard_index),
                completed_shards: old(self)@.completed_shards.insert(shard_index),
                completed_chapter_ids: old(self)@.completed_chapter_ids.union(
                    ids_of(views(chapters@)).to_set(),
                ),
                ..old(self)@
            });
        }
    }
}

fn add_place(list: &mut Vec<usize>, place: usize)
    requires
        old(list)@.no_duplicates(),
    ensures
        final(list)@.no_duplicates(),
        final(list)@.to_set() == old(list)@.to_set().insert(place),
{
    let ghost before = list@;
    let mut i: usize = 0;
    while i < list.len()
        invariant
            i <= list@.len(),
            list@ == before,
            before == old(list)@,
            before.no_duplicates(),
            forall|k: int| 0 <= k < i ==> #[trigger] list@[k] != place,
        decreases list@.len() - i,
    {
        if list[i] == place {
            proof {
                assert(before.contains(place));
                assert(before.to_set().insert(place) =~= before.to_set());
            }
            return;
        }
        i += 1;
    }
    list.push(place);
    proof {
        before.lemma_push_to_set_commute(place);
    }
}

fn add_ids(ids: &mut Vec<String>, chapters: &[Chapter])
    requires
        views(old(ids)@).no_duplicates(),
    ensures
        views(final(ids)@).no_duplicates(),
        views(final(ids)@).to_set() == views(old(ids)@).to_set().union(
            ids_of(views(chapters@)).to_set(),
        ),
{
    let ghost start = views(ids@).to_set();
    let ghost all = ids_of(views(chapters@));
    let mut i: usize = 0;
    proof {
        assert(views(ids@).to_set() =~= start.union(all.take(0).to_set()));
    }
    while i < chapters.len()
        invariant
            i <= chapters@.len(),
            all == ids_of(views(chapters@)),
            views(ids@).no_duplicates(),
            views(ids@).to_set() == start.union(all.take(i as int).to_set()),
        decreases chapters@.len() - i,
    {
        let ghost id = chapters@[i as int].id@;
        let ghost before = ids@;
        proof {
            assert(all[i as int] == id);
            assert(all.take(i + 1) =~= all.take(i as int).push(id));
            all.take(i as int).lemma_push_to_set_commute(id);
        }
        if !holds_text(ids.as_slice(), chapters[i].id.as_str()) {
            ids.push(chapters[i].id.clone());
            proof {
                lemma_views_push(before, ids@.last());
                views(before).lemma_push_to_set_commute(id);
                assert(views(ids@).to_set() =~= start.union(all.take(i + 1).to_set()));
            }
        } else {
            proof {
                assert(views(before).to_set().contains(id));
                assert(views(ids@).to_set() =~= start.union(all.take(i + 1).to_set()));
            }
        }
        i += 1;
    }
    proof {
        assert(all.take(i as int) =~= all);
    }
}

// ---- what is shown of a job -----------------------------------------------------------------
/// A job as it is kept.
#[derive(Debug)]
pub struct Job {
    pub id: String,
    pub novel_id: String,
    pub job_type: String,
    pub status: String,
    pub current_chapter: i64,
    pub total_chapters: i64,
    pub message: String,
    pub created_at: String,
    pub updated_at: String,
}

/// What is shown of a running job.
#[derive(Debug)]
pub struct JobProgress {
    pub id: String,
    pub novel_id: String,
    pub job_type: String,
    pub status: String,
    pub current_chapter: i64,
    pub total_chapters: i64,
    pub message: String,
    pub phase: Option<String>,
    pub batch_index: Option<i64>,
    pub batch_total: Option<i64>,
    pub batch_label: Option<String>,
    pub shard_completed: Option<usize>,
    pub shard_total: Option<usize>,
    pub chapter_completed: Option<usize>,
    pub chapter_total: Option<usize>,
    pub active_shards: Option<Vec<ActiveShardProgress>>,
    pub editable_before_batch_index: Option<i64>,
}

/// The message that goes with a state.
pub open spec fn progress_message(state: ProgressView, job_total: i64) -> Seq<char> {
    let phase = match state.phase {
        Some(p) => p,
        None => "rewrite"@,
    };
    let index = match state.batch_index {
        Some(n) => n as int,
        None => 0,
    };
    let total = match state.batch_total {
        Some(n) => n as int,
        None => job_total as int,
    };
    let batch = "第 "@ + decimal(index) + "/"@ + decimal(total) + " 批 · "@ + phase_name(phase);
    if state.shard_total > 0 {
        batch + " · 章节已完成 "@ + decimal(state.completed_chapter_ids.len() as int) + "/"@ + decimal(
            state.chapter_total as int,
        ) + " · 分片已完成 "@ + decimal(state.completed_shards.len() as int) + "/"@ + decimal(
            state.shard_total as int,
        )
    } else {
        batch
    }
}

/// How far the job itself has come: by batches in an automatic run, else by chapters.
pub open spec fn current_place(
    completed_chapters: int,
    control: Option<(i64, i64)>,
    job_total: i64,
) -> int {
    match control {
        Some((start, completed)) => if completed - start > i64::MAX {
            i64::MAX as int
        } else if completed - start < i64::MIN {
            i64::MIN as int
        } else {
            completed - start
        },
        None => if completed_chapters < job_total {
            completed_chapters
        } else {
            job_total as int
        },
    }
}

/// The beginning and the end of an automatic run so far.
pub open spec fn batches_of(control: Option<AutoRunControl>) -> Option<(i64, i64)> {
    match control {
        Some(c) => Some((c.start_batch_index, c.completed_batches)),
        None => None,
    }
}

fn saturating_difference(a: i64, b: i64) -> (r: i64)
    ensures
        r == current_place(0, Some((b, a)), 0),
{
    let d: i128 = a as i128 - b as i128;
    if d > i64::MAX as i128 {
        i64::MAX
    } else if d < i64::MIN as i128 {
        i64::MIN
    } else {
        d as i64
    }
}

fn current_place_of(completed_chapters: usize, control: &Option<AutoRunControl>, job_total: i64) -> (r:
    i64)
    ensures
        r == current_place(completed_chapters as int, batches_of(*control), job_total),
{
    match control {
        Some(c) => saturating_difference(c.completed_batches, c.start_batch_index),
        None => {
            let completed: i128 = completed_chapters as i128;
            if completed < job_total as i128 {
                completed as i64
            } else {
                job_total
            }
        },
    }
}

fn progress_message_of(state: &AutoRunProgressState, job_total: i64) -> (r: String)
    requires
        state.well_formed(),
    ensures
        r@ == progress_message(state@, job_total),
{
    proof {
        state.completed_shards@.unique_seq_to_set();
        views(state.completed_chapter_ids@).unique_seq_to_set();
    }
    let index: i64 = match state.batch_index {
        Some(n) => n,
        None => 0,
    };
    let total: i64 = match state.batch_total {
        Some(n) => n,
        None => job_total,
    };
    let label = match &state.phase {
        Some(p) => phase_label(p.as_str()),
        None => phase_label("rewrite"),
    };
    let index_text = i64_text(index);
    let total_text = i64_text(total);
    let mut out = "第 ".to_string();
    out.append(index_text.as_str());
    out.append("/");
    out.append(total_text.as_str());
    out.append(" 批 · ");
    out.append(label);
    if state.shard_total > 0 {
        let chapters = usize_text(state.completed_chapter_ids.len());
        let chapter_total = usize_text(state.chapter_total);
        let shards = usize_text(state.completed_shards.len());
        let shard_total = usize_text(state.shard_total);
        out.append(" · 章节已完成 ");
        out.append(chapters.as_str());
        out.append("/");
        out.append(chapter_total.as_str());
        out.append(" · 分片已完成 ");
        out.append(shards.as_str());
        out.append("/");
        out.append(shard_total.as_str());
    }
    out
}

/// The job that the state of a novel belongs to: its own, or that of the automatic run.
pub fn progress_job_id(state: &AutoRunProgressState, control: &Option<AutoRunControl>) -> (r: Option<
    String,
>)
    ensures
        opt_text(r) == match (state@.job_id, *control) {
            (Some(id), _) => Some(id),
            (None, Some(c)) => opt_text(c.job_id),
            (None, None) => None,
        },
{
    match (&state.job_id, control) {
        (Some(id), _) => Some(id.clone()),
        (None, Some(c)) => copy_option(&c.job_id),
        (None, None) => None,
    }
}

/// The shards that are worked on, by their places.
pub open spec fn shards_in_order(
    list: Seq<ActiveShardView>,
    places: Seq<usize>,
    shards: Map<usize, ActiveShardView>,
) -> bool {
    &&& list.len() == places.len()
    &&& forall|i: int, j: int|
        0 <= i < j < places.len() ==> (#[trigger] places[i]) < (#[trigger] places[j])
    &&& forall|i: int|
        0 <= i < places.len() ==> shards.contains_key(#[trigger] places[i]) && list[i]
            == shards[places[i]]
    &&& forall|p: usize| #[trigger] shards.contains_key(p) ==> places.contains(p)
}

/// Whether a list holds the shards that are worked on, each once, by their places.
pub open spec fn lists_shards(list: Seq<ActiveShardView>, shards: Map<usize, ActiveShardView>) -> bool {
    exists|places: Seq<usize>| shards_in_order(list, places, shards)
}

fn shard_list(state: &AutoRunProgressState) -> (r: Vec<ActiveShardProgress>)
    requires
        state.well_formed(),
    ensures
        lists_shards(views(r@), state@.active_shards),
{
    let ghost list = views(state.active_shards@);
    let ghost places = Seq::new(list.len(), |k: int| list[k].0);
    let mut out: Vec<ActiveShardProgress> = Vec::new();
    let mut i: usize = 0;
    while i < state.active_shards.len()
        invariant
            i <= state.active_shards@.len(),
            list == views(state.active_shards@),
            out@.len() == i,
            forall|k: int| 0 <= k < i ==> (#[trigger] views(out@)[k]) == list[k].1,
        decreases state.active_shards@.len() - i,
    {
        let ghost before = out@;
        out.push(state.active_shards[i].1.duplicate());
        proof {
            lemma_views_push(before, out@.last());
            assert(list[i as int].1 == state.active_shards@[i as int].1@);
        }
        i += 1;
    }
    proof {
        lemma_ascending_keys_differ(list);
        let shards = state@.active_shards;
        assert forall|k: int| 0 <= k < places.len() implies shards.contains_key(
            #[trigger] places[k],
        ) && views(out@)[k] == shards[places[k]] by {
            lemma_value_of(list, k);
        }
        assert forall|p: usize| #[trigger] shards.contains_key(p) implies places.contains(p) by {
            let k = choose|k: int| 0 <= k < list.len() && (#[trigger] list[k]).0 == p;
            assert(places[k] == p);
        }
        assert forall|a: int, b: int| 0 <= a < b < places.len() implies (#[trigger] places[a]) < (
        #[trigger] places[b]) by {
            assert(list[a].0 < list[b].0);
        }
        assert(shards_in_order(views(out@), places, shards));
    }
    out
}

/// What is shown of a running job.
pub fn runtime_progress(
    state: &AutoRunProgressState,
    control: &Option<AutoRunControl>,
    job: &Job,
) -> (r: JobProgress)
    requires
        state.well_formed(),
    ensures
        r.id@ == job.id@,
        r.novel_id@ == job.novel_id@,
        r.job_type@ == job.job_type@,
        r.status@ == "running"@,
        r.current_chapter == current_place(
            state@.completed_chapter_ids.len() as int,
            batches_of(*control),
            job.total_chapters,
        ),
        r.total_chapters == job.total_chapters,
        r.message@ == progress_message(state@, job.total_chapters),
        opt_text(r.phase) == state@.phase,
        r.batch_index == state@.batch_index,
        r.batch_total == state@.batch_total,
        opt_text(r.batch_label) == state@.batch_label,
        r.shard_completed is Some && r.shard_completed->0 == state@.completed_shards.len(),
        r.shard_total == Some(state@.shard_total),
        r.chapter_completed is Some && r.chapter_completed->0 == state@.completed_chapter_ids.len(),
        r.chapter_total == Some(state@.chapter_total),
        r.active_shards is Some && lists_shards(views(r.active_shards->0@), state@.active_shards),
        r.editable_before_batch_index == match *control {
            Some(c) => Some(c.completed_batches),
            None => None,
        },
{
    proof {
        state.completed_shards@.unique_seq_to_set();
        views(state.completed_chapter_ids@).unique_seq_to_set();
    }
    let message = progress_message_of(state, job.total_chapters);
    let current_chapter = current_place_of(
        state.completed_chapter_ids.len(),
        control,
        job.total_chapters,
    );
    let shards = shard_list(state);
    JobProgress {
        id: job.id.clone(),
        novel_id: job.novel_id.clone(),
        job_type: job.job_type.clone(),
        status: "running".to_string(),
        current_chapter,
        total_chapters: job.total_chapters,
        message,
        phase: copy_option(&state.phase),
        batch_index: state.batch_index,
        batch_total: state.batch_total,
        batch_label: copy_option(&state.batch_label),
        shard_completed: Some(state.completed_shards.len()),
        shard_total: Some(state.shard_total),
        chapter_completed: Some(state.completed_chapter_ids.len()),
        chapter_total: Some(state.chapter_total),
        active_shards: Some(shards),
        editable_before_batch_index: match control {
            Some(c) => Some(c.completed_batches),
            None => None,
        },
    }
}

/// What is shown of a job that is not running: its status and a message.
pub fn plain_progress(job: &Job, status: &str, current_chapter: i64, message: &str) -> (r: JobProgress)
    ensures
        r.id@ == job.id@,
        r.novel_id@ == job.novel_id@,
        r.job_type@ == job.job_type@,
        r.status@ == status@,
        r.current_chapter == current_chapter,
        r.total_chapters == job.total_chapters,
        r.message@ == message@,
        r.phase is None,
        r.batch_index is None,
        r.batch_total is None,
        r.batch_label is None,
        r.shard_completed is None,
        r.shard_total is None,
        r.chapter_completed is None,
        r.chapter_total is None,
        r.active_shards is None,
        r.editable_before_batch_index is None,
{
    JobProgress {
        id: job.id.clone(),
        novel_id: job.novel_id.clone(),
        job_type: job.job_type.clone(),
        status: status.to_string(),
        current_chapter,
        total_chapters: job.total_chapters,
        message: message.to_string(),
        phase: None,
        batch_index: None,
        batch_total: None,
        batch_label: None,
        shard_completed: None,
        shard_total: None,
        chapter_completed: None,
        chapter_total: None,
        active_shards: None,
        editable_before_batch_index: None,
    }
}

// ---- the end of a job that failed -----------------------------------------------------------
/// Where the state of a chapter in a phase is kept.
pub fn phase_status_column(phase: &str) -> (r: Result<&'static str, String>)
    ensures
        if phase@ == "analysis"@ {
            r matches Ok(c) && c@ == "analysis_status"@
        } else if phase@ == "rewrite"@ {
            r matches Ok(c) && c@ == "rewrite_status"@
        } else {
            r matches Err(m) && m@ == "不支持的独立任务阶段："@ + phase@
        },
{
    if same_text(phase, "analysis") {
        return Ok("analysis_status");
    }
    if same_text(phase, "rewrite") {
        return Ok("rewrite_status");
    }
    let mut m = "不支持的独立任务阶段：".to_string();
    m.append(phase);
    Err(m)
}

/// What is said where the end of a failed job met with errors of its own.
pub fn unfinished_failure(error: &str, finalization_errors: &[String]) -> (r: Option<String>)
    ensures
        opt_text(r) == if finalization_errors@.len() == 0 {
            None
        } else {
            Some(error@ + "；任务失败收尾不完整："@ + join(views(finalization_errors@), "；"@))
        },
{
    if finalization_errors.len() == 0 {
        return None;
    }
    let all = join_texts(finalization_errors, "；");
    let mut m = error.to_string();
    m.append("；任务失败收尾不完整：");
    m.append(all.as_str());
    Some(m)
}

} // verus!
