//! What a step of the loader does to the page table and to physical memory, given the answers
//! of the platform.
//!
//! Which frames the platform hands out, and which requests it refuses, is its own affair. Given
//! its answers, though, every step is a function: of the page table, of physical memory, and of
//! the requests that were refused. A run of steps takes one answer after the other, and a request
//! that is refused ends it.

use crate::error::{LoadError, MapError, UnmapError};
use crate::paging;
use crate::paging::PageEntry;
use crate::state::Snapshot;
use crate::traits;
use crate::traits::{PageFlags, PageSize, Request};
use vstd::prelude::*;

verus! {

/// How a run over a memory ends.
pub enum Run<W> {
    /// All steps are done.
    Done(W),
    /// The run stops with an error and leaves the memory as it is then.
    Stopped { error: LoadError, memory: W },
    /// A word runs over the end of its page, which virtual memory alone does not describe.
    Crossing,
}

/// The answers of the platform to the requests of one step.
pub struct Answer<S> {
    /// The frame that was handed out, if one was asked for and not refused.
    pub frame: Option<u64>,
    /// Why unmapping was refused, if it was.
    pub unmap: Option<UnmapError>,
    /// Which change of the page table was refused, if one was.
    pub map: Option<MapRefusal<S>>,
    /// The frames that the page table took to store itself.
    pub tables: Seq<(S, u64)>,
}

/// The answers to a step between two states.
pub open spec fn reply<S: PageSize>(
    before: Snapshot<S>,
    after: Snapshot<S>,
    frame: Option<u64>,
    unmap: Option<UnmapError>,
    map: Option<MapRefusal<S>>,
) -> Answer<S> {
    Answer { frame, unmap, map, tables: traits::added(before.tables, after.tables) }
}

/// A change of the page table that was refused.
pub struct MapRefusal<S> {
    /// The page that was to change, where a step changes more than one.
    pub at: u64,
    /// Why the request was refused.
    pub reason: MapError,
    /// The frames that were asked for in vain up to then: changing a page table may take frames.
    pub refused: Seq<S>,
}

/// The pages of a plan that start below an address.
pub open spec fn below<S>(plan: Map<u64, PageEntry<S>>, at: int) -> Map<u64, PageEntry<S>> {
    plan.restrict(Set::new(|k: u64| k < at))
}

/// The page table, physical memory, the refused requests, the frames that were handed out and
/// those that store the page table, the pages that were copied for writing, and the answers that
/// the platform is going to give.
pub struct Physical<S> {
    pub entries: Map<u64, PageEntry<S>>,
    pub memory: Map<int, u8>,
    pub copied: Seq<u64>,
    pub refusals: Seq<(Request<S>, MapError)>,
    pub unmap_refusals: Seq<(u64, UnmapError)>,
    pub refused: Seq<S>,
    pub granted: Seq<(S, u64)>,
    pub tables: Seq<(S, u64)>,
    pub answers: Seq<Answer<S>>,
}

impl<S: PageSize> Physical<S> {
    /// The answers to the next step.
    pub open spec fn answer(self) -> Answer<S> {
        self.answers[0]
    }

    /// The same state, with the next step's answers used up.
    pub open spec fn next(self) -> Self {
        Physical { answers: self.answers.skip(1), ..self }
    }

    /// The page table has taken frames to store itself.
    pub open spec fn with_tables(self, taken: Seq<(S, u64)>) -> Self {
        Physical { tables: self.tables + taken, granted: self.granted + taken, ..self }
    }

    /// A frame is handed out, and bytes are written into it.
    pub open spec fn with_frame(self, frame: u64, bytes: Seq<u8>) -> Self {
        Physical {
            memory: paging::stored(self.memory, frame as int, bytes),
            granted: self.granted.push((S::BASE, frame)),
            ..self
        }
    }

    /// A change of the page table is refused.
    pub open spec fn denied(self, request: Request<S>, refusal: MapRefusal<S>) -> Run<Self> {
        Run::Stopped {
            error: LoadError::MappingFailed(refusal.reason),
            memory: Physical {
                refusals: self.refusals.push((request, refusal.reason)),
                refused: refusal.refused,
                ..self
            },
        }
    }

    /// No frame is handed out.
    pub open spec fn without_frame(self) -> Run<Self> {
        Run::Stopped {
            error: LoadError::FrameAllocationFailed,
            memory: Physical { refused: self.refused.push(S::BASE), ..self },
        }
    }

    /// One page is mapped, unless that is refused.
    pub open spec fn with_page(
        self,
        page: u64,
        entry: PageEntry<S>,
        answer: Answer<S>,
    ) -> Run<Self> {
        let now = self.with_tables(answer.tables);
        match answer.map {
            Some(refusal) => now.denied(Request::MapPage { virt: page, entry }, refusal),
            None => Run::Done(Physical { entries: self.entries.insert(page, entry), ..now }),
        }
    }

    /// The pages of a plan are mapped in ascending order, up to the first that is refused.
    pub open spec fn with_pages(self, plan: Map<u64, PageEntry<S>>) -> Run<Self> {
        let now = self.next().with_tables(self.answer().tables);
        let done = Physical { entries: self.entries.union_prefer_right(plan), ..now };
        match self.answer().map {
            Some(refusal) => if plan.contains_key(refusal.at) {
                Physical {
                    entries: self.entries.union_prefer_right(below(plan, refusal.at as int)),
                    ..now
                }.denied(Request::MapPage { virt: refusal.at, entry: plan[refusal.at] }, refusal)
            } else {
                Run::Done(done)
            },
            None => Run::Done(done),
        }
    }

    /// A page is mapped to a frame of its own that is zeroed before.
    pub open spec fn with_zeroed_page(self, page: u64, flags: PageFlags) -> Run<Self> {
        match self.answer().frame {
            None => self.next().without_frame(),
            Some(frame) => self.next().with_frame(
                frame,
                paging::zeros(paging::base::<S>() as nat),
            ).with_page(page, PageEntry { phys: frame, flags, size: S::BASE }, self.answer()),
        }
    }

    /// Zeroed pages are mapped from `page` up to `end`.
    pub open spec fn with_zeroed_pages(self, page: int, end: int, flags: PageFlags) -> Run<Self>
        decreases
                (if page < end {
                    end - page
                } else {
                    0
                }),
    {
        if page >= end || paging::base::<S>() <= 0 {
            Run::Done(self)
        } else {
            match self.with_zeroed_page(page as u64, flags) {
                Run::Done(next) => next.with_zeroed_pages(page + paging::base::<S>(), end, flags),
                stop => stop,
            }
        }
    }

    /// A mapped page moves to a frame of its own, into which `bytes` are written before.
    pub open spec fn with_moved_page(
        self,
        page: u64,
        flags: PageFlags,
        bytes: Seq<u8>,
        unmap_error: &'static str,
    ) -> Run<Self> {
        match self.answer().frame {
            None => self.next().without_frame(),
            Some(frame) => {
                let filled = self.next().with_frame(frame, bytes);
                match self.answer().unmap {
                    Some(reason) => Run::Stopped {
                        error: LoadError::InvalidElf(unmap_error),
                        memory: Physical {
                            unmap_refusals: self.unmap_refusals.push((page, reason)),
                            ..filled
                        },
                    },
                    None => Physical { entries: self.entries.remove(page), ..filled }.with_page(
                        page,
                        PageEntry { phys: frame, flags, size: S::BASE },
                        self.answer(),
                    ),
                }
            },
        }
    }

    /// A mapped page that can be written gets flags that do not permit it.
    pub open spec fn with_protected_page(self, page: u64) -> Run<Self> {
        let entry = self.entries[paging::page_at(self.entries, page as int)];
        let flags = PageFlags { writable: false, executable: entry.flags.executable };
        if !paging::mapped(self.entries, page as int) || !entry.flags.writable {
            Run::Done(self)
        } else {
            match self.answer().map {
                Some(refusal) => self.next().denied(
                    Request::UpdateFlags { virt: page, flags },
                    MapRefusal { refused: self.refused, ..refusal },
                ),
                None => Run::Done(
                    Physical {
                        entries: self.entries.insert(
                            page,
                            PageEntry { flags, ..self.entries[page] },
                        ),
                        ..self.next()
                    },
                ),
            }
        }
    }

    /// The pages from `page` up to `end` are protected.
    pub open spec fn with_protected_pages(self, page: int, end: int) -> Run<Self>
        decreases
                (if page < end {
                    end - page
                } else {
                    0
                }),
    {
        if page >= end || paging::base::<S>() <= 0 {
            Run::Done(self)
        } else {
            match self.with_protected_page(page as u64) {
                Run::Done(next) => next.with_protected_pages(page + paging::base::<S>(), end),
                stop => stop,
            }
        }
    }
}

/// The physical side of a state, with the answers that are to come.
pub open spec fn at<S: PageSize>(
    now: Snapshot<S>,
    copied: Seq<u64>,
    answers: Seq<Answer<S>>,
) -> Physical<S> {
    Physical {
        entries: now.entries,
        memory: now.memory,
        copied,
        refusals: now.refusals,
        unmap_refusals: now.unmap_refusals,
        refused: now.refused,
        granted: now.granted,
        tables: now.tables,
        answers,
    }
}

/// The byte at `a` belongs to the base frame that an answer hands out.
pub open spec fn in_frame<S: PageSize>(answer: Answer<S>, a: int) -> bool {
    answer.frame matches Some(frame) && frame <= a < frame + paging::base::<S>()
}

/// The frames that the answers hand out could be handed out before and cannot be any more, and
/// no two of them overlap. Without a request nothing is taken.
pub open spec fn handed_out<S: PageSize>(
    answers: Seq<Answer<S>>,
    before: Set<int>,
    after: Set<int>,
) -> bool {
    &&& after.subset_of(before)
    &&& answers.len() == 0 ==> after == before
    &&& forall|i: int, a: int|
        0 <= i < answers.len() && #[trigger] in_frame(answers[i], a) ==> before.contains(a)
            && !after.contains(a)
    &&& forall|i: int, j: int, a: int|
        0 <= i < j < answers.len() && #[trigger] in_frame(answers[i], a) ==> !#[trigger] in_frame(
            answers[j],
            a,
        )
}

/// Whether a step succeeded, without its value.
pub open spec fn outcome<T>(r: Result<T, LoadError>) -> Result<(), LoadError> {
    match r {
        Ok(_) => Ok(()),
        Err(e) => Err(e),
    }
}

/// The state and the result at the end of a run.
pub open spec fn ended<S: PageSize>(
    now: Snapshot<S>,
    copied: Seq<u64>,
    answers: Seq<Answer<S>>,
    r: Result<(), LoadError>,
) -> Run<Physical<S>> {
    match r {
        Ok(_) => Run::Done(at(now, copied, answers)),
        Err(error) => Run::Stopped { error, memory: at(now, copied, answers) },
    }
}

/// The run started in `before` takes the answers `given`, and ends in `after` with `r`.
pub open spec fn ends<S: PageSize>(
    run: spec_fn(Physical<S>) -> Run<Physical<S>>,
    before: Snapshot<S>,
    copied: Seq<u64>,
    given: Seq<Answer<S>>,
    after: Snapshot<S>,
    copied_after: Seq<u64>,
    r: Result<(), LoadError>,
) -> bool {
    &&& handed_out(given, before.available, after.available)
    &&& forall|more: Seq<Answer<S>>|
        run(#[trigger] at(before, copied, given + more)) == ended(after, copied_after, more, r)
}

/// The result and the state after a run are those that the run gives for the answers of the
/// platform: what was mapped, written and recorded, where the run stopped, and which request was
/// refused, if one was. Every frame that was handed out is used for one page alone.
pub open spec fn tracks<S: PageSize>(
    run: spec_fn(Physical<S>) -> Run<Physical<S>>,
    before: Snapshot<S>,
    copied: Seq<u64>,
    after: Snapshot<S>,
    copied_after: Seq<u64>,
    r: Result<(), LoadError>,
) -> bool {
    exists|given: Seq<Answer<S>>| #[trigger]
        ends(run, before, copied, given, after, copied_after, r)
}

/// The run started in `before` has taken the answers `given`, and is in `now` with `rest` still
/// to do.
pub open spec fn goes_on<S: PageSize>(
    whole: spec_fn(Physical<S>) -> Run<Physical<S>>,
    rest: spec_fn(Physical<S>) -> Run<Physical<S>>,
    before: Snapshot<S>,
    copied: Seq<u64>,
    given: Seq<Answer<S>>,
    now: Snapshot<S>,
    copied_now: Seq<u64>,
) -> bool {
    &&& handed_out(given, before.available, now.available)
    &&& forall|more: Seq<Answer<S>>|
        whole(#[trigger] at(before, copied, given + more)) == rest(at(now, copied_now, more))
}

/// The state of a run that is still going.
pub open spec fn still_tracks<S: PageSize>(
    whole: spec_fn(Physical<S>) -> Run<Physical<S>>,
    rest: spec_fn(Physical<S>) -> Run<Physical<S>>,
    before: Snapshot<S>,
    copied: Seq<u64>,
    now: Snapshot<S>,
    copied_now: Seq<u64>,
) -> bool {
    exists|given: Seq<Answer<S>>| #[trigger]
        goes_on(whole, rest, before, copied, given, now, copied_now)
}

/// The frames of two lists of answers in a row.
proof fn lemma_handed_out_chain<S: PageSize>(
    first: Seq<Answer<S>>,
    second: Seq<Answer<S>>,
    before: Set<int>,
    now: Set<int>,
    after: Set<int>,
)
    requires
        handed_out(first, before, now),
        handed_out(second, now, after),
    ensures
        handed_out(first + second, before, after),
{
    let both = first + second;
    assert forall|i: int, a: int|
        0 <= i < both.len() && #[trigger] in_frame(both[i], a) implies before.contains(a)
        && !after.contains(a) by {
        if i < first.len() {
            assert(in_frame(first[i], a));
        } else {
            assert(in_frame(second[i - first.len()], a));
        }
    }
    assert forall|i: int, j: int, a: int|
        0 <= i < j < both.len() && #[trigger] in_frame(both[i], a) implies !#[trigger] in_frame(
        both[j],
        a,
    ) by {
        if j < first.len() {
            assert(in_frame(first[i], a));
            assert(!in_frame(first[j], a));
        } else if i >= first.len() {
            assert(in_frame(second[i - first.len()], a));
            assert(!in_frame(second[j - first.len()], a));
        } else {
            assert(in_frame(first[i], a));
            if in_frame(both[j], a) {
                assert(in_frame(second[j - first.len()], a));
            }
        }
    }
}

/// A run that needs no request, and leaves the state as it is, takes no answers.
pub proof fn lemma_idle<S: PageSize>(now: Snapshot<S>, copied: Seq<u64>)
    ensures
        forall|run: spec_fn(Physical<S>) -> Run<Physical<S>>, r: Result<(), LoadError>|
            (forall|more: Seq<Answer<S>>|
                run(#[trigger] at(now, copied, more)) == ended(now, copied, more, r))
                ==> #[trigger] tracks(run, now, copied, now, copied, r),
        forall|run: spec_fn(Physical<S>) -> Run<Physical<S>>| #[trigger]
            still_tracks(run, run, now, copied, now, copied),
{
    let none = Seq::<Answer<S>>::empty();
    assert(handed_out(none, now.available, now.available));
    assert forall|more: Seq<Answer<S>>| #[trigger] at(now, copied, none + more) == at(
        now,
        copied,
        more,
    ) by {
        assert(none + more =~= more);
    }
    assert forall|run: spec_fn(Physical<S>) -> Run<Physical<S>>, r: Result<(), LoadError>|
        (forall|more: Seq<Answer<S>>|
            run(#[trigger] at(now, copied, more)) == ended(now, copied, more, r))
        implies #[trigger] tracks(run, now, copied, now, copied, r) by {
        assert forall|more: Seq<Answer<S>>|
            run(#[trigger] at(now, copied, none + more)) == ended(now, copied, more, r) by {
            assert(run(at(now, copied, more)) == ended(now, copied, more, r));
        }
        assert(ends(run, now, copied, none, now, copied, r));
    }
    assert forall|run: spec_fn(Physical<S>) -> Run<Physical<S>>| #[trigger]
        still_tracks(run, run, now, copied, now, copied) by {
        assert(goes_on(run, run, now, copied, none, now, copied));
    }
}

/// One answer is enough for a step.
pub proof fn lemma_one_answer<S: PageSize>(
    run: spec_fn(Physical<S>) -> Run<Physical<S>>,
    before: Snapshot<S>,
    copied: Seq<u64>,
    answer: Answer<S>,
    after: Snapshot<S>,
    copied_after: Seq<u64>,
    r: Result<(), LoadError>,
)
    requires
        after.available.subset_of(before.available),
        forall|a: int| #[trigger]
            in_frame(answer, a) ==> before.available.contains(a) && !after.available.contains(a),
        forall|answers: Seq<Answer<S>>|
            answers.len() > 0 && answers[0] == answer ==> run(
                #[trigger] at(before, copied, answers),
            ) == ended(after, copied_after, answers.skip(1), r),
    ensures
        tracks(run, before, copied, after, copied_after, r),
{
    let given = seq![answer];
    assert forall|more: Seq<Answer<S>>|
        run(#[trigger] at(before, copied, given + more)) == ended(after, copied_after, more, r) by {
        assert((given + more)[0] == answer);
        assert((given + more).skip(1) =~= more);
    }
    assert(ends(run, before, copied, given, after, copied_after, r));
}

/// One more step keeps a run going, or ends it as the whole run says.
pub proof fn lemma_tracks_step<S: PageSize>(
    whole: spec_fn(Physical<S>) -> Run<Physical<S>>,
    rest: spec_fn(Physical<S>) -> Run<Physical<S>>,
    before: Snapshot<S>,
    copied: Seq<u64>,
    now: Snapshot<S>,
    copied_now: Seq<u64>,
    step: spec_fn(Physical<S>) -> Run<Physical<S>>,
    then: spec_fn(Physical<S>) -> Run<Physical<S>>,
    next: Snapshot<S>,
    copied_next: Seq<u64>,
    r: Result<(), LoadError>,
)
    requires
        still_tracks(whole, rest, before, copied, now, copied_now),
        tracks(step, now, copied_now, next, copied_next, r),
        forall|answers: Seq<Answer<S>>|
            match step(#[trigger] at(now, copied_now, answers)) {
                Run::Done(memory) => rest(at(now, copied_now, answers)) == then(memory),
                Run::Stopped { error, memory } => rest(at(now, copied_now, answers)) == (
                Run::Stopped { error, memory }),
                Run::Crossing => true,
            },
    ensures
        r is Ok ==> still_tracks(whole, then, before, copied, next, copied_next),
        r is Err ==> tracks(whole, before, copied, next, copied_next, r),
{
    let first = choose|given: Seq<Answer<S>>| #[trigger]
        goes_on(whole, rest, before, copied, given, now, copied_now);
    let second = choose|given: Seq<Answer<S>>| #[trigger]
        ends(step, now, copied_now, given, next, copied_next, r);
    let given = first + second;
    lemma_handed_out_chain(first, second, before.available, now.available, next.available);
    assert forall|more: Seq<Answer<S>>|
        whole(#[trigger] at(before, copied, given + more)) == rest(
        at(now, copied_now, second + more),
    ) by {
        assert(given + more =~= first + (second + more));
        assert(whole(at(before, copied, first + (second + more))) == rest(
            at(now, copied_now, second + more),
        ));
    }
    if r is Ok {
        assert forall|more: Seq<Answer<S>>|
            whole(#[trigger] at(before, copied, given + more)) == then(
            at(next, copied_next, more),
        ) by {
            assert(step(at(now, copied_now, second + more)) == ended(next, copied_next, more, r));
        }
        assert(goes_on(whole, then, before, copied, given, next, copied_next));
    } else {
        assert forall|more: Seq<Answer<S>>|
            whole(#[trigger] at(before, copied, given + more)) == ended(
            next,
            copied_next,
            more,
            r,
        ) by {
            assert(step(at(now, copied_now, second + more)) == ended(next, copied_next, more, r));
        }
        assert(ends(whole, before, copied, given, next, copied_next, r));
    }
}

/// A run whose rest needs no request ends as the whole run says.
pub proof fn lemma_tracks_end<S: PageSize>(
    whole: spec_fn(Physical<S>) -> Run<Physical<S>>,
    rest: spec_fn(Physical<S>) -> Run<Physical<S>>,
    before: Snapshot<S>,
    copied: Seq<u64>,
    now: Snapshot<S>,
    copied_now: Seq<u64>,
    after: Snapshot<S>,
    copied_after: Seq<u64>,
    r: Result<(), LoadError>,
)
    requires
        still_tracks(whole, rest, before, copied, now, copied_now),
        after.available == now.available,
        forall|answers: Seq<Answer<S>>|
            rest(#[trigger] at(now, copied_now, answers)) == ended(
                after,
                copied_after,
                answers,
                r,
            ),
    ensures
        tracks(whole, before, copied, after, copied_after, r),
{
    let given = choose|given: Seq<Answer<S>>| #[trigger]
        goes_on(whole, rest, before, copied, given, now, copied_now);
    assert(ends(whole, before, copied, given, after, copied_after, r)) by {
        assert forall|more: Seq<Answer<S>>|
            whole(#[trigger] at(before, copied, given + more)) == ended(
            after,
            copied_after,
            more,
            r,
        ) by {
            assert(rest(at(now, copied_now, more)) == ended(after, copied_after, more, r));
        }
    }
}

/// Where a run needs no request, its result is the run's own, and nothing changes.
pub proof fn lemma_no_request<S: PageSize>(
    run: spec_fn(Physical<S>) -> Run<Physical<S>>,
    before: Snapshot<S>,
    copied: Seq<u64>,
    after: Snapshot<S>,
    copied_after: Seq<u64>,
    own: Result<(), LoadError>,
    r: Result<(), LoadError>,
)
    requires
        tracks(run, before, copied, after, copied_after, r),
        forall|answers: Seq<Answer<S>>|
            run(#[trigger] at(before, copied, answers)) == ended(before, copied, answers, own),
    ensures
        r == own,
        after == before,
        copied_after == copied,
{
    let given = choose|given: Seq<Answer<S>>| #[trigger]
        ends(run, before, copied, given, after, copied_after, r);
    let none = Seq::<Answer<S>>::empty();
    assert(run(at(before, copied, given + none)) == ended(after, copied_after, none, r));
    assert(ended(before, copied, given + none, own) == ended(after, copied_after, none, r));
    match (own, r) {
        (Ok(a), Ok(b)) => {
            assert(a == b);
        },
        _ => {},
    }
    assert(at(before, copied, given + none) == at(after, copied_after, none));
    assert((given + none).len() == 0);
    assert(given.len() == 0);
}

/// Two ways to state what is still to do.
pub proof fn lemma_still_same<S: PageSize>(
    whole: spec_fn(Physical<S>) -> Run<Physical<S>>,
    rest: spec_fn(Physical<S>) -> Run<Physical<S>>,
    other: spec_fn(Physical<S>) -> Run<Physical<S>>,
    before: Snapshot<S>,
    copied: Seq<u64>,
    now: Snapshot<S>,
    copied_now: Seq<u64>,
)
    requires
        still_tracks(whole, rest, before, copied, now, copied_now),
        forall|answers: Seq<Answer<S>>|
            rest(#[trigger] at(now, copied_now, answers)) == other(at(now, copied_now, answers)),
    ensures
        still_tracks(whole, other, before, copied, now, copied_now),
{
    let given = choose|given: Seq<Answer<S>>| #[trigger]
        goes_on(whole, rest, before, copied, given, now, copied_now);
    assert(goes_on(whole, other, before, copied, given, now, copied_now));
}

/// A run that says the same of every list of answers ends the same.
pub proof fn lemma_tracks_same<S: PageSize>(
    run: spec_fn(Physical<S>) -> Run<Physical<S>>,
    other: spec_fn(Physical<S>) -> Run<Physical<S>>,
    before: Snapshot<S>,
    copied: Seq<u64>,
    after: Snapshot<S>,
    copied_after: Seq<u64>,
    r: Result<(), LoadError>,
)
    requires
        tracks(run, before, copied, after, copied_after, r),
        forall|answers: Seq<Answer<S>>|
            run(#[trigger] at(before, copied, answers)) == other(at(before, copied, answers)),
    ensures
        tracks(other, before, copied, after, copied_after, r),
{
    let given = choose|given: Seq<Answer<S>>| #[trigger]
        ends(run, before, copied, given, after, copied_after, r);
    assert(ends(other, before, copied, given, after, copied_after, r));
}

} // verus!
