//! The whole course of a swarm, from its start on: what it handed out to be
//! verified, written and flushed, what it heard of that, and what therefore
//! holds of every piece that counts as complete.

use crate::address::SocketAddress;
use crate::bitfield::{has_bit, lemma_with_bit, with_bit};
use crate::budget::DownloadBudget;
use crate::error::Fault;
use crate::layout::content_size;
use crate::metainfo::MetaModel;
use crate::num::max_of;
use crate::record::TorrentRecord;
use crate::schedule::{
    assigned, next_turn, nothing_picked, refused, served, takes_more, Pass,
};
use crate::swarm::{
    assigned_length, corrupt_text, duplicate_cancels, removed, returned, taken, with_worker,
    worker_at, PeerModel, SwarmAct, SwarmModel,
};
use crate::swarm_events::{
    commit_step, committed, noticed, ready_peer, spent_acts, writing_at, Notice, Surroundings,
};
use crate::swarm_peers::{
    all_offered, joined, limit_enforced, lowest, may_connect, slots_filled, SelfAddresses,
};
use crate::swarm_run::{
    done_below, empty_swarm, has_pending_io, is_flush, law_claims_follow_verification,
    law_progress_needs_a_flush, lemma_offered_keeps, lemma_removed_keeps, started, turned, Circumstances,
    LoopNotice, RunModel, Task, Turn,
};
use crate::upload::ReputationEntry;
use crate::verify::{checks_of, passes};
use crate::worker::Outcome;
use vstd::multiset::Multiset;
use vstd::prelude::*;
use vstd::seq_lib::{to_multiset_build, to_multiset_contains, to_multiset_len, to_multiset_remove};

verus! {

/// The data of a piece that was handed out, to be verified or to be written.
pub struct Handed {
    pub worker: usize,
    pub piece: usize,
    pub data: Seq<u8>,
}

/// The course of a swarm so far.
pub struct Course {
    pub metainfo: MetaModel,
    pub run: RunModel,
    /// The pieces that are on record as complete, and those that were so at the
    /// start.
    pub completed: Seq<u8>,
    pub initial: Seq<u8>,
    /// The bytes that are on record as downloaded, and those that were so at the
    /// start.
    pub downloaded: int,
    pub initial_downloaded: int,
    /// What was handed out to be verified, or written, and not heard of since.
    pub checking: Seq<Handed>,
    pub writes: Seq<Handed>,
    /// The pieces that were handed out to be flushed and not heard of since.
    pub group: Option<Seq<usize>>,
    /// Every piece that was found right, and that was written, with its data.
    pub verified: Set<(int, Seq<u8>)>,
    pub written: Set<(int, Seq<u8>)>,
    /// Every piece that the picker was told is complete.
    pub told: Set<int>,
    /// A fault has ended the swarm.
    pub over: bool,
}

/// What may come next in the course of a swarm.
pub enum Moment {
    /// Something happens to the swarm.
    Turn(LoopNotice, Surroundings),
    /// Peers are connected to or given pieces.
    Between(RunModel),
}

/// Whether the data of a piece matches every hash that is known of it.
pub open spec fn is_right(m: MetaModel, piece: int, data: Seq<u8>) -> bool {
    checks_of(m, piece, data.len() as int) is Ok && passes(
        checks_of(m, piece, data.len() as int)->Ok_0,
        data,
    )
}

/// Whether the same pieces count as complete and are claimed for writing.
pub open spec fn same_claims(before: SwarmModel, after: SwarmModel) -> bool {
    after.completed == before.completed && after.writing == before.writing
}

/// Whether a swarm differs from another in nothing that pieces go through.
pub open spec fn same_pieces(before: RunModel, after: RunModel) -> bool {
    &&& same_claims(before.swarm, after.swarm)
    &&& after.verifying == before.verifying
    &&& after.storing == before.storing
    &&& after.flushing == before.flushing
    &&& after.pieces == before.pieces
    &&& after.paths == before.paths
}

/// Whether a write that was handed out is the one that is reported.
pub open spec fn is_write(handed: Handed, worker: usize, piece: usize, bytes: int) -> bool {
    handed.worker == worker && handed.piece == piece && handed.data.len() == bytes
}

/// Which of the writes that were handed out is reported.
pub open spec fn write_of(writes: Seq<Handed>, worker: usize, piece: usize, bytes: int) -> int {
    choose|i: int| 0 <= i < writes.len() && is_write(#[trigger] writes[i], worker, piece, bytes)
}

/// Whether what a swarm is told of its own work answers what it handed out, and
/// says truly whether the data of a piece is right.
pub open spec fn answers(course: Course, notice: LoopNotice) -> bool {
    match notice {
        LoopNotice::Verified(worker, piece, data, outcome) => {
            &&& course.checking.contains(Handed { worker, piece, data })
            &&& outcome matches Ok(valid) ==> valid == is_right(
                course.metainfo,
                piece as int,
                data,
            )
        },
        LoopNotice::Stored(worker, piece, bytes, _) => exists|i: int|
            0 <= i < course.writes.len() && is_write(
                #[trigger] course.writes[i],
                worker,
                piece,
                bytes,
            ),
        LoopNotice::Flushed(pieces, _) => course.group == Some(pieces),
        _ => true,
    }
}

/// Whether something may come next. Nothing happens to a swarm that is over.
pub open spec fn may_follow(course: Course, moment: Moment) -> bool {
    &&& !course.over
    &&& match moment {
        Moment::Turn(notice, around) => around.completed == course.completed && answers(
            course,
            notice,
        ),
        Moment::Between(run) => same_pieces(course.run, run),
    }
}

pub open spec fn turn_of(course: Course, notice: LoopNotice, around: Surroundings) -> Turn {
    turned(
        course.run,
        notice,
        Circumstances { around, metainfo: course.metainfo, downloaded: course.downloaded },
    )
}

/// The course of a swarm once it has taken note of what happened to it.
pub open spec fn heard(course: Course, notice: LoopNotice) -> Course {
    match notice {
        LoopNotice::Verified(worker, piece, data, outcome) => Course {
            checking: course.checking.remove(
                course.checking.index_of(Handed { worker, piece, data }),
            ),
            verified: if outcome == Ok::<bool, Fault>(true) {
                course.verified.insert((piece as int, data))
            } else {
                course.verified
            },
            ..course
        },
        LoopNotice::Stored(worker, piece, bytes, paths) => {
            let at = write_of(course.writes, worker, piece, bytes);
            Course {
                writes: course.writes.remove(at),
                written: if paths is Ok {
                    course.written.insert((piece as int, course.writes[at].data))
                } else {
                    course.written
                },
                ..course
            }
        },
        LoopNotice::Flushed(_, _) => Course { group: None, ..course },
        _ => course,
    }
}

/// The course of a swarm once what a turn leads to was handed out.
pub open spec fn handed_out(course: Course, task: Task) -> Course {
    match task {
        Task::Verify(worker, piece, data, _) => Course {
            checking: course.checking.push(Handed { worker, piece, data }),
            ..course
        },
        Task::Write(worker, piece, data) => Course {
            writes: course.writes.push(Handed { worker, piece, data }),
            ..course
        },
        Task::Flush(pieces, _) => Course { group: Some(pieces), ..course },
        _ => course,
    }
}

/// The pieces that the picker is told are complete.
pub open spec fn told_by(acts: Seq<SwarmAct>) -> Set<int> {
    Set::new(|piece: int| acts.contains(SwarmAct::MarkComplete(piece)))
}

pub open spec fn after(course: Course, moment: Moment) -> Course {
    match moment {
        Moment::Turn(notice, around) => {
            let turn = turn_of(course, notice, around);
            Course {
                run: turn.run,
                completed: turn.completed,
                downloaded: turn.downloaded,
                told: course.told.union(told_by(turn.acts)),
                over: turn.fault is Some,
                ..handed_out(heard(course, notice), turn.task)
            }
        },
        Moment::Between(run) => Course { run, ..course },
    }
}

/// The course of a swarm after one thing after the other.
pub open spec fn after_all(course: Course, moments: Seq<Moment>) -> Course
    decreases moments.len(),
{
    if moments.len() == 0 {
        course
    } else {
        after(after_all(course, moments.drop_last()), moments.last())
    }
}

/// Whether things may come one after the other.
pub open spec fn all_may_follow(course: Course, moments: Seq<Moment>) -> bool
    decreases moments.len(),
{
    moments.len() > 0 ==> all_may_follow(course, moments.drop_last()) && may_follow(
        after_all(course, moments.drop_last()),
        moments.last(),
    )
}

/// Whether a swarm has not handed anything out yet.
pub open spec fn is_fresh(run: RunModel, completed: Seq<u8>) -> bool {
    &&& run.swarm.completed == completed
    &&& run.swarm.writing.len() == 0
    &&& run.pieces.len() == 0
    &&& run.verifying == 0 && run.storing == 0 && run.flushing == 0
}

/// The course of a swarm at its start. The picker was told of what is on record.
pub open spec fn begun(
    run: RunModel,
    metainfo: MetaModel,
    completed: Seq<u8>,
    downloaded: int,
) -> Course {
    Course {
        metainfo,
        run,
        completed,
        initial: completed,
        downloaded,
        initial_downloaded: downloaded,
        checking: Seq::empty(),
        writes: Seq::empty(),
        group: None,
        verified: Set::empty(),
        written: Set::empty(),
        told: Set::new(|piece: int| has_bit(completed, piece)),
        over: false,
    }
}

/// Whether the data of a piece was verified, and then written.
pub open spec fn is_kept(course: Course, piece: int) -> bool {
    exists|data: Seq<u8>| #[trigger]
        course.written.contains((piece, data)) && course.verified.contains((piece, data))
}

/// Whether a piece may count as complete.
pub open spec fn is_earned(course: Course, piece: int) -> bool {
    has_bit(course.initial, piece) || is_kept(course, piece)
}

/// Whether every piece that counts as complete may, and what was found right is.
pub open spec fn is_founded(course: Course) -> bool {
    &&& forall|piece: int| #[trigger]
        has_bit(course.completed, piece) ==> is_earned(course, piece)
    &&& forall|piece: int| #[trigger]
        has_bit(course.run.swarm.completed, piece) ==> is_earned(course, piece)
    &&& forall|found: (int, Seq<u8>)| #[trigger]
        course.verified.contains(found) ==> is_right(course.metainfo, found.0, found.1)
}

pub open spec fn pieces_of(handed: Seq<Handed>) -> Seq<usize> {
    Seq::new(handed.len(), |i: int| handed[i].piece)
}

/// The pieces that are being flushed.
pub open spec fn flushed_next(group: Option<Seq<usize>>) -> Seq<usize> {
    match group {
        Some(pieces) => pieces,
        None => Seq::empty(),
    }
}

/// Whether the pieces that are claimed for writing are those that are being
/// written, that wait to be flushed, and that are being flushed, each once, and
/// everything that was handed out is counted.
pub open spec fn is_accounted(course: Course) -> bool {
    let run = course.run;
    &&& run.verifying == course.checking.len()
    &&& run.storing == course.writes.len()
    &&& run.flushing == if course.group is Some {
        1int
    } else {
        0int
    }
    &&& run.swarm.writing.no_duplicates()
    &&& run.swarm.writing.to_multiset() == pieces_of(course.writes).to_multiset().add(
        run.pieces.to_multiset(),
    ).add(flushed_next(course.group).to_multiset())
    &&& forall|i: int|
        0 <= i < course.writes.len() ==> course.verified.contains(
            ((#[trigger] course.writes[i]).piece as int, course.writes[i].data),
        )
    &&& forall|i: int|
        0 <= i < run.pieces.len() ==> is_kept(course, #[trigger] run.pieces[i] as int)
    &&& course.group matches Some(pieces) ==> forall|i: int|
        0 <= i < pieces.len() ==> is_kept(course, #[trigger] pieces[i] as int)
}

/// Whether a bitfield has a bit for a piece.
pub open spec fn has_room(bitfield: Seq<u8>, piece: int) -> bool {
    0 <= piece / 8 < bitfield.len()
}

/// Whether a piece was written and is yet to be flushed, or is being flushed.
pub open spec fn awaits_flush(course: Course, piece: int) -> bool {
    ||| exists|i: int| 0 <= i < course.run.pieces.len() && #[trigger] course.run.pieces[i] == piece
    ||| course.group is Some && exists|i: int|
        0 <= i < course.group->0.len() && #[trigger] course.group->0[i] == piece
}

/// Whether every piece that the picker was told is complete is on record, or is
/// going to be.
pub open spec fn is_settled(course: Course) -> bool {
    forall|piece: int| #[trigger]
        course.told.contains(piece) && has_room(course.completed, piece) ==> has_bit(
            course.completed,
            piece,
        ) || awaits_flush(course, piece)
}

/// What holds of a swarm all along. A fault may leave work behind that nobody
/// will hear of.
pub open spec fn is_sound(course: Course) -> bool {
    is_founded(course) && (!course.over ==> is_accounted(course) && is_settled(course))
}

proof fn lemma_writing_at(writing: Seq<usize>, piece: usize, from: int)
    requires
        0 <= from <= writing.len(),
    ensures
        from <= writing_at(writing, piece, from) <= writing.len(),
        writing_at(writing, piece, from) < writing.len() ==> writing[writing_at(
            writing,
            piece,
            from,
        )] == piece,
        writing_at(writing, piece, from) == writing.len() ==> forall|k: int|
            from <= k < writing.len() ==> writing[k] != piece,
    decreases writing.len() - from,
{
    if from < writing.len() && writing[from] != piece {
        lemma_writing_at(writing, piece, from + 1);
    }
}

/// Committing pieces lets go of their claims, and of no other.
proof fn lemma_committed_writing(
    m: MetaModel,
    s: SwarmModel,
    completed: Seq<u8>,
    downloaded: int,
    pieces: Seq<usize>,
)
    requires
        s.writing.no_duplicates(),
        pieces.to_multiset().subset_of(s.writing.to_multiset()),
        committed(m, s, completed, downloaded, pieces).fault is None,
    ensures
        ({
            let writing = committed(m, s, completed, downloaded, pieces).swarm.writing;
            &&& writing.no_duplicates()
            &&& writing.to_multiset() == s.writing.to_multiset().sub(pieces.to_multiset())
        }),
    decreases pieces.len(),
{
    broadcast use {to_multiset_build, to_multiset_contains, to_multiset_len, to_multiset_remove};

    if pieces.len() == 0 {
        assert(pieces =~= Seq::empty());
        assert(s.writing.to_multiset() =~= s.writing.to_multiset().sub(pieces.to_multiset()));
    } else {
        let front = pieces.drop_last();
        let piece = pieces.last();
        assert(pieces =~= front.push(piece));
        assert(front.to_multiset().subset_of(s.writing.to_multiset()));
        lemma_committed_writing(m, s, completed, downloaded, front);
        let before = committed(m, s, completed, downloaded, front);
        let writing = before.swarm.writing;
        let slot = writing_at(writing, piece, 0);
        lemma_writing_at(writing, piece, 0);
        assert(writing.to_multiset().count(piece) > 0) by {
            assert(pieces.to_multiset().count(piece) == front.to_multiset().count(piece) + 1);
            assert(pieces.to_multiset().count(piece) <= s.writing.to_multiset().count(piece));
        }
        assert(writing.contains(piece));
        assert(slot < writing.len());
        let rest = writing.remove(slot);
        assert(commit_step(m, before, piece).swarm.writing == rest);
        assert(rest.to_multiset() =~= s.writing.to_multiset().sub(pieces.to_multiset()));
    }
}

/// Committing pieces makes them count as complete, and no other.
proof fn lemma_committed_bits(
    m: MetaModel,
    s: SwarmModel,
    completed: Seq<u8>,
    downloaded: int,
    pieces: Seq<usize>,
    i: int,
)
    ensures
        ({
            let commit = committed(m, s, completed, downloaded, pieces);
            let among = exists|k: int| 0 <= k < pieces.len() && #[trigger] pieces[k] == i;
            &&& has_bit(commit.completed, i) ==> has_bit(completed, i) || among
            &&& has_bit(commit.swarm.completed, i) ==> has_bit(s.completed, i) || among
            &&& has_bit(completed, i) ==> has_bit(commit.completed, i)
            &&& commit.fault is None && among && has_room(completed, i) ==> has_bit(
                commit.completed,
                i,
            )
            &&& commit.completed.len() == completed.len()
        }),
    decreases pieces.len(),
{
    if pieces.len() > 0 {
        let front = pieces.drop_last();
        let piece = pieces.last();
        lemma_committed_bits(m, s, completed, downloaded, front, i);
        let before = committed(m, s, completed, downloaded, front);
        lemma_with_bit(before.completed, piece as int, i);
        lemma_with_bit(before.swarm.completed, piece as int, i);
        if exists|k: int| 0 <= k < front.len() && #[trigger] front[k] == i {
            let k = choose|k: int| 0 <= k < front.len() && #[trigger] front[k] == i;
            assert(pieces[k] == i);
        }
        assert(pieces[pieces.len() - 1] == piece);
        if i != piece && exists|k: int| 0 <= k < pieces.len() && #[trigger] pieces[k] == i {
            let k = choose|k: int| 0 <= k < pieces.len() && #[trigger] pieces[k] == i;
            assert(front[k] == i);
        }
    }
}

/// What was verified and written once stays so.
proof fn lemma_kept_grows(before: Course, later: Course, piece: int)
    requires
        before.verified.subset_of(later.verified),
        before.written.subset_of(later.written),
        is_kept(before, piece),
    ensures
        is_kept(later, piece),
{
    let data = choose|data: Seq<u8>| #[trigger]
        before.written.contains((piece, data)) && before.verified.contains((piece, data));
    assert(later.written.contains((piece, data)));
}

proof fn lemma_grows(course: Course, moment: Moment)
    ensures
        ({
            let later = after(course, moment);
            &&& course.verified.subset_of(later.verified)
            &&& course.written.subset_of(later.written)
            &&& later.initial == course.initial
            &&& later.initial_downloaded == course.initial_downloaded
            &&& later.metainfo == course.metainfo
        }),
{
}

proof fn lemma_stays_founded(course: Course, moment: Moment)
    requires
        is_sound(course),
        may_follow(course, moment),
    ensures
        is_founded(after(course, moment)),
{
    let later = after(course, moment);
    lemma_grows(course, moment);
    assert forall|found: (int, Seq<u8>)| #[trigger] later.verified.contains(found) implies is_right(
        later.metainfo,
        found.0,
        found.1,
    ) by {
        assert(course.verified.contains(found) || is_right(later.metainfo, found.0, found.1));
    }
    assert forall|piece: int| has_bit(later.completed, piece) || has_bit(
        later.run.swarm.completed,
        piece,
    ) implies is_earned(later, piece) by {
        if let Moment::Turn(notice, around) = moment {
            let c = Circumstances {
                around,
                metainfo: course.metainfo,
                downloaded: course.downloaded,
            };
            if is_flush(notice) {
                let pieces = notice->Flushed_0;
                lemma_committed_bits(
                    course.metainfo,
                    course.run.swarm,
                    course.completed,
                    course.downloaded,
                    pieces,
                    piece,
                );
                if exists|k: int| 0 <= k < pieces.len() && #[trigger] pieces[k] == piece {
                    let k = choose|k: int| 0 <= k < pieces.len() && #[trigger] pieces[k] == piece;
                    assert(is_kept(course, pieces[k] as int));
                } else {
                    assert(is_earned(course, piece));
                }
            } else {
                law_progress_needs_a_flush(course.run, notice, c);
                assert(is_earned(course, piece));
            }
        } else {
            assert(is_earned(course, piece));
        }
        if is_kept(course, piece) {
            lemma_kept_grows(course, later, piece);
        }
    }
}

/// Pieces whose data was verified and written stay so.
proof fn lemma_kept_all(before: Course, later: Course, pieces: Seq<usize>)
    requires
        before.verified.subset_of(later.verified),
        before.written.subset_of(later.written),
        forall|i: int| 0 <= i < pieces.len() ==> is_kept(before, #[trigger] pieces[i] as int),
    ensures
        forall|i: int| 0 <= i < pieces.len() ==> is_kept(later, #[trigger] pieces[i] as int),
{
    assert forall|i: int| 0 <= i < pieces.len() implies is_kept(
        later,
        #[trigger] pieces[i] as int,
    ) by {
        lemma_kept_grows(before, later, pieces[i] as int);
    }
}

proof fn lemma_verified_accounted(course: Course, notice: LoopNotice, around: Surroundings)
    requires
        is_sound(course),
        may_follow(course, Moment::Turn(notice, around)),
        notice is Verified,
        !after(course, Moment::Turn(notice, around)).over,
    ensures
        is_accounted(after(course, Moment::Turn(notice, around))),
{
    broadcast use to_multiset_build;

    let later = after(course, Moment::Turn(notice, around));
    let c = Circumstances { around, metainfo: course.metainfo, downloaded: course.downloaded };
    law_claims_follow_verification(course.run, notice, c);
    if let LoopNotice::Verified(worker, piece, data, outcome) = notice {
        let handed = Handed { worker, piece, data };
        let at = course.checking.index_of(handed);
        assert(0 <= at < course.checking.len());
        lemma_kept_all(course, later, course.run.pieces);
        lemma_kept_all(course, later, flushed_next(course.group));
        if outcome == Ok::<bool, Fault>(true) && !course.run.swarm.writing.contains(piece) {
            assert(later.writes == course.writes.push(handed));
            assert(pieces_of(later.writes) =~= pieces_of(course.writes).push(piece));
            assert(later.run.swarm.writing.to_multiset() =~= pieces_of(
                later.writes,
            ).to_multiset().add(later.run.pieces.to_multiset()).add(
                flushed_next(later.group).to_multiset(),
            ));
            assert forall|i: int| 0 <= i < later.writes.len() implies later.verified.contains(
                ((#[trigger] later.writes[i]).piece as int, later.writes[i].data),
            ) by {
                if i < course.writes.len() {
                    assert(later.writes[i] == course.writes[i]);
                }
            }
        } else {
            assert(later.writes == course.writes);
        }
    }
}

proof fn lemma_stored_accounted(course: Course, notice: LoopNotice, around: Surroundings)
    requires
        is_sound(course),
        may_follow(course, Moment::Turn(notice, around)),
        notice is Stored,
        !after(course, Moment::Turn(notice, around)).over,
    ensures
        is_accounted(after(course, Moment::Turn(notice, around))),
{
    broadcast use {to_multiset_build, to_multiset_remove};

    let later = after(course, Moment::Turn(notice, around));
    let c = Circumstances { around, metainfo: course.metainfo, downloaded: course.downloaded };
    law_claims_follow_verification(course.run, notice, c);
    if let LoopNotice::Stored(worker, piece, bytes, paths) = notice {
        let at = write_of(course.writes, worker, piece, bytes);
        let handed = course.writes[at];
        assert(0 <= at < course.writes.len() && is_write(handed, worker, piece, bytes));
        assert(later.run.pieces == course.run.pieces.push(piece));
        assert(pieces_of(later.writes) =~= pieces_of(course.writes).remove(at));
        assert(pieces_of(course.writes)[at] == piece);
        assert(pieces_of(course.writes).to_multiset().count(piece) > 0) by {
            to_multiset_contains(pieces_of(course.writes), piece);
        }
        assert(later.run.swarm.writing.to_multiset() =~= pieces_of(
            later.writes,
        ).to_multiset().add(later.run.pieces.to_multiset()).add(
            flushed_next(later.group).to_multiset(),
        ));
        lemma_kept_all(course, later, course.run.pieces);
        lemma_kept_all(course, later, flushed_next(course.group));
        assert(course.verified.contains((handed.piece as int, handed.data)));
        assert(later.written.contains((piece as int, handed.data)));
        assert(is_kept(later, piece as int));
        assert forall|i: int| 0 <= i < later.run.pieces.len() implies is_kept(
            later,
            #[trigger] later.run.pieces[i] as int,
        ) by {
            if i < course.run.pieces.len() {
                assert(later.run.pieces[i] == course.run.pieces[i]);
            }
        }
        assert forall|i: int| 0 <= i < later.writes.len() implies later.verified.contains(
            ((#[trigger] later.writes[i]).piece as int, later.writes[i].data),
        ) by {
            let from = if i < at { i } else { i + 1 };
            assert(later.writes[i] == course.writes[from]);
        }
    }
}

proof fn lemma_flushed_accounted(course: Course, notice: LoopNotice, around: Surroundings)
    requires
        is_sound(course),
        may_follow(course, Moment::Turn(notice, around)),
        notice is Flushed,
        !after(course, Moment::Turn(notice, around)).over,
    ensures
        is_accounted(after(course, Moment::Turn(notice, around))),
{
    let later = after(course, Moment::Turn(notice, around));
    if let LoopNotice::Flushed(pieces, error) = notice {
        let claims = course.run.swarm.writing.to_multiset();
        assert(pieces.to_multiset().subset_of(claims));
        lemma_committed_writing(
            course.metainfo,
            course.run.swarm,
            course.completed,
            course.downloaded,
            pieces,
        );
        let rest = Seq::<usize>::empty();
        to_multiset_len(rest);
        assert(rest.to_multiset() =~= Multiset::empty());
        assert(later.run.swarm.writing.to_multiset() =~= pieces_of(
            later.writes,
        ).to_multiset().add(later.run.pieces.to_multiset()).add(
            flushed_next(later.group).to_multiset(),
        ));
        lemma_kept_all(course, later, course.run.pieces);
    }
}

proof fn lemma_other_accounted(course: Course, notice: LoopNotice, around: Surroundings)
    requires
        is_sound(course),
        may_follow(course, Moment::Turn(notice, around)),
        !(notice is Verified),
        !(notice is Stored),
        !(notice is Flushed),
    ensures
        is_accounted(after(course, Moment::Turn(notice, around))),
{
    let later = after(course, Moment::Turn(notice, around));
    let c = Circumstances { around, metainfo: course.metainfo, downloaded: course.downloaded };
    law_claims_follow_verification(course.run, notice, c);
    lemma_kept_all(course, later, course.run.pieces);
    lemma_kept_all(course, later, flushed_next(course.group));
    if notice is FlushTick && later.group != course.group {
        let rest = Seq::<usize>::empty();
        to_multiset_len(rest);
        assert(rest.to_multiset() =~= Multiset::empty());
        assert(later.run.swarm.writing.to_multiset() =~= pieces_of(
            later.writes,
        ).to_multiset().add(later.run.pieces.to_multiset()).add(
            flushed_next(later.group).to_multiset(),
        ));
    }
}

/// Whether the picker is not told of any complete piece.
pub open spec fn tells_nothing(acts: Seq<SwarmAct>) -> bool {
    forall|i: int| 0 <= i < acts.len() ==> !((#[trigger] acts[i]) is MarkComplete)
}

proof fn lemma_removed_tells_nothing(s: SwarmModel, worker: usize)
    ensures
        tells_nothing(removed(s, worker).acts),
{
}

proof fn lemma_limit_tells_nothing(s: SwarmModel, entries: Seq<ReputationEntry>, now: u64)
    ensures
        tells_nothing(limit_enforced(s, entries, now).acts),
    decreases s.workers.len(),
{
    if s.workers.len() > s.peer_limit {
        if let Some(at) = lowest(s, entries, true, now) {
            let gone = removed(s, s.workers[at].worker);
            lemma_removed_tells_nothing(s, s.workers[at].worker);
            if gone.swarm.workers.len() < s.workers.len() {
                lemma_limit_tells_nothing(gone.swarm, entries, now);
            }
        }
    }
}

proof fn lemma_cancels_tell_nothing(workers: Seq<PeerModel>, piece: int, n: int)
    ensures
        tells_nothing(duplicate_cancels(workers, piece, n)),
        tells_nothing(spent_acts(workers, piece, n)),
    decreases n,
{
    if n > 0 {
        lemma_cancels_tell_nothing(workers, piece, n - 1);
    }
}

proof fn lemma_committed_tells_nothing(
    m: MetaModel,
    s: SwarmModel,
    completed: Seq<u8>,
    downloaded: int,
    pieces: Seq<usize>,
)
    ensures
        tells_nothing(committed(m, s, completed, downloaded, pieces).acts),
    decreases pieces.len(),
{
    if pieces.len() > 0 {
        lemma_committed_tells_nothing(m, s, completed, downloaded, pieces.drop_last());
        let before = committed(m, s, completed, downloaded, pieces.drop_last());
        lemma_cancels_tell_nothing(
            before.swarm.workers,
            pieces.last() as int,
            before.swarm.workers.len() as int,
        );
    }
}

proof fn lemma_noticed_tells_nothing(s: SwarmModel, notice: Notice, around: Surroundings)
    requires
        noticed(s, notice, around) is Ok,
    ensures
        tells_nothing(noticed(s, notice, around)->Ok_0.acts),
{
    match notice {
        Notice::Ready(worker, peer_id, bitfield, peers) => {
            let at = worker_at(s.workers, worker, 0);
            let settled = SwarmModel {
                connecting: max_of(s.connecting - 1, 0),
                schedule_dirty: true,
                ..s
            };
            let known = if at < s.workers.len() {
                with_worker(
                    settled,
                    at,
                    ready_peer(s, s.workers[at], peer_id, bitfield, around),
                )
            } else {
                settled
            };
            lemma_limit_tells_nothing(
                all_offered(known, around.own, peers, false, around.now),
                around.entries,
                around.now,
            );
        },
        Notice::Gone(worker, error) => {
            let at = worker_at(s.workers, worker, 0);
            let settled = if at < s.workers.len() && s.workers[at].bitfield is None {
                SwarmModel { connecting: max_of(s.connecting - 1, 0), ..s }
            } else {
                s
            };
            lemma_removed_tells_nothing(settled, worker);
        },
        _ => {},
    }
}

/// The picker is told that a piece is complete when it was written, and when
/// data arrives for one that is on record.
pub proof fn law_picker_is_told_of_written_pieces(
    r: RunModel,
    notice: LoopNotice,
    c: Circumstances,
    piece: int,
)
    requires
        told_by(turned(r, notice, c).acts).contains(piece),
    ensures
        ({
            ||| notice matches LoopNotice::Stored(_, stored, _, paths) && stored == piece
                && paths is Ok
            ||| notice matches LoopNotice::Complete(_, ended, _) && ended == piece && has_bit(
                c.around.completed,
                piece,
            )
        }),
{
    let acts = turned(r, notice, c).acts;
    let k = choose|k: int|
        0 <= k < acts.len() && acts[k] == SwarmAct::MarkComplete(piece);
    assert(acts[k] is MarkComplete);
    match notice {
        LoopNotice::Complete(worker, ended, outcome) => {
            if let Outcome::Failed(text) = outcome {
                let reserved = assigned_length(r.swarm, worker, ended as int);
                let noted = SwarmModel {
                    last_error: Some(text),
                    ..returned(
                        SwarmModel {
                            schedule_dirty: true,
                            ..taken(r.swarm, worker, ended as int)
                        },
                        reserved,
                    )
                };
                lemma_removed_tells_nothing(noted, worker);
            }
        },
        LoopNotice::Worker(event) => {
            if noticed(r.swarm, event, c.around) is Ok {
                lemma_noticed_tells_nothing(r.swarm, event, c.around);
            }
        },
        LoopNotice::Verified(worker, checked, data, outcome) => {
            let noted = SwarmModel {
                last_error: Some(corrupt_text(checked as int)),
                ..returned(
                    SwarmModel { schedule_dirty: true, ..r.swarm },
                    data.len() as int,
                )
            };
            lemma_removed_tells_nothing(noted, worker);
            lemma_cancels_tell_nothing(
                r.swarm.workers,
                checked as int,
                r.swarm.workers.len() as int,
            );
        },
        LoopNotice::Flushed(pieces, error) => {
            lemma_committed_tells_nothing(
                c.metainfo,
                r.swarm,
                c.around.completed,
                c.downloaded,
                pieces,
            );
        },
        LoopNotice::RetentionTick => {
            if let Some(at) = lowest(r.swarm, c.around.entries, false, c.around.now) {
                lemma_removed_tells_nothing(r.swarm, r.swarm.workers[at].worker);
            }
        },
        _ => {},
    }
}

/// When a swarm starts, the picker is told of the pieces that are on record.
pub proof fn law_picker_is_told_of_the_record(completed: Seq<u8>, n: int, piece: int)
    ensures
        told_by(done_below(completed, n)).contains(piece) <==> 0 <= piece < n && has_bit(
            completed,
            piece,
        ),
    decreases n,
{
    if n > 0 {
        law_picker_is_told_of_the_record(completed, n - 1, piece);
        let before = done_below(completed, n - 1);
        let all = done_below(completed, n);
        let act = SwarmAct::MarkComplete(piece);
        if before.contains(act) {
            let k = choose|k: int| 0 <= k < before.len() && before[k] == act;
            assert(all[k] == act);
        }
        if all.contains(act) && !before.contains(act) {
            let k = choose|k: int| 0 <= k < all.len() && all[k] == act;
            assert(k < before.len() ==> before[k] == act);
        }
        if has_bit(completed, n - 1) && piece == n - 1 {
            assert(all[before.len() as int] == act);
        }
    }
}

proof fn lemma_stays_settled(course: Course, moment: Moment)
    requires
        is_sound(course),
        may_follow(course, moment),
        !after(course, moment).over,
    ensures
        is_settled(after(course, moment)),
{
    let later = after(course, moment);
    if let Moment::Turn(notice, around) = moment {
        let c = Circumstances { around, metainfo: course.metainfo, downloaded: course.downloaded };
        assert forall|piece: int| #[trigger]
            later.told.contains(piece) && has_room(later.completed, piece) implies has_bit(
            later.completed,
            piece,
        ) || awaits_flush(later, piece) by {
            if is_flush(notice) {
                lemma_committed_bits(
                    course.metainfo,
                    course.run.swarm,
                    course.completed,
                    course.downloaded,
                    notice->Flushed_0,
                    piece,
                );
            } else {
                law_progress_needs_a_flush(course.run, notice, c);
            }
            if course.told.contains(piece) {
                assert(has_bit(course.completed, piece) || awaits_flush(course, piece));
            } else {
                law_picker_is_told_of_written_pieces(course.run, notice, c, piece);
            }
            let before = course.run.pieces;
            assert(!(notice is Stored) && !(notice is FlushTick) ==> later.run.pieces == before);
            assert(!(notice is Flushed) && !(notice is FlushTick) ==> later.group == course.group);
            if notice is FlushTick && later.group != course.group {
                if exists|i: int| 0 <= i < before.len() && #[trigger] before[i] == piece {
                    let i = choose|i: int| 0 <= i < before.len() && #[trigger] before[i] == piece;
                    assert(later.group->0[i] == piece);
                }
            }
            if notice is Stored {
                assert(later.run.pieces == before.push(notice->Stored_1));
                assert(later.run.pieces[before.len() as int] == notice->Stored_1);
                if exists|i: int| 0 <= i < before.len() && #[trigger] before[i] == piece {
                    let i = choose|i: int| 0 <= i < before.len() && #[trigger] before[i] == piece;
                    assert(later.run.pieces[i] == piece);
                }
            }
        }
    }
}

/// Whatever happens to a swarm, the pieces that count as complete were complete
/// at its start, or were verified and written since; and as long as no fault
/// has ended it, the pieces that are claimed for writing are exactly those on
/// their way to disk.
pub proof fn law_every_turn_keeps_the_course_sound(course: Course, moment: Moment)
    requires
        is_sound(course),
        may_follow(course, moment),
    ensures
        is_sound(after(course, moment)),
{
    lemma_stays_founded(course, moment);
    let later = after(course, moment);
    match moment {
        Moment::Turn(notice, around) => {
            if !later.over {
                lemma_stays_settled(course, moment);
                if notice is Verified {
                    lemma_verified_accounted(course, notice, around);
                } else if notice is Stored {
                    lemma_stored_accounted(course, notice, around);
                } else if notice is Flushed {
                    lemma_flushed_accounted(course, notice, around);
                } else {
                    lemma_other_accounted(course, notice, around);
                }
            }
        },
        Moment::Between(run) => {
            lemma_stays_settled(course, moment);
            lemma_kept_all(course, later, course.run.pieces);
            lemma_kept_all(course, later, flushed_next(course.group));
        },
    }
}

proof fn lemma_slots_keep(s: SwarmModel, now: u64)
    ensures
        same_claims(s, slots_filled(s, now).swarm),
    decreases s.candidates.len(),
{
    if may_connect(s) {
        let next = joined(
            SwarmModel { candidates: s.candidates.drop_first(), ..s },
            s.candidates[0].address,
            now,
        );
        lemma_slots_keep(next, now);
    }
}

proof fn lemma_next_turn_keeps(s: SwarmModel, pass: Pass)
    ensures
        same_claims(s, next_turn(s, pass).swarm),
    decreases pass.order.len() - pass.at,
{
    if 0 <= pass.at < pass.order.len() {
        let worker = pass.order[pass.at];
        if !takes_more(s, worker, pass.granted) {
            lemma_next_turn_keeps(
                served(s, worker, pass.granted),
                Pass { at: pass.at + 1, granted: 0, ..pass },
            );
        }
    }
}

/// Between its turns, when peers are connected to and pieces are handed to
/// workers, a swarm neither completes a piece nor claims one for writing, nor
/// lets go of one.
pub proof fn law_scheduling_claims_nothing(
    s: SwarmModel,
    pass: Pass,
    worker: usize,
    piece: usize,
    length: usize,
    now: u64,
)
    ensures
        same_claims(s, slots_filled(s, now).swarm),
        same_claims(s, next_turn(s, pass).swarm),
        same_claims(s, nothing_picked(s, pass, worker)),
        forall|bytes: int| same_claims(s, #[trigger] returned(s, bytes)),
        same_claims(s, assigned(s, worker, piece, length)),
        same_claims(s, refused(s, worker, piece as int, length as int).swarm),
{
    lemma_slots_keep(s, now);
    lemma_next_turn_keeps(s, pass);
    lemma_removed_keeps(returned(s, length as int), worker);
}

/// A swarm that sets to work has handed nothing out, and counts as complete
/// what is on record.
pub proof fn law_swarm_starts_fresh(
    record: TorrentRecord,
    pieces: int,
    peer_limit: int,
    shared: DownloadBudget,
    own: SelfAddresses,
    peers: Seq<SocketAddress>,
    searching: bool,
    now: u64,
)
    ensures
        ({
            let offered = all_offered(
                empty_swarm(record, pieces, peer_limit, shared),
                own,
                peers,
                false,
                now,
            );
            is_fresh(
                started(slots_filled(offered, now).swarm, searching, now),
                record.completed_pieces@,
            )
        }),
{
    let empty = empty_swarm(record, pieces, peer_limit, shared);
    lemma_offered_keeps(empty, own, peers, false, now);
    lemma_slots_keep(all_offered(empty, own, peers, false, now), now);
}

/// The course of a swarm is sound from its start on, whatever happens to it.
pub proof fn law_course_is_sound(
    run: RunModel,
    metainfo: MetaModel,
    completed: Seq<u8>,
    downloaded: int,
    moments: Seq<Moment>,
)
    requires
        is_fresh(run, completed),
        all_may_follow(begun(run, metainfo, completed, downloaded), moments),
    ensures
        is_sound(after_all(begun(run, metainfo, completed, downloaded), moments)),
    decreases moments.len(),
{
    let start = begun(run, metainfo, completed, downloaded);
    if moments.len() == 0 {
        let rest = Seq::<usize>::empty();
        assert(run.pieces =~= rest);
        assert(run.swarm.writing =~= rest);
        assert(pieces_of(start.writes) =~= rest);
        to_multiset_len(rest);
        assert(rest.to_multiset() =~= Multiset::empty());
        assert(rest.to_multiset().add(rest.to_multiset()).add(rest.to_multiset())
            =~= rest.to_multiset());
    } else {
        law_course_is_sound(run, metainfo, completed, downloaded, moments.drop_last());
        law_every_turn_keeps_the_course_sound(
            after_all(start, moments.drop_last()),
            moments.last(),
        );
    }
}

proof fn lemma_initial_stays(course: Course, moments: Seq<Moment>)
    ensures
        after_all(course, moments).initial == course.initial,
        after_all(course, moments).initial_downloaded == course.initial_downloaded,
        after_all(course, moments).metainfo == course.metainfo,
    decreases moments.len(),
{
    if moments.len() > 0 {
        lemma_initial_stays(course, moments.drop_last());
        lemma_grows(after_all(course, moments.drop_last()), moments.last());
    }
}

/// A piece counts as complete, in the swarm or on record, only if it was so
/// when the swarm started, or if data was written for it that was verified
/// before and that matches every hash that is known of it.
pub proof fn law_complete_pieces_were_verified_and_written(
    run: RunModel,
    metainfo: MetaModel,
    completed: Seq<u8>,
    downloaded: int,
    moments: Seq<Moment>,
    piece: int,
)
    requires
        is_fresh(run, completed),
        all_may_follow(begun(run, metainfo, completed, downloaded), moments),
    ensures
        ({
            let course = after_all(begun(run, metainfo, completed, downloaded), moments);
            has_bit(course.completed, piece) || has_bit(course.run.swarm.completed, piece)
                ==> has_bit(completed, piece) || exists|data: Seq<u8>|
                {
                    &&& #[trigger] course.written.contains((piece, data))
                    &&& course.verified.contains((piece, data))
                    &&& is_right(metainfo, piece, data)
                }
        }),
{
    let start = begun(run, metainfo, completed, downloaded);
    law_course_is_sound(run, metainfo, completed, downloaded, moments);
    lemma_initial_stays(start, moments);
    let course = after_all(start, moments);
    if has_bit(course.completed, piece) || has_bit(course.run.swarm.completed, piece) {
        assert(is_earned(course, piece));
        if !has_bit(completed, piece) {
            let data = choose|data: Seq<u8>| #[trigger]
                course.written.contains((piece, data)) && course.verified.contains((piece, data));
            assert(course.verified.contains((piece, data)));
        }
    }
}

/// A piece that was written stays claimed, so that nobody else's data for it is
/// written, until it was flushed.
pub proof fn law_written_pieces_stay_claimed(course: Course, piece: usize)
    requires
        is_sound(course),
        !course.over,
        course.run.pieces.contains(piece) || flushed_next(course.group).contains(piece)
            || pieces_of(course.writes).contains(piece),
    ensures
        course.run.swarm.writing.contains(piece),
{
    broadcast use to_multiset_contains;

    assert(course.run.swarm.writing.to_multiset().count(piece) > 0);
}

/// A swarm that is done has on record every piece that the picker was told is
/// complete.
pub proof fn law_finished_swarm_is_on_record(course: Course, piece: int)
    requires
        is_sound(course),
        !course.over,
        !has_pending_io(course.run),
        course.told.contains(piece),
        has_room(course.completed, piece),
    ensures
        has_bit(course.completed, piece),
{
    law_idle_swarm_owes_nothing(course);
}

/// Once nothing is on its way to disk any more, everything that was handed out
/// was heard of, and no piece is claimed for writing.
pub proof fn law_idle_swarm_owes_nothing(course: Course)
    requires
        is_sound(course),
        !course.over,
        !has_pending_io(course.run),
    ensures
        course.checking.len() == 0,
        course.writes.len() == 0,
        course.group is None,
        course.run.swarm.writing.len() == 0,
{
    broadcast use to_multiset_len;

    assert(pieces_of(course.writes).to_multiset().len() == 0);
    assert(course.run.swarm.writing.to_multiset().len() == 0);
}

/// The bytes of content of a piece.
pub open spec fn content_bytes(m: MetaModel, piece: int) -> int {
    content_size(m, piece)->Ok_0
}

/// The content of the pieces below `n` that are complete and were not before.
pub open spec fn gained_content(
    m: MetaModel,
    initial: Seq<u8>,
    completed: Seq<u8>,
    n: int,
) -> int
    decreases n,
{
    if n <= 0 {
        0
    } else {
        gained_content(m, initial, completed, n - 1) + if has_bit(completed, n - 1) && !has_bit(
            initial,
            n - 1,
        ) {
            content_bytes(m, n - 1)
        } else {
            0
        }
    }
}

/// Whether a piece that is verified is not on record yet, and has a bit there.
pub open spec fn is_first_time(course: Course, moment: Moment) -> bool {
    moment matches Moment::Turn(LoopNotice::Verified(_, piece, _, _), _) ==> has_room(
        course.completed,
        piece as int,
    ) && !has_bit(course.completed, piece as int)
}

/// Whether no piece is verified again once it is on record.
pub open spec fn all_first_time(course: Course, moments: Seq<Moment>) -> bool
    decreases moments.len(),
{
    moments.len() > 0 ==> all_first_time(course, moments.drop_last()) && is_first_time(
        after_all(course, moments.drop_last()),
        moments.last(),
    )
}

/// Whether exactly the content of the pieces that were completed was counted.
pub open spec fn is_counted(course: Course) -> bool {
    &&& course.downloaded == course.initial_downloaded + gained_content(
        course.metainfo,
        course.initial,
        course.completed,
        course.completed.len() as int * 8,
    )
    &&& forall|piece: int| #[trigger]
        has_bit(course.initial, piece) ==> has_bit(course.completed, piece)
    &&& forall|i: int|
        0 <= i < course.run.swarm.writing.len() ==> has_room(
            course.completed,
            (#[trigger] course.run.swarm.writing[i]) as int,
        ) && !has_bit(course.completed, course.run.swarm.writing[i] as int)
}

proof fn lemma_gained_one(
    m: MetaModel,
    initial: Seq<u8>,
    completed: Seq<u8>,
    piece: int,
    n: int,
)
    requires
        0 <= piece,
        has_room(completed, piece),
        !has_bit(completed, piece),
        !has_bit(initial, piece),
    ensures
        gained_content(m, initial, with_bit(completed, piece), n) == gained_content(
            m,
            initial,
            completed,
            n,
        ) + if piece < n {
            content_bytes(m, piece)
        } else {
            0
        },
    decreases n,
{
    if n > 0 {
        lemma_gained_one(m, initial, completed, piece, n - 1);
        lemma_with_bit(completed, piece, n - 1);
    }
}

proof fn lemma_gained_nothing(m: MetaModel, completed: Seq<u8>, n: int)
    ensures
        gained_content(m, completed, completed, n) == 0,
    decreases n,
{
    if n > 0 {
        lemma_gained_nothing(m, completed, n - 1);
    }
}

/// Committing pieces for the first time counts their content.
proof fn lemma_committed_counts(
    m: MetaModel,
    s: SwarmModel,
    initial: Seq<u8>,
    completed: Seq<u8>,
    downloaded: int,
    pieces: Seq<usize>,
)
    requires
        pieces.no_duplicates(),
        forall|piece: int| #[trigger] has_bit(initial, piece) ==> has_bit(completed, piece),
        forall|i: int|
            0 <= i < pieces.len() ==> has_room(completed, (#[trigger] pieces[i]) as int)
                && !has_bit(completed, pieces[i] as int),
        committed(m, s, completed, downloaded, pieces).fault is None,
    ensures
        ({
            let commit = committed(m, s, completed, downloaded, pieces);
            let n = completed.len() as int * 8;
            commit.downloaded - downloaded == gained_content(m, initial, commit.completed, n)
                - gained_content(m, initial, completed, n)
        }),
    decreases pieces.len(),
{
    if pieces.len() > 0 {
        let front = pieces.drop_last();
        let piece = pieces.last() as int;
        assert(pieces[pieces.len() - 1] == piece);
        assert forall|i: int| 0 <= i < front.len() implies has_room(
            completed,
            (#[trigger] front[i]) as int,
        ) && !has_bit(completed, front[i] as int) by {
            assert(front[i] == pieces[i]);
        }
        lemma_committed_counts(m, s, initial, completed, downloaded, front);
        let before = committed(m, s, completed, downloaded, front);
        lemma_committed_bits(m, s, completed, downloaded, front, piece);
        if exists|k: int| 0 <= k < front.len() && #[trigger] front[k] == piece {
            let k = choose|k: int| 0 <= k < front.len() && #[trigger] front[k] == piece;
            assert(pieces[k] == pieces[pieces.len() - 1]);
        }
        assert(!has_bit(initial, piece));
        lemma_gained_one(m, initial, before.completed, piece, completed.len() as int * 8);
    }
}

proof fn lemma_flush_stays_counted(course: Course, pieces: Seq<usize>, around: Surroundings)
    requires
        is_sound(course),
        is_counted(course),
        may_follow(course, Moment::Turn(LoopNotice::Flushed(pieces, None), around)),
        !after(course, Moment::Turn(LoopNotice::Flushed(pieces, None), around)).over,
    ensures
        is_counted(after(course, Moment::Turn(LoopNotice::Flushed(pieces, None), around))),
{
    broadcast use to_multiset_contains;

    let later = after(course, Moment::Turn(LoopNotice::Flushed(pieces, None), around));
    let writing = course.run.swarm.writing;
    let claims = writing.to_multiset();
    assert(pieces.to_multiset().subset_of(claims));
    writing.lemma_multiset_has_no_duplicates();
    assert forall|x: usize| pieces.to_multiset().contains(x) implies pieces.to_multiset().count(x)
        == 1 by {
        assert(claims.contains(x));
    }
    pieces.lemma_multiset_has_no_duplicates_conv();
    assert forall|i: int| 0 <= i < pieces.len() implies has_room(
        course.completed,
        (#[trigger] pieces[i]) as int,
    ) && !has_bit(course.completed, pieces[i] as int) by {
        assert(pieces.contains(pieces[i]));
        assert(claims.count(pieces[i]) > 0);
        let k = choose|k: int| 0 <= k < writing.len() && writing[k] == pieces[i];
        assert(has_room(course.completed, writing[k] as int));
    }
    lemma_committed_counts(
        course.metainfo,
        course.run.swarm,
        course.initial,
        course.completed,
        course.downloaded,
        pieces,
    );
    lemma_committed_writing(
        course.metainfo,
        course.run.swarm,
        course.completed,
        course.downloaded,
        pieces,
    );
    assert forall|piece: int| #[trigger] has_bit(later.initial, piece) implies has_bit(
        later.completed,
        piece,
    ) by {
        assert(has_bit(course.initial, piece));
        lemma_committed_bits(
            course.metainfo,
            course.run.swarm,
            course.completed,
            course.downloaded,
            pieces,
            piece,
        );
    }
    lemma_committed_bits(
        course.metainfo,
        course.run.swarm,
        course.completed,
        course.downloaded,
        pieces,
        0,
    );
    let left = later.run.swarm.writing;
    assert forall|i: int| 0 <= i < left.len() implies has_room(
        later.completed,
        (#[trigger] left[i]) as int,
    ) && !has_bit(later.completed, left[i] as int) by {
        let piece = left[i];
        assert(left.contains(piece));
        assert(left.to_multiset().count(piece) > 0);
        assert(claims.count(piece) > 0);
        assert(claims.contains(piece));
        assert(claims.count(piece) == 1);
        assert(pieces.to_multiset().count(piece) == 0);
        let k = choose|k: int| 0 <= k < writing.len() && writing[k] == piece;
        assert(has_room(course.completed, writing[k] as int));
        lemma_committed_bits(
            course.metainfo,
            course.run.swarm,
            course.completed,
            course.downloaded,
            pieces,
            piece as int,
        );
        if exists|k: int| 0 <= k < pieces.len() && #[trigger] pieces[k] == piece as int {
            let k = choose|k: int| 0 <= k < pieces.len() && #[trigger] pieces[k] == piece as int;
            assert(pieces.contains(piece));
        }
    }
}

proof fn lemma_stays_counted(course: Course, moment: Moment)
    requires
        is_sound(course),
        is_counted(course),
        may_follow(course, moment),
        is_first_time(course, moment),
        !after(course, moment).over,
    ensures
        is_counted(after(course, moment)),
{
    let later = after(course, moment);
    if let Moment::Turn(notice, around) = moment {
        let c = Circumstances { around, metainfo: course.metainfo, downloaded: course.downloaded };
        if is_flush(notice) {
            lemma_flush_stays_counted(course, notice->Flushed_0, around);
        } else {
            law_progress_needs_a_flush(course.run, notice, c);
            law_claims_follow_verification(course.run, notice, c);
        }
    }
}

/// What is on record as downloaded grows by exactly the content of the pieces
/// that come to be on record as complete, as long as no fault ends the swarm
/// and nobody's copy of a piece is verified once the piece is on record.
pub proof fn law_downloads_are_counted_once(
    run: RunModel,
    metainfo: MetaModel,
    completed: Seq<u8>,
    downloaded: int,
    moments: Seq<Moment>,
)
    requires
        is_fresh(run, completed),
        all_may_follow(begun(run, metainfo, completed, downloaded), moments),
        all_first_time(begun(run, metainfo, completed, downloaded), moments),
        !after_all(begun(run, metainfo, completed, downloaded), moments).over,
    ensures
        ({
            let course = after_all(begun(run, metainfo, completed, downloaded), moments);
            &&& course.completed.len() == completed.len()
            &&& course.downloaded == downloaded + gained_content(
                metainfo,
                completed,
                course.completed,
                completed.len() as int * 8,
            )
            &&& is_counted(course)
        }),
    decreases moments.len(),
{
    let start = begun(run, metainfo, completed, downloaded);
    lemma_initial_stays(start, moments);
    if moments.len() == 0 {
        lemma_gained_nothing(metainfo, completed, completed.len() as int * 8);
    } else {
        let front = moments.drop_last();
        let before = after_all(start, front);
        law_downloads_are_counted_once(run, metainfo, completed, downloaded, front);
        law_course_is_sound(run, metainfo, completed, downloaded, front);
        lemma_stays_counted(before, moments.last());
        lemma_length_stays(before, moments.last());
    }
}

proof fn lemma_length_stays(course: Course, moment: Moment)
    requires
        may_follow(course, moment),
    ensures
        after(course, moment).completed.len() == course.completed.len(),
{
    if let Moment::Turn(notice, around) = moment {
        let c = Circumstances { around, metainfo: course.metainfo, downloaded: course.downloaded };
        if is_flush(notice) {
            lemma_committed_bits(
                course.metainfo,
                course.run.swarm,
                course.completed,
                course.downloaded,
                notice->Flushed_0,
                0,
            );
        } else {
            law_progress_needs_a_flush(course.run, notice, c);
        }
    }
}

} // verus!
