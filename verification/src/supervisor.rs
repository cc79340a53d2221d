//! Which torrents have an actor at work: commands start, stop and replace
//! actors, and an actor that ends is forgotten unless it was replaced.

use crate::error::TorrentId;
use vstd::prelude::*;
use vstd::string::StringExecFns;

verus! {

/// Why a command could not be carried out.
#[derive(Clone, Copy, Debug, Eq, PartialEq, Structural)]
pub enum EngineError {
    /// The torrent engine stopped.
    Stopped,
}

impl EngineError {
    /// The error in words.
    pub fn message(&self) -> (text: String)
        ensures
            text@ == "torrent engine stopped"@,
    {
        String::from_str("torrent engine stopped")
    }
}

/// What the engine is asked to do.
#[derive(Clone, Copy, Debug, Eq, PartialEq, Structural)]
pub enum EngineCommand {
    Start(TorrentId),
    Pause(TorrentId),
    Recheck(TorrentId),
    Forget(TorrentId),
    Shutdown,
}

/// What an actor does.
#[derive(Clone, Copy, Debug, Eq, PartialEq, Structural)]
pub enum ActorMode {
    Start,
    Recheck,
}

/// A torrent's actor at work.
#[derive(Clone, Copy, Debug, Eq, PartialEq, Structural)]
pub struct ActiveActor {
    pub id: TorrentId,
    /// Tells the actor from those that worked on the torrent before it.
    pub generation: u64,
}

/// What has to be done, in order.
#[derive(Clone, Copy, Debug, Eq, PartialEq, Structural)]
pub enum SupervisorAction {
    /// Ask an actor to end.
    Cancel(ActiveActor),
    /// Wait until an actor has ended.
    Join(ActiveActor),
    Spawn { actor: ActiveActor, mode: ActorMode },
    /// Store that a torrent is stopped.
    StoreStopped(TorrentId),
    /// Let go of what is kept in memory for a torrent's uploads.
    ForgetContent(TorrentId),
    /// Ask all background tasks to end, and wait until they have.
    StopBackground,
    /// Tell whoever asked that it is done.
    Reply,
}

/// The position of a torrent's actor at or after `from`, or the length.
pub open spec fn actor_at(active: Seq<ActiveActor>, id: TorrentId, from: int) -> int
    decreases active.len() - from,
{
    if from < 0 || from >= active.len() || active[from].id == id {
        from
    } else {
        actor_at(active, id, from + 1)
    }
}

/// The actors without a torrent's actor.
pub open spec fn without_actor(active: Seq<ActiveActor>, id: TorrentId) -> Seq<ActiveActor> {
    let at = actor_at(active, id, 0);
    if at < active.len() {
        active.remove(at)
    } else {
        active
    }
}

/// How a torrent's actor is stopped, if there is one.
pub open spec fn stopping(active: Seq<ActiveActor>, id: TorrentId) -> Seq<SupervisorAction> {
    let at = actor_at(active, id, 0);
    if at < active.len() {
        seq![SupervisorAction::Cancel(active[at]), SupervisorAction::Join(active[at])]
    } else {
        Seq::empty()
    }
}

/// How all actors are stopped: they are all asked to end before any is waited for.
pub open spec fn stopping_all(active: Seq<ActiveActor>) -> Seq<SupervisorAction> {
    Seq::new(active.len(), |i: int| SupervisorAction::Cancel(active[i])) + Seq::new(
        active.len(),
        |i: int| SupervisorAction::Join(active[i]),
    )
}

pub open spec fn next_generation_of(generation: int) -> int {
    if generation == u64::MAX {
        0
    } else {
        generation + 1
    }
}

/// No torrent has two actors.
pub open spec fn one_each(active: Seq<ActiveActor>) -> bool {
    forall|i: int, j: int|
        0 <= i < j < active.len() ==> (#[trigger] active[i]).id != (#[trigger] active[j]).id
}

/// The actors after a command.
pub open spec fn active_after(
    active: Seq<ActiveActor>,
    generation: int,
    command: EngineCommand,
) -> Seq<ActiveActor> {
    match command {
        EngineCommand::Start(id) | EngineCommand::Recheck(id) => without_actor(active, id).push(
            ActiveActor { id, generation: next_generation_of(generation) as u64 },
        ),
        EngineCommand::Pause(id) | EngineCommand::Forget(id) => without_actor(active, id),
        EngineCommand::Shutdown => Seq::empty(),
    }
}

/// What a command asks for.
pub open spec fn actions_for(
    active: Seq<ActiveActor>,
    generation: int,
    command: EngineCommand,
) -> Seq<SupervisorAction> {
    match command {
        EngineCommand::Start(id) => stopping(active, id).push(
            SupervisorAction::Spawn {
                actor: ActiveActor { id, generation: next_generation_of(generation) as u64 },
                mode: ActorMode::Start,
            },
        ),
        EngineCommand::Recheck(id) => stopping(active, id).push(
            SupervisorAction::Spawn {
                actor: ActiveActor { id, generation: next_generation_of(generation) as u64 },
                mode: ActorMode::Recheck,
            },
        ),
        EngineCommand::Pause(id) => stopping(active, id).push(
            SupervisorAction::StoreStopped(id),
        ).push(SupervisorAction::Reply),
        EngineCommand::Forget(id) => stopping(active, id).push(
            SupervisorAction::ForgetContent(id),
        ).push(SupervisorAction::Reply),
        EngineCommand::Shutdown => stopping_all(active).push(
            SupervisorAction::StopBackground,
        ).push(SupervisorAction::Reply),
    }
}

/// The actors at work.
#[derive(Debug)]
pub struct Supervisor {
    pub active: Vec<ActiveActor>,
    pub next_generation: u64,
}

impl Supervisor {
    pub open spec fn wf(&self) -> bool {
        one_each(self.active@)
    }

    pub fn new() -> (supervisor: Self)
        ensures
            supervisor.wf(),
            supervisor.active@.len() == 0,
            supervisor.next_generation == 0,
    {
        Self { active: Vec::new(), next_generation: 0 }
    }

    fn find(&self, id: TorrentId) -> (result: Option<usize>)
        ensures
            match result {
                Some(at) => at < self.active@.len() && at == actor_at(self.active@, id, 0)
                    && self.active@[at as int].id == id,
                None => actor_at(self.active@, id, 0) == self.active@.len(),
            },
    {
        let mut i: usize = 0;
        while i < self.active.len()
            invariant
                i <= self.active@.len(),
                actor_at(self.active@, id, 0) == actor_at(self.active@, id, i as int),
            decreases self.active@.len() - i,
        {
            if self.active[i].id == id {
                return Some(i);
            }
            i += 1;
        }
        None
    }

    fn stop_actor(&mut self, id: TorrentId) -> (actions: Vec<SupervisorAction>)
        requires
            old(self).wf(),
        ensures
            final(self).wf(),
            final(self).next_generation == old(self).next_generation,
            final(self).active@ == without_actor(old(self).active@, id),
            actions@ == stopping(old(self).active@, id),
            forall|i: int|
                0 <= i < final(self).active@.len() ==> (#[trigger] final(self).active@[i]).id
                    != id,
    {
        let mut actions: Vec<SupervisorAction> = Vec::new();
        if let Some(at) = self.find(id) {
            let actor = self.active[at];
            self.active.remove(at);
            actions.push(SupervisorAction::Cancel(actor));
            actions.push(SupervisorAction::Join(actor));
            assert(actions@ =~= stopping(old(self).active@, id));
        } else {
            proof {
                lemma_absent(self.active@, id, 0);
            }
            assert(actions@ =~= stopping(old(self).active@, id));
        }
        actions
    }

    /// Stops every actor, as when no command can come any more.
    pub fn stop_all_actors(&mut self) -> (actions: Vec<SupervisorAction>)
        ensures
            final(self).wf(),
            final(self).active@.len() == 0,
            final(self).next_generation == old(self).next_generation,
            actions@ == stopping_all(old(self).active@),
    {
        let ghost active = self.active@;
        let mut actions: Vec<SupervisorAction> = Vec::new();
        let mut i: usize = 0;
        while i < self.active.len()
            invariant
                active == self.active@,
                self.next_generation == old(self).next_generation,
                i <= active.len(),
                actions@ == Seq::new(i as nat, |k: int| SupervisorAction::Cancel(active[k])),
            decreases active.len() - i,
        {
            actions.push(SupervisorAction::Cancel(self.active[i]));
            i += 1;
            assert(actions@ =~= Seq::new(i as nat, |k: int| SupervisorAction::Cancel(active[k])));
        }
        let mut j: usize = 0;
        assert(actions@ =~= Seq::new(
            active.len(),
            |k: int| SupervisorAction::Cancel(active[k]),
        ) + Seq::new(0, |k: int| SupervisorAction::Join(active[k])));
        while j < self.active.len()
            invariant
                active == self.active@,
                self.next_generation == old(self).next_generation,
                j <= active.len(),
                actions@ == Seq::new(active.len(), |k: int| SupervisorAction::Cancel(active[k]))
                    + Seq::new(j as nat, |k: int| SupervisorAction::Join(active[k])),
            decreases active.len() - j,
        {
            actions.push(SupervisorAction::Join(self.active[j]));
            j += 1;
            assert(actions@ =~= Seq::new(
                active.len(),
                |k: int| SupervisorAction::Cancel(active[k]),
            ) + Seq::new(j as nat, |k: int| SupervisorAction::Join(active[k])));
        }
        self.active = Vec::new();
        actions
    }

    fn start_actor(&mut self, id: TorrentId, mode: ActorMode) -> (actions: Vec<SupervisorAction>)
        requires
            old(self).wf(),
        ensures
            final(self).wf(),
            final(self).next_generation == next_generation_of(old(self).next_generation as int),
            ({
                let actor = ActiveActor {
                    id,
                    generation: next_generation_of(old(self).next_generation as int) as u64,
                };
                &&& final(self).active@ == without_actor(old(self).active@, id).push(actor)
                &&& actions@ == stopping(old(self).active@, id).push(
                    SupervisorAction::Spawn { actor, mode },
                )
            }),
    {
        let mut actions = self.stop_actor(id);
        self.next_generation = self.next_generation.wrapping_add(1);
        let actor = ActiveActor { id, generation: self.next_generation };
        self.active.push(actor);
        actions.push(SupervisorAction::Spawn { actor, mode });
        actions
    }

    /// Carries out a command. No command is taken after a shutdown.
    pub fn handle(&mut self, command: EngineCommand) -> (actions: Vec<SupervisorAction>)
        requires
            old(self).wf(),
        ensures
            final(self).wf(),
            final(self).active@ == active_after(
                old(self).active@,
                old(self).next_generation as int,
                command,
            ),
            final(self).next_generation == (if command is Start || command is Recheck {
                next_generation_of(old(self).next_generation as int)
            } else {
                old(self).next_generation as int
            }),
            actions@ == actions_for(
                old(self).active@,
                old(self).next_generation as int,
                command,
            ),
    {
        match command {
            EngineCommand::Start(id) => self.start_actor(id, ActorMode::Start),
            EngineCommand::Recheck(id) => self.start_actor(id, ActorMode::Recheck),
            EngineCommand::Pause(id) => {
                let mut actions = self.stop_actor(id);
                actions.push(SupervisorAction::StoreStopped(id));
                actions.push(SupervisorAction::Reply);
                actions
            },
            EngineCommand::Forget(id) => {
                let mut actions = self.stop_actor(id);
                actions.push(SupervisorAction::ForgetContent(id));
                actions.push(SupervisorAction::Reply);
                actions
            },
            EngineCommand::Shutdown => {
                let mut actions = self.stop_all_actors();
                actions.push(SupervisorAction::StopBackground);
                actions.push(SupervisorAction::Reply);
                assert(self.active@ =~= Seq::empty());
                actions
            },
        }
    }

    /// An actor ended. One that was replaced meanwhile changes nothing.
    pub fn actor_ended(&mut self, actor: ActiveActor)
        requires
            old(self).wf(),
        ensures
            final(self).wf(),
            final(self).next_generation == old(self).next_generation,
            final(self).active@ == (if old(self).active@.contains(actor) {
                without_actor(old(self).active@, actor.id)
            } else {
                old(self).active@
            }),
    {
        match self.find(actor.id) {
            Some(at) => {
                proof {
                    if self.active@.contains(actor) {
                        let i = choose|i: int| 0 <= i < self.active@.len() && self.active@[i] == actor;
                        assert(self.active@[i].id == self.active@[at as int].id);
                        assert(i == at);
                    }
                }
                if self.active[at].generation == actor.generation {
                    assert(self.active@[at as int] == actor);
                    self.active.remove(at);
                }
            },
            None => {
                proof {
                    lemma_absent(self.active@, actor.id, 0);
                }
            },
        }
    }
}

proof fn lemma_absent(active: Seq<ActiveActor>, id: TorrentId, from: int)
    requires
        0 <= from <= active.len(),
        actor_at(active, id, from) == active.len(),
    ensures
        forall|i: int| from <= i < active.len() ==> (#[trigger] active[i]).id != id,
    decreases active.len() - from,
{
    if from < active.len() {
        lemma_absent(active, id, from + 1);
    }
}

proof fn lemma_actor_found(active: Seq<ActiveActor>, id: TorrentId, from: int)
    requires
        0 <= from <= active.len(),
    ensures
        from <= actor_at(active, id, from) <= active.len(),
        actor_at(active, id, from) < active.len() ==> active[actor_at(active, id, from)].id == id,
    decreases active.len() - from,
{
    if from < active.len() && active[from].id != id {
        lemma_actor_found(active, id, from + 1);
    }
}

/// A command about one torrent leaves the actors of all other torrents at work.
pub proof fn law_other_torrents_go_on(
    active: Seq<ActiveActor>,
    generation: int,
    command: EngineCommand,
    actor: ActiveActor,
)
    requires
        one_each(active),
        active.contains(actor),
        match command {
            EngineCommand::Start(id)
            | EngineCommand::Recheck(id)
            | EngineCommand::Pause(id)
            | EngineCommand::Forget(id) => id != actor.id,
            EngineCommand::Shutdown => false,
        },
    ensures
        active_after(active, generation, command).contains(actor),
{
    let id = match command {
        EngineCommand::Start(id)
        | EngineCommand::Recheck(id)
        | EngineCommand::Pause(id)
        | EngineCommand::Forget(id) => id,
        EngineCommand::Shutdown => actor.id,
    };
    lemma_actor_found(active, id, 0);
    let i = choose|i: int| 0 <= i < active.len() && active[i] == actor;
    let at = actor_at(active, id, 0);
    let rest = without_actor(active, id);
    if at < active.len() && i > at {
        assert(rest[i - 1] == actor);
    } else {
        assert(rest[i] == actor);
    }
    let after = active_after(active, generation, command);
    if command is Start || command is Recheck {
        let k = if at < active.len() && i > at {
            i - 1
        } else {
            i
        };
        assert(after[k] == actor);
    }
}

/// Before a torrent's actor is replaced, its paused state is stored, its
/// content is forgotten or the engine replies, the actor that was at work on it
/// was cancelled and has ended.
pub proof fn law_actors_end_before_what_follows(
    active: Seq<ActiveActor>,
    generation: int,
    id: TorrentId,
    at: int,
)
    requires
        0 <= at < active.len(),
        active[at].id == id,
        one_each(active),
    ensures
        forall|command: EngineCommand|
            command == EngineCommand::Start(id) || command == EngineCommand::Recheck(id) || command
                == EngineCommand::Pause(id) || command == EngineCommand::Forget(id) ==> {
                let actions = #[trigger] actions_for(active, generation, command);
                &&& actions[0] == SupervisorAction::Cancel(active[at])
                &&& actions[1] == SupervisorAction::Join(active[at])
                &&& forall|i: int|
                    2 <= i < actions.len() ==> !(#[trigger] actions[i] is Cancel) && !(
                    actions[i] is Join)
            },
{
    lemma_actor_found(active, id, 0);
    let found = actor_at(active, id, 0);
    if found == active.len() {
        lemma_absent(active, id, 0);
    }
    assert(found == at);
    assert(stopping(active, id).len() == 2);
}

/// An actor that was replaced or stopped cannot end the one that works now.
pub proof fn law_late_end_changes_nothing(
    active: Seq<ActiveActor>,
    generation: int,
    id: TorrentId,
    late: ActiveActor,
)
    requires
        one_each(active),
        late.id == id,
        late.generation != next_generation_of(generation) as u64,
    ensures
        !active_after(active, generation, EngineCommand::Start(id)).contains(late),
        !active_after(active, generation, EngineCommand::Pause(id)).contains(late),
{
    lemma_actor_found(active, id, 0);
    if actor_at(active, id, 0) == active.len() {
        lemma_absent(active, id, 0);
    }
}

/// A command comes to what it says: a torrent that is started or rechecked has one
/// actor, the one that is put to work last; a torrent that is paused or forgotten
/// has none, and the engine replies once that is stored, or its content gone.
pub proof fn law_command_does_what_it_says(
    active: Seq<ActiveActor>,
    generation: int,
    id: TorrentId,
)
    requires
        one_each(active),
        0 <= generation < u64::MAX,
    ensures
        ({
            let fresh = ActiveActor { id, generation: (generation + 1) as u64 };
            &&& actions_for(active, generation, EngineCommand::Start(id)).last()
                == SupervisorAction::Spawn { actor: fresh, mode: ActorMode::Start }
            &&& actions_for(active, generation, EngineCommand::Recheck(id)).last()
                == SupervisorAction::Spawn { actor: fresh, mode: ActorMode::Recheck }
            &&& forall|actor: ActiveActor|
                #[trigger] active_after(active, generation, EngineCommand::Start(id)).contains(
                    actor,
                ) && actor.id == id ==> actor == fresh
            &&& active_after(active, generation, EngineCommand::Start(id)).contains(fresh)
            &&& active_after(active, generation, EngineCommand::Recheck(id)) == active_after(
                active,
                generation,
                EngineCommand::Start(id),
            )
            &&& forall|actor: ActiveActor|
                #[trigger] active_after(active, generation, EngineCommand::Pause(id)).contains(
                    actor,
                ) ==> actor.id != id && active.contains(actor)
            &&& active_after(active, generation, EngineCommand::Forget(id)) == active_after(
                active,
                generation,
                EngineCommand::Pause(id),
            )
        }),
        ({
            let pausing = actions_for(active, generation, EngineCommand::Pause(id));
            let forgetting = actions_for(active, generation, EngineCommand::Forget(id));
            &&& pausing.last() == SupervisorAction::Reply
            &&& pausing[pausing.len() - 2] == SupervisorAction::StoreStopped(id)
            &&& forgetting.last() == SupervisorAction::Reply
            &&& forgetting[forgetting.len() - 2] == SupervisorAction::ForgetContent(id)
        }),
{
    let fresh = ActiveActor { id, generation: (generation + 1) as u64 };
    let rest = without_actor(active, id);
    let at = actor_at(active, id, 0);
    lemma_actor_found(active, id, 0);
    if at == active.len() {
        lemma_absent(active, id, 0);
    }
    assert forall|actor: ActiveActor| #[trigger] rest.contains(actor) implies actor.id != id
        && active.contains(actor) by {
        let k = choose|k: int| 0 <= k < rest.len() && rest[k] == actor;
        if at < active.len() {
            let from = if k < at { k } else { k + 1 };
            assert(active[from] == actor);
            let low = if from < at { from } else { at };
            let high = if from < at { at } else { from };
            assert(active[low].id != active[high].id);
        } else {
            assert(active[k] == actor);
        }
    }
    let started = active_after(active, generation, EngineCommand::Start(id));
    assert(started == rest.push(fresh));
    assert(started[rest.len() as int] == fresh);
    assert forall|actor: ActiveActor|
        #[trigger] started.contains(actor) && actor.id == id implies actor == fresh by {
        let k = choose|k: int| 0 <= k < started.len() && started[k] == actor;
        if k < rest.len() {
            assert(rest[k] == actor);
            assert(rest.contains(actor));
        }
    }
}

/// On the way out every actor is asked to end before any is waited for, and the
/// engine replies last, when nobody is left at work.
pub proof fn law_shutdown_ends_everyone(active: Seq<ActiveActor>, generation: int, i: int, j: int)
    requires
        0 <= i < active.len(),
        0 <= j < active.len(),
    ensures
        ({
            let actions = actions_for(active, generation, EngineCommand::Shutdown);
            let n = active.len() as int;
            &&& active_after(active, generation, EngineCommand::Shutdown).len() == 0
            &&& actions.len() == 2 * n + 2
            &&& actions[i] == SupervisorAction::Cancel(active[i])
            &&& actions[n + j] == SupervisorAction::Join(active[j])
            &&& actions[2 * n] == SupervisorAction::StopBackground
            &&& actions[2 * n + 1] == SupervisorAction::Reply
        }),
{
}

} // verus!
