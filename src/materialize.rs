use vstd::prelude::*;

verus! {

/// A statement of the transaction that replaces a snapshot.
#[derive(Clone, Copy, Debug, PartialEq, Eq, Structural)]
pub enum WriteStep {
    DeleteClusters,
    DeleteGroups,
    DeleteEdges,
    InsertClusters,
    InsertGroups,
    InsertEdges,
    Commit,
}

/// Where the transaction stands.
#[derive(Clone, Copy, Debug, PartialEq, Eq, Structural)]
pub enum TxState {
    Open,
    Committed,
    RolledBack,
}

/// The statements in order: the three deletions, a bulk insertion for each
/// table that receives rows, then the commit.
pub open spec fn write_plan(clusters: nat, groups: nat, edges: nat) -> Seq<WriteStep> {
    seq![WriteStep::DeleteClusters, WriteStep::DeleteGroups, WriteStep::DeleteEdges] + (if clusters
        > 0 {
        seq![WriteStep::InsertClusters]
    } else {
        Seq::empty()
    }) + (if groups > 0 {
        seq![WriteStep::InsertGroups]
    } else {
        Seq::empty()
    }) + (if edges > 0 {
        seq![WriteStep::InsertEdges]
    } else {
        Seq::empty()
    }) + seq![WriteStep::Commit]
}

/// The state after the outcome of statement `done` of `total`.
pub open spec fn after_outcome(total: nat, done: nat, succeeded: bool) -> (TxState, nat) {
    if !succeeded {
        (TxState::RolledBack, done)
    } else if done + 1 == total {
        (TxState::Committed, done + 1)
    } else {
        (TxState::Open, done + 1)
    }
}

/// The state after a run of outcomes, from an open transaction with no
/// statement done; outcomes after the transaction closed are ignored.
pub open spec fn replay(total: nat, outcomes: Seq<bool>) -> (TxState, nat)
    decreases outcomes.len(),
{
    if outcomes.len() == 0 {
        (TxState::Open, 0)
    } else {
        let (state, done) = replay(total, outcomes.drop_last());
        if state == TxState::Open && done < total {
            after_outcome(total, done, outcomes.last())
        } else {
            (state, done)
        }
    }
}

/// The progress of one snapshot transaction.
pub struct SnapshotWrite {
    pub steps: Vec<WriteStep>,
    pub done: usize,
    pub state: TxState,
}

impl SnapshotWrite {
    pub open spec fn wf(&self) -> bool {
        &&& self.done <= self.steps@.len()
        &&& self.steps@.len() > 0
        &&& self.state == TxState::Open ==> self.done < self.steps@.len()
    }

    /// A transaction for the given numbers of rows, with nothing done yet.
    pub fn new(clusters: usize, groups: usize, edges: usize) -> (w: SnapshotWrite)
        ensures
            w.wf(),
            w.steps@ == write_plan(clusters as nat, groups as nat, edges as nat),
            w.done == 0,
            w.state == TxState::Open,
    {
        let mut steps: Vec<WriteStep> = vec![WriteStep::DeleteClusters, WriteStep::DeleteGroups, WriteStep::DeleteEdges];
        if clusters > 0 {
            steps.push(WriteStep::InsertClusters);
        }
        if groups > 0 {
            steps.push(WriteStep::InsertGroups);
        }
        if edges > 0 {
            steps.push(WriteStep::InsertEdges);
        }
        steps.push(WriteStep::Commit);
        assert(steps@ =~= write_plan(clusters as nat, groups as nat, edges as nat));
        SnapshotWrite { steps, done: 0, state: TxState::Open }
    }

    /// The statement to run next, if the transaction is still open.
    pub fn next_step(&self) -> (r: Option<WriteStep>)
        requires
            self.wf(),
        ensures
            self.state == TxState::Open ==> r == Some(self.steps@[self.done as int]),
            self.state != TxState::Open ==> r is None,
    {
        match self.state {
            TxState::Open => Some(self.steps[self.done]),
            _ => None,
        }
    }

    /// Takes the outcome of the statement just run: a failure rolls the whole
    /// transaction back, the success of the last statement commits it.
    pub fn record(&mut self, succeeded: bool)
        requires
            old(self).wf(),
            old(self).state == TxState::Open,
        ensures
            final(self).wf(),
            final(self).steps == old(self).steps,
            (final(self).state, final(self).done as nat) == after_outcome(
                old(self).steps@.len(),
                old(self).done as nat,
                succeeded,
            ),
    {
        if !succeeded {
            self.state = TxState::RolledBack;
        } else if self.done == self.steps.len() - 1 {
            self.done = self.done + 1;
            self.state = TxState::Committed;
        } else {
            self.done = self.done + 1;
        }
    }

    /// Whether the new snapshot is what readers see: only once committed.
    pub fn is_visible(&self) -> (r: bool)
        ensures
            r == (self.state == TxState::Committed),
    {
        match self.state {
            TxState::Committed => true,
            _ => false,
        }
    }
}

/// A transaction commits only when every statement succeeded; a single
/// failure rolls it back, and no later outcome commits it.
pub proof fn law_failure_rolls_back(total: nat, outcomes: Seq<bool>)
    requires
        total > 0,
    ensures
        replay(total, outcomes).0 == TxState::Committed ==> replay(total, outcomes).1 == total
            && outcomes.len() >= total && forall|i: int| 0 <= i < total ==> #[trigger] outcomes[i],
        (exists|i: int| 0 <= i < outcomes.len() && i < total && !#[trigger] outcomes[i]) ==> replay(
            total,
            outcomes,
        ).0 == TxState::RolledBack,
    decreases outcomes.len(),
{
    lemma_replay_progress(total, outcomes);
    if outcomes.len() > 0 {
        let prev = outcomes.drop_last();
        law_failure_rolls_back(total, prev);
        lemma_replay_progress(total, prev);
        let (state, done) = replay(total, prev);
        if replay(total, outcomes).0 == TxState::Committed {
            if state == TxState::Committed {
                assert forall|i: int| 0 <= i < total implies #[trigger] outcomes[i] by {
                    assert(prev[i] == outcomes[i]);
                }
            } else {
                assert forall|i: int| 0 <= i < total implies #[trigger] outcomes[i] by {
                    if i < prev.len() {
                        assert(prev[i] == outcomes[i]);
                    }
                }
            }
        }
        if exists|i: int| 0 <= i < outcomes.len() && i < total && !#[trigger] outcomes[i] {
            let i = choose|i: int| 0 <= i < outcomes.len() && i < total && !#[trigger] outcomes[i];
            if i < prev.len() {
                assert(!prev[i]);
            }
        }
    }
}

/// While open, every outcome so far succeeded and counted; once closed, the
/// count stops.
proof fn lemma_replay_progress(total: nat, outcomes: Seq<bool>)
    requires
        total > 0,
    ensures
        replay(total, outcomes).1 <= outcomes.len(),
        replay(total, outcomes).1 <= total,
        replay(total, outcomes).0 == TxState::Open ==> replay(total, outcomes).1 == outcomes.len()
            && replay(total, outcomes).1 < total && forall|i: int|
            0 <= i < outcomes.len() ==> #[trigger] outcomes[i],
        replay(total, outcomes).0 == TxState::Committed ==> replay(total, outcomes).1 == total,
        replay(total, outcomes).0 == TxState::RolledBack ==> replay(total, outcomes).1 < total
            && replay(total, outcomes).1 < outcomes.len() && !outcomes[replay(total, outcomes).1 as int],
    decreases outcomes.len(),
{
    if outcomes.len() > 0 {
        let prev = outcomes.drop_last();
        lemma_replay_progress(total, prev);
        let (state, done) = replay(total, prev);
        if state == TxState::Open {
            assert forall|i: int| 0 <= i < outcomes.len() - 1 implies #[trigger] outcomes[i] by {
                assert(prev[i] == outcomes[i]);
            }
        }
        if state == TxState::RolledBack {
            assert(prev[done as int] == outcomes[done as int]);
        }
    }
}

} // verus!
