//! Executes committed slots in order, and decides which headers each of them adds.
use crate::ident::{Digest, Height, PublicKey, Slot};
use crate::messages::{Certificate, ConsensusMessage, Instance, Proposal};
use crate::key::Key;
use crate::table::Table;
use vstd::prelude::*;

verus! {

use crate::messages::{CertificateView, ProposalView};
use crate::table::{ascending, has_key, kept, lemma_listed, listed, place_of};

/// The certificates of each height, by author.
pub type Dag = Table<Height, Table<PublicKey, (Digest, Certificate)>>;

/// The headers of `proposal` above `stop_height`, which are to be committed.
pub struct Fetch {
    pub author: PublicKey,
    pub proposal: Proposal,
    pub stop_height: Height,
}

/// The headers that are to be committed.
#[verifier::ext_equal]
pub struct FetchView {
    pub author: PublicKey,
    pub proposal: ProposalView,
    pub stop_height: Height,
}

impl View for Fetch {
    type V = FetchView;

    open spec fn view(&self) -> FetchView {
        FetchView {
            author: self.author,
            proposal: self.proposal@,
            stop_height: self.stop_height,
        }
    }
}

/// What executing a slot commits, in order.
pub struct SlotPlan {
    pub slot: Slot,
    pub fetches: Vec<Fetch>,
}

/// What executing a slot commits, in order.
#[verifier::ext_equal]
pub struct SlotPlanView {
    pub slot: Slot,
    pub fetches: Seq<FetchView>,
}

/// What `fetches` ask for.
pub open spec fn fetch_views(fetches: Seq<Fetch>) -> Seq<FetchView> {
    fetches.map_values(|f: Fetch| f@)
}

impl View for SlotPlan {
    type V = SlotPlanView;

    open spec fn view(&self) -> SlotPlanView {
        SlotPlanView { slot: self.slot, fetches: fetch_views(self.fetches@) }
    }
}

/// What `plans` commit.
pub open spec fn plan_views(plans: Seq<SlotPlan>) -> Seq<SlotPlanView> {
    plans.map_values(|p: SlotPlan| p@)
}

/// What the committer keeps of the slots.
#[verifier::ext_equal]
pub struct SlotState {
    /// The height up to which each authority's chain was executed.
    pub heights: Map<PublicKey, Height>,
    /// The committed slots that wait for those before them.
    pub log: Map<Slot, Instance>,
    /// The last slot that was executed.
    pub last_slot: Slot,
}

/// What `proposals` commit, and how far the chains are executed after that. A proposal whose height
/// was reached already commits nothing.
pub open spec fn after_proposals(
    heights: Map<PublicKey, Height>,
    proposals: Seq<(PublicKey, Proposal)>,
) -> (Map<PublicKey, Height>, Seq<FetchView>)
    decreases proposals.len(),
{
    if proposals.len() == 0 {
        (heights, Seq::empty())
    } else {
        let (front, fetches) = after_proposals(heights, proposals.drop_last());
        let (author, proposal) = proposals.last();
        if proposal.height <= front[author] {
            (front, fetches)
        } else {
            (
                front.insert(author, proposal.height),
                fetches.push(
                    FetchView { author, proposal: proposal@, stop_height: front[author] },
                ),
            )
        }
    }
}

/// The state once every slot that follows the last one without a gap has been executed, with what
/// they commit.
pub open spec fn after_execution(s: SlotState) -> (SlotState, Seq<SlotPlanView>)
    decreases s.log.len(),
{
    let slot = (s.last_slot + 1) as Slot;
    if s.last_slot < Slot::MAX && s.log.dom().finite() && s.log.contains_key(slot) {
        let (heights, fetches) = after_proposals(s.heights, s.log[slot].proposals@);
        let (end, plans) = after_execution(
            SlotState { heights, log: s.log.remove(slot), last_slot: slot },
        );
        (end, seq![SlotPlanView { slot, fetches }] + plans)
    } else {
        (s, Seq::empty())
    }
}

/// The state once `message` has come in, with what is committed. Only commit messages count, and
/// among them only those for slots that were not executed yet.
pub open spec fn after_commit_message(s: SlotState, message: ConsensusMessage) -> (
    SlotState,
    Seq<SlotPlanView>,
) {
    match message {
        ConsensusMessage::Commit(i) if i.slot > s.last_slot => after_execution(
            logged(s, i),
        ),
        _ => (s, Seq::empty()),
    }
}

/// The state once `i` waits for execution.
pub open spec fn logged(s: SlotState, i: Instance) -> SlotState {
    SlotState { log: s.log.insert(i.slot, i), ..s }
}

/// Every slot up to `slot` waits for execution.
pub open spec fn is_next(s: SlotState, slot: Slot) -> bool {
    s.last_slot < slot && forall|t: Slot|
        s.last_slot < t <= slot ==> #[trigger] s.log.contains_key(t)
}

/// The slots that are to be executed next name known authorities only, and the last number is not
/// among them.
pub open spec fn is_executable(s: SlotState) -> bool {
    forall|slot: Slot| #[trigger]
        is_next(s, slot) ==> slot < Slot::MAX && knows_authors(s.heights, s.log[slot])
}

/// The authors of the proposals in `i` are known.
pub open spec fn knows_authors(heights: Map<PublicKey, Height>, i: Instance) -> bool {
    forall|j: int|
        0 <= j < i.proposals@.len() ==> heights.contains_key((#[trigger] i.proposals@[j]).0)
}

/// The state that is kept for crash recovery.
pub struct State {
    /// The last committed round.
    pub last_committed_round: Height,
    /// The height up to which each authority's chain was executed.
    pub last_executed_heights: Table<PublicKey, Height>,
    /// The latest certificates of every authority.
    pub dag: Dag,
    /// The committed slots that wait for those before them.
    pub log: Table<Slot, Instance>,
    /// The last slot that was executed.
    pub last_executed_slot: Slot,
}

/// What the DAG holds.
pub open spec fn dag_view(dag: Dag) -> Map<Height, Map<PublicKey, (Digest, Certificate)>> {
    dag@.map_values(|t: Table<PublicKey, (Digest, Certificate)>| t@)
}

impl View for State {
    type V = SlotState;

    open spec fn view(&self) -> SlotState {
        SlotState {
            heights: self.last_executed_heights@,
            log: self.log@,
            last_slot: self.last_executed_slot,
        }
    }
}

/// The certificates in `genesis`, by author. Of two with one author, the later counts.
pub open spec fn by_author(genesis: Seq<Certificate>) -> Map<PublicKey, (Digest, Certificate)>
    decreases genesis.len(),
{
    if genesis.len() == 0 {
        Map::empty()
    } else {
        let c = genesis.last();
        by_author(genesis.drop_last()).insert(c.author, (c.digest, c))
    }
}

/// How far the chains are executed once `certificate` is committed.
pub open spec fn raised(heights: Map<PublicKey, Height>, certificate: CertificateView) -> Map<
    PublicKey,
    Height,
> {
    let author = certificate.author;
    heights.insert(
        author,
        if heights.contains_key(author) && certificate.height < heights[author] {
            heights[author]
        } else {
            certificate.height
        },
    )
}

/// `h` is the greatest of `heights`.
pub open spec fn is_greatest(heights: Map<PublicKey, Height>, h: Height) -> bool {
    &&& exists|k: PublicKey| heights.contains_key(k) && #[trigger] heights[k] == h
    &&& forall|k: PublicKey| heights.contains_key(k) ==> #[trigger] heights[k] <= h
}

/// The certificates of height `r` that are not older than what was executed of their authors'
/// chains.
pub open spec fn recent(
    authorities: Map<PublicKey, (Digest, Certificate)>,
    heights: Map<PublicKey, Height>,
    r: Height,
) -> Map<PublicKey, (Digest, Certificate)> {
    kept(
        authorities,
        |k: PublicKey, v: (Digest, Certificate)| !heights.contains_key(k) || r >= heights[k],
    )
}

/// The DAG without the certificates that are too old, and without the heights that none is left of.
pub open spec fn pruned(
    dag: Map<Height, Map<PublicKey, (Digest, Certificate)>>,
    heights: Map<PublicKey, Height>,
    gc_depth: Height,
    last: Height,
) -> Map<Height, Map<PublicKey, (Digest, Certificate)>> {
    Map::new(
        |r: Height|
            dag.contains_key(r) && r + gc_depth >= last && recent(dag[r], heights, r)
                != Map::<PublicKey, (Digest, Certificate)>::empty(),
        |r: Height| recent(dag[r], heights, r),
    )
}

/// What the committer keeps of the chains.
#[verifier::ext_equal]
pub struct DagState {
    /// The height up to which each authority's chain was executed.
    pub heights: Map<PublicKey, Height>,
    /// The greatest of these heights.
    pub last_round: Height,
    /// The latest certificates of every authority.
    pub dag: Map<Height, Map<PublicKey, (Digest, Certificate)>>,
}

/// `after` is `before` once `certificate` is committed: its author's chain is executed up to it, and
/// what is too old is dropped.
pub open spec fn is_update(
    before: DagState,
    certificate: CertificateView,
    gc_depth: Height,
    after: DagState,
) -> bool {
    &&& after.heights == raised(before.heights, certificate)
    &&& is_greatest(after.heights, after.last_round)
    &&& after.dag == pruned(before.dag, after.heights, gc_depth, after.last_round)
}

impl State {
    /// What is kept of the chains.
    pub open spec fn dag_state(&self) -> DagState {
        DagState {
            heights: self.last_executed_heights@,
            last_round: self.last_committed_round,
            dag: dag_view(self.dag),
        }
    }

    /// The state in which only `genesis` is committed.
    pub fn new(genesis: Vec<Certificate>) -> (s: Self)
        ensures
            s.last_committed_round == 0,
            s@.heights == by_author(genesis@).map_values(|v: (Digest, Certificate)| 0u64),
            dag_view(s.dag) == Map::<Height, Map<PublicKey, (Digest, Certificate)>>::empty().insert(
                0,
                by_author(genesis@),
            ),
            s@.log == Map::<Slot, Instance>::empty(),
            s@.last_slot == 0,
    {
        let ghost all = genesis@;
        let mut heights: Table<PublicKey, Height> = Table::new();
        let mut certificates: Table<PublicKey, (Digest, Certificate)> = Table::new();
        assert(all.take(0) =~= Seq::<Certificate>::empty());
        assert(heights@ =~= by_author(all.take(0)).map_values(|v: (Digest, Certificate)| 0u64));
        for c in iter: genesis
            invariant
                iter.seq() == all,
                certificates@ == by_author(all.take(iter.index() as int)),
                heights@ == by_author(all.take(iter.index() as int)).map_values(
                    |v: (Digest, Certificate)| 0u64,
                ),
        {
            let ghost n = iter.index() as int;
            proof {
                assert(all.take(n + 1).drop_last() =~= all.take(n));
                assert(all.take(n + 1).last() == c);
            }
            heights.insert(c.origin(), 0);
            certificates.insert(c.origin(), (c.digest, c));
            proof {
                assert(heights@ =~= by_author(all.take(n + 1)).map_values(
                    |v: (Digest, Certificate)| 0u64,
                ));
            }
        }
        assert(all.take(all.len() as int) =~= all);
        let mut dag: Dag = Table::new();
        dag.insert(0, certificates);
        assert(dag_view(dag) =~= Map::<
            Height,
            Map<PublicKey, (Digest, Certificate)>,
        >::empty().insert(0, by_author(all)));
        State {
            last_committed_round: 0,
            last_executed_heights: heights,
            dag,
            log: Table::new(),
            last_executed_slot: 0,
        }
    }

    /// The greatest of the heights up to which the chains were executed.
    fn greatest_height(&self) -> (h: Height)
        requires
            exists|k: PublicKey| self.last_executed_heights@.contains_key(k),
        ensures
            is_greatest(self.last_executed_heights@, h),
    {
        let n: usize = self.last_executed_heights.len();
        let ghost entries = self.last_executed_heights.entries();
        let ghost heights = self.last_executed_heights@;
        proof {
            lemma_listed(entries);
            let k = choose|k: PublicKey| heights.contains_key(k);
            assert(has_key(entries, k));
        }
        let mut best: Height = *self.last_executed_heights.value_at(0);
        let mut i: usize = 1;
        assert(entries[0].1 == best);
        while i < n
            invariant
                1 <= i <= n == entries.len(),
                entries == self.last_executed_heights.entries(),
                exists|j: int| 0 <= j < i && (#[trigger] entries[j]).1 == best,
                forall|j: int| 0 <= j < i ==> (#[trigger] entries[j]).1 <= best,
            decreases n - i,
        {
            let h: Height = *self.last_executed_heights.value_at(i);
            if h > best {
                best = h;
                assert(entries[i as int].1 == best);
            }
            i += 1;
        }
        proof {
            let j = choose|j: int| 0 <= j < i && (#[trigger] entries[j]).1 == best;
            let k = entries[j].0;
            assert(has_key(entries, k));
            assert(heights[k] == entries[j].1);
            assert forall|k: PublicKey| heights.contains_key(k) implies #[trigger] heights[k]
                <= best by {
                assert(has_key(entries, k));
                assert(heights[k] == entries[place_of(entries, k)].1);
            }
        }
        best
    }

    /// Takes note that `certificate` is committed, and drops what is too old.
    pub fn update(&mut self, certificate: &Certificate, gc_depth: Height)
        requires
            forall|r: Height| #[trigger]
                old(self).dag@.contains_key(r) ==> r + gc_depth <= Height::MAX,
        ensures
            final(self)@ == (SlotState {
                heights: raised(old(self)@.heights, certificate@),
                ..old(self)@
            }),
            is_update(old(self).dag_state(), certificate@, gc_depth, final(self).dag_state()),
    {
        let author = certificate.origin();
        let mut height: Height = certificate.height();
        if let Some(h) = self.last_executed_heights.get(&author) {
            if height < *h {
                height = *h;
            }
        }
        self.last_executed_heights.insert(author, height);
        assert(self@.heights.contains_key(author));
        let last: Height = self.greatest_height();
        self.last_committed_round = last;
        self.prune(gc_depth, last);
    }

    /// Drops the certificates that are too old.
    fn prune(&mut self, gc_depth: Height, last: Height)
        requires
            forall|r: Height| #[trigger]
                old(self).dag@.contains_key(r) ==> r + gc_depth <= Height::MAX,
        ensures
            final(self)@ == old(self)@,
            final(self).last_committed_round == old(self).last_committed_round,
            dag_view(final(self).dag) == pruned(
                dag_view(old(self).dag),
                old(self)@.heights,
                gc_depth,
                last,
            ),
    {
        let n: usize = self.dag.len();
        let ghost entries = self.dag.entries();
        let ghost before = self.dag@;
        let ghost goal = pruned(dag_view(self.dag), self@.heights, gc_depth, last);
        proof {
            lemma_listed(entries);
        }
        let mut rounds: Vec<Height> = Vec::new();
        let mut i: usize = 0;
        while i < n
            invariant
                i <= n == entries.len(),
                entries == self.dag.entries(),
                rounds@.len() == i,
                forall|j: int| 0 <= j < i ==> #[trigger] rounds@[j] == entries[j].0,
            decreases n - i,
        {
            rounds.push(self.dag.key_at(i));
            i += 1;
        }
        let mut dag: Dag = Table::new();
        let mut j: usize = 0;
        assert(dag_view(dag) =~= goal.restrict(rounds@.take(0).to_set()));
        while j < rounds.len()
            invariant
                j <= rounds@.len() == entries.len(),
                ascending(entries),
                before == listed(entries),
                forall|k: int| 0 <= k < rounds@.len() ==> #[trigger] rounds@[k] == entries[k].0,
                forall|r: Height| #[trigger] before.contains_key(r) ==> r + gc_depth
                    <= Height::MAX,
                self@ == old(self)@,
                self.last_committed_round == old(self).last_committed_round,
                before == old(self).dag@,
                forall|k: int| j <= k < rounds@.len() ==> self.dag@.contains_key(
                    #[trigger] rounds@[k],
                ) && self.dag@[rounds@[k]] == before[rounds@[k]],
                goal == pruned(dag_view(old(self).dag), self@.heights, gc_depth, last),
                dag_view(dag) == goal.restrict(rounds@.take(j as int).to_set()),
            decreases rounds@.len() - j,
        {
            let round: Height = rounds[j];
            proof {
                assert(has_key(entries, round)) by {
                    assert(entries[j as int].0 == round);
                }
                assert(before.contains_key(round));
                assert forall|k: int| j < k < rounds@.len() implies #[trigger] rounds@[k]
                    != round by {
                    assert(entries[j as int].0.before(entries[k].0));
                    Height::before_is_irreflexive(round);
                }
            }
            if let Some(mut authorities) = self.dag.remove(&round) {
                let ghost all = authorities@;
                assert(dag_view(old(self).dag)[round] == all);
                let heights = &self.last_executed_heights;
                let keep = |k: &PublicKey, v: &(Digest, Certificate)| -> (b: bool)
                    ensures
                        b == (!heights@.contains_key(*k) || round >= heights@[*k]),
                    {
                        match heights.get(k) {
                            Some(h) => round >= *h,
                            None => true,
                        }
                    };
                authorities.retain(
                    keep,
                    Ghost(
                        |k: PublicKey, v: (Digest, Certificate)|
                            !heights@.contains_key(k) || round >= heights@[k],
                    ),
                );
                assert(authorities@ == recent(all, self@.heights, round));
                let ghost grown = dag_view(dag);
                if !authorities.is_empty() && round + gc_depth >= last {
                    dag.insert(round, authorities);
                    assert(dag_view(dag) =~= grown.insert(round, authorities@));
                }
            }
            proof {
                let seen = rounds@.take(j as int);
                assert(rounds@.take(j + 1) =~= seen.push(round));
                assert forall|r: Height| #[trigger] rounds@.take(j + 1).to_set().contains(r)
                    <==> seen.to_set().contains(r) || r == round by {
                    lemma_push_contains(seen, round, r);
                }
                assert(!seen.to_set().contains(round)) by {
                    if seen.contains(round) {
                        let k = choose|k: int| 0 <= k < seen.len() && seen[k] == round;
                        assert(rounds@[k] == round);
                        assert(entries[k].0.before(entries[j as int].0));
                        Height::before_is_irreflexive(round);
                    }
                }
                assert(dag_view(dag) =~= goal.restrict(rounds@.take(j + 1).to_set()));
            }
            j += 1;
        }
        proof {
            assert(rounds@.take(j as int) =~= rounds@);
            assert forall|r: Height| goal.contains_key(r) implies #[trigger] rounds@.contains(
                r,
            ) by {
                assert(has_key(entries, r));
                let k = place_of(entries, r);
                assert(rounds@[k] == r);
            }
            assert(dag_view(dag) =~= goal);
        }
        self.dag = dag;
    }
}

/// Executes committed slots.
pub struct Committer {
    /// The depth of the garbage collection.
    pub gc_depth: Height,
}

impl Committer {
    /// What `proposals` commit.
    fn execute_proposals(
        heights: &mut Table<PublicKey, Height>,
        proposals: &Vec<(PublicKey, Proposal)>,
    ) -> (fetches: Vec<Fetch>)
        requires
            forall|j: int|
                0 <= j < proposals@.len() ==> old(heights)@.contains_key(
                    (#[trigger] proposals@[j]).0,
                ),
        ensures
            (final(heights)@, fetch_views(fetches@)) == after_proposals(
                old(heights)@,
                proposals@,
            ),
            final(heights)@.dom() == old(heights)@.dom(),
    {
        let mut fetches: Vec<Fetch> = Vec::new();
        let mut i: usize = 0;
        assert(proposals@.take(0) =~= Seq::<(PublicKey, Proposal)>::empty());
        assert(fetch_views(fetches@) =~= Seq::<FetchView>::empty());
        while i < proposals.len()
            invariant
                i <= proposals@.len(),
                forall|j: int|
                    0 <= j < proposals@.len() ==> old(heights)@.contains_key(
                        (#[trigger] proposals@[j]).0,
                    ),
                heights@.dom() == old(heights)@.dom(),
                (heights@, fetch_views(fetches@)) == after_proposals(
                    old(heights)@,
                    proposals@.take(i as int),
                ),
            decreases proposals@.len() - i,
        {
            let author = proposals[i].0;
            let ghost before = fetch_views(fetches@);
            proof {
                assert(proposals@.take(i + 1).drop_last() =~= proposals@.take(i as int));
                assert(proposals@[i as int].0 == author);
                assert(heights@.contains_key(author));
            }
            if let Some(height) = heights.get(&author) {
                let stop_height: Height = *height;
                if proposals[i].1.height > stop_height {
                    heights.insert(author, proposals[i].1.height);
                    assert(heights@.dom() =~= old(heights)@.dom());
                    let fetch = Fetch { author, proposal: proposals[i].1.clone(), stop_height };
                    fetches.push(fetch);
                    assert(fetch_views(fetches@) =~= before.push(fetch@));
                }
            }
            i += 1;
        }
        assert(proposals@.take(i as int) =~= proposals@);
        fetches
    }

    /// Takes note of a message of consensus, and lists what the slots commit that can be executed
    /// after it.
    pub fn process_commit_message(state: &mut State, commit_message: ConsensusMessage) -> (plans:
        Vec<SlotPlan>)
        requires
            commit_message matches ConsensusMessage::Commit(i) ==> (i.slot
                > old(state)@.last_slot ==> is_executable(logged(old(state)@, i))),
        ensures
            (final(state)@, plan_views(plans@)) == after_commit_message(
                old(state)@,
                commit_message,
            ),
            final(state).last_committed_round == old(state).last_committed_round,
            final(state).dag == old(state).dag,
    {
        let mut plans: Vec<SlotPlan> = Vec::new();
        assert(plan_views(plans@) =~= Seq::<SlotPlanView>::empty());
        match commit_message {
            ConsensusMessage::Commit(i) => {
                if i.slot <= state.last_executed_slot {
                    return plans;
                }
                let ghost start = logged(state@, i);
                state.log.insert(i.slot, i);
                let n: usize = state.log.len();
                assert(start == state@);
                let mut done = false;
                while !done
                    invariant
                        state.last_committed_round == old(state).last_committed_round,
                        state.dag == old(state).dag,
                        is_executable(state@),
                        state@.log.dom().finite(),
                        after_execution(start) == (
                            after_execution(state@).0,
                            plan_views(plans@) + after_execution(state@).1,
                        ),
                        done ==> !state@.log.contains_key((state@.last_slot + 1) as Slot)
                            || state@.last_slot == Slot::MAX,
                    decreases
                        state@.log.len(),
                        if done {
                            0int
                        } else {
                            1int
                        },
                {
                    let ghost before = state@;
                    let ghost earlier = plan_views(plans@);
                    if state.last_executed_slot == Slot::MAX {
                        done = true;
                    } else {
                        let slot: Slot = state.last_executed_slot + 1;
                        match state.log.remove(&slot) {
                            Some(instance) => {
                                proof {
                                    assert(is_next(before, slot));
                                    assert(instance == before.log[slot]);
                                }
                                let fetches = Self::execute_proposals(
                                    &mut state.last_executed_heights,
                                    &instance.proposals,
                                );
                                state.last_executed_slot = slot;
                                let plan = SlotPlan { slot, fetches };
                                plans.push(plan);
                                proof {
                                    assert(plan_views(plans@) =~= earlier.push(plan@));
                                    lemma_stays_executable(before, state@);
                                    assert(plan_views(plans@) + after_execution(state@).1
                                        =~= earlier + after_execution(before).1);
                                }
                            },
                            None => {
                                assert(before.log.remove(slot) =~= before.log);
                                done = true;
                            },
                        }
                    }
                }
                assert(plan_views(plans@) + after_execution(state@).1 =~= plan_views(plans@));
            },
            _ => {},
        }
        plans
    }

    /// Whether the slots that can be executed after `commit_message` name known authorities only,
    /// and none of them is the last number.
    pub fn can_take(state: &State, commit_message: &ConsensusMessage) -> (b: bool)
        ensures
            b == (*commit_message matches ConsensusMessage::Commit(i) ==> (i.slot
                > state@.last_slot ==> is_executable(logged(state@, i)))),
    {
        match commit_message {
            ConsensusMessage::Commit(i) => i.slot <= state.last_executed_slot
                || Self::is_executable(state, i),
            _ => true,
        }
    }

    /// Whether the slots that can be executed once `i` waits name known authorities only, and none
    /// of them is the last number.
    fn is_executable(state: &State, i: &Instance) -> (b: bool)
        requires
            i.slot > state@.last_slot,
        ensures
            b == is_executable(logged(state@, *i)),
    {
        let ghost s = logged(state@, *i);
        let mut slot: Slot = state.last_executed_slot;
        loop
            invariant
                s == logged(state@, *i),
                s.last_slot <= slot < Slot::MAX,
                slot > s.last_slot ==> is_next(s, slot),
                forall|t: Slot| #[trigger]
                    is_next(s, t) && t <= slot ==> t < Slot::MAX && knows_authors(
                        s.heights,
                        s.log[t],
                    ),
            decreases Slot::MAX - slot,
        {
            let next: Slot = slot + 1;
            let found: Option<&Instance> = if next == i.slot {
                Some(i)
            } else {
                state.log.get(&next)
            };
            match found {
                Some(instance) => {
                    proof {
                        assert(s.log.contains_key(next) && s.log[next] == *instance);
                        assert(is_next(s, next)) by {
                            assert forall|t: Slot| s.last_slot < t <= next implies
                                #[trigger] s.log.contains_key(t) by {
                                if t <= slot {
                                    assert(is_next(s, slot));
                                }
                            }
                        }
                    }
                    if next == Slot::MAX || !Self::knows_authors(
                        &state.last_executed_heights,
                        instance,
                    ) {
                        return false;
                    }
                    slot = next;
                },
                None => {
                    proof {
                        assert(!s.log.contains_key(next));
                        assert forall|t: Slot| #[trigger] is_next(s, t) implies t < Slot::MAX
                            && knows_authors(s.heights, s.log[t]) by {
                            if t > slot {
                                assert(s.log.contains_key(next));
                            }
                        }
                    }
                    return true;
                },
            }
        }
    }

    /// Whether the authors of the proposals in `i` are known.
    fn knows_authors(heights: &Table<PublicKey, Height>, i: &Instance) -> (b: bool)
        ensures
            b == knows_authors(heights@, *i),
    {
        let mut j: usize = 0;
        while j < i.proposals.len()
            invariant
                j <= i.proposals@.len(),
                forall|k: int|
                    0 <= k < j ==> heights@.contains_key((#[trigger] i.proposals@[k]).0),
            decreases i.proposals@.len() - j,
        {
            if !heights.contains_key(&i.proposals[j].0) {
                assert(!heights@.contains_key(i.proposals@[j as int].0));
                return false;
            }
            j += 1;
        }
        true
    }

    /// The number of committed slots that wait for execution.
    pub fn pending_slots(state: &State) -> (n: usize)
        ensures
            n == state@.log.len(),
    {
        state.log.len()
    }

    /// The number of bytes that a header commits whose batches have `sizes`, as far as it can be
    /// counted.
    pub fn committed_bytes(sizes: &Vec<u64>) -> (total: u64)
        ensures
            total == capped_sum(sizes@),
    {
        let mut total: u64 = 0;
        let mut i: usize = 0;
        assert(sizes@.take(0) =~= Seq::<u64>::empty());
        while i < sizes.len()
            invariant
                i <= sizes@.len(),
                total == capped_sum(sizes@.take(i as int)),
            decreases sizes@.len() - i,
        {
            proof {
                assert(sizes@.take(i + 1).drop_last() =~= sizes@.take(i as int));
            }
            total = total.saturating_add(sizes[i]);
            i += 1;
        }
        assert(sizes@.take(i as int) =~= sizes@);
        total
    }

    /// Flattens the DAG that `tip` refers to, depth first: `tip` itself, then its parent, and so on.
    pub fn order_dag(&self, tip: &Certificate, state: &State) -> (ordered: Vec<Certificate>)
        ensures
            certificate_views(ordered@) == flattened(dag_view(state.dag), state@.heights, tip@),
    {
        let ghost dag = dag_view(state.dag);
        let ghost heights = state@.heights;
        let author = tip.origin();
        let mut height: Height = tip.height();
        let mut ordered: Vec<Certificate> = Vec::new();
        ordered.push(tip.clone());
        assert(certificate_views(ordered@) =~= seq![tip@]);
        let mut done = false;
        while !done
            invariant
                dag == dag_view(state.dag),
                heights == state@.heights,
                author == tip.author,
                flattened(dag, heights, tip@) == certificate_views(ordered@) + (if done {
                    Seq::empty()
                } else {
                    certificate_views(ancestors(dag, heights, author, height))
                }),
            decreases
                height,
                if done {
                    0int
                } else {
                    1int
                },
        {
            let ghost before = certificate_views(ordered@);
            let parent: Option<&Certificate> = if height == 0 {
                None
            } else {
                Self::unexecuted(state, &author, height - 1)
            };
            match parent {
                Some(certificate) => {
                    proof {
                        let found = dag[(height - 1) as Height][author].1;
                        let rest = ancestors(dag, heights, author, (height - 1) as Height);
                        assert(certificate_views(seq![found] + rest) =~= seq![found@]
                            + certificate_views(rest));
                    }
                    let copy = certificate.clone();
                    ordered.push(copy);
                    assert(certificate_views(ordered@) =~= before.push(copy@));
                    height = height - 1;
                    proof {
                        assert(flattened(dag, heights, tip@) =~= certificate_views(ordered@)
                            + certificate_views(ancestors(dag, heights, author, height)));
                    }
                },
                None => {
                    done = true;
                    assert(certificate_views(ancestors(dag, heights, author, height))
                        =~= Seq::<CertificateView>::empty());
                },
            }
        }
        assert(flattened(dag, heights, tip@) =~= certificate_views(ordered@));
        ordered
    }

    /// The certificate of `author` at the height `height`, unless it is missing or was executed.
    fn unexecuted<'a>(state: &'a State, author: &PublicKey, height: Height) -> (found: Option<
        &'a Certificate,
    >)
        ensures
            match found {
                Some(c) => is_unexecuted(dag_view(state.dag), state@.heights, *author, height)
                    && *c == dag_view(state.dag)[height][*author].1,
                None => !is_unexecuted(dag_view(state.dag), state@.heights, *author, height),
            },
    {
        if let Some(executed) = state.last_executed_heights.get(author) {
            if height <= *executed {
                return None;
            }
        }
        match state.dag.get(&height) {
            Some(authorities) => match authorities.get(author) {
                Some(entry) => Some(&entry.1),
                None => None,
            },
            None => None,
        }
    }
}

/// What `certificates` say.
pub open spec fn certificate_views(certificates: Seq<Certificate>) -> Seq<CertificateView> {
    certificates.map_values(|c: Certificate| c@)
}

/// The DAG holds a certificate of `author` at the height `height`, which is above what was executed
/// of that chain.
pub open spec fn is_unexecuted(
    dag: Map<Height, Map<PublicKey, (Digest, Certificate)>>,
    heights: Map<PublicKey, Height>,
    author: PublicKey,
    height: Height,
) -> bool {
    &&& dag.contains_key(height)
    &&& dag[height].contains_key(author)
    &&& heights.contains_key(author) ==> height > heights[author]
}

/// The certificates that the one of `author` at the height `height` refers to, nearest first. The
/// parent of a certificate is that of the same author one height below, and the chain ends where it
/// is missing or was executed.
pub open spec fn ancestors(
    dag: Map<Height, Map<PublicKey, (Digest, Certificate)>>,
    heights: Map<PublicKey, Height>,
    author: PublicKey,
    height: Height,
) -> Seq<Certificate>
    decreases height,
{
    let parent = (height - 1) as Height;
    if height > 0 && is_unexecuted(dag, heights, author, parent) {
        seq![dag[parent][author].1] + ancestors(dag, heights, author, parent)
    } else {
        Seq::empty()
    }
}

/// The DAG that `tip` refers to, depth first and each certificate before its parent.
pub open spec fn flattened(
    dag: Map<Height, Map<PublicKey, (Digest, Certificate)>>,
    heights: Map<PublicKey, Height>,
    tip: CertificateView,
) -> Seq<CertificateView> {
    seq![tip] + certificate_views(ancestors(dag, heights, tip.author, tip.height))
}

/// A flattened DAG begins with its tip and goes down one height at a time. What follows the tip is in
/// the DAG and was not executed, and it ends only where the next certificate is missing or was
/// executed.
pub proof fn a_flattened_dag_descends(
    dag: Map<Height, Map<PublicKey, (Digest, Certificate)>>,
    heights: Map<PublicKey, Height>,
    tip: CertificateView,
    i: int,
)
    ensures
        ({
            let order = flattened(dag, heights, tip);
            &&& order.len() > 0 && order[0] == tip
            &&& order.len() <= tip.height + 1
            &&& 0 < i < order.len() ==> {
                let h = (tip.height - i) as Height;
                is_unexecuted(dag, heights, tip.author, h) && order[i] == dag[h][tip.author].1@
            }
            &&& order.len() <= tip.height ==> !is_unexecuted(
                dag,
                heights,
                tip.author,
                (tip.height - order.len()) as Height,
            )
        }),
{
    lemma_ancestors(dag, heights, tip.author, tip.height, i - 1);
}

proof fn lemma_ancestors(
    dag: Map<Height, Map<PublicKey, (Digest, Certificate)>>,
    heights: Map<PublicKey, Height>,
    author: PublicKey,
    height: Height,
    i: int,
)
    ensures
        ({
            let list = ancestors(dag, heights, author, height);
            &&& list.len() <= height
            &&& 0 <= i < list.len() ==> {
                let h = (height - 1 - i) as Height;
                is_unexecuted(dag, heights, author, h) && list[i] == dag[h][author].1
            }
            &&& list.len() < height ==> !is_unexecuted(
                dag,
                heights,
                author,
                (height - 1 - list.len()) as Height,
            )
        }),
    decreases height,
{
    let parent = (height - 1) as Height;
    if height > 0 && is_unexecuted(dag, heights, author, parent) {
        lemma_ancestors(dag, heights, author, parent, i - 1);
    }
}

/// The sum of `sizes`.
pub open spec fn sum(sizes: Seq<u64>) -> nat
    decreases sizes.len(),
{
    if sizes.len() == 0 {
        0
    } else {
        sum(sizes.drop_last()) + sizes.last() as nat
    }
}

/// The sum of `sizes`, or the greatest number if that is too much.
pub open spec fn capped_sum(sizes: Seq<u64>) -> u64 {
    if sum(sizes) > u64::MAX {
        u64::MAX
    } else {
        sum(sizes) as u64
    }
}

/// Once the next slot has been executed, the slots that follow it can still be.
proof fn lemma_stays_executable(s: SlotState, next: SlotState)
    requires
        s.last_slot < Slot::MAX,
        is_executable(s),
        s.log.contains_key((s.last_slot + 1) as Slot),
        next.last_slot == s.last_slot + 1,
        next.log == s.log.remove(next.last_slot),
        next.heights.dom() == s.heights.dom(),
    ensures
        is_executable(next),
{
    assert forall|slot: Slot| #[trigger] is_next(next, slot) implies slot < Slot::MAX
        && knows_authors(next.heights, next.log[slot]) by {
        assert(is_next(s, slot)) by {
            assert forall|t: Slot| s.last_slot < t <= slot implies #[trigger] s.log.contains_key(
                t,
            ) by {
                if t != next.last_slot {
                    assert(next.log.contains_key(t));
                }
            }
        }
        let i = s.log[slot];
        assert(next.log.contains_key(slot));
        assert(next.log[slot] == i);
        assert forall|j: int| 0 <= j < i.proposals@.len() implies next.heights.contains_key(
            (#[trigger] i.proposals@[j]).0,
        ) by {
            assert(s.heights.contains_key(i.proposals@[j].0));
            assert(s.heights.dom().contains(i.proposals@[j].0));
        }
    }
}

/// What `proposals` commit of each chain follows what was executed of it, piece by piece.
pub open spec fn continues(
    heights: Map<PublicKey, Height>,
    fetches: Seq<FetchView>,
    end: Map<PublicKey, Height>,
) -> bool {
    &&& forall|i: int|
        0 <= i < fetches.len() ==> {
            &&& heights[(#[trigger] fetches[i]).author] <= fetches[i].stop_height
            &&& fetches[i].stop_height < fetches[i].proposal.height
            &&& fetches[i].proposal.height <= end[fetches[i].author]
        }
    &&& forall|i: int, j: int|
        0 <= i < j < fetches.len() && fetches[i].author == fetches[j].author ==> (
        #[trigger] fetches[i]).proposal.height <= (#[trigger] fetches[j]).stop_height
    &&& forall|k: PublicKey| #[trigger] heights.contains_key(k) ==> heights[k] <= end[k]
    &&& heights.dom() == end.dom()
}

/// Executing the proposals of a slot never goes back: each piece of a chain starts at or above the
/// end of what was executed of it before.
pub proof fn proposals_never_go_back(
    heights: Map<PublicKey, Height>,
    proposals: Seq<(PublicKey, Proposal)>,
)
    requires
        forall|j: int|
            0 <= j < proposals.len() ==> heights.contains_key((#[trigger] proposals[j]).0),
    ensures
        continues(
            heights,
            after_proposals(heights, proposals).1,
            after_proposals(heights, proposals).0,
        ),
    decreases proposals.len(),
{
    if proposals.len() > 0 {
        let front = proposals.drop_last();
        assert forall|j: int| 0 <= j < front.len() implies heights.contains_key(
            (#[trigger] front[j]).0,
        ) by {
            assert(front[j] == proposals[j]);
        }
        proposals_never_go_back(heights, front);
        let (mid, fetches) = after_proposals(heights, front);
        let (author, proposal) = proposals.last();
        assert(proposals[proposals.len() - 1].0 == author);
        let (end, all) = after_proposals(heights, proposals);
        assert(mid.dom().contains(author)) by {
            assert(heights.dom().contains(author));
        }
        assert(heights.dom() =~= end.dom());
        assert forall|i: int, j: int|
            0 <= i < j < all.len() && all[i].author == all[j].author implies (
        #[trigger] all[i]).proposal.height <= (#[trigger] all[j]).stop_height by {
            if j < fetches.len() {
                assert(fetches[i] == all[i] && fetches[j] == all[j]);
            } else {
                assert(fetches[i] == all[i]);
            }
        }
        assert forall|i: int| 0 <= i < all.len() implies {
            &&& heights[(#[trigger] all[i]).author] <= all[i].stop_height
            &&& all[i].stop_height < all[i].proposal.height
            &&& all[i].proposal.height <= end[all[i].author]
        } by {
            if i < fetches.len() {
                assert(fetches[i] == all[i]);
            }
        }
    }
}

/// Slots are executed one after the other: the `i`-th slot that is executed is the `i`-th after the
/// last one. Afterwards the next slot is still to come.
pub proof fn slots_are_executed_in_order(s: SlotState, i: int)
    requires
        s.log.dom().finite(),
        is_executable(s),
    ensures
        ({
            let (end, plans) = after_execution(s);
            &&& end.last_slot == s.last_slot + plans.len()
            &&& 0 <= i < plans.len() ==> plans[i].slot == s.last_slot + 1 + i
            &&& end.last_slot < Slot::MAX ==> !end.log.contains_key((end.last_slot + 1) as Slot)
        }),
    decreases s.log.len(),
{
    let slot = (s.last_slot + 1) as Slot;
    if s.last_slot < Slot::MAX && s.log.contains_key(slot) {
        assert(is_next(s, slot));
        let (heights, fetches) = after_proposals(s.heights, s.log[slot].proposals@);
        proposals_never_go_back(s.heights, s.log[slot].proposals@);
        let next = SlotState { heights, log: s.log.remove(slot), last_slot: slot };
        lemma_stays_executable(s, next);
        slots_are_executed_in_order(next, i - 1);
    }
}

/// No header is committed twice: of two pieces of one chain that are committed by different slots,
/// the later starts at or above the end of the earlier.
pub proof fn slots_never_go_back(s: SlotState, i: int, j: int, m: int, n: int)
    requires
        s.log.dom().finite(),
        is_executable(s),
        0 <= i < j < after_execution(s).1.len(),
        0 <= m < after_execution(s).1[i].fetches.len(),
        0 <= n < after_execution(s).1[j].fetches.len(),
        after_execution(s).1[i].fetches[m].author == after_execution(s).1[j].fetches[n].author,
    ensures
        after_execution(s).1[i].fetches[m].proposal.height
            <= after_execution(s).1[j].fetches[n].stop_height,
    decreases s.log.len(),
{
    let slot = (s.last_slot + 1) as Slot;
    assert(is_next(s, slot));
    let (heights, fetches) = after_proposals(s.heights, s.log[slot].proposals@);
    proposals_never_go_back(s.heights, s.log[slot].proposals@);
    let next = SlotState { heights, log: s.log.remove(slot), last_slot: slot };
    lemma_stays_executable(s, next);
    let (end, plans) = after_execution(next);
    let all = after_execution(s).1;
    assert(all[j] == plans[j - 1]);
    if i == 0 {
        lemma_stops_above(next, j - 1, n);
        assert(all[0].fetches == fetches);
        assert(fetches[m].proposal.height <= heights[fetches[m].author]);
    } else {
        assert(all[i] == plans[i - 1]);
        slots_never_go_back(next, i - 1, j - 1, m, n);
    }
}

/// What a slot commits of a chain starts at or above the end of what was executed of it.
proof fn lemma_stops_above(s: SlotState, j: int, n: int)
    requires
        s.log.dom().finite(),
        is_executable(s),
        0 <= j < after_execution(s).1.len(),
        0 <= n < after_execution(s).1[j].fetches.len(),
    ensures
        s.heights.contains_key(after_execution(s).1[j].fetches[n].author) ==> s.heights[
        after_execution(s).1[j].fetches[n].author] <= after_execution(s).1[j].fetches[n].stop_height,
        s.heights.contains_key(after_execution(s).1[j].fetches[n].author),
    decreases s.log.len(),
{
    let slot = (s.last_slot + 1) as Slot;
    assert(is_next(s, slot));
    let proposals = s.log[slot].proposals@;
    let (heights, fetches) = after_proposals(s.heights, proposals);
    proposals_never_go_back(s.heights, proposals);
    let next = SlotState { heights, log: s.log.remove(slot), last_slot: slot };
    lemma_stays_executable(s, next);
    let all = after_execution(s).1;
    let author = all[j].fetches[n].author;
    if j == 0 {
        assert(all[0].fetches == fetches);
        lemma_fetch_author(s.heights, proposals, n);
    } else {
        assert(all[j] == after_execution(next).1[j - 1]);
        lemma_stops_above(next, j - 1, n);
        assert(s.heights.dom().contains(author));
    }
}

/// What is committed is of a known authority.
proof fn lemma_fetch_author(
    heights: Map<PublicKey, Height>,
    proposals: Seq<(PublicKey, Proposal)>,
    n: int,
)
    requires
        forall|j: int|
            0 <= j < proposals.len() ==> heights.contains_key((#[trigger] proposals[j]).0),
        0 <= n < after_proposals(heights, proposals).1.len(),
    ensures
        heights.contains_key(after_proposals(heights, proposals).1[n].author),
    decreases proposals.len(),
{
    let front = proposals.drop_last();
    assert forall|j: int| 0 <= j < front.len() implies heights.contains_key(
        (#[trigger] front[j]).0,
    ) by {
        assert(front[j] == proposals[j]);
    }
    assert(proposals[proposals.len() - 1] == proposals.last());
    if n < after_proposals(heights, front).1.len() {
        lemma_fetch_author(heights, front, n);
    }
}

/// The slots that wait are later than the last one that was executed, and stay so.
pub proof fn waiting_slots_are_later(s: SlotState, message: ConsensusMessage)
    requires
        forall|slot: Slot| #[trigger] s.log.contains_key(slot) ==> slot > s.last_slot,
    ensures
        ({
            let end = after_commit_message(s, message).0;
            forall|slot: Slot| #[trigger] end.log.contains_key(slot) ==> slot > end.last_slot
        }),
{
    if let ConsensusMessage::Commit(i) = message {
        if i.slot > s.last_slot {
            lemma_log_stays_later(logged(s, i));
        }
    }
}

proof fn lemma_log_stays_later(s: SlotState)
    requires
        forall|slot: Slot| #[trigger] s.log.contains_key(slot) ==> slot > s.last_slot,
    ensures
        ({
            let end = after_execution(s).0;
            forall|slot: Slot| #[trigger] end.log.contains_key(slot) ==> slot > end.last_slot
        }),
    decreases s.log.len(),
{
    let slot = (s.last_slot + 1) as Slot;
    if s.last_slot < Slot::MAX && s.log.dom().finite() && s.log.contains_key(slot) {
        let (heights, fetches) = after_proposals(s.heights, s.log[slot].proposals@);
        let next = SlotState { heights, log: s.log.remove(slot), last_slot: slot };
        lemma_log_stays_later(next);
        assert(after_execution(s).0 == after_execution(next).0);
    } else {
        assert(after_execution(s).0 == s);
    }
}

/// The heights `low` are not above the heights `high`.
spec fn rises_to(low: Map<PublicKey, Height>, high: Map<PublicKey, Height>) -> bool {
    forall|k: PublicKey| #[trigger]
        low.contains_key(k) ==> high.contains_key(k) && low[k] <= high[k]
}

/// Pruning for lower heights first makes no difference.
proof fn lemma_prune_twice(
    dag: Map<Height, Map<PublicKey, (Digest, Certificate)>>,
    low: Map<PublicKey, Height>,
    high: Map<PublicKey, Height>,
    gc_depth: Height,
    early: Height,
    late: Height,
)
    requires
        rises_to(low, high),
        early <= late,
    ensures
        pruned(pruned(dag, low, gc_depth, early), high, gc_depth, late) == pruned(
            dag,
            high,
            gc_depth,
            late,
        ),
{
    let once = pruned(dag, low, gc_depth, early);
    let twice = pruned(once, high, gc_depth, late);
    let whole = pruned(dag, high, gc_depth, late);
    assert forall|r: Height| #[trigger] recent(recent(dag[r], low, r), high, r) == recent(
        dag[r],
        high,
        r,
    ) by {
        assert(recent(recent(dag[r], low, r), high, r) =~= recent(dag[r], high, r));
    }
    assert forall|r: Height| twice.contains_key(r) <==> whole.contains_key(r) by {
        if once.contains_key(r) {
            assert(once[r] == recent(dag[r], low, r));
        }
        if whole.contains_key(r) {
            assert(recent(recent(dag[r], low, r), high, r) == recent(dag[r], high, r));
            if recent(dag[r], low, r) == Map::<PublicKey, (Digest, Certificate)>::empty() {
                assert(recent(dag[r], high, r) =~= Map::<
                    PublicKey,
                    (Digest, Certificate),
                >::empty());
            }
            assert(once.contains_key(r));
        }
    }
    assert forall|r: Height| whole.contains_key(r) implies twice[r] == whole[r] by {
        assert(twice.contains_key(r));
        assert(once[r] == recent(dag[r], low, r));
    }
    assert(twice =~= whole);
}

/// The greatest of the heights does not fall when they rise.
proof fn lemma_greatest_rises(
    low: Map<PublicKey, Height>,
    high: Map<PublicKey, Height>,
    early: Height,
    late: Height,
)
    requires
        rises_to(low, high),
        is_greatest(low, early),
        is_greatest(high, late),
    ensures
        early <= late,
{
    let k = choose|k: PublicKey| low.contains_key(k) && #[trigger] low[k] == early;
    assert(high.contains_key(k) && high[k] <= late);
}

/// What two updates do together: the chains are executed up to both certificates, and all that is too
/// old after both is dropped.
proof fn lemma_two_updates(
    s: DagState,
    a: CertificateView,
    b: CertificateView,
    gc_depth: Height,
    one: DagState,
    two: DagState,
)
    requires
        is_update(s, a, gc_depth, one),
        is_update(one, b, gc_depth, two),
    ensures
        two.heights == raised(raised(s.heights, a), b),
        is_greatest(two.heights, two.last_round),
        two.dag == pruned(s.dag, two.heights, gc_depth, two.last_round),
{
    assert(rises_to(one.heights, two.heights));
    lemma_greatest_rises(one.heights, two.heights, one.last_round, two.last_round);
    lemma_prune_twice(
        s.dag,
        one.heights,
        two.heights,
        gc_depth,
        one.last_round,
        two.last_round,
    );
}

/// The order of two updates makes no difference.
pub proof fn updates_commute(
    s: DagState,
    a: CertificateView,
    b: CertificateView,
    gc_depth: Height,
    after_a: DagState,
    after_ab: DagState,
    after_b: DagState,
    after_ba: DagState,
)
    requires
        is_update(s, a, gc_depth, after_a),
        is_update(after_a, b, gc_depth, after_ab),
        is_update(s, b, gc_depth, after_b),
        is_update(after_b, a, gc_depth, after_ba),
    ensures
        after_ab == after_ba,
{
    lemma_two_updates(s, a, b, gc_depth, after_a, after_ab);
    lemma_two_updates(s, b, a, gc_depth, after_b, after_ba);
    assert(after_ab.heights =~= after_ba.heights);
    lemma_greatest_rises(
        after_ab.heights,
        after_ba.heights,
        after_ab.last_round,
        after_ba.last_round,
    );
    lemma_greatest_rises(
        after_ba.heights,
        after_ab.heights,
        after_ba.last_round,
        after_ab.last_round,
    );
}

/// The same update twice changes nothing more.
pub proof fn a_repeated_update_changes_nothing(
    s: DagState,
    a: CertificateView,
    gc_depth: Height,
    once: DagState,
    twice: DagState,
)
    requires
        is_update(s, a, gc_depth, once),
        is_update(once, a, gc_depth, twice),
    ensures
        twice == once,
{
    lemma_two_updates(s, a, a, gc_depth, once, twice);
    assert(twice.heights =~= once.heights);
    lemma_greatest_rises(once.heights, twice.heights, once.last_round, twice.last_round);
    lemma_greatest_rises(twice.heights, once.heights, twice.last_round, once.last_round);
}

/// The state once the commits `messages` have come in, one after the other.
pub open spec fn after_commits(s: SlotState, messages: Seq<Instance>) -> SlotState
    decreases messages.len(),
{
    if messages.len() == 0 {
        s
    } else {
        after_commit_message(
            after_commits(s, messages.drop_last()),
            ConsensusMessage::Commit(messages.last()),
        ).0
    }
}

/// One of `messages` is for `slot`.
pub open spec fn has_slot(messages: Seq<Instance>, slot: Slot) -> bool {
    exists|i: int| 0 <= i < messages.len() && (#[trigger] messages[i]).slot == slot
}

/// One of `messages` for a slot up to `last` proposes the height `h` of the chain of `author`.
pub open spec fn proposes(messages: Seq<Instance>, last: Slot, author: PublicKey, h: Height) -> bool {
    exists|i: int|
        0 <= i < messages.len() && (#[trigger] messages[i]).slot <= last && proposes_height(
            messages[i].proposals@,
            author,
            h,
        )
}

/// One of `proposals` is for the height `h` of the chain of `author`.
pub open spec fn proposes_height(
    proposals: Seq<(PublicKey, Proposal)>,
    author: PublicKey,
    h: Height,
) -> bool {
    exists|j: int|
        0 <= j < proposals.len() && (#[trigger] proposals[j]).0 == author && proposals[j].1.height
            == h
}

/// Every chain is executed up to the greatest height that one of `messages` for a slot up to `last`
/// proposes of it, or to where it was at the `start` if that is higher.
pub open spec fn are_greatest(
    start: Map<PublicKey, Height>,
    messages: Seq<Instance>,
    last: Slot,
    end: Map<PublicKey, Height>,
) -> bool {
    &&& end.dom() == start.dom()
    &&& forall|a: PublicKey| #[trigger]
        start.contains_key(a) ==> {
            &&& start[a] <= end[a]
            &&& end[a] == start[a] || proposes(messages, last, a, end[a])
            &&& forall|h: Height| #[trigger] proposes(messages, last, a, h) ==> h <= end[a]
        }
}

/// What holds of the state `s` once the commits `messages` have come in, in whatever order, after the
/// state `start`.
spec fn has_taken(start: SlotState, messages: Seq<Instance>, s: SlotState) -> bool {
    &&& s.log.dom().finite()
    &&& start.last_slot <= s.last_slot
    &&& forall|slot: Slot| #[trigger]
        s.log.contains_key(slot) <==> slot > s.last_slot && has_slot(messages, slot)
    &&& forall|i: int|
        0 <= i < messages.len() && (#[trigger] messages[i]).slot > s.last_slot ==> s.log[
        messages[i].slot] == messages[i]
    &&& forall|slot: Slot|
        start.last_slot < slot <= s.last_slot ==> #[trigger] has_slot(messages, slot)
    &&& are_greatest(start.heights, messages, s.last_slot, s.heights)
}

/// The messages are for different slots after that of `start`, none of them the last number, and name
/// known authorities only.
pub open spec fn are_proper(start: SlotState, messages: Seq<Instance>) -> bool {
    &&& forall|i: int, j: int|
        0 <= i < j < messages.len() ==> (#[trigger] messages[i]).slot != (
        #[trigger] messages[j]).slot
    &&& forall|i: int|
        0 <= i < messages.len() ==> start.last_slot < (#[trigger] messages[i]).slot < Slot::MAX
            && knows_authors(start.heights, messages[i])
}

/// What the proposals of a slot reach.
proof fn lemma_proposals_reach(
    heights: Map<PublicKey, Height>,
    proposals: Seq<(PublicKey, Proposal)>,
    a: PublicKey,
)
    requires
        forall|j: int|
            0 <= j < proposals.len() ==> heights.contains_key((#[trigger] proposals[j]).0),
    ensures
        ({
            let end = after_proposals(heights, proposals).0;
            &&& end.dom() == heights.dom()
            &&& heights[a] <= end[a]
            &&& end[a] == heights[a] || proposes_height(proposals, a, end[a])
            &&& forall|h: Height| #[trigger] proposes_height(proposals, a, h) ==> h <= end[a]
        }),
    decreases proposals.len(),
{
    if proposals.len() > 0 {
        let front = proposals.drop_last();
        assert forall|j: int| 0 <= j < front.len() implies heights.contains_key(
            (#[trigger] front[j]).0,
        ) by {
            assert(front[j] == proposals[j]);
        }
        lemma_proposals_reach(heights, front, a);
        let mid = after_proposals(heights, front).0;
        let end = after_proposals(heights, proposals).0;
        let last = proposals.last();
        assert(proposals[proposals.len() - 1] == last);
        assert(heights.dom().contains(last.0));
        assert(end.dom() =~= heights.dom());
        if proposes_height(front, a, mid[a]) {
            let j = choose|j: int|
                0 <= j < front.len() && (#[trigger] front[j]).0 == a && front[j].1.height
                    == mid[a];
            assert(proposals[j] == front[j]);
            assert(proposes_height(proposals, a, mid[a]));
        }
        if last.0 == a {
            assert(proposes_height(proposals, a, last.1.height));
        }
        assert forall|h: Height| #[trigger] proposes_height(proposals, a, h) implies h
            <= end[a] by {
            let j = choose|j: int|
                0 <= j < proposals.len() && (#[trigger] proposals[j]).0 == a
                    && proposals[j].1.height == h;
            if j < front.len() {
                assert(front[j] == proposals[j]);
                assert(proposes_height(front, a, h));
            }
        }
    }
}

/// Executing the next slot keeps what holds of the state.
proof fn lemma_next_slot(start: SlotState, messages: Seq<Instance>, s: SlotState)
    requires
        are_proper(start, messages),
        has_taken(start, messages, s),
        s.last_slot < Slot::MAX,
        s.log.contains_key((s.last_slot + 1) as Slot),
    ensures
        ({
            let slot = (s.last_slot + 1) as Slot;
            has_taken(
                start,
                messages,
                SlotState {
                    heights: after_proposals(s.heights, s.log[slot].proposals@).0,
                    log: s.log.remove(slot),
                    last_slot: slot,
                },
            )
        }),
{
    let slot = (s.last_slot + 1) as Slot;
    assert(has_slot(messages, slot));
    let n = choose|i: int| 0 <= i < messages.len() && (#[trigger] messages[i]).slot == slot;
    let m = messages[n];
    assert(s.log[slot] == m);
    assert(knows_authors(start.heights, m));
    assert forall|j: int| 0 <= j < m.proposals@.len() implies s.heights.contains_key(
        (#[trigger] m.proposals@[j]).0,
    ) by {
        assert(start.heights.dom().contains(m.proposals@[j].0));
    }
    let heights = after_proposals(s.heights, m.proposals@).0;
    let next = SlotState { heights, log: s.log.remove(slot), last_slot: slot };
    assert forall|t: Slot| #[trigger] next.log.contains_key(t) <==> t > slot && has_slot(
        messages,
        t,
    ) by {
        assert(s.log.contains_key(t) <==> t > s.last_slot && has_slot(messages, t));
    }
    lemma_proposals_reach(s.heights, m.proposals@, m.proposals@[0].0);
    assert(heights.dom() == s.heights.dom());
    assert forall|a: PublicKey| #[trigger] start.heights.contains_key(a) implies {
        &&& start.heights[a] <= heights[a]
        &&& heights[a] == start.heights[a] || proposes(messages, slot, a, heights[a])
        &&& forall|h: Height| #[trigger] proposes(messages, slot, a, h) ==> h <= heights[a]
    } by {
        lemma_proposals_reach(s.heights, m.proposals@, a);
        if heights[a] == s.heights[a] {
            if s.heights[a] != start.heights[a] {
                assert(proposes(messages, s.last_slot, a, heights[a]));
                let i = choose|i: int|
                    0 <= i < messages.len() && (#[trigger] messages[i]).slot <= s.last_slot
                        && proposes_height(messages[i].proposals@, a, heights[a]);
                assert(messages[i].slot <= slot);
            }
        } else {
            assert(proposes_height(messages[n].proposals@, a, heights[a]));
        }
        assert forall|h: Height| #[trigger] proposes(messages, slot, a, h) implies h
            <= heights[a] by {
            let i = choose|i: int|
                0 <= i < messages.len() && (#[trigger] messages[i]).slot <= slot
                    && proposes_height(messages[i].proposals@, a, h);
            if messages[i].slot <= s.last_slot {
                assert(proposes(messages, s.last_slot, a, h));
            } else {
                assert(messages[i].slot == messages[n].slot);
                assert(i == n);
            }
        }
    }
}

/// Executing all slots that can be keeps what holds of the state.
proof fn lemma_execute_all(start: SlotState, messages: Seq<Instance>, s: SlotState)
    requires
        are_proper(start, messages),
        has_taken(start, messages, s),
    ensures
        ({
            let end = after_execution(s).0;
            &&& has_taken(start, messages, end)
            &&& end.last_slot < Slot::MAX ==> !end.log.contains_key((end.last_slot + 1) as Slot)
        }),
    decreases s.log.len(),
{
    let slot = (s.last_slot + 1) as Slot;
    if s.last_slot < Slot::MAX && s.log.contains_key(slot) {
        lemma_next_slot(start, messages, s);
        let (heights, fetches) = after_proposals(s.heights, s.log[slot].proposals@);
        let next = SlotState { heights, log: s.log.remove(slot), last_slot: slot };
        lemma_execute_all(start, messages, next);
        assert(after_execution(s).0 == after_execution(next).0);
    } else {
        assert(after_execution(s).0 == s);
    }
}

/// Taking one more message keeps what holds of the state.
proof fn lemma_take_message(
    start: SlotState,
    front: Seq<Instance>,
    m: Instance,
    s: SlotState,
)
    requires
        are_proper(start, front.push(m)),
        has_taken(start, front, s),
    ensures
        s.last_slot < m.slot,
        has_taken(start, front.push(m), logged(s, m)),
{
    let all = front.push(m);
    assert(all[front.len() as int] == m);
    if m.slot <= s.last_slot {
        assert(has_slot(front, m.slot));
        let i = choose|i: int| 0 <= i < front.len() && (#[trigger] front[i]).slot == m.slot;
        assert(all[i] == front[i]);
    }
    assert forall|slot: Slot| #[trigger] has_slot(all, slot) <==> has_slot(front, slot) || slot
        == m.slot by {
        if has_slot(front, slot) {
            let i = choose|i: int| 0 <= i < front.len() && (#[trigger] front[i]).slot == slot;
            assert(all[i] == front[i]);
        }
        if has_slot(all, slot) && slot != m.slot {
            let i = choose|i: int| 0 <= i < all.len() && (#[trigger] all[i]).slot == slot;
            assert(front[i] == all[i]);
        }
    }
    let next = logged(s, m);
    assert forall|i: int| 0 <= i < all.len() && (#[trigger] all[i]).slot
        > next.last_slot implies next.log[all[i].slot] == all[i] by {
        if i < front.len() {
            assert(front[i] == all[i]);
            assert(all[i].slot != all[front.len() as int].slot);
        }
    }
    assert forall|a: PublicKey, h: Height| #[trigger]
        proposes(all, s.last_slot, a, h) <==> proposes(front, s.last_slot, a, h) by {
        if proposes(front, s.last_slot, a, h) {
            let i = choose|i: int|
                0 <= i < front.len() && (#[trigger] front[i]).slot <= s.last_slot
                    && proposes_height(front[i].proposals@, a, h);
            assert(all[i] == front[i]);
        }
        if proposes(all, s.last_slot, a, h) {
            let i = choose|i: int|
                0 <= i < all.len() && (#[trigger] all[i]).slot <= s.last_slot
                    && proposes_height(all[i].proposals@, a, h);
            assert(front[i] == all[i]);
        }
    }
}

/// What holds once all of `messages` have come in.
proof fn lemma_after_commits(start: SlotState, messages: Seq<Instance>)
    requires
        start.log == Map::<Slot, Instance>::empty(),
        are_proper(start, messages),
    ensures
        ({
            let end = after_commits(start, messages);
            &&& has_taken(start, messages, end)
            &&& end.last_slot < Slot::MAX ==> !end.log.contains_key((end.last_slot + 1) as Slot)
        }),
    decreases messages.len(),
{
    if messages.len() == 0 {
        assert(start.log.dom() =~= Set::empty());
        assert forall|a: PublicKey, h: Height| !#[trigger]
            proposes(messages, start.last_slot, a, h) by {}
    } else {
        let front = messages.drop_last();
        let m = messages.last();
        assert forall|i: int, j: int| 0 <= i < j < front.len() implies (#[trigger] front[i]).slot
            != (#[trigger] front[j]).slot by {
            assert(front[i] == messages[i] && front[j] == messages[j]);
        }
        assert forall|i: int| 0 <= i < front.len() implies start.last_slot < (
        #[trigger] front[i]).slot < Slot::MAX && knows_authors(start.heights, front[i]) by {
            assert(front[i] == messages[i]);
        }
        lemma_after_commits(start, front);
        let s = after_commits(start, front);
        assert(front.push(m) =~= messages);
        lemma_take_message(start, front, m, s);
        lemma_execute_all(start, messages, logged(s, m));
    }
}

/// Commits for the next `n` slots, each passed once, end in the same way in whatever order they come:
/// all `n` slots are executed, none waits, and every chain is executed up to the greatest height that
/// one of them proposes of it.
pub proof fn commits_can_come_in_any_order(s: SlotState, messages: Seq<Instance>, n: nat)
    requires
        s.log == Map::<Slot, Instance>::empty(),
        s.last_slot + n < Slot::MAX,
        are_proper(s, messages),
        forall|i: int| 0 <= i < messages.len() ==> (#[trigger] messages[i]).slot <= s.last_slot + n,
        forall|slot: Slot|
            s.last_slot < slot <= s.last_slot + n ==> #[trigger] has_slot(messages, slot),
    ensures
        ({
            let end = after_commits(s, messages);
            &&& end.last_slot == s.last_slot + n
            &&& end.log == Map::<Slot, Instance>::empty()
            &&& are_greatest(s.heights, messages, end.last_slot, end.heights)
        }),
{
    lemma_after_commits(s, messages);
    let end = after_commits(s, messages);
    if end.last_slot < s.last_slot + n {
        let slot = (end.last_slot + 1) as Slot;
        assert(has_slot(messages, slot));
        assert(end.log.contains_key(slot));
    }
    if end.last_slot > s.last_slot + n {
        assert(has_slot(messages, end.last_slot));
    }
    assert forall|slot: Slot| !#[trigger] end.log.contains_key(slot) by {
        if end.log.contains_key(slot) {
            assert(has_slot(messages, slot));
        }
    }
    assert(end.log =~= Map::<Slot, Instance>::empty());
}

/// The header of height `h` in the chain of `a` is among those that `fetch` commits.
pub open spec fn commits_height(fetch: FetchView, a: PublicKey, h: Height) -> bool {
    fetch.author == a && fetch.stop_height < h && h <= fetch.proposal.height
}

/// Some of `fetches` commits the header of height `h` in the chain of `a`.
pub open spec fn is_committed(fetches: Seq<FetchView>, a: PublicKey, h: Height) -> bool {
    exists|i: int| 0 <= i < fetches.len() && commits_height(#[trigger] fetches[i], a, h)
}

/// One of `proposals` is what `fetch` was made for.
pub open spec fn stems_from(fetch: FetchView, proposals: Seq<(PublicKey, Proposal)>) -> bool {
    exists|j: int|
        0 <= j < proposals.len() && (#[trigger] proposals[j]).0 == fetch.author
            && proposals[j].1@ == fetch.proposal
}

/// A slot commits every header by which a chain grows, and no other: the header of height `h` is
/// committed exactly if `h` lies above what was executed of the chain before the slot, and not above
/// what is executed of it after the slot. No header is committed twice. Whatever the slot proposes
/// of a chain is executed after it, and a chain rises only to a height that was proposed of it.
pub proof fn a_slot_commits_what_its_chains_grow_by(
    heights: Map<PublicKey, Height>,
    proposals: Seq<(PublicKey, Proposal)>,
    a: PublicKey,
    h: Height,
)
    requires
        forall|j: int|
            0 <= j < proposals.len() ==> heights.contains_key((#[trigger] proposals[j]).0),
        heights.contains_key(a),
    ensures
        ({
            let (end, fetches) = after_proposals(heights, proposals);
            &&& end.dom() == heights.dom()
            &&& is_committed(fetches, a, h) <==> heights[a] < h && h <= end[a]
            &&& forall|i: int, j: int|
                0 <= i < fetches.len() && 0 <= j < fetches.len() && commits_height(
                    #[trigger] fetches[i],
                    a,
                    h,
                ) && commits_height(#[trigger] fetches[j], a, h) ==> i == j
            &&& forall|i: int|
                0 <= i < fetches.len() ==> stems_from(#[trigger] fetches[i], proposals)
                    && fetches[i].stop_height < fetches[i].proposal.height
            &&& forall|j: int|
                0 <= j < proposals.len() ==> (#[trigger] proposals[j]).1.height
                    <= end[proposals[j].0]
            &&& heights[a] <= end[a]
            &&& heights[a] < end[a] ==> exists|j: int|
                0 <= j < proposals.len() && (#[trigger] proposals[j]).0 == a
                    && proposals[j].1.height == end[a]
        }),
    decreases proposals.len(),
{
    let (end, fetches) = after_proposals(heights, proposals);
    if proposals.len() > 0 {
        let front = proposals.drop_last();
        assert forall|j: int| 0 <= j < front.len() implies heights.contains_key(
            (#[trigger] front[j]).0,
        ) by {
            assert(front[j] == proposals[j]);
        }
        a_slot_commits_what_its_chains_grow_by(heights, front, a, h);
        let (mid, earlier) = after_proposals(heights, front);
        let (author, proposal) = proposals.last();
        assert(proposals[proposals.len() - 1] == proposals.last());
        assert(heights.dom().contains(author));
        assert(end.dom() =~= heights.dom());
        assert forall|i: int| 0 <= i < fetches.len() implies stems_from(
            #[trigger] fetches[i],
            proposals,
        ) && fetches[i].stop_height < fetches[i].proposal.height by {
            if i < earlier.len() {
                assert(earlier[i] == fetches[i]);
                let j = choose|j: int|
                    0 <= j < front.len() && (#[trigger] front[j]).0 == fetches[i].author
                        && front[j].1@ == fetches[i].proposal;
                assert(proposals[j] == front[j]);
            }
        }
        assert forall|j: int| 0 <= j < proposals.len() implies (#[trigger] proposals[j]).1.height
            <= end[proposals[j].0] by {
            if j < front.len() {
                assert(front[j] == proposals[j]);
            }
        }
        if heights[a] < mid[a] {
            let j = choose|j: int|
                0 <= j < front.len() && (#[trigger] front[j]).0 == a && front[j].1.height == mid[a];
            assert(proposals[j] == front[j]);
        }
        if fetches.len() > earlier.len() {
            let last = fetches[earlier.len() as int];
            if is_committed(earlier, a, h) {
                let i = choose|i: int|
                    0 <= i < earlier.len() && commits_height(#[trigger] earlier[i], a, h);
                assert(fetches[i] == earlier[i]);
            }
            if is_committed(fetches, a, h) && !commits_height(last, a, h) {
                let i = choose|i: int|
                    0 <= i < fetches.len() && commits_height(#[trigger] fetches[i], a, h);
                assert(earlier[i] == fetches[i]);
            }
            assert forall|i: int, j: int|
                0 <= i < fetches.len() && 0 <= j < fetches.len() && commits_height(
                    #[trigger] fetches[i],
                    a,
                    h,
                ) && commits_height(#[trigger] fetches[j], a, h) implies i == j by {
                if i < earlier.len() {
                    assert(earlier[i] == fetches[i]);
                    assert(is_committed(earlier, a, h));
                }
                if j < earlier.len() {
                    assert(earlier[j] == fetches[j]);
                    assert(is_committed(earlier, a, h));
                }
            }
        }
    }
}

/// One of `plans` commits the header of height `h` in the chain of `a`.
pub open spec fn is_planned(plans: Seq<SlotPlanView>, a: PublicKey, h: Height) -> bool {
    exists|i: int| 0 <= i < plans.len() && is_committed((#[trigger] plans[i]).fetches, a, h)
}

/// All slots from the one behind `last` up to `slot` are in `log`.
pub open spec fn all_logged(log: Map<Slot, Instance>, last: Slot, slot: Slot) -> bool {
    forall|t: Slot| last < t && t <= slot ==> #[trigger] log.contains_key(t)
}

/// Execution goes on as long as the next slot is there, executes it in full, and loses nothing:
/// exactly those slots are executed before which none is missing, and all others wait on as they
/// were. What is committed are the headers by which the chains grow, each of them once, and for
/// every slot what was proposed in it.
proof fn lemma_execution(s: SlotState, a: PublicKey, h: Height, slot: Slot)
    requires
        s.log.dom().finite(),
        is_executable(s),
        s.heights.contains_key(a),
    ensures
        ({
            let (end, plans) = after_execution(s);
            &&& s.last_slot <= end.last_slot
            &&& end.heights.dom() == s.heights.dom()
            &&& s.last_slot < slot ==> (slot <= end.last_slot <==> all_logged(
                s.log,
                s.last_slot,
                slot,
            ))
            &&& end.log.contains_key(slot) <==> s.log.contains_key(slot) && !(s.last_slot < slot
                && slot <= end.last_slot)
            &&& end.log.contains_key(slot) ==> end.log[slot] == s.log[slot]
            &&& is_planned(plans, a, h) <==> s.heights[a] < h && h <= end.heights[a]
            &&& s.heights[a] <= end.heights[a]
            &&& plans.len() == end.last_slot - s.last_slot
            &&& forall|i: int, j: int|
                0 <= i < plans.len() && 0 <= j < plans.len() && is_committed(
                    (#[trigger] plans[i]).fetches,
                    a,
                    h,
                ) && is_committed((#[trigger] plans[j]).fetches, a, h) ==> i == j
            &&& forall|i: int, j: int|
                0 <= i < plans.len() && 0 <= j < plans[i].fetches.len() ==> stems_from(
                    #[trigger] plans[i].fetches[j],
                    s.log[plans[i].slot].proposals@,
                )
            &&& forall|i: int|
                0 <= i < plans.len() ==> (#[trigger] plans[i]).slot == s.last_slot + 1 + i
            &&& forall|i: int, j: int|
                #![trigger plans[i], s.log[plans[i].slot].proposals@[j]]
                0 <= i < plans.len() && 0 <= j < s.log[plans[i].slot].proposals@.len()
                    && s.log[plans[i].slot].proposals@[j].0 == a
                    ==> s.log[plans[i].slot].proposals@[j].1.height <= end.heights[a]
        }),
    decreases s.log.len(),
{
    let first = (s.last_slot + 1) as Slot;
    if s.last_slot < Slot::MAX && s.log.contains_key(first) {
        assert(is_next(s, first));
        let proposals = s.log[first].proposals@;
        let (heights, fetches) = after_proposals(s.heights, proposals);
        a_slot_commits_what_its_chains_grow_by(s.heights, proposals, a, h);
        let next = SlotState { heights, log: s.log.remove(first), last_slot: first };
        lemma_stays_executable(s, next);
        assert(heights.dom().contains(a));
        lemma_execution(next, a, h, slot);
        lemma_execution(next, a, h, first);
        let (end, later) = after_execution(next);
        let plans = after_execution(s).1;
        assert(plans =~= seq![SlotPlanView { slot: first, fetches }] + later);
        assert(plans[0].fetches == fetches);
        if s.last_slot < slot {
            if all_logged(s.log, s.last_slot, slot) {
                assert forall|t: Slot| first < t && t <= slot implies
                    #[trigger] next.log.contains_key(t) by {
                    assert(s.log.contains_key(t));
                }
                assert(all_logged(next.log, first, slot));
            }
            if slot <= end.last_slot {
                assert forall|t: Slot| s.last_slot < t && t <= slot implies
                    #[trigger] s.log.contains_key(t) by {
                    if t != first {
                        assert(all_logged(next.log, first, slot));
                        assert(next.log.contains_key(t));
                    }
                }
            }
        }
        if is_planned(later, a, h) {
            let i = choose|i: int|
                0 <= i < later.len() && is_committed((#[trigger] later[i]).fetches, a, h);
            assert(plans[i + 1] == later[i]);
        }
        if is_planned(plans, a, h) && !is_committed(fetches, a, h) {
            let i = choose|i: int|
                0 <= i < plans.len() && is_committed((#[trigger] plans[i]).fetches, a, h);
            assert(later[i - 1] == plans[i]);
        }
        assert(is_committed(fetches, a, h) ==> is_committed(plans[0].fetches, a, h));
        assert forall|i: int, j: int|
            0 <= i < plans.len() && 0 <= j < plans.len() && is_committed(
                (#[trigger] plans[i]).fetches,
                a,
                h,
            ) && is_committed((#[trigger] plans[j]).fetches, a, h) implies i == j by {
            if i > 0 {
                assert(later[i - 1] == plans[i]);
                assert(is_planned(later, a, h));
            }
            if j > 0 {
                assert(later[j - 1] == plans[j]);
                assert(is_planned(later, a, h));
            }
        }
        assert forall|i: int| 0 <= i < plans.len() implies (#[trigger] plans[i]).slot == s.last_slot
            + 1 + i by {
            if i > 0 {
                assert(later[i - 1] == plans[i]);
            }
        }
        assert forall|i: int, j: int| 0 <= i < plans.len() && 0 <= j < plans[i].fetches.len() implies
            stems_from(#[trigger] plans[i].fetches[j], s.log[plans[i].slot].proposals@) by {
            if i > 0 {
                assert(later[i - 1] == plans[i]);
                assert(stems_from(
                    later[i - 1].fetches[j],
                    next.log[later[i - 1].slot].proposals@,
                ));
                assert(next.log[plans[i].slot] == s.log[plans[i].slot]);
            }
        }
        assert forall|i: int, j: int|
            #![trigger plans[i], s.log[plans[i].slot].proposals@[j]]
            0 <= i < plans.len() && 0 <= j < s.log[plans[i].slot].proposals@.len()
                && s.log[plans[i].slot].proposals@[j].0 == a implies s.log[
        plans[i].slot].proposals@[j].1.height <= end.heights[a] by {
            if i > 0 {
                assert(later[i - 1] == plans[i]);
                assert(next.log[plans[i].slot] == s.log[plans[i].slot]);
            } else {
                assert(proposals[j].1.height <= heights[a]);
            }
        }
    } else {
        if s.last_slot < slot && all_logged(s.log, s.last_slot, slot) {
            assert(s.log.contains_key(first));
        }
    }
}

/// What a commit for a slot that was not executed yet brings about. It is lost in no case: its slot
/// is executed at once if none before it is missing, and else it waits. With it go exactly those
/// waiting slots before which none is missing, in order; all others wait on. The headers that are
/// committed are those by which the chains grow, each of them once, and they are what the executed
/// slots propose.
pub proof fn a_commit_executes_all_it_can(
    s: SlotState,
    i: Instance,
    a: PublicKey,
    h: Height,
    slot: Slot,
)
    requires
        s.log.dom().finite(),
        i.slot > s.last_slot,
        is_executable(logged(s, i)),
        s.heights.contains_key(a),
    ensures
        ({
            let log = s.log.insert(i.slot, i);
            let (end, plans) = after_commit_message(s, ConsensusMessage::Commit(i));
            &&& s.last_slot < slot ==> (slot <= end.last_slot <==> all_logged(
                log,
                s.last_slot,
                slot,
            ))
            &&& end.log.contains_key(slot) <==> log.contains_key(slot) && !(s.last_slot < slot
                && slot <= end.last_slot)
            &&& end.log.contains_key(slot) ==> end.log[slot] == log[slot]
            &&& end.last_slot == s.last_slot + plans.len()
            &&& end.heights.dom() == s.heights.dom()
            &&& is_planned(plans, a, h) <==> s.heights[a] < h && h <= end.heights[a]
            &&& forall|m: int, n: int|
                0 <= m < plans.len() && 0 <= n < plans.len() && is_committed(
                    (#[trigger] plans[m]).fetches,
                    a,
                    h,
                ) && is_committed((#[trigger] plans[n]).fetches, a, h) ==> m == n
            &&& forall|m: int|
                0 <= m < plans.len() ==> (#[trigger] plans[m]).slot == s.last_slot + 1 + m
            &&& forall|m: int, n: int|
                0 <= m < plans.len() && 0 <= n < plans[m].fetches.len() ==> stems_from(
                    #[trigger] plans[m].fetches[n],
                    log[plans[m].slot].proposals@,
                )
            &&& forall|m: int, n: int|
                #![trigger plans[m], log[plans[m].slot].proposals@[n]]
                0 <= m < plans.len() && 0 <= n < log[plans[m].slot].proposals@.len()
                    && log[plans[m].slot].proposals@[n].0 == a
                    ==> log[plans[m].slot].proposals@[n].1.height <= end.heights[a]
        }),
{
    lemma_execution(logged(s, i), a, h, slot);
}

/// Committing a certificate raises its author's chain to it unless the chain is higher already, and
/// no other chain. A certificate stays in the DAG exactly if its height is within the depth of the
/// garbage collection and not below what was executed of its author's chain, and it stays unchanged.
pub proof fn an_update_drops_what_is_old_and_nothing_else(
    before: DagState,
    certificate: CertificateView,
    gc_depth: Height,
    after: DagState,
    a: PublicKey,
    r: Height,
)
    requires
        is_update(before, certificate, gc_depth, after),
    ensures
        after.heights.contains_key(a) <==> before.heights.contains_key(a) || a == certificate.author,
        a != certificate.author && before.heights.contains_key(a) ==> after.heights[a]
            == before.heights[a],
        after.heights[certificate.author] >= certificate.height,
        before.heights.contains_key(certificate.author) ==> after.heights[certificate.author]
            >= before.heights[certificate.author] && (after.heights[certificate.author]
            == certificate.height || after.heights[certificate.author]
            == before.heights[certificate.author]),
        !before.heights.contains_key(certificate.author) ==> after.heights[certificate.author]
            == certificate.height,
        after.heights.contains_key(a) ==> after.heights[a] <= after.last_round,
        exists|k: PublicKey| #[trigger]
            after.heights.contains_key(k) && after.heights[k] == after.last_round,
        after.dag.contains_key(r) && after.dag[r].contains_key(a) <==> before.dag.contains_key(r)
            && before.dag[r].contains_key(a) && r + gc_depth >= after.last_round && (
        after.heights.contains_key(a) ==> r >= after.heights[a]),
        after.dag.contains_key(r) && after.dag[r].contains_key(a) ==> after.dag[r][a]
            == before.dag[r][a],
        after.dag.contains_key(r) ==> after.dag[r].dom() != Set::<PublicKey>::empty(),
{
    let k = choose|k: PublicKey|
        after.heights.contains_key(k) && #[trigger] after.heights[k] == after.last_round;
    assert(after.heights.contains_key(k));
    if before.dag.contains_key(r) {
        let left = recent(before.dag[r], after.heights, r);
        if left.contains_key(a) {
            assert(left.dom().contains(a));
            assert(left != Map::<PublicKey, (Digest, Certificate)>::empty());
        }
    }
    if after.dag.contains_key(r) && after.dag[r].dom() == Set::<PublicKey>::empty() {
        assert(after.dag[r] =~= Map::<PublicKey, (Digest, Certificate)>::empty());
    }
}

/// The genesis certificates stand under their authors, and those of no other authority: of several
/// with one author, the last.
pub proof fn every_genesis_certificate_counts(genesis: Seq<Certificate>, a: PublicKey, i: int)
    ensures
        by_author(genesis).contains_key(a) <==> exists|j: int|
            0 <= j < genesis.len() && (#[trigger] genesis[j]).author == a,
        0 <= i < genesis.len() && genesis[i].author == a && (forall|j: int|
            i < j < genesis.len() ==> (#[trigger] genesis[j]).author != a) ==> by_author(genesis)[a]
            == (genesis[i].digest, genesis[i]),
    decreases genesis.len(),
{
    if genesis.len() > 0 {
        let front = genesis.drop_last();
        every_genesis_certificate_counts(front, a, i);
        assert(genesis[genesis.len() - 1] == genesis.last());
        if exists|j: int| 0 <= j < front.len() && (#[trigger] front[j]).author == a {
            let j = choose|j: int| 0 <= j < front.len() && (#[trigger] front[j]).author == a;
            assert(genesis[j] == front[j]);
        }
        if exists|j: int| 0 <= j < genesis.len() && (#[trigger] genesis[j]).author == a {
            let j = choose|j: int| 0 <= j < genesis.len() && (#[trigger] genesis[j]).author == a;
            if j < front.len() {
                assert(front[j] == genesis[j]);
            }
        }
        if 0 <= i < front.len() && genesis[i].author == a && (forall|j: int|
            i < j < genesis.len() ==> (#[trigger] genesis[j]).author != a) {
            assert(front[i] == genesis[i]);
            assert forall|j: int| i < j < front.len() implies (#[trigger] front[j]).author != a by {
                assert(front[j] == genesis[j]);
            }
        }
    }
}

/// What several headers commit is what each of them commits, added up, as far as it can be counted.
pub proof fn committed_bytes_add_up(a: Seq<u64>, b: Seq<u64>, n: u64)
    ensures
        sum(Seq::<u64>::empty()) == 0,
        sum(seq![n]) == n,
        sum(a + b) == sum(a) + sum(b),
        capped_sum(a) <= sum(a),
        capped_sum(a) < sum(a) ==> capped_sum(a) == u64::MAX,
    decreases b.len(),
{
    reveal_with_fuel(sum, 2);
    assert(seq![n].drop_last() =~= Seq::<u64>::empty());
    if b.len() == 0 {
        assert(a + b =~= a);
    } else {
        committed_bytes_add_up(a, b.drop_last(), n);
        assert((a + b).drop_last() =~= a + b.drop_last());
    }
}

/// A flattened DAG goes on as long as it can: the certificate one height below is left out only if
/// the DAG does not hold it or its height was executed, whatever else it says.
pub proof fn a_flattened_dag_is_complete(
    dag: Map<Height, Map<PublicKey, (Digest, Certificate)>>,
    heights: Map<PublicKey, Height>,
    tip: CertificateView,
    h: Height,
)
    requires
        h < tip.height,
    ensures
        ({
            let order = flattened(dag, heights, tip);
            &&& order[0] == tip
            &&& tip.height - h < order.len() <==> forall|t: Height|
                h <= t && t < tip.height ==> #[trigger] dag.contains_key(t) && dag[t].contains_key(
                    tip.author,
                ) && (heights.contains_key(tip.author) ==> heights[tip.author] < t)
            &&& tip.height - h < order.len() ==> order[tip.height - h] == dag[h][tip.author].1@
        }),
{
    let order = flattened(dag, heights, tip);
    a_flattened_dag_descends(dag, heights, tip, tip.height - h);
    if tip.height - h < order.len() {
        assert forall|t: Height| h <= t && t < tip.height implies #[trigger] dag.contains_key(t)
            && dag[t].contains_key(tip.author) && (heights.contains_key(tip.author) ==> heights[
        tip.author] < t) by {
            a_flattened_dag_descends(dag, heights, tip, tip.height - t);
            assert(is_unexecuted(dag, heights, tip.author, (tip.height - (tip.height - t)) as Height));
        }
    } else {
        let t = (tip.height - order.len()) as Height;
        assert(h <= t && t < tip.height);
        assert(!is_unexecuted(dag, heights, tip.author, t));
        assert(!(dag.contains_key(t) && dag[t].contains_key(tip.author) && (heights.contains_key(
            tip.author,
        ) ==> heights[tip.author] < t)));
    }
}

/// Slots can be executed unless one that would be names an unknown authority, or has the last number.
pub proof fn only_strangers_and_the_last_number_stop_execution(s: SlotState)
    ensures
        is_executable(s) <==> forall|slot: Slot|
            s.last_slot < slot && #[trigger] all_logged(s.log, s.last_slot, slot) ==> slot
                < Slot::MAX && forall|j: int|
                0 <= j < s.log[slot].proposals@.len() ==> s.heights.contains_key(
                    (#[trigger] s.log[slot].proposals@[j]).0,
                ),
{
    assert forall|slot: Slot| s.last_slot < slot implies (all_logged(s.log, s.last_slot, slot)
        <==> #[trigger] is_next(s, slot)) by {}
    if is_executable(s) {
        assert forall|slot: Slot|
            s.last_slot < slot && #[trigger] all_logged(s.log, s.last_slot, slot) implies slot
            < Slot::MAX && forall|j: int|
            0 <= j < s.log[slot].proposals@.len() ==> s.heights.contains_key(
                (#[trigger] s.log[slot].proposals@[j]).0,
            ) by {
            assert(is_next(s, slot));
        }
    } else {
        let slot = choose|slot: Slot| #[trigger]
            is_next(s, slot) && !(slot < Slot::MAX && knows_authors(s.heights, s.log[slot]));
        assert(all_logged(s.log, s.last_slot, slot));
    }
}

/// A slot that was executed, and a message that commits nothing, change nothing.
pub proof fn other_messages_change_nothing(s: SlotState, message: ConsensusMessage)
    requires
        message matches ConsensusMessage::Commit(i) ==> i.slot <= s.last_slot,
    ensures
        after_commit_message(s, message) == (s, Seq::<SlotPlanView>::empty()),
{
}

/// What is in a sequence that grew by `x`.
proof fn lemma_push_contains(s: Seq<Height>, x: Height, r: Height)
    ensures
        s.push(x).contains(r) <==> s.contains(r) || r == x,
{
    if s.contains(r) {
        let k = choose|k: int| 0 <= k < s.len() && s[k] == r;
        assert(s.push(x)[k] == r);
    }
    if s.push(x).contains(r) && r != x {
        let k = choose|k: int| 0 <= k < s.push(x).len() && s.push(x)[k] == r;
        assert(s[k] == r);
    }
    assert(s.push(x)[s.len() as int] == x);
}

} // verus!
