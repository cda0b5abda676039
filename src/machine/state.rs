use vstd::prelude::*;
use crate::machine::error::StateMachineError;
use crate::machine::backoff::{allowed, Backoff, Clock, Next};

verus! {

/// The unit of work of a step, run on the shared data.
pub trait StepFunction<T> {
    /// Runs the work; an error carries a description that retry triggers and
    /// catch tables match against.
    fn call(&self, data: &mut T) -> Result<(), StateMachineError>;
}

/// The predicate of a `Choice` step.
pub trait Condition {
    /// Whether the step's work should run.
    fn check(&self) -> bool;
}

/// The states of the state machine: the kind of a step, which decides what
/// running it does.
#[derive(Debug)]
pub enum State<C> {
    /// Runs the step's work.
    Task,
    /// Runs the step's work only when the predicate holds.
    Choice(C),
    /// Blocks for the given number of seconds and runs no work.
    Sleep(u64),
    /// Does nothing.
    Pass,
    /// Accepted, and does nothing.
    Parallel,
    /// A marker of success; does nothing.
    Succeed,
    /// A marker of failure; does nothing.
    Fail,
    /// Accepted, and does nothing.
    MapState,
    /// An extension point; does nothing.
    CustomState,
}

/// Whether a step of the given kind runs its work, where `gate` is what the
/// predicate of a `Choice` step returned.
pub open spec fn runs_work<C>(state: State<C>, gate: bool) -> bool {
    match state {
        State::Task => true,
        State::Choice(_) => gate,
        _ => false,
    }
}

/// An entry of a catch table: the error descriptions it matches and the
/// recovery work that runs when one of them is pending.
#[derive(Debug)]
pub struct ErrorBlock<F> {
    /// The error descriptions this entry matches.
    pub error_equals: Vec<String>,
    /// The recovery work.
    pub next: F,
}

/// Whether the entry lists the description `sig`.
pub open spec fn catches<F>(block: ErrorBlock<F>, sig: Seq<char>) -> bool {
    exists|k: int| 0 <= k < block.error_equals@.len() && #[trigger] block.error_equals@[k]@ == sig
}

/// Whether a list of descriptions holds `sig`.
pub open spec fn lists(descriptions: Seq<String>, sig: Seq<char>) -> bool {
    exists|k: int| 0 <= k < descriptions.len() && #[trigger] descriptions[k]@ == sig
}

/// The error message of a step reached for a third time.
pub open spec fn repeat_message(machine: Seq<char>, step: Seq<char>) -> Seq<char> {
    "state machine "@ + machine + " failed for step "@ + step
        + ". Step have been invoked upto three times"@
}

/// The description `error` gives to its failure.
pub open spec fn failed_message() -> Seq<char> {
    "STATE.FAILED"@
}

/// Whether `description` is one of the strings in `items`.
fn lists_exec(items: &Vec<String>, description: &String) -> (r: bool)
    ensures
        r == lists(items@, description@),
{
    let mut k: usize = 0;
    while k < items.len()
        invariant
            0 <= k <= items@.len(),
            forall|j: int| 0 <= j < k ==> items@[j]@ != description@,
        decreases items.len() - k,
    {
        if items[k] == *description {
            return true;
        }
        k = k + 1;
    }
    false
}

/// Whether a catch-table entry matches the pending error description.
pub fn block_matches<F>(block: &ErrorBlock<F>, pending: &String) -> (r: bool)
    ensures
        r == catches(*block, pending@),
{
    lists_exec(&block.error_equals, pending)
}

/// Whether a failure with the given description is one that the step retries.
pub fn should_retry(retry: &Option<Vec<String>>, description: &String) -> (r: bool)
    ensures
        r == (retry is Some && lists(retry->Some_0@, description@)),
{
    match retry {
        Some(items) => lists_exec(items, description),
        None => false,
    }
}

/// `k` is where a pass over `nodes` stops when nothing fails: the first step
/// flagged as the end, or the end of the list.
pub open spec fn stops_at<F, C>(nodes: Seq<StateNode<F, C>>, k: int) -> bool {
    &&& 0 <= k <= nodes.len()
    &&& (k < nodes.len() ==> nodes[k].terminal())
    &&& forall|j: int| 0 <= j < k ==> !#[trigger] nodes[j].terminal()
}

/// From `before` to `after`, each step ahead of `k` ran its state logic once
/// more, and each step past `k` is untouched; step `k` kept its shape.
pub open spec fn ran_up_to<F, C>(
    before: Seq<StateNode<F, C>>,
    after: Seq<StateNode<F, C>>,
    k: int,
) -> bool {
    &&& after.len() == before.len()
    &&& forall|j: int|
        0 <= j < k ==> (#[trigger] after[j]).same_shape(&before[j]) && after[j].count()
            == before[j].count() + 1
    &&& forall|j: int| k < j < before.len() ==> #[trigger] after[j] == before[j]
    &&& (0 <= k < before.len() ==> after[k].same_shape(&before[k]))
}

/// Step `j` of `nodes` can be passed through: it has not run twice yet and
/// it admits the pending error.
pub open spec fn passable<F, C>(
    nodes: Seq<StateNode<F, C>>,
    pending: Option<Seq<char>>,
    j: int,
) -> bool {
    nodes[j].count() < 2 && nodes[j].admits(pending)
}

/// The positions, below `n` and in increasing order, of the entries of a
/// catch table that list `sig`, each paired with step `step`.
pub open spec fn matching<F>(blocks: Seq<ErrorBlock<F>>, sig: Seq<char>, step: int, n: int) -> Seq<
    (int, int),
>
    decreases n,
{
    if n <= 0 {
        Seq::empty()
    } else if catches(blocks[n - 1], sig) {
        matching(blocks, sig, step, n - 1).push((step, n - 1))
    } else {
        matching(blocks, sig, step, n - 1)
    }
}

/// The recoveries a pass runs in the steps ahead of `k` when every one of
/// them goes through: with an error pending, the entries of each step's catch
/// table that list it, step after step and in table order; none otherwise.
pub open spec fn pass_recoveries<F, C>(
    nodes: Seq<StateNode<F, C>>,
    pending: Option<Seq<char>>,
    k: int,
) -> Seq<(int, int)>
    decreases k,
{
    if k <= 0 || pending is None {
        Seq::empty()
    } else {
        pass_recoveries(nodes, pending, k - 1) + matching(
            nodes[k - 1].catch_table()->Some_0@,
            pending->Some_0,
            k - 1,
            nodes[k - 1].catch_table()->Some_0@.len() as int,
        )
    }
}

/// With no entry below `n` listing `sig`, nothing matches.
proof fn lemma_no_match<F>(blocks: Seq<ErrorBlock<F>>, sig: Seq<char>, step: int, n: int)
    requires
        n <= blocks.len(),
        forall|c: int| 0 <= c < n ==> !#[trigger] catches(blocks[c], sig),
    ensures
        matching(blocks, sig, step, n) == Seq::<(int, int)>::empty(),
    decreases n,
{
    if n > 0 {
        lemma_no_match(blocks, sig, step, n - 1);
    }
}

/// Why a pass may fail at step `k` with `message`, leaving `now_pending` as
/// the pending error:
/// - the step had run twice already, and nothing changes;
/// - the step does not admit the pending error, which is reported, and
///   nothing changes;
/// - a recovery of its catch table or its successor override failed before
///   its state logic ran; that failure becomes the pending error;
/// - its work ran and failed; the step ran once more when the failure is not
///   one of its retry triggers, and was retried when it is.
pub open spec fn fails_at<F, C>(
    before: Seq<StateNode<F, C>>,
    after: Seq<StateNode<F, C>>,
    machine: Seq<char>,
    pending: Option<Seq<char>>,
    k: int,
    message: Seq<char>,
    now_pending: Option<Seq<char>>,
) -> bool {
    ||| before[k].count() >= 2 && message == repeat_message(machine, before[k].id_view())
        && after[k] == before[k] && now_pending == pending
    ||| before[k].count() < 2 && !before[k].admits(pending) && pending == Some(message)
        && after[k] == before[k] && now_pending == pending
    ||| passable(before, pending, k) && (pending is Some || before[k].has_override())
        && after[k] == before[k] && now_pending == Some(message)
    ||| {
        &&& passable(before, pending, k)
        &&& runs_work(before[k].kind(), true)
        &&& now_pending == pending
        &&& after[k].same_shape(&before[k])
        &&& !before[k].retries_on(message) ==> after[k].count() == before[k].count() + 1
        &&& before[k].retries_on(message) ==> after[k].count() > before[k].count() + 1
    }
}

/// Once a step with the id `id` is registered, the machine refuses every
/// further step with that id, before any step has run.
pub proof fn lemma_duplicate_id_refused<T, F, C>(
    before: StateMachine<T, F, C>,
    after: StateMachine<T, F, C>,
    id: Seq<char>,
)
    requires
        after.ids() == before.ids().push(id),
    ensures
        !after.accepts_id(id),
{
    assert(after.ids()[before.ids().len() as int] == id);
}

/// The ids that `get_node_ids` lists are exactly the registered ones, with
/// none missing and none twice.
pub proof fn lemma_listed_ids_are_registered<T, F, C>(
    m: StateMachine<T, F, C>,
    listed: Seq<Seq<char>>,
)
    requires
        m.wf(),
        listed == m.ids(),
    ensures
        listed.to_set() == m.ids().to_set(),
        listed.no_duplicates(),
{
    assert forall|i: int, j: int| 0 <= i < listed.len() && 0 <= j < listed.len() && i != j
        implies listed[i] != listed[j] by {
        assert(listed[i] == m.nodes@[i].id_view());
        assert(listed[j] == m.nodes@[j].id_view());
    }
}

/// A pass that succeeds over steps none of which is flagged as the end runs
/// the state logic of every step exactly once.
pub proof fn lemma_clean_pass_runs_every_step_once<F, C>(
    before: Seq<StateNode<F, C>>,
    after: Seq<StateNode<F, C>>,
    k: int,
)
    requires
        forall|j: int| 0 <= j < before.len() ==> !#[trigger] before[j].terminal(),
        stops_at(before, k),
        ran_up_to(before, after, k),
    ensures
        after.len() == before.len(),
        forall|j: int|
            0 <= j < before.len() ==> #[trigger] after[j].count() == before[j].count() + 1,
{
    if k < before.len() {
        assert(before[k].terminal());
    }
    assert(k == before.len());
}

/// A step flagged as the end, and every step registered after it, is left
/// untouched by a pass: none of them runs.
pub proof fn lemma_end_step_stops_pass<F, C>(
    before: Seq<StateNode<F, C>>,
    after: Seq<StateNode<F, C>>,
    end: int,
    k: int,
)
    requires
        0 <= end < before.len(),
        before[end].terminal(),
        stops_at(before, k),
        forall|j: int| k <= j < before.len() ==> after[j] == before[j],
    ensures
        forall|j: int| end <= j < before.len() ==> after[j] == before[j],
{
    if end < k {
        assert(!before[end].terminal());
    }
}


/// One step of the machine.
#[derive(Debug)]
pub struct StateNode<F, C> {
    id: String,
    state: State<C>,
    state_function: F,
    next: Option<F>,
    catch: Option<Vec<ErrorBlock<F>>>,
    retry: Option<Vec<String>>,
    invocation_count: i8,
    end: Option<bool>,
}

/// The invocation counter after one more run; it stops at its largest value.
pub open spec fn bumped(count: i8) -> i8 {
    if count < i8::MAX {
        (count + 1) as i8
    } else {
        count
    }
}

impl<F, C> StateNode<F, C> {
    /// The step's work.
    pub closed spec fn work(&self) -> F {
        self.state_function
    }

    /// The step's successor override.
    pub closed spec fn override_fn(&self) -> Option<F> {
        self.next
    }

    /// The step's catch table.
    pub closed spec fn catch_table(&self) -> Option<Vec<ErrorBlock<F>>> {
        self.catch
    }

    /// The step is the one registration makes from these arguments: every
    /// argument recorded as given, the retry triggers as owned strings, and
    /// a counter at zero.
    pub open spec fn made_from(
        &self,
        id: Seq<char>,
        state: State<C>,
        state_function: F,
        next: Option<F>,
        catch: Option<Vec<ErrorBlock<F>>>,
        retry: Option<Vec<&str>>,
        end: Option<bool>,
    ) -> bool {
        &&& self.id_view() == id
        &&& self.kind() == state
        &&& self.work() == state_function
        &&& self.override_fn() == next
        &&& self.has_override() == (next is Some)
        &&& self.catch_table() == catch
        &&& self.count() == 0
        &&& self.terminal() == (end == Some(true))
        &&& forall|sig: Seq<char>|
            #[trigger] self.retries_on(sig) == (retry is Some && exists|k: int|
                0 <= k < retry->Some_0@.len() && #[trigger] retry->Some_0@[k]@ == sig)
    }

    /// The step's id.
    pub closed spec fn id_view(&self) -> Seq<char> {
        self.id@
    }

    /// The step's kind.
    pub closed spec fn kind(&self) -> State<C> {
        self.state
    }

    /// How many times the step's state logic has run.
    pub closed spec fn count(&self) -> i8 {
        self.invocation_count
    }

    /// Whether the step is flagged as the end of the pass.
    pub closed spec fn terminal(&self) -> bool {
        self.end == Some(true)
    }

    /// Whether the step has a successor override.
    pub closed spec fn has_override(&self) -> bool {
        self.next is Some
    }

    /// Whether the step lets a pass go on with the given pending error: there
    /// is none, or the step's catch table has an entry that matches it.
    pub closed spec fn admits(&self, pending: Option<Seq<char>>) -> bool {
        pending is None || (self.catch is Some && exists|j: int|
            0 <= j < self.catch->Some_0@.len() && #[trigger] catches(
                self.catch->Some_0@[j],
                pending->Some_0,
            ))
    }

    /// Whether a failure with the description `sig` makes the step retry.
    pub closed spec fn retries_on(&self, sig: Seq<char>) -> bool {
        self.retry is Some && lists(self.retry->Some_0@, sig)
    }

    /// A step whose catch table has an entry listing `p` admits `p`.
    proof fn lemma_admits(&self, p: Seq<char>, c: int)
        requires
            self.catch is Some,
            0 <= c < self.catch->Some_0@.len(),
            catches(self.catch->Some_0@[c], p),
        ensures
            self.admits(Some(p)),
    {
        let blocks = self.catch->Some_0;
        assert(catches(blocks@[c], p));
        assert(exists|j: int| 0 <= j < blocks@.len() && #[trigger] catches(blocks@[j], p));
        assert(Some(p)->Some_0 == p);
        assert(!(Some(p) is None));
    }


    /// Everything but the invocation counter is the same in both steps.
    pub closed spec fn same_shape(&self, other: &Self) -> bool {
        &&& self.id == other.id
        &&& self.state == other.state
        &&& self.state_function == other.state_function
        &&& self.next == other.next
        &&& self.catch == other.catch
        &&& self.retry == other.retry
        &&& self.end == other.end
    }

    /// A step that has not run yet.
    pub fn new(
        id: &str,
        state: State<C>,
        state_function: F,
        next: Option<F>,
        catch: Option<Vec<ErrorBlock<F>>>,
        retry: Option<Vec<&str>>,
        end: Option<bool>,
    ) -> (node: Self)
        ensures
            node.made_from(id@, state, state_function, next, catch, retry, end),
    {
        let retry: Option<Vec<String>> = match retry {
            Some(items) => {
                let mut owned: Vec<String> = Vec::new();
                let mut k: usize = 0;
                while k < items.len()
                    invariant
                        0 <= k <= items@.len(),
                        owned@.len() == k,
                        forall|j: int| 0 <= j < k ==> #[trigger] owned@[j]@ == items@[j]@,
                    decreases items.len() - k,
                {
                    owned.push(String::from_str(items[k]));
                    k = k + 1;
                }
                proof {
                    assert forall|sig: Seq<char>|
                        lists(owned@, sig) == (exists|k: int|
                            0 <= k < items@.len() && #[trigger] items@[k]@ == sig) by {
                        if lists(owned@, sig) {
                            let j = choose|j: int| 0 <= j < owned@.len() && #[trigger] owned@[j]@ == sig;
                            assert(items@[j]@ == sig);
                        }
                        if exists|k: int| 0 <= k < items@.len() && #[trigger] items@[k]@ == sig {
                            let j = choose|j: int| 0 <= j < items@.len() && #[trigger] items@[j]@ == sig;
                            assert(owned@[j]@ == sig);
                        }
                    }
                }
                Some(owned)
            },
            None => None,
        };
        StateNode {
            id: String::from_str(id),
            state,
            state_function,
            invocation_count: 0,
            catch,
            retry,
            next,
            end,
        }
    }
}

impl<F, C: Condition> StateNode<F, C> {
    /// Runs the state logic of the step once the predicate, if any, has been
    /// evaluated: the work runs for a `Task`, and for a `Choice` whose
    /// predicate gave `gate == true`; a `Sleep` blocks on the clock; every
    /// other kind does nothing.
    pub fn run_gated<T, K: Clock>(&self, gate: bool, data: &mut T, clock: &mut K) -> (r: Result<
        (),
        StateMachineError,
    >) where F: StepFunction<T>
        ensures
            !runs_work(self.kind(), gate) ==> r is Ok && *final(data) == *old(data),
    {
        match &self.state {
            State::Task => self.state_function.call(data),
            State::Choice(_) => {
                if gate {
                    self.state_function.call(data)
                } else {
                    Ok(())
                }
            },
            State::Sleep(seconds) => {
                clock.sleep(*seconds);
                Ok(())
            },
            _ => Ok(()),
        }
    }

    /// Runs the state logic of the step and counts the run.
    pub fn execute<T, K: Clock>(&mut self, data: &mut T, clock: &mut K) -> (r: Result<
        (),
        StateMachineError,
    >) where F: StepFunction<T>
        ensures
            final(self).same_shape(old(self)),
            final(self).count() == bumped(old(self).count()),
            !runs_work(old(self).kind(), true) ==> r is Ok && *final(data) == *old(data),
    {
        let gate = match &self.state {
            State::Choice(predicate) => predicate.check(),
            _ => true,
        };
        if self.invocation_count < i8::MAX {
            self.invocation_count = self.invocation_count + 1;
        }
        self.run_gated(gate, data, clock)
    }
}

/// The state machine: an ordered list of steps, the data they share, and
/// the error left pending by an earlier pass.
pub struct StateMachine<T, F, C> {
    id: String,
    nodes: Vec<StateNode<F, C>>,
    node_ids: Vec<String>,
    retries: i32,
    shared_data: T,
    error_string: Option<String>,
    recovered: Ghost<Seq<(int, int)>>,
}

impl<T, F, C> StateMachine<T, F, C> {
    /// The machine's id.
    pub closed spec fn id_view(&self) -> Seq<char> {
        self.id@
    }

    /// The steps, in the order of registration, which is the order of a pass.
    pub closed spec fn nodes_view(&self) -> Seq<StateNode<F, C>> {
        self.nodes@
    }

    /// The ids of the steps, in the order of registration.
    pub closed spec fn ids(&self) -> Seq<Seq<char>> {
        self.nodes@.map_values(|n: StateNode<F, C>| n.id_view())
    }

    /// The retry budget of the steps that retry.
    pub closed spec fn retry_budget(&self) -> i32 {
        self.retries
    }

    /// Both machines have the same id, steps and retry budget.
    pub closed spec fn same_steps(&self, other: &Self) -> bool {
        &&& self.id == other.id
        &&& self.nodes == other.nodes
        &&& self.node_ids == other.node_ids
        &&& self.retries == other.retries
    }

    /// The recoveries run so far, each as the step and the position of its
    /// catch-table entry, in the order they ran.
    pub closed spec fn recoveries(&self) -> Seq<(int, int)> {
        self.recovered@
    }

    /// The shared data.
    pub closed spec fn data(&self) -> T {
        self.shared_data
    }

    /// The description of the error left unrecovered by an earlier pass.
    pub closed spec fn pending(&self) -> Option<Seq<char>> {
        match self.error_string {
            Some(s) => Some(s@),
            None => None,
        }
    }

    /// The machine is consistent: the id list follows the steps and no two
    /// steps share an id.
    pub closed spec fn wf(&self) -> bool {
        &&& self.node_ids@.len() == self.nodes@.len()
        &&& forall|i: int| 0 <= i < self.nodes@.len() ==> #[trigger] self.node_ids@[i]@ == self.nodes@[i].id_view()
        &&& forall|i: int, j: int|
            0 <= i < self.nodes@.len() && 0 <= j < self.nodes@.len() && i != j
                ==> self.nodes@[i].id_view() != self.nodes@[j].id_view()
    }

    /// Whether a step with the id `id` may still be registered.
    pub open spec fn accepts_id(&self, id: Seq<char>) -> bool {
        !self.ids().contains(id)
    }

    /// A machine with no steps and no pending error.
    pub fn new(id: String, shared_data: T, retries: i32) -> (m: Self)
        ensures
            m.wf(),
            m.id_view() == id@,
            m.nodes_view().len() == 0,
            m.ids() == Seq::<Seq<char>>::empty(),
            m.retry_budget() == retries,
            m.data() == shared_data,
            m.pending() is None,
    {
        let m = StateMachine {
            id,
            nodes: Vec::new(),
            node_ids: Vec::new(),
            retries,
            shared_data,
            error_string: None,
            recovered: Ghost(Seq::empty()),
        };
        assert(m.ids() =~= Seq::<Seq<char>>::empty());
        m
    }

    /// Appends a step. Its id must not be registered yet.
    pub fn step(
        &mut self,
        id: &str,
        state: State<C>,
        state_function: F,
        next: Option<F>,
        catch: Option<Vec<ErrorBlock<F>>>,
        retry: Option<Vec<&str>>,
        end: Option<bool>,
    )
        requires
            old(self).wf(),
            old(self).accepts_id(id@),
        ensures
            final(self).wf(),
            final(self).ids() == old(self).ids().push(id@),
            final(self).nodes_view().len() == old(self).nodes_view().len() + 1,
            forall|i: int|
                0 <= i < old(self).nodes_view().len() ==> final(self).nodes_view()[i]
                    == old(self).nodes_view()[i],
            final(self).nodes_view().last().made_from(
                id@,
                state,
                state_function,
                next,
                catch,
                retry,
                end,
            ),
            final(self).id_view() == old(self).id_view(),
            final(self).retry_budget() == old(self).retry_budget(),
            final(self).data() == old(self).data(),
            final(self).pending() == old(self).pending(),
    {
        let node = StateNode::new(id, state, state_function, next, catch, retry, end);
        let ghost old_nodes = self.nodes@;
        proof {
            assert forall|i: int| 0 <= i < old_nodes.len() implies old_nodes[i].id_view() != id@ by {
                assert(self.ids()[i] == old_nodes[i].id_view());
            }
        }
        self.node_ids.push(String::from_str(id));
        self.nodes.push(node);
        assert(self.ids() =~= old(self).ids().push(id@));
    }

    /// Checks again that no two steps share an id; registration already
    /// refuses a repeated id, so on a consistent machine the check passes.
    pub fn validate_node_ids(&self) -> (r: bool)
        requires
            self.wf(),
        ensures
            r,
            forall|i: int, j: int|
                0 <= i < j < self.ids().len() ==> self.ids()[i] != self.ids()[j],
    {
        self.nodes.len() == self.node_ids.len()
    }

    /// Whether a step with the id `id` is registered; `step` takes only ids
    /// for which this is false.
    pub fn has_id(&self, id: &str) -> (r: bool)
        requires
            self.wf(),
        ensures
            r == !self.accepts_id(id@),
    {
        let target = String::from_str(id);
        let mut k: usize = 0;
        while k < self.node_ids.len()
            invariant
                self.wf(),
                target@ == id@,
                0 <= k <= self.node_ids@.len(),
                forall|j: int| 0 <= j < k ==> self.ids()[j] != id@,
            decreases self.node_ids.len() - k,
        {
            if self.node_ids[k] == target {
                assert(self.ids()[k as int] == id@);
                return true;
            }
            k = k + 1;
        }
        proof {
            if self.ids().contains(id@) {
                let j = choose|j: int| 0 <= j < self.ids().len() && self.ids()[j] == id@;
                assert(self.ids()[j] != id@);
            }
        }
        false
    }

    /// The ids of all steps, each once.
    pub fn get_node_ids(&self) -> (r: Vec<&str>)
        requires
            self.wf(),
        ensures
            r@.len() == self.ids().len(),
            forall|i: int| 0 <= i < r@.len() ==> #[trigger] r@[i]@ == self.ids()[i],
            forall|i: int, j: int| 0 <= i < j < r@.len() ==> r@[i]@ != r@[j]@,
    {
        let mut r: Vec<&str> = Vec::new();
        let mut k: usize = 0;
        while k < self.node_ids.len()
            invariant
                self.wf(),
                0 <= k <= self.node_ids@.len(),
                r@.len() == k,
                forall|i: int| 0 <= i < k ==> #[trigger] r@[i]@ == self.ids()[i],
            decreases self.node_ids.len() - k,
        {
            r.push(self.node_ids[k].as_str());
            k = k + 1;
        }
        r
    }

    /// The shared data.
    pub fn shared_data(&self) -> (d: &T)
        ensures
            *d == self.data(),
    {
        &self.shared_data
    }

    /// Gives the shared data back, ending the machine.
    pub fn into_shared_data(self) -> (d: T)
        ensures
            d == self.data(),
    {
        self.shared_data
    }

    /// A step that always succeeds and changes nothing.
    pub fn okay(_data: &mut T) -> (r: Result<(), StateMachineError>)
        ensures
            r is Ok,
            *final(_data) == *old(_data),
    {
        Ok(())
    }

    /// A step that always succeeds and changes nothing.
    pub fn pass(_data: &mut T) -> (r: Result<(), StateMachineError>)
        ensures
            r is Ok,
            *final(_data) == *old(_data),
    {
        Ok(())
    }

    /// A step that always succeeds and changes nothing.
    pub fn choice(_data: &mut T) -> (r: Result<(), StateMachineError>)
        ensures
            r is Ok,
            *final(_data) == *old(_data),
    {
        Ok(())
    }

    /// A step that always fails with the description `STATE.FAILED`.
    pub fn error(_data: &mut T) -> (r: Result<(), StateMachineError>)
        ensures
            r is Err,
            r->Err_0.message@ == failed_message(),
            *final(_data) == *old(_data),
    {
        Err(StateMachineError::new(String::from_str("STATE.FAILED")))
    }
}

impl<T, F: StepFunction<T>, C: Condition> StateMachine<T, F, C> {
    /// Steps that keep their shape keep their ids, so the machine stays
    /// consistent.
    proof fn lemma_same_ids(&self, other: &Self)
        requires
            other.wf(),
            self.node_ids == other.node_ids,
            self.nodes@.len() == other.nodes@.len(),
            forall|j: int|
                0 <= j < self.nodes@.len() ==> (#[trigger] self.nodes@[j]).same_shape(
                    &other.nodes@[j],
                ),
        ensures
            self.wf(),
            self.ids() == other.ids(),
    {
        assert(self.ids() =~= other.ids());
    }


    /// The position of the step with the id `node_id`, if there is one.
    fn position(&self, node_id: &String) -> (r: Option<usize>)
        requires
            self.wf(),
        ensures
            r is None ==> !self.ids().contains(node_id@),
            r is Some ==> r->Some_0 < self.nodes_view().len() && self.ids()[r->Some_0 as int]
                == node_id@,
    {
        let mut k: usize = 0;
        while k < self.nodes.len()
            invariant
                self.wf(),
                0 <= k <= self.nodes@.len(),
                forall|j: int| 0 <= j < k ==> self.ids()[j] != node_id@,
            decreases self.nodes.len() - k,
        {
            if self.nodes[k].id == *node_id {
                return Some(k);
            }
            k = k + 1;
        }
        proof {
            if self.ids().contains(node_id@) {
                let j = choose|j: int| 0 <= j < self.ids().len() && self.ids()[j] == node_id@;
                assert(self.ids()[j] != node_id@);
            }
        }
        None
    }

    /// Runs the state logic of the step with the id `node_id` on its own,
    /// without catch tables, retries or end flags. Does nothing when no step
    /// has that id.
    pub fn execute_by_id<K: Clock>(&mut self, node_id: &str, clock: &mut K) -> (r: Result<
        (),
        StateMachineError,
    >)
        requires
            old(self).wf(),
        ensures
            final(self).wf(),
            final(self).nodes_view() == old(self).nodes_view(),
            final(self).ids() == old(self).ids(),
            final(self).id_view() == old(self).id_view(),
            final(self).retry_budget() == old(self).retry_budget(),
            final(self).pending() == old(self).pending(),
            !old(self).ids().contains(node_id@) ==> r is Ok && final(self).data() == old(self).data(),
            forall|i: int|
                0 <= i < old(self).ids().len() && old(self).ids()[i] == node_id@ && !runs_work(
                    old(self).nodes_view()[i].kind(),
                    true,
                ) ==> r is Ok && final(self).data() == old(self).data(),
    {
        let target = String::from_str(node_id);
        match self.position(&target) {
            None => Ok(()),
            Some(i) => {
                let gate = match &self.nodes[i].state {
                    State::Choice(predicate) => predicate.check(),
                    _ => true,
                };
                let res = self.nodes[i].run_gated(gate, &mut self.shared_data, clock);
                match res {
                    Ok(()) => Ok(()),
                    Err(e) => Err(StateMachineError::new(e.message)),
                }
            },
        }
    }
    /// Applies the catch table of step `i` to the pending error `p`: the pass
    /// fails with `p` when the step has no entry that lists it; otherwise the
    /// recovery of every entry that lists it runs once, in table order, and
    /// the first failing recovery becomes the pending error and fails the pass.
    pub fn apply_catch(&mut self, i: usize, p: &String) -> (r: Result<(), StateMachineError>)
        requires
            old(self).wf(),
            i < old(self).nodes_view().len(),
            old(self).pending() == Some(p@),
        ensures
            final(self).wf(),
            final(self).same_steps(old(self)),
            final(self).nodes_view() == old(self).nodes_view(),
            final(self).ids() == old(self).ids(),
            r is Ok ==> old(self).nodes_view()[i as int].admits(Some(p@)) && final(self).pending()
                == old(self).pending(),
            r is Ok ==> final(self).recoveries() == old(self).recoveries() + matching(
                old(self).nodes_view()[i as int].catch_table()->Some_0@,
                p@,
                i as int,
                old(self).nodes_view()[i as int].catch_table()->Some_0@.len() as int,
            ),
            r is Err ==> {
                ||| !old(self).nodes_view()[i as int].admits(Some(p@)) && r->Err_0.message@ == p@
                    && final(self).pending() == old(self).pending() && final(self).recoveries()
                    == old(self).recoveries()
                ||| old(self).nodes_view()[i as int].admits(Some(p@)) && final(self).pending()
                    == Some(r->Err_0.message@) && exists|b: int|
                    0 <= b < old(self).nodes_view()[i as int].catch_table()->Some_0@.len()
                        && final(self).recoveries() == old(self).recoveries() + #[trigger] matching(
                        old(self).nodes_view()[i as int].catch_table()->Some_0@,
                        p@,
                        i as int,
                        b + 1,
                    )
            },
    {
        match &self.nodes[i].catch {
            None => Err(StateMachineError::new(p.clone())),
            Some(blocks) => {
                let mut found = false;
                let mut b: usize = 0;
                while b < blocks.len()
                    invariant
                        old(self).wf(),
                        0 <= b <= blocks@.len(),
                        self.nodes == old(self).nodes,
                        self.id == old(self).id,
                        self.node_ids == old(self).node_ids,
                        self.retries == old(self).retries,
                        self.error_string == old(self).error_string,
                        i < old(self).nodes@.len(),
                        old(self).nodes@[i as int].catch == Some(*blocks),
                        found == exists|c: int| 0 <= c < b && #[trigger] catches(blocks@[c], p@),
                        self.recovered@ == old(self).recovered@ + matching(blocks@, p@, i as int, b as int),
                    decreases blocks.len() - b,
                {
                    if block_matches(&blocks[b], p) {
                        found = true;
                        proof {
                            old(self).nodes@[i as int].lemma_admits(p@, b as int);
                            self.recovered@ = self.recovered@.push((i as int, b as int));
                            assert(self.recovered@ =~= old(self).recovered@ + matching(blocks@, p@, i as int, b + 1));
                        }
                        match blocks[b].next.call(&mut self.shared_data) {
                            Ok(()) => {},
                            Err(e) => {
                                self.error_string = Some(e.message.clone());
                                proof {
                                    assert(matching(blocks@, p@, i as int, b + 1) == matching(
                                        old(self).nodes@[i as int].catch->Some_0@,
                                        p@,
                                        i as int,
                                        b + 1,
                                    ));
                                }
                                return Err(e);
                            },
                        }
                    }
                    b = b + 1;
                }
                if !found {
                    proof {
                        assert forall|c: int| 0 <= c <= blocks@.len() implies matching(blocks@, p@, i as int, c) == Seq::<(int, int)>::empty() by {
                            lemma_no_match(blocks@, p@, i as int, c);
                        }
                        assert(self.recovered@ =~= old(self).recovered@);
                    }
                    return Err(StateMachineError::new(p.clone()));
                }
                proof {
                    let c = choose|c: int| 0 <= c < blocks@.len() && #[trigger] catches(blocks@[c], p@);
                    old(self).nodes@[i as int].lemma_admits(p@, c);
                }
                Ok(())
            },
        }
    }

    /// Retries step `i` after a failure that its retry triggers list: the
    /// step's state logic runs again until it succeeds or the machine's
    /// budget of retries is spent, waiting on `clock` with exponential
    /// backoff, and once more at the end when none succeeded.
    fn retry_node<K: Clock>(&mut self, i: usize, clock: &mut K)
        requires
            old(self).wf(),
            i < old(self).nodes_view().len(),
        ensures
            final(self).wf(),
            final(self).ids() == old(self).ids(),
            final(self).id == old(self).id,
            final(self).node_ids == old(self).node_ids,
            final(self).retries == old(self).retries,
            final(self).error_string == old(self).error_string,
            final(self).nodes@.len() == old(self).nodes@.len(),
            final(self).nodes@[i as int].same_shape(&old(self).nodes@[i as int]),
            final(self).nodes@[i as int].count() > old(self).nodes@[i as int].count()
                || old(self).nodes@[i as int].count() == i8::MAX,
            forall|j: int|
                0 <= j < old(self).nodes@.len() && j != i ==> final(self).nodes@[j]
                    == old(self).nodes@[j],
    {
        let mut schedule = Backoff::new(Some(self.retries));
        loop
            invariant
                schedule.wf(),
                !schedule.finished,
                old(self).wf(),
                self.id == old(self).id,
                self.node_ids == old(self).node_ids,
                self.retries == old(self).retries,
                self.error_string == old(self).error_string,
                self.nodes@.len() == old(self).nodes@.len(),
                i < self.nodes@.len(),
                self.nodes@[i as int].same_shape(&old(self).nodes@[i as int]),
                self.nodes@[i as int].count() >= old(self).nodes@[i as int].count(),
                schedule.attempts > 0 ==> self.nodes@[i as int].count() > old(self).nodes@[
                    i as int
                ].count() || old(self).nodes@[i as int].count() == i8::MAX,
                forall|j: int|
                    0 <= j < old(self).nodes@.len() && j != i ==> self.nodes@[j]
                        == old(self).nodes@[j],
            decreases allowed(schedule.max_retries as int) - schedule.retries_done,
        {
            let res = self.nodes[i].execute(&mut self.shared_data, clock);
            match schedule.after_attempt(res.is_ok()) {
                Next::Retry(wait) => {
                    clock.sleep(wait);
                },
                _ => {
                    proof {
                        self.lemma_same_ids(old(self));
                    }
                    return ;
                },
            }
        }
    }

    /// Runs one pass over the steps, in order. For each step: a step flagged
    /// as the end stops the pass with success before it runs; a step that has
    /// run twice already fails the pass; an error pending from an earlier pass
    /// fails it unless the step's catch table has an entry that lists it, in
    /// which case every such entry's recovery runs, in table order; then the
    /// successor override runs, if any, and then the step's state logic. A
    /// failure of the state logic that the step's retry triggers list is
    /// retried with backoff, and the pass fails with that first failure in any
    /// case. A failed recovery or override becomes the pending error.
    pub fn execute<K: Clock>(&mut self, clock: &mut K) -> (r: Result<(), StateMachineError>)
        requires
            old(self).wf(),
        ensures
            final(self).wf(),
            final(self).ids() == old(self).ids(),
            final(self).id_view() == old(self).id_view(),
            final(self).retry_budget() == old(self).retry_budget(),
            forall|k: int, j: int|
                stops_at(old(self).nodes_view(), k) && k <= j < old(self).nodes_view().len()
                    ==> final(self).nodes_view()[j] == old(self).nodes_view()[j],
            r is Ok ==> exists|k: int|
                {
                    &&& stops_at(old(self).nodes_view(), k)
                    &&& ran_up_to(old(self).nodes_view(), final(self).nodes_view(), k)
                    &&& forall|j: int|
                        0 <= j < k ==> #[trigger] passable(
                            old(self).nodes_view(),
                            old(self).pending(),
                            j,
                        )
                },
            r is Ok ==> final(self).pending() == old(self).pending(),
            r is Ok ==> exists|k: int|
                stops_at(old(self).nodes_view(), k) && final(self).recoveries() == old(
                    self,
                ).recoveries() + #[trigger] pass_recoveries(
                    old(self).nodes_view(),
                    old(self).pending(),
                    k,
                ),
            r is Err ==> exists|k: int|
                {
                    &&& 0 <= k < old(self).nodes_view().len()
                    &&& !old(self).nodes_view()[k].terminal()
                    &&& forall|j: int| 0 <= j < k ==> !#[trigger] old(self).nodes_view()[j].terminal()
                    &&& ran_up_to(old(self).nodes_view(), final(self).nodes_view(), k)
                    &&& forall|j: int|
                        0 <= j < k ==> #[trigger] passable(
                            old(self).nodes_view(),
                            old(self).pending(),
                            j,
                        )
                    &&& fails_at(
                        old(self).nodes_view(),
                        final(self).nodes_view(),
                        old(self).id_view(),
                        old(self).pending(),
                        k,
                        r->Err_0.message@,
                        final(self).pending(),
                    )
                },
            forall|k: int|
                #![trigger stops_at(old(self).nodes_view(), k)]
                stops_at(old(self).nodes_view(), k) && old(self).pending() is None && (forall|j: int|
                    0 <= j < k ==> #[trigger] old(self).nodes_view()[j].count() < 2
                        && !old(self).nodes_view()[j].has_override() && !runs_work(
                        old(self).nodes_view()[j].kind(),
                        true,
                    )) ==> r is Ok,
            stops_at(old(self).nodes_view(), 0) ==> r is Ok && *final(self) == *old(self),
    {
        let ghost before = self.nodes@;
        let n = self.nodes.len();
        let pending: Option<String> = match &self.error_string {
            Some(p) => Some(p.clone()),
            None => None,
        };
        let mut i: usize = 0;
        while i < n
            invariant
                old(self).wf(),
                before == old(self).nodes@,
                n == before.len(),
                0 <= i <= n,
                self.id == old(self).id,
                self.node_ids == old(self).node_ids,
                self.retries == old(self).retries,
                self.pending() == old(self).pending(),
                pending == old(self).error_string,
                self.recoveries() == old(self).recoveries() + pass_recoveries(
                    before,
                    old(self).pending(),
                    i as int,
                ),
                self.nodes@.len() == n,
                forall|j: int| 0 <= j < i ==> !#[trigger] before[j].terminal(),
                forall|j: int| 0 <= j < i ==> #[trigger] passable(before, old(self).pending(), j),
                forall|j: int|
                    0 <= j < i ==> (#[trigger] self.nodes@[j]).same_shape(&before[j])
                        && self.nodes@[j].count() == before[j].count() + 1,
                forall|j: int| i <= j < n ==> #[trigger] self.nodes@[j] == before[j],
                i == 0 ==> *self == *old(self),
            decreases n - i,
        {
            let terminal = match self.nodes[i].end {
                Some(b) => b,
                None => false,
            };
            if terminal {
                proof {
                    self.lemma_same_ids(old(self));
                    assert(stops_at(before, i as int));
                    assert(ran_up_to(before, self.nodes@, i as int));
                    assert(forall|j: int| 0 <= j < i ==> #[trigger] passable(before, old(self).pending(), j));
                    assert(old(self).nodes_view() == before);
                    assert(self.nodes_view() == self.nodes@);
                }
                return Ok(());
            }
            if self.nodes[i].invocation_count >= 2 {
                let mut message = String::from_str("state machine ");
                message.append(self.id.as_str());
                message.append(" failed for step ");
                message.append(self.nodes[i].id.as_str());
                message.append(". Step have been invoked upto three times");
                proof {
                    self.lemma_same_ids(old(self));
                    assert(ran_up_to(before, self.nodes@, i as int));
                }
                return Err(StateMachineError::new(message));
            }
            match &pending {
                Some(p) => {
                    let recovered = self.apply_catch(i, p);
                    match recovered {
                        Ok(()) => {},
                        Err(e) => {
                            proof {
                                self.lemma_same_ids(old(self));
                                assert(ran_up_to(before, self.nodes@, i as int));
                            }
                            return Err(e);
                        },
                    }
                },
                None => {},
            }
            assert(passable(before, old(self).pending(), i as int));
            proof {
                assert(self.recoveries() =~= old(self).recoveries() + pass_recoveries(
                    before,
                    old(self).pending(),
                    i + 1,
                ));
            }
            match &self.nodes[i].next {
                Some(f) => {
                    match f.call(&mut self.shared_data) {
                        Ok(()) => {},
                        Err(e) => {
                            self.error_string = Some(e.message.clone());
                            proof {
                                self.lemma_same_ids(old(self));
                                assert(ran_up_to(before, self.nodes@, i as int));
                            }
                            return Err(e);
                        },
                    }
                },
                None => {},
            }
            match self.nodes[i].execute(&mut self.shared_data, clock) {
                Ok(()) => {},
                Err(e) => {
                    if should_retry(&self.nodes[i].retry, &e.message) {
                        self.retry_node(i, clock);
                    }
                    proof {
                        self.lemma_same_ids(old(self));
                        assert(ran_up_to(before, self.nodes@, i as int));
                    }
                    return Err(e);
                },
            }
            i = i + 1;
        }
        proof {
            self.lemma_same_ids(old(self));
            assert(stops_at(before, n as int));
            assert(ran_up_to(before, self.nodes@, n as int));
            assert(forall|j: int| 0 <= j < n ==> #[trigger] passable(before, old(self).pending(), j));
            assert(old(self).nodes_view() == before);
            assert(self.nodes_view() == self.nodes@);
        }
        Ok(())
    }
}

} // verus!
