//! The replenisher: the decisions of the background task that keeps the pool
//! at its target size. The task itself, with its timers and its workers, runs
//! outside; here are its states, the size of each batch, the policy of one
//! worker, and the step that stores what the workers found.

use crate::address::{generate_result, KeyMaterial, PetAddress, PetAddressView};
use crate::config::PetGeneratorConfig;
use crate::pool::{enqueue_all, holds_queue, lemma_stores_raise_count};
use crate::rate_limit::{clock_millis, clock_start};
use crate::storage::{
    counter_of, current_timestamp, enqueue, live_keys, PetStorage, StorageError,
};
use vstd::prelude::*;

verus! {

/// Where the background task stands.
#[derive(Debug, Clone, Copy, PartialEq, Eq)]
pub enum GeneratorState {
    /// Never started.
    Idle,
    /// The task runs its cycles.
    Running,
    /// A stop was asked for; the task has not seen it yet.
    Stopping,
    /// The task has seen the stop and ended.
    Stopped,
}

/// What a worker does after one search.
#[derive(Debug)]
pub enum TaskStep {
    /// Hand the address to the collector and end.
    Deliver(PetAddress),
    /// Wait for the backoff and search again.
    Retry,
    /// End without an address.
    GiveUp,
}

/// The number of searches that one worker makes at most.
pub const TASK_ATTEMPTS: u32 = 3;

/// The pause of a worker between two searches, in milliseconds.
pub const RETRY_BACKOFF_MILLIS: u64 = 100;

/// The time for which the collector waits for the workers of one batch, in milliseconds.
pub const BATCH_TIMEOUT_MILLIS: u64 = 30_000;

/// The pause between two cycles, in seconds.
pub const CYCLE_INTERVAL_SECS: u64 = 5;

/// The number of addresses that one cycle sets out to make: what the pool
/// lacks, but no more than one batch.
pub open spec fn deficit(count: nat, pool_size: nat, batch_size: nat) -> nat {
    if count < pool_size {
        if pool_size - count < batch_size {
            (pool_size - count) as nat
        } else {
            batch_size
        }
    } else {
        0
    }
}

/// The size of the pool after `n` cycles in which every worker succeeds and
/// nothing is taken out.
pub open spec fn after_cycles(count: nat, pool_size: nat, batch_size: nat, n: nat) -> nat
    decreases n,
{
    if n == 0 {
        count
    } else {
        let before = after_cycles(count, pool_size, batch_size, (n - 1) as nat);
        before + deficit(before, pool_size, batch_size)
    }
}

/// What one batch did: how many addresses its workers found, and how many of
/// them the store took.
#[derive(Debug, Clone, Copy, PartialEq, Eq)]
pub struct BatchReport {
    pub found: usize,
    pub stored: usize,
}

/// Whether every address ends with `suffix`.
pub open spec fn all_match(addresses: Seq<PetAddress>, suffix: Seq<u8>) -> bool {
    forall|i: int| 0 <= i < addresses.len() ==> (#[trigger] addresses[i]).matches_suffix(suffix)
}

/// The addresses of a batch, each with its creation time.
pub open spec fn stamped(addresses: Seq<PetAddress>, times: Seq<Seq<char>>) -> Seq<
    (PetAddressView, Seq<char>),
> {
    Seq::new(addresses.len(), |i: int| (addresses[i]@, times[i]))
}

/// One cycle never aims past the target, nor past one batch; it aims at
/// nothing once the target is reached, and at something as long as it is not.
pub proof fn lemma_cycle_bounds(count: nat, pool_size: nat, batch_size: nat)
    ensures
        deficit(count, pool_size, batch_size) <= batch_size,
        count <= pool_size ==> count + deficit(count, pool_size, batch_size) <= pool_size,
        count >= pool_size ==> deficit(count, pool_size, batch_size) == 0,
        count < pool_size && batch_size > 0 ==> deficit(count, pool_size, batch_size) > 0,
{
}

/// Convergence: from an empty pool, cycles in which every worker succeeds add
/// one batch each until the target is reached, and nothing after that.
pub proof fn lemma_convergence(pool_size: nat, batch_size: nat, n: nat)
    ensures
        after_cycles(0, pool_size, batch_size, n) == if n * batch_size < pool_size {
            n * batch_size
        } else {
            pool_size
        },
    decreases n,
{
    if n > 0 {
        lemma_convergence(pool_size, batch_size, (n - 1) as nat);
        assert((n - 1) * batch_size + batch_size == n * batch_size) by (nonlinear_arith);
    } else {
        assert(0 * batch_size == 0) by (nonlinear_arith);
    }
}

/// The number of addresses that a cycle sets out to make when the pool holds `count`.
pub fn plan(count: usize, pool_size: usize, batch_size: usize) -> (n: usize)
    ensures
        n == deficit(count as nat, pool_size as nat, batch_size as nat),
{
    if count < pool_size {
        let need: usize = pool_size - count;
        if need < batch_size {
            need
        } else {
            batch_size
        }
    } else {
        0
    }
}

/// The policy of one worker: an address that was found is delivered; after a
/// search without result the worker tries again, up to three searches in all.
pub fn task_step(attempt: u32, outcome: Option<PetAddress>) -> (step: TaskStep)
    ensures
        match step {
            TaskStep::Deliver(a) => outcome == Some(a),
            TaskStep::Retry => outcome is None && attempt < TASK_ATTEMPTS,
            TaskStep::GiveUp => outcome is None && attempt >= TASK_ATTEMPTS,
        },
{
    match outcome {
        Some(a) => TaskStep::Deliver(a),
        None => if attempt < TASK_ATTEMPTS {
            TaskStep::Retry
        } else {
            TaskStep::GiveUp
        },
    }
}

/// Tells whether an address that reaches the collector after `elapsed_millis`
/// is still stored: at the deadline yes, after it no.
pub fn accepts_result(elapsed_millis: u64) -> (r: bool)
    ensures
        r == (elapsed_millis <= BATCH_TIMEOUT_MILLIS),
{
    elapsed_millis <= BATCH_TIMEOUT_MILLIS
}

/// The work of one worker without its pauses: up to three searches with the
/// standing settings.
pub fn run_task() -> (r: Option<PetAddress>)
    ensures
        r matches Some(a) ==> a.matches_suffix(crate::address::pet_suffix()) && a.public_key@
            == a.address@,
        exists|runs: Seq<Seq<KeyMaterial>>| task_result(runs, r),
{
    let mut attempt: u32 = 1;
    let ghost mut runs: Seq<Seq<KeyMaterial>> = Seq::empty();
    loop
        invariant
            1 <= attempt <= TASK_ATTEMPTS,
            runs.len() == attempt - 1,
            forall|i: int|
                0 <= i < runs.len() ==> generate_result(#[trigger] runs[i], None::<PetAddress>),
        decreases TASK_ATTEMPTS - attempt,
    {
        let found = PetAddress::generate();
        proof {
            if found is Some {
                assert(found->0.matches_suffix(crate::address::pet_suffix()));
            }
            let kms = choose|kms: Seq<KeyMaterial>| generate_result(kms, found);
            runs = runs.push(kms);
        }
        match task_step(attempt, found) {
            TaskStep::Deliver(a) => {
                assert(task_result(runs, Some(a)));
                return Some(a);
            },
            TaskStep::Retry => {
                attempt = attempt + 1;
            },
            TaskStep::GiveUp => {
                assert(task_result(runs, None::<PetAddress>));
                return None;
            },
        }
    }
}

/// Counts one offer to the store: a success counts one, a refusal nothing.
pub fn tally(stored: usize, outcome: &Result<u64, StorageError>) -> (r: usize)
    ensures
        r == (if outcome is Ok && stored < usize::MAX {
            (stored + 1) as usize
        } else {
            stored
        }),
{
    match outcome {
        Ok(_) => if stored < usize::MAX {
            stored + 1
        } else {
            stored
        },
        Err(_) => stored,
    }
}

/// The addresses that the collector offers to the store: those that arrived
/// before the first one that came after the deadline, in their order.
pub fn in_time_addresses(arrivals: &Vec<Arrival>) -> (offered: Vec<PetAddress>)
    ensures
        address_views(offered@) == in_time(arrival_views(arrivals@)),
        offered.len() <= arrivals.len(),
        forall|j: int| 0 <= j < offered.len() ==> (#[trigger] offered[j])@ == arrivals[j].address@,
{
    let mut offered: Vec<PetAddress> = Vec::new();
    let mut i: usize = 0;
    while i < arrivals.len() && accepts_result(arrivals[i].elapsed_millis)
        invariant
            i <= arrivals.len(),
            offered.len() == i,
            forall|j: int| 0 <= j < i ==> (#[trigger] offered[j])@ == arrivals[j].address@,
            forall|j: int|
                0 <= j < i ==> (#[trigger] arrivals[j]).elapsed_millis <= BATCH_TIMEOUT_MILLIS,
        decreases arrivals.len() - i,
    {
        offered.push(arrivals[i].address.duplicate());
        i = i + 1;
    }
    proof {
        let views = arrival_views(arrivals@);
        assert forall|j: int| 0 <= j < i implies (#[trigger] views[j]).elapsed_millis
            <= BATCH_TIMEOUT_MILLIS by {
            assert(arrivals[j].elapsed_millis <= BATCH_TIMEOUT_MILLIS);
        }
        lemma_deadline_cut_exact(views, i as int);
        assert(address_views(offered@) =~= in_time(views));
    }
    offered
}

/// Stores what the workers of one batch delivered, in the order of delivery:
/// each address is offered to the store once, with the present time as its
/// creation time. An address that the store refuses is dropped and the next
/// one is offered all the same. Returns the number of addresses stored.
pub fn store_batch(storage: &mut PetStorage, addresses: &Vec<PetAddress>) -> (stored: usize)
    ensures
        stored <= addresses.len(),
        exists|trace: BatchTrace|
            batch_stored(
                old(storage).entries(),
                address_views(addresses@),
                trace,
                final(storage).entries(),
                stored,
            ),
        stored == addresses.len() ==> exists|times: Seq<Seq<char>>|
            times.len() == addresses.len() && final(storage).entries() == enqueue_all(
                old(storage).entries(),
                #[trigger] stamped(addresses@, times),
            ),
{
    let ghost start = storage.entries();
    let ghost mut times: Seq<Seq<char>> = Seq::empty();
    let ghost mut outcomes: Seq<Result<u64, StorageError>> = Seq::empty();
    let ghost mut states: Seq<Map<Seq<u8>, Seq<u8>>> = seq![start];
    let mut stored: usize = 0;
    let mut i: usize = 0;
    assert(stamped(addresses@.subrange(0, 0), times) =~= Seq::empty());
    while i < addresses.len()
        invariant
            i <= addresses.len(),
            stored <= i,
            times.len() == i,
            outcomes.len() == i,
            states.len() == i + 1,
            states[0] == start,
            states[i as int] == storage.entries(),
            forall|j: int|
                0 <= j < i ==> offered(
                    states[j],
                    addresses[j]@,
                    times[j],
                    #[trigger] outcomes[j],
                    states[j + 1],
                ),
            stored == successes(outcomes),
            stored == i ==> storage.entries() == enqueue_all(
                start,
                stamped(addresses@.subrange(0, i as int), times),
            ),
        decreases addresses.len() - i,
    {
        let address = addresses[i].duplicate();
        let created_at = current_timestamp();
        let ghost done = stamped(addresses@.subrange(0, i as int), times);
        let ghost stamp = created_at@;
        proof {
            let next = stamped(addresses@.subrange(0, i + 1), times.push(stamp));
            assert(next.drop_last() =~= done);
            assert(next.last() == (address@, stamp));
        }
        let outcome = storage.store_address_at(address, created_at);
        stored = tally(stored, &outcome);
        proof {
            let earlier = outcomes;
            times = times.push(stamp);
            outcomes = outcomes.push(outcome);
            states = states.push(storage.entries());
            assert(outcomes.drop_last() =~= earlier);
        }
        i = i + 1;
    }
    proof {
        assert(addresses@.subrange(0, i as int) =~= addresses@);
        let trace = BatchTrace { times, outcomes, states };
        assert(batch_stored(start, address_views(addresses@), trace, storage.entries(), stored));
    }
    stored
}

/// The control of the background task.
pub struct PetGenerator {
    config: PetGeneratorConfig,
    state: GeneratorState,
}

impl PetGenerator {
    /// Where the task stands.
    pub closed spec fn state(&self) -> GeneratorState {
        self.state
    }

    /// The target size of the pool.
    pub closed spec fn pool_size(&self) -> usize {
        self.config.pool_size
    }

    /// The largest number of workers in one cycle.
    pub closed spec fn batch_size(&self) -> usize {
        self.config.batch_size
    }

    /// A control whose task has not been started.
    pub fn new(config: PetGeneratorConfig) -> (generator: PetGenerator)
        ensures
            generator.state() == GeneratorState::Idle,
            generator.pool_size() == config.pool_size,
            generator.batch_size() == config.batch_size,
    {
        PetGenerator { config, state: GeneratorState::Idle }
    }

    /// Starts the task. Nothing happens when it is running. A task that was
    /// asked to stop and has not seen it yet is still there: it goes on
    /// running, and no second task is launched. Otherwise the state becomes
    /// `Running`, and the caller has to launch the task.
    pub fn start(&mut self) -> (launch: bool)
        ensures
            final(self).state() == GeneratorState::Running,
            launch == (old(self).state() == GeneratorState::Idle || old(self).state()
                == GeneratorState::Stopped),
            final(self).pool_size() == old(self).pool_size(),
            final(self).batch_size() == old(self).batch_size(),
    {
        match self.state {
            GeneratorState::Running => false,
            GeneratorState::Stopping => {
                self.state = GeneratorState::Running;
                false
            },
            _ => {
                self.state = GeneratorState::Running;
                true
            },
        }
    }

    /// Asks a running task to stop. The task sees it at the top of its next cycle.
    pub fn stop(&mut self)
        ensures
            final(self).state() == (if old(self).state() == GeneratorState::Running {
                GeneratorState::Stopping
            } else {
                old(self).state()
            }),
            final(self).pool_size() == old(self).pool_size(),
            final(self).batch_size() == old(self).batch_size(),
    {
        match self.state {
            GeneratorState::Running => {
                self.state = GeneratorState::Stopping;
            },
            _ => {},
        }
    }

    /// The top of a cycle: tells the task whether to go on. A task that was
    /// asked to stop ends here, and the state becomes `Stopped`.
    pub fn begin_cycle(&mut self) -> (go: bool)
        ensures
            go == (old(self).state() == GeneratorState::Running),
            final(self).state() == (if old(self).state() == GeneratorState::Stopping {
                GeneratorState::Stopped
            } else {
                old(self).state()
            }),
            final(self).pool_size() == old(self).pool_size(),
            final(self).batch_size() == old(self).batch_size(),
    {
        match self.state {
            GeneratorState::Running => true,
            GeneratorState::Stopping => {
                self.state = GeneratorState::Stopped;
                false
            },
            _ => false,
        }
    }

    /// Whether the task is running.
    pub fn is_running(&self) -> (r: bool)
        ensures
            r == (self.state() == GeneratorState::Running),
    {
        match self.state {
            GeneratorState::Running => true,
            _ => false,
        }
    }

    /// The number of workers to launch in a cycle that finds `count` entries
    /// in the pool.
    pub fn plan_cycle(&self, count: usize) -> (n: usize)
        ensures
            n == deficit(count as nat, self.pool_size() as nat, self.batch_size() as nat),
    {
        plan(count, self.config.pool_size, self.config.batch_size)
    }

    /// The number of entries in the pool, as the store counts them.
    pub fn get_current_count(&self, storage: &PetStorage) -> (r: Result<usize, StorageError>)
        ensures
            match r {
                Ok(n) => live_keys(storage.entries()).finite() && n == live_keys(
                    storage.entries(),
                ).len(),
                Err(e) => e == StorageError::Io,
            },
    {
        storage.count_addresses()
    }

    /// One batch without its workers running side by side: `count` workers
    /// search one after the other; each address found is noted with the time
    /// since the batch began; what arrived up to the deadline is offered to the
    /// store in the order in which it was found. Returns what the batch did.
    pub fn generate_batch(storage: &mut PetStorage, count: usize) -> (report: BatchReport)
        ensures
            report.stored <= report.found <= count,
            exists|run: BatchRun|
                batch_run(count, run, report, old(storage).entries(), final(storage).entries()),
            report.stored == report.found ==> exists|addresses: Seq<PetAddress>, times: Seq<Seq<char>>|
                addresses.len() == report.found && times.len() == report.found && all_match(
                    addresses,
                    crate::address::pet_suffix(),
                ) && final(storage).entries() == enqueue_all(
                    old(storage).entries(),
                    #[trigger] stamped(addresses, times),
                ),
    {
        let began = clock_start();
        let mut arrivals: Vec<Arrival> = Vec::new();
        let ghost mut tasks: Seq<Seq<Seq<KeyMaterial>>> = Seq::empty();
        let ghost mut results: Seq<Option<PetAddress>> = Seq::empty();
        let mut i: usize = 0;
        while i < count
            invariant
                i <= count,
                tasks.len() == i,
                results.len() == i,
                forall|j: int| 0 <= j < i ==> task_result(#[trigger] tasks[j], results[j]),
                arrivals.len() <= i,
                arrivals.len() == delivered(results).len(),
                forall|j: int|
                    0 <= j < arrivals.len() ==> (#[trigger] arrivals[j]).address@ == delivered(
                        results,
                    )[j] && arrivals[j].address.matches_suffix(crate::address::pet_suffix()),
            decreases count - i,
        {
            let found = run_task();
            proof {
                let runs = choose|runs: Seq<Seq<KeyMaterial>>| task_result(runs, found);
                let earlier = results;
                tasks = tasks.push(runs);
                results = results.push(found);
                assert(results.drop_last() =~= earlier);
            }
            match found {
                Some(address) => {
                    let elapsed_millis = clock_millis(&began);
                    arrivals.push(Arrival { address, elapsed_millis });
                },
                None => {},
            }
            i = i + 1;
        }
        let offered = in_time_addresses(&arrivals);
        let ghost before = storage.entries();
        let stored = store_batch(storage, &offered);
        let report = BatchReport { found: arrivals.len(), stored };
        proof {
            let trace = choose|trace: BatchTrace|
                batch_stored(before, address_views(offered@), trace, storage.entries(), stored);
            let run = BatchRun { tasks, results, arrivals: arrival_views(arrivals@), trace };
            assert(batch_run(count, run, report, before, storage.entries()));
            if stored == arrivals.len() {
                assert(all_match(offered@, crate::address::pet_suffix()));
            }
        }
        report
    }
}

/// One address that a worker delivered, with the time since the batch began
/// at which it reached the collector, in milliseconds.
#[derive(Debug)]
pub struct Arrival {
    pub address: PetAddress,
    pub elapsed_millis: u64,
}

/// What an `Arrival` holds.
pub struct ArrivalView {
    pub address: PetAddressView,
    pub elapsed_millis: u64,
}

impl View for Arrival {
    type V = ArrivalView;

    open spec fn view(&self) -> ArrivalView {
        ArrivalView { address: self.address@, elapsed_millis: self.elapsed_millis }
    }
}

/// What happened while a batch was stored: the creation time of each address,
/// the outcome of each offer, and what the database held before the first
/// offer and after each one.
pub struct BatchTrace {
    pub times: Seq<Seq<char>>,
    pub outcomes: Seq<Result<u64, StorageError>>,
    pub states: Seq<Map<Seq<u8>, Seq<u8>>>,
}

/// What happened in a batch: for each worker the searches that it made and
/// what it returned, the addresses that reached the collector with their
/// times, and what happened while they were stored.
pub struct BatchRun {
    pub tasks: Seq<Seq<Seq<KeyMaterial>>>,
    pub results: Seq<Option<PetAddress>>,
    pub arrivals: Seq<ArrivalView>,
    pub trace: BatchTrace,
}

/// What some addresses hold, one by one.
pub open spec fn address_views(addresses: Seq<PetAddress>) -> Seq<PetAddressView> {
    Seq::new(addresses.len(), |i: int| addresses[i]@)
}

/// What some arrivals hold, one by one.
pub open spec fn arrival_views(arrivals: Seq<Arrival>) -> Seq<ArrivalView> {
    Seq::new(arrivals.len(), |i: int| arrivals[i]@)
}

/// The number of offers that succeeded.
pub open spec fn successes(outcomes: Seq<Result<u64, StorageError>>) -> nat
    decreases outcomes.len(),
{
    if outcomes.len() == 0 {
        0
    } else {
        successes(outcomes.drop_last()) + if outcomes.last() is Ok {
            1nat
        } else {
            0nat
        }
    }
}

/// What one offer to the store does: a success is one store on the database
/// as it then stood, under the identifier returned; a refusal for want of a
/// counter leaves the database as it was; of a refusal by the database
/// nothing is known.
pub open spec fn offered(
    before: Map<Seq<u8>, Seq<u8>>,
    address: PetAddressView,
    created_at: Seq<char>,
    outcome: Result<u64, StorageError>,
    after: Map<Seq<u8>, Seq<u8>>,
) -> bool {
    match outcome {
        Ok(id) => counter_of(before) matches Some(c) && c < u64::MAX && (after, id) == enqueue(
            before,
            address,
            created_at,
        ),
        Err(StorageError::Counter) => (counter_of(before) is None || counter_of(before) == Some(
            u64::MAX,
        )) && after == before,
        Err(StorageError::Io) => true,
        Err(StorageError::Serialization) => false,
    }
}

/// What storing a batch does: every address is offered once, in order, each
/// offer on the database as the one before left it, and the number returned
/// is the number of offers that succeeded.
pub open spec fn batch_stored(
    before: Map<Seq<u8>, Seq<u8>>,
    addresses: Seq<PetAddressView>,
    trace: BatchTrace,
    after: Map<Seq<u8>, Seq<u8>>,
    stored: usize,
) -> bool {
    &&& trace.times.len() == addresses.len()
    &&& trace.outcomes.len() == addresses.len()
    &&& trace.states.len() == addresses.len() + 1
    &&& trace.states[0] == before
    &&& trace.states[addresses.len() as int] == after
    &&& forall|i: int|
        0 <= i < addresses.len() ==> offered(
            trace.states[i],
            addresses[i],
            trace.times[i],
            #[trigger] trace.outcomes[i],
            trace.states[i + 1],
        )
    &&& stored == successes(trace.outcomes)
}

/// How many arrivals came before the first one that came after the deadline.
pub open spec fn deadline_cut(arrivals: Seq<ArrivalView>) -> nat
    decreases arrivals.len(),
{
    if arrivals.len() > 0 && arrivals[0].elapsed_millis <= BATCH_TIMEOUT_MILLIS {
        1 + deadline_cut(arrivals.drop_first())
    } else {
        0
    }
}

/// The addresses that are offered to the store: those that arrived before
/// the first one that came after the deadline.
pub open spec fn in_time(arrivals: Seq<ArrivalView>) -> Seq<PetAddressView> {
    Seq::new(deadline_cut(arrivals), |i: int| arrivals[i].address)
}

/// The addresses that the workers delivered, in the order of the workers.
pub open spec fn delivered(results: Seq<Option<PetAddress>>) -> Seq<PetAddressView>
    decreases results.len(),
{
    if results.len() == 0 {
        Seq::empty()
    } else {
        match results.last() {
            Some(a) => delivered(results.drop_last()).push(a@),
            None => delivered(results.drop_last()),
        }
    }
}

/// What a batch of `count` workers does: each worker runs once and returns
/// what its searches give; the addresses returned reach the collector in the
/// order of the workers, and their number is the number found; those that
/// arrived up to the deadline are stored as `batch_stored` says.
pub open spec fn batch_run(
    count: usize,
    run: BatchRun,
    report: BatchReport,
    before: Map<Seq<u8>, Seq<u8>>,
    after: Map<Seq<u8>, Seq<u8>>,
) -> bool {
    &&& run.tasks.len() == count
    &&& run.results.len() == count
    &&& forall|i: int| 0 <= i < count ==> task_result(#[trigger] run.tasks[i], run.results[i])
    &&& run.arrivals.len() == delivered(run.results).len()
    &&& forall|j: int|
        0 <= j < run.arrivals.len() ==> (#[trigger] run.arrivals[j]).address == delivered(
            run.results,
        )[j]
    &&& report.found == run.arrivals.len()
    &&& batch_stored(before, in_time(run.arrivals), run.trace, after, report.stored)
}

/// Arrivals of which the first `k` came in time and the next one late, or
/// which end there, are cut at `k`.
pub proof fn lemma_deadline_cut_exact(arrivals: Seq<ArrivalView>, k: int)
    requires
        0 <= k <= arrivals.len(),
        forall|j: int| 0 <= j < k ==> (#[trigger] arrivals[j]).elapsed_millis <= BATCH_TIMEOUT_MILLIS,
        k == arrivals.len() || arrivals[k].elapsed_millis > BATCH_TIMEOUT_MILLIS,
    ensures
        deadline_cut(arrivals) == k,
    decreases k,
{
    if k > 0 {
        assert(arrivals[0].elapsed_millis <= BATCH_TIMEOUT_MILLIS);
        let rest = arrivals.drop_first();
        assert forall|j: int| 0 <= j < k - 1 implies (#[trigger] rest[j]).elapsed_millis
            <= BATCH_TIMEOUT_MILLIS by {
            assert(rest[j] == arrivals[j + 1]);
        }
        lemma_deadline_cut_exact(rest, k - 1);
    }
}

/// One cycle on a queue: when no more addresses are stored than the cycle set
/// out to make, the count of the pool rises by the number stored, by one
/// batch at most, and not past the target.
pub proof fn lemma_cycle_raises_count(
    m: Map<Seq<u8>, Seq<u8>>,
    lo: nat,
    es: Seq<crate::address::PetAddressInfoView>,
    items: Seq<(PetAddressView, Seq<char>)>,
    pool_size: nat,
    batch_size: nat,
)
    requires
        holds_queue(m, lo, es),
        lo + es.len() + items.len() - 1 <= u64::MAX,
        items.len() <= deficit(es.len(), pool_size, batch_size),
    ensures
        live_keys(m).len() == es.len(),
        live_keys(enqueue_all(m, items)).len() == es.len() + items.len(),
        items.len() <= batch_size,
        es.len() <= pool_size ==> live_keys(enqueue_all(m, items)).len() <= pool_size,
{
    lemma_stores_raise_count(m, lo, es, items);
    crate::pool::lemma_queue_count(m, lo, es);
}

/// What a worker makes of its searches, each given by the key pairs that it
/// tried: every search but the last found nothing; the worker returns what
/// the last search found; and a worker that returns nothing has made all the
/// searches that it may make.
pub open spec fn task_result(runs: Seq<Seq<KeyMaterial>>, r: Option<PetAddress>) -> bool {
    &&& 1 <= runs.len() <= TASK_ATTEMPTS
    &&& forall|i: int|
        0 <= i < runs.len() - 1 ==> generate_result(#[trigger] runs[i], None::<PetAddress>)
    &&& generate_result(runs.last(), r)
    &&& (r is None ==> runs.len() == TASK_ATTEMPTS)
}

/// Identifiers of a batch: when every offer of a batch succeeded, the
/// addresses got the identifiers that follow the counter, in their order, each
/// once and none left out, and the counter ends at the last of them.
pub proof fn lemma_batch_ids(
    before: Map<Seq<u8>, Seq<u8>>,
    addresses: Seq<PetAddressView>,
    trace: BatchTrace,
    after: Map<Seq<u8>, Seq<u8>>,
    stored: usize,
    counter: u64,
    i: int,
)
    requires
        batch_stored(before, addresses, trace, after, stored),
        counter_of(before) == Some(counter),
        forall|j: int| 0 <= j < addresses.len() ==> (#[trigger] trace.outcomes[j]) is Ok,
        0 <= i <= addresses.len(),
    ensures
        counter + i <= u64::MAX,
        counter_of(trace.states[i]) == Some((counter + i) as u64),
        i < addresses.len() ==> trace.outcomes[i] == Ok::<u64, StorageError>(
            (counter + 1 + i) as u64,
        ),
    decreases i,
{
    if i > 0 {
        lemma_batch_ids(before, addresses, trace, after, stored, counter, i - 1);
        assert(trace.outcomes[i - 1] is Ok);
        assert(offered(
            trace.states[i - 1],
            addresses[i - 1],
            trace.times[i - 1],
            trace.outcomes[i - 1],
            trace.states[i - 1 + 1],
        ));
        crate::pool::lemma_enqueue_counter(trace.states[i - 1], addresses[i - 1], trace.times[i - 1]);
    }
    if i < addresses.len() {
        assert(trace.outcomes[i] is Ok);
        assert(offered(
            trace.states[i],
            addresses[i],
            trace.times[i],
            trace.outcomes[i],
            trace.states[i + 1],
        ));
        crate::pool::lemma_enqueue_counter(trace.states[i], addresses[i], trace.times[i]);
    }
}

} // verus!
