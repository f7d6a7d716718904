//! The dispatcher: the decisions of a run, as a state machine.
//!
//! A run owns a list of jobs, a concurrency cap and the aggregate of results.
//! The caller asks which job may start (`start_next`), performs the fetch,
//! and hands back its outcome (`complete`), which frees the job's slot, adds a
//! success to the aggregate and yields the snapshot text to persist. At every
//! step at most `cap` jobs are running, and the aggregate holds exactly the
//! results of the jobs that succeeded.
use vstd::prelude::*;
use crate::aggregate::{Aggregate, json_object_text, lemma_snapshot_determined, lemma_snapshot_view};
use crate::keymap::keys_ascending;

verus! {

/// One unit of work: a key and the URL that the fetch requests.
#[derive(Debug)]
pub struct Job {
    pub key: i32,
    pub url: String,
}

/// Why a fetch failed.
#[derive(Debug, Clone, Copy, PartialEq, Eq, Structural)]
pub enum FetchError {
    /// The request could not be sent, or no response came in time.
    Transport,
    /// The response did not have the expected shape.
    Shape,
}

/// Where a job stands.
#[derive(Debug)]
pub enum JobState {
    /// Not started yet.
    Pending,
    /// Holding a slot: its fetch is in flight.
    Running,
    /// The fetch returned `value`; `persisted` tells whether a snapshot that
    /// holds it has been written.
    Succeeded { value: String, persisted: bool },
    /// The fetch failed.
    Failed { error: FetchError },
}

/// Why a run could not be set up.
#[derive(Debug, Clone, Copy, PartialEq, Eq, Structural)]
pub enum DispatchError {
    /// The concurrency cap is zero.
    ZeroCap,
    /// Two jobs share a key.
    DuplicateKey,
}

/// The result that a job's state holds, if it succeeded.
pub open spec fn result_of(s: JobState) -> Option<Seq<char>> {
    match s {
        JobState::Succeeded { value, .. } => Some(value@),
        _ => None,
    }
}

/// A job in this state has finished, one way or the other.
pub open spec fn is_terminal(s: JobState) -> bool {
    s is Succeeded || s is Failed
}

/// The number of running jobs among `s`.
pub open spec fn running_count(s: Seq<JobState>) -> nat
    decreases s.len(),
{
    if s.len() == 0 {
        0
    } else {
        running_count(s.drop_last()) + if s.last() is Running { 1nat } else { 0nat }
    }
}

/// The state after a snapshot holding every result so far was written: each
/// success counts as persisted.
pub open spec fn persisted_state(s: JobState) -> JobState {
    match s {
        JobState::Succeeded { value, .. } => JobState::Succeeded { value, persisted: true },
        _ => s,
    }
}

/// The keys of the jobs, in order.
pub open spec fn job_keys(jobs: Seq<Job>) -> Seq<i32> {
    jobs.map_values(|j: Job| j.key)
}

/// No key occurs twice.
pub open spec fn keys_unique(keys: Seq<i32>) -> bool {
    forall|i: int, j: int| 0 <= i < keys.len() && 0 <= j < keys.len() && i != j ==> keys[i] != keys[j]
}

/// Job `i` has key `k` and has succeeded.
pub open spec fn succeeded_at(keys: Seq<i32>, states: Seq<JobState>, i: int, k: i32) -> bool {
    0 <= i < keys.len() && i < states.len() && keys[i] == k && result_of(states[i]) is Some
}

/// The results that the jobs which succeeded returned, by key.
pub open spec fn succeeded_results(keys: Seq<i32>, states: Seq<JobState>) -> Map<i32, Seq<char>> {
    Map::new(
        |k: i32| exists|i: int| succeeded_at(keys, states, i, k),
        |k: i32| result_of(states[choose|i: int| succeeded_at(keys, states, i, k)])->Some_0,
    )
}

/// Replacing one state changes the running count by what the two states
/// add to it.
proof fn lemma_running_update(s: Seq<JobState>, i: int, x: JobState)
    requires
        0 <= i < s.len(),
    ensures
        running_count(s.update(i, x)) + (if s[i] is Running { 1int } else { 0int })
            == running_count(s) + (if x is Running { 1int } else { 0int }),
    decreases s.len(),
{
    let t = s.update(i, x);
    if i == s.len() - 1 {
        assert(t.drop_last() =~= s.drop_last());
    } else {
        assert(t.drop_last() =~= s.drop_last().update(i, x));
        lemma_running_update(s.drop_last(), i, x);
    }
}

/// No job runs exactly when the running count is zero.
proof fn lemma_running_zero(s: Seq<JobState>)
    ensures
        running_count(s) == 0 <==> forall|i: int| 0 <= i < s.len() ==> !(#[trigger] s[i] is Running),
    decreases s.len(),
{
    if s.len() > 0 {
        lemma_running_zero(s.drop_last());
        if running_count(s) == 0 {
            assert forall|i: int| 0 <= i < s.len() implies !(#[trigger] s[i] is Running) by {
                if i < s.len() - 1 {
                    assert(s.drop_last()[i] == s[i]);
                }
            }
        } else if !(s.last() is Running) {
            let i = choose|i: int| 0 <= i < s.drop_last().len() && (#[trigger] s.drop_last()[i] is Running);
            assert(s[i] is Running);
        }
    }
}

/// In a run with unique keys, a job that succeeded has its result under its
/// key.
proof fn lemma_result_at(keys: Seq<i32>, s: Seq<JobState>, i: int)
    requires
        keys_unique(keys),
        keys.len() == s.len(),
        0 <= i < s.len(),
        result_of(s[i]) is Some,
    ensures
        succeeded_results(keys, s).contains_key(keys[i]),
        succeeded_results(keys, s)[keys[i]] == result_of(s[i])->Some_0,
{
    assert(succeeded_at(keys, s, i, keys[i]));
    let j = choose|j: int| succeeded_at(keys, s, j, keys[i]);
    assert(j == i);
}

/// The results by key depend on the result of each job alone.
proof fn lemma_same_results(keys: Seq<i32>, s1: Seq<JobState>, s2: Seq<JobState>)
    requires
        keys_unique(keys),
        keys.len() == s1.len(),
        keys.len() == s2.len(),
        forall|j: int| 0 <= j < keys.len() ==> result_of(#[trigger] s1[j]) == result_of(s2[j]),
    ensures
        succeeded_results(keys, s1) == succeeded_results(keys, s2),
{
    let m1 = succeeded_results(keys, s1);
    let m2 = succeeded_results(keys, s2);
    assert forall|k: i32| m1.contains_key(k) <==> m2.contains_key(k) by {
        if m1.contains_key(k) {
            let j = choose|j: int| succeeded_at(keys, s1, j, k);
            assert(result_of(s1[j]) == result_of(s2[j]));
            assert(succeeded_at(keys, s2, j, k));
        }
        if m2.contains_key(k) {
            let j = choose|j: int| succeeded_at(keys, s2, j, k);
            assert(result_of(s1[j]) == result_of(s2[j]));
            assert(succeeded_at(keys, s1, j, k));
        }
    }
    assert forall|k: i32| #[trigger] m1.contains_key(k) implies m1[k] == m2[k] by {
        let j = choose|j: int| succeeded_at(keys, s1, j, k);
        assert(result_of(s1[j]) == result_of(s2[j]));
        lemma_result_at(keys, s1, j);
        lemma_result_at(keys, s2, j);
    }
    assert(m1 =~= m2);
}

/// A job that succeeds adds its result under its key; what the other jobs
/// returned stays.
proof fn lemma_result_added(keys: Seq<i32>, s: Seq<JobState>, i: int, x: JobState)
    requires
        keys_unique(keys),
        keys.len() == s.len(),
        0 <= i < s.len(),
        result_of(s[i]) is None,
        result_of(x) is Some,
    ensures
        succeeded_results(keys, s.update(i, x)) == succeeded_results(keys, s).insert(keys[i], result_of(x)->Some_0),
{
    let t = s.update(i, x);
    let m = succeeded_results(keys, s);
    let n = succeeded_results(keys, t);
    let e = m.insert(keys[i], result_of(x)->Some_0);
    assert forall|k: i32| n.contains_key(k) <==> e.contains_key(k) by {
        if n.contains_key(k) && k != keys[i] {
            let j = choose|j: int| succeeded_at(keys, t, j, k);
            assert(succeeded_at(keys, s, j, k));
        }
        if m.contains_key(k) {
            let j = choose|j: int| succeeded_at(keys, s, j, k);
            assert(succeeded_at(keys, t, j, k));
        }
        if k == keys[i] {
            assert(succeeded_at(keys, t, i, k));
        }
    }
    assert forall|k: i32| #[trigger] n.contains_key(k) implies n[k] == e[k] by {
        let j = choose|j: int| succeeded_at(keys, t, j, k);
        lemma_result_at(keys, t, j);
        if j != i {
            lemma_result_at(keys, s, j);
        }
    }
    assert(n =~= e);
}

/// A run starts with every job pending and nothing running.
proof fn lemma_all_pending(keys: Seq<i32>, s: Seq<JobState>)
    requires
        keys.len() == s.len(),
        forall|i: int| 0 <= i < s.len() ==> #[trigger] s[i] is Pending,
    ensures
        running_count(s) == 0,
        succeeded_results(keys, s) == Map::<i32, Seq<char>>::empty(),
{
    lemma_running_zero(s);
    assert(succeeded_results(keys, s) =~= Map::<i32, Seq<char>>::empty());
}

/// A run: its jobs, their states, the cap and the aggregate.
pub struct Dispatcher {
    jobs: Vec<Job>,
    states: Vec<JobState>,
    cap: usize,
    active: usize,
    next: usize,
    aggregate: Aggregate,
}

impl Dispatcher {
    /// The jobs, in the order in which they start.
    pub closed spec fn jobs_view(&self) -> Seq<Job> {
        self.jobs@
    }

    /// The state of each job.
    pub closed spec fn states_view(&self) -> Seq<JobState> {
        self.states@
    }

    /// The most jobs that may run at once.
    pub closed spec fn cap_view(&self) -> nat {
        self.cap as nat
    }

    /// The number of jobs running now.
    pub closed spec fn active_view(&self) -> nat {
        self.active as nat
    }

    /// The position of the next job to start.
    pub closed spec fn next_view(&self) -> nat {
        self.next as nat
    }

    /// The aggregate of results.
    pub closed spec fn aggregate_view(&self) -> Aggregate {
        self.aggregate
    }

    /// What holds of every run: jobs start in order, the running jobs are
    /// counted and never exceed the cap, and the aggregate holds exactly the
    /// results of the jobs that succeeded.
    pub open spec fn wf(&self) -> bool {
        &&& self.jobs_view().len() == self.states_view().len()
        &&& keys_unique(job_keys(self.jobs_view()))
        &&& 1 <= self.cap_view()
        &&& self.next_view() <= self.jobs_view().len()
        &&& forall|i: int|
            0 <= i < self.states_view().len() ==> (i < self.next_view() <==> !(#[trigger] self.states_view()[i] is Pending))
        &&& self.active_view() == running_count(self.states_view())
        &&& self.active_view() <= self.cap_view()
        &&& self.aggregate_view()@ == succeeded_results(job_keys(self.jobs_view()), self.states_view())
    }

    /// The run is over: every job has succeeded or failed.
    pub open spec fn finished(&self) -> bool {
        forall|i: int| 0 <= i < self.states_view().len() ==> is_terminal(#[trigger] self.states_view()[i])
    }

    #[verifier::type_invariant]
    spec fn inv(self) -> bool {
        self.wf()
    }

    /// Sets up a run of `jobs`, at most `cap` of them at once. A cap of zero
    /// and two jobs with one key are refused.
    pub fn new(jobs: Vec<Job>, cap: usize) -> (r: Result<Dispatcher, DispatchError>)
        ensures
            r matches Err(e) ==> (e == DispatchError::ZeroCap <==> cap == 0),
            r matches Err(e) ==> (e == DispatchError::DuplicateKey <==> cap > 0 && !keys_unique(job_keys(jobs@))),
            r is Ok <==> cap > 0 && keys_unique(job_keys(jobs@)),
            r matches Ok(d) ==> {
                &&& d.wf()
                &&& d.jobs_view() == jobs@
                &&& d.cap_view() == cap
                &&& d.active_view() == 0
                &&& d.next_view() == 0
                &&& d.states_view().len() == jobs@.len()
                &&& forall|i: int| 0 <= i < jobs@.len() ==> #[trigger] d.states_view()[i] is Pending
                &&& d.aggregate_view()@ == Map::<i32, Seq<char>>::empty()
            },
    {
        if cap == 0 {
            return Err(DispatchError::ZeroCap);
        }
        let ghost keys = job_keys(jobs@);
        let n = jobs.len();
        let mut i: usize = 0;
        while i < n
            invariant
                n == jobs@.len(),
                keys == job_keys(jobs@),
                i <= n,
                cap > 0,
                forall|a: int, b: int| 0 <= a < i && 0 <= b < n && a != b ==> keys[a] != keys[b],
            decreases n - i,
        {
            let mut j: usize = 0;
            while j < n
                invariant
                    n == jobs@.len(),
                    keys == job_keys(jobs@),
                    i < n,
                    j <= n,
                    cap > 0,
                    forall|a: int, b: int| 0 <= a < i && 0 <= b < n && a != b ==> keys[a] != keys[b],
                    forall|b: int| 0 <= b < j && b != i ==> keys[i as int] != keys[b],
                decreases n - j,
            {
                if j != i && jobs[i].key == jobs[j].key {
                    assert(keys[i as int] == keys[j as int]);
                    return Err(DispatchError::DuplicateKey);
                }
                j += 1;
            }
            i += 1;
        }
        let mut states: Vec<JobState> = Vec::new();
        let mut k: usize = 0;
        while k < n
            invariant
                k <= n,
                states@.len() == k,
                forall|a: int| 0 <= a < k ==> #[trigger] states@[a] is Pending,
            decreases n - k,
        {
            states.push(JobState::Pending);
            k += 1;
        }
        proof {
            lemma_all_pending(keys, states@);
        }
        Ok(Dispatcher { jobs, states, cap, active: 0, next: 0, aggregate: Aggregate::new() })
    }

    /// Moves the run out, leaving an empty one in its place.
    fn take(&mut self) -> (r: Dispatcher)
        ensures
            r == *old(self),
            r.wf(),
    {
        proof {
            use_type_invariant(&*self);
            lemma_all_pending(Seq::<i32>::empty(), Seq::<JobState>::empty());
            assert(job_keys(Seq::<Job>::empty()) =~= Seq::<i32>::empty());
        }
        let mut other = Dispatcher {
            jobs: Vec::new(),
            states: Vec::new(),
            cap: 1,
            active: 0,
            next: 0,
            aggregate: Aggregate::new(),
        };
        core::mem::swap(self, &mut other);
        other
    }

    /// Starts the next job when a slot is free: returns its position and
    /// marks it running. Returns `None`, and changes nothing, when `cap` jobs
    /// are running or every job has started.
    pub fn start_next(&mut self) -> (r: Option<usize>)
        ensures
            final(self).wf(),
            r is Some <==> old(self).active_view() < old(self).cap_view() && old(self).next_view() < old(self).jobs_view().len(),
            r matches Some(i) ==> {
                &&& i == old(self).next_view()
                &&& i < final(self).states_view().len()
                &&& final(self).states_view()[i as int] is Running
                &&& final(self).states_view() == old(self).states_view().update(i as int, JobState::Running)
                &&& final(self).active_view() == old(self).active_view() + 1
                &&& final(self).next_view() == old(self).next_view() + 1
                &&& final(self).jobs_view() == old(self).jobs_view()
                &&& final(self).cap_view() == old(self).cap_view()
                &&& final(self).aggregate_view() == old(self).aggregate_view()
            },
            r is None ==> *final(self) == *old(self),
    {
        proof {
            use_type_invariant(&*self);
        }
        if self.active >= self.cap || self.next >= self.jobs.len() {
            return None;
        }
        let Dispatcher { jobs, mut states, cap, active, next, aggregate } = self.take();
        let ghost s0 = states@;
        states.set(next, JobState::Running);
        proof {
            lemma_running_update(s0, next as int, JobState::Running);
            lemma_same_results(job_keys(jobs@), s0, states@);
            assert forall|i: int| 0 <= i < states@.len() implies (i < next + 1 <==> !(#[trigger] states@[i] is Pending)) by {
                if i != next {
                    assert(states@[i] == s0[i]);
                }
            }
        }
        *self = Dispatcher { jobs, states, cap, active: active + 1, next: next + 1, aggregate };
        Some(next)
    }

    /// Records the outcome of the running job `i` and frees its slot. A
    /// success is added to the aggregate and the snapshot text of the whole
    /// aggregate is returned, to be persisted; a failure leaves the aggregate
    /// as it was and returns `None`.
    pub fn complete(&mut self, i: usize, result: Result<String, FetchError>) -> (r: Option<String>)
        requires
            i < old(self).states_view().len(),
            old(self).states_view()[i as int] is Running,
        ensures
            final(self).wf(),
            final(self).jobs_view() == old(self).jobs_view(),
            final(self).cap_view() == old(self).cap_view(),
            final(self).next_view() == old(self).next_view(),
            final(self).active_view() + 1 == old(self).active_view(),
            result matches Ok(v) ==> {
                &&& final(self).states_view() == old(self).states_view().update(
                    i as int,
                    JobState::Succeeded { value: v, persisted: false },
                )
                &&& final(self).aggregate_view()@ == old(self).aggregate_view()@.insert(
                    old(self).jobs_view()[i as int].key,
                    v@,
                )
                &&& r is Some
                &&& r->Some_0@ == json_object_text(final(self).aggregate_view().snapshot_view())
            },
            result matches Err(e) ==> {
                &&& final(self).states_view() == old(self).states_view().update(i as int, JobState::Failed { error: e })
                &&& final(self).aggregate_view() == old(self).aggregate_view()
                &&& r is None
            },
    {
        proof {
            use_type_invariant(&*self);
        }
        let Dispatcher { jobs, mut states, cap, active, next, mut aggregate } = self.take();
        let ghost s0 = states@;
        let ghost keys = job_keys(jobs@);
        proof {
            lemma_running_zero(s0);
            assert(keys[i as int] == jobs@[i as int].key);
        }
        match result {
            Ok(value) => {
                let key = jobs[i].key;
                proof {
                    if aggregate@.contains_key(key) {
                        let j = choose|j: int| succeeded_at(keys, s0, j, key);
                        assert(j == i);
                    }
                }
                let inserted = aggregate.insert(key, value.clone());
                assert(inserted is Ok);
                let state = JobState::Succeeded { value, persisted: false };
                states.set(i, state);
                proof {
                    lemma_running_update(s0, i as int, state);
                    lemma_result_added(keys, s0, i as int, state);
                    assert forall|j: int| 0 <= j < states@.len() implies (j < next <==> !(#[trigger] states@[j] is Pending)) by {
                        if j != i {
                            assert(states@[j] == s0[j]);
                        }
                    }
                }
                let text = aggregate.snapshot_text();
                *self = Dispatcher { jobs, states, cap, active: active - 1, next, aggregate };
                Some(text)
            },
            Err(error) => {
                let state = JobState::Failed { error };
                states.set(i, state);
                proof {
                    lemma_running_update(s0, i as int, state);
                    lemma_same_results(keys, s0, states@);
                    assert forall|j: int| 0 <= j < states@.len() implies (j < next <==> !(#[trigger] states@[j] is Pending)) by {
                        if j != i {
                            assert(states@[j] == s0[j]);
                        }
                    }
                }
                *self = Dispatcher { jobs, states, cap, active: active - 1, next, aggregate };
                None
            },
        }
    }


    /// Records whether the snapshot returned by the latest `complete` was
    /// written. That snapshot holds every result so far, so a write that
    /// succeeded marks every success as persisted; a failed one changes
    /// nothing, and the successes it held stay marked as not persisted until
    /// a later write succeeds.
    pub fn record_persist(&mut self, written: bool)
        ensures
            final(self).wf(),
            final(self).jobs_view() == old(self).jobs_view(),
            final(self).cap_view() == old(self).cap_view(),
            final(self).next_view() == old(self).next_view(),
            final(self).active_view() == old(self).active_view(),
            final(self).aggregate_view() == old(self).aggregate_view(),
            written ==> final(self).states_view() == old(self).states_view().map_values(|x: JobState| persisted_state(x)),
            !written ==> final(self).states_view() == old(self).states_view(),
    {
        proof {
            use_type_invariant(&*self);
        }
        if !written {
            return;
        }
        let Dispatcher { jobs, mut states, cap, active, next, aggregate } = self.take();
        let ghost s0 = states@;
        let ghost target = s0.map_values(|x: JobState| persisted_state(x));
        let n = states.len();
        let mut j: usize = 0;
        while j < n
            invariant
                n == s0.len(),
                j <= n,
                states@.len() == n,
                target == s0.map_values(|x: JobState| persisted_state(x)),
                forall|a: int| 0 <= a < j ==> #[trigger] states@[a] == target[a],
                forall|a: int| j <= a < n ==> #[trigger] states@[a] == s0[a],
                running_count(states@) == running_count(s0),
            decreases n - j,
        {
            let ghost before = states@;
            let mut current = JobState::Pending;
            states.set_and_swap(j, &mut current);
            let updated = match current {
                JobState::Succeeded { value, persisted: _ } => JobState::Succeeded { value, persisted: true },
                other => other,
            };
            states.set(j, updated);
            proof {
                assert(states@ == before.update(j as int, updated));
                lemma_running_update(before, j as int, updated);
            }
            j += 1;
        }
        proof {
            assert(states@ =~= target);
            lemma_same_results(job_keys(jobs@), s0, states@);
            assert forall|i: int| 0 <= i < states@.len() implies (i < next <==> !(#[trigger] states@[i] is Pending)) by {
                assert(states@[i] == persisted_state(s0[i]));
            }
        }
        *self = Dispatcher { jobs, states, cap, active, next, aggregate };
    }

    /// Whether every job has succeeded or failed.
    pub fn is_finished(&self) -> (r: bool)
        ensures
            r == self.finished(),
    {
        proof {
            use_type_invariant(self);
            lemma_running_zero(self.states@);
            if self.next < self.jobs@.len() {
                assert(self.states@[self.next as int] is Pending);
            }
        }
        self.next == self.jobs.len() && self.active == 0
    }

    /// The number of jobs of the run.
    pub fn job_count(&self) -> (r: usize)
        ensures
            r == self.jobs_view().len(),
            r == self.states_view().len(),
    {
        proof {
            use_type_invariant(self);
        }
        self.jobs.len()
    }

    /// The job at position `i`.
    pub fn job(&self, i: usize) -> (r: &Job)
        requires
            i < self.jobs_view().len(),
        ensures
            *r == self.jobs_view()[i as int],
    {
        &self.jobs[i]
    }

    /// The state of the job at position `i`.
    pub fn state(&self, i: usize) -> (r: &JobState)
        requires
            i < self.states_view().len(),
        ensures
            *r == self.states_view()[i as int],
    {
        &self.states[i]
    }

    /// Whether the job at position `i` is running, so that `complete` may be
    /// called for it.
    pub fn is_running(&self, i: usize) -> (r: bool)
        ensures
            r == (i < self.states_view().len() && self.states_view()[i as int] is Running),
    {
        i < self.states.len() && matches!(self.states[i], JobState::Running)
    }

    /// The cap of the run.
    pub fn cap(&self) -> (r: usize)
        ensures
            r == self.cap_view(),
    {
        self.cap
    }

    /// The number of jobs running now.
    pub fn active(&self) -> (r: usize)
        ensures
            r == self.active_view(),
            r == running_count(self.states_view()),
            r <= self.cap_view(),
    {
        proof {
            use_type_invariant(self);
        }
        self.active
    }

    /// The aggregate of the results so far.
    pub fn aggregate(&self) -> (r: &Aggregate)
        ensures
            *r == self.aggregate_view(),
            r@ == succeeded_results(job_keys(self.jobs_view()), self.states_view()),
    {
        proof {
            use_type_invariant(self);
        }
        &self.aggregate
    }

}

/// Bounded parallelism: in every run, however it got there, the jobs running
/// at once are no more than the cap.
pub proof fn lemma_bounded_parallelism(d: Dispatcher)
    requires
        d.wf(),
    ensures
        running_count(d.states_view()) <= d.cap_view(),
{
}

/// The aggregate holds the key of a job exactly when that job succeeded,
/// with the result that it returned; it holds no other key.
pub proof fn lemma_results_are_successes(d: Dispatcher)
    requires
        d.wf(),
    ensures
        forall|k: i32| #[trigger] d.aggregate_view()@.contains_key(k) <==> exists|i: int|
            0 <= i < d.jobs_view().len() && d.jobs_view()[i].key == k && d.states_view()[i] is Succeeded,
        forall|i: int| 0 <= i < d.jobs_view().len() && #[trigger] d.states_view()[i] is Succeeded ==>
            d.aggregate_view()@[d.jobs_view()[i].key] == result_of(d.states_view()[i])->Some_0,
{
    let keys = job_keys(d.jobs_view());
    assert forall|k: i32| #[trigger] d.aggregate_view()@.contains_key(k) <==> exists|i: int|
        0 <= i < d.jobs_view().len() && d.jobs_view()[i].key == k && d.states_view()[i] is Succeeded by {
        if d.aggregate_view()@.contains_key(k) {
            let i = choose|i: int| succeeded_at(keys, d.states_view(), i, k);
            assert(d.jobs_view()[i].key == k);
        }
        if exists|i: int| 0 <= i < d.jobs_view().len() && d.jobs_view()[i].key == k && d.states_view()[i] is Succeeded {
            let i = choose|i: int| 0 <= i < d.jobs_view().len() && d.jobs_view()[i].key == k && d.states_view()[i] is Succeeded;
            assert(succeeded_at(keys, d.states_view(), i, k));
        }
    }
    assert forall|i: int| 0 <= i < d.jobs_view().len() && #[trigger] d.states_view()[i] is Succeeded implies
        d.aggregate_view()@[d.jobs_view()[i].key] == result_of(d.states_view()[i])->Some_0 by {
        lemma_result_at(keys, d.states_view(), i);
    }
}

/// The key of job `i` with the result that it returned.
pub open spec fn job_result(d: Dispatcher, i: int) -> (i32, Seq<char>) {
    (d.jobs_view()[i].key, result_of(d.states_view()[i])->Some_0)
}

/// `pair` is the key and result of a job that succeeded.
pub open spec fn is_success_pair(d: Dispatcher, pair: (i32, Seq<char>)) -> bool {
    exists|i: int| 0 <= i < d.jobs_view().len() && d.states_view()[i] is Succeeded && pair == #[trigger] job_result(d, i)
}

/// The snapshot that a run persists holds each job that succeeded exactly
/// once, under its key and with its result, in ascending key order, and
/// holds nothing else.
pub proof fn lemma_snapshot_of_successes(d: Dispatcher)
    requires
        d.wf(),
    ensures
        keys_ascending(d.aggregate_view().texts()),
        forall|i: int| 0 <= i < d.jobs_view().len() && d.states_view()[i] is Succeeded ==> exists|p: int|
            0 <= p < d.aggregate_view().texts().len() && d.aggregate_view().texts()[p] == #[trigger] job_result(d, i),
        forall|p: int| 0 <= p < d.aggregate_view().texts().len() ==> is_success_pair(d, #[trigger] d.aggregate_view().texts()[p]),
{
    let a = d.aggregate_view();
    let t = a.texts();
    lemma_snapshot_view(a);
    lemma_results_are_successes(d);
    assert forall|i: int| 0 <= i < d.jobs_view().len() && d.states_view()[i] is Succeeded implies exists|p: int|
        0 <= p < t.len() && t[p] == #[trigger] job_result(d, i) by {
        let k = d.jobs_view()[i].key;
        assert(a@.contains_key(k));
        let p = choose|p: int| 0 <= p < t.len() && t[p].0 == k;
        assert(t[p] == job_result(d, i));
    }
    assert forall|p: int| 0 <= p < t.len() implies is_success_pair(d, #[trigger] t[p]) by {
        let k = t[p].0;
        assert(a@.contains_key(k));
        let i = choose|i: int| 0 <= i < d.jobs_view().len() && d.jobs_view()[i].key == k && d.states_view()[i] is Succeeded;
        assert(t[p] == job_result(d, i));
    }
}

/// Order independence: two runs of the same jobs in which every job ended
/// with the same result hold the same aggregate, and so persist the same
/// snapshot, whatever their caps and the order in which the jobs completed.
pub proof fn lemma_order_independent(d1: Dispatcher, d2: Dispatcher)
    requires
        d1.wf(),
        d2.wf(),
        job_keys(d1.jobs_view()) == job_keys(d2.jobs_view()),
        forall|i: int| 0 <= i < d1.states_view().len() ==> result_of(#[trigger] d1.states_view()[i]) == result_of(d2.states_view()[i]),
    ensures
        d1.aggregate_view()@ == d2.aggregate_view()@,
        d1.aggregate_view().snapshot_view() == d2.aggregate_view().snapshot_view(),
{
    lemma_same_results(job_keys(d1.jobs_view()), d1.states_view(), d2.states_view());
    lemma_snapshot_determined(d1.aggregate_view(), d2.aggregate_view());
}

/// Failure isolation: where one job fails and every other job ends as in a
/// run in which that job succeeded, the aggregate is that run's aggregate
/// without the failed job's key.
pub proof fn lemma_failure_isolated(d1: Dispatcher, d2: Dispatcher, f: int)
    requires
        d1.wf(),
        d2.wf(),
        job_keys(d1.jobs_view()) == job_keys(d2.jobs_view()),
        0 <= f < d2.states_view().len(),
        d2.states_view()[f] is Failed,
        forall|i: int| 0 <= i < d1.states_view().len() && i != f ==> result_of(#[trigger] d1.states_view()[i]) == result_of(d2.states_view()[i]),
    ensures
        d2.aggregate_view()@ == d1.aggregate_view()@.remove(d1.jobs_view()[f].key),
{
    let keys = job_keys(d1.jobs_view());
    let s1 = d1.states_view();
    let s2 = d2.states_view();
    let m1 = succeeded_results(keys, s1);
    let m2 = succeeded_results(keys, s2);
    assert(keys.len() == d1.jobs_view().len());
    assert(job_keys(d2.jobs_view()).len() == d2.jobs_view().len());
    let kf = keys[f];
    assert(kf == d1.jobs_view()[f].key);
    assert forall|k: i32| m2.contains_key(k) <==> m1.remove(kf).contains_key(k) by {
        if m2.contains_key(k) {
            let j = choose|j: int| succeeded_at(keys, s2, j, k);
            assert(j != f);
            assert(result_of(s1[j]) == result_of(s2[j]));
            assert(succeeded_at(keys, s1, j, k));
        }
        if m1.contains_key(k) && k != kf {
            let j = choose|j: int| succeeded_at(keys, s1, j, k);
            assert(j != f);
            assert(result_of(s1[j]) == result_of(s2[j]));
            assert(succeeded_at(keys, s2, j, k));
        }
    }
    assert forall|k: i32| #[trigger] m2.contains_key(k) implies m2[k] == m1.remove(kf)[k] by {
        let j = choose|j: int| succeeded_at(keys, s2, j, k);
        assert(j != f);
        assert(result_of(s1[j]) == result_of(s2[j]));
        lemma_result_at(keys, s1, j);
        lemma_result_at(keys, s2, j);
    }
    assert(m2 =~= m1.remove(kf));
}

/// A run that is not over can always go on, failed jobs or not: either a job
/// may start or a job is running, whose completion frees its slot.
pub proof fn lemma_progress(d: Dispatcher)
    requires
        d.wf(),
        !d.finished(),
    ensures
        (d.active_view() < d.cap_view() && d.next_view() < d.jobs_view().len())
            || exists|i: int| 0 <= i < d.states_view().len() && #[trigger] d.states_view()[i] is Running,
{
    let i = choose|i: int| 0 <= i < d.states_view().len() && !is_terminal(#[trigger] d.states_view()[i]);
    if !(d.states_view()[i] is Running) {
        assert(d.states_view()[i] is Pending);
        assert(d.next_view() <= i);
        if d.active_view() >= d.cap_view() {
            lemma_running_zero(d.states_view());
        }
    }
}

} // verus!
