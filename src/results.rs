//! The table of jobs of a run: one record per key, filled in as the run goes.
use vstd::prelude::*;
use crate::keymap::{KeyMap, keys_ascending};
use crate::keys::{delay_url, delay_url_text};
use crate::dispatcher::{Job, job_keys, keys_unique};

verus! {

/// What a run records of one job.
#[derive(Debug)]
pub struct JobRecord {
    /// The URL that the job requests.
    pub url: String,
    /// How long the request took, as text.
    pub time_taken: String,
    /// The trace identifier that the server returned.
    pub amz_id: String,
}

/// The record that a key starts with, before anything is known of its job.
pub open spec fn is_initial_record(r: JobRecord) -> bool {
    &&& r.url@ == "foo"@
    &&& r.time_taken@ == "bar"@
    &&& r.amz_id@ == "baz"@
}

impl JobRecord {
    /// The record that a key starts with.
    pub fn initial() -> (r: JobRecord)
        ensures
            is_initial_record(r),
    {
        JobRecord {
            url: String::from_str("foo"),
            time_taken: String::from_str("bar"),
            amz_id: String::from_str("baz"),
        }
    }
}

/// A table with one initial record for each of the given keys.
pub fn make_results_dict(random_nums: &Vec<i32>) -> (r: KeyMap<JobRecord>)
    ensures
        forall|k: i32| #[trigger] r@.contains_key(k) <==> random_nums@.contains(k),
        forall|k: i32| #[trigger] r@.contains_key(k) ==> is_initial_record(r@[k]),
{
    let mut results: KeyMap<JobRecord> = KeyMap::new();
    let mut i: usize = 0;
    while i < random_nums.len()
        invariant
            i <= random_nums@.len(),
            forall|k: i32| #[trigger] results@.contains_key(k) <==> random_nums@.subrange(0, i as int).contains(k),
            forall|k: i32| #[trigger] results@.contains_key(k) ==> is_initial_record(results@[k]),
        decreases random_nums@.len() - i,
    {
        let ghost before = random_nums@.subrange(0, i as int);
        results.insert(random_nums[i], JobRecord::initial());
        i += 1;
        assert forall|k: i32| random_nums@.subrange(0, i as int).contains(k) <==> (before.contains(k) || k == random_nums@[i - 1]) by {
            let after = random_nums@.subrange(0, i as int);
            if after.contains(k) {
                let j = choose|j: int| 0 <= j < after.len() && after[j] == k;
                if j < i - 1 {
                    assert(before[j] == k);
                }
            }
            if before.contains(k) {
                let j = choose|j: int| 0 <= j < before.len() && before[j] == k;
                assert(after[j] == k);
            }
            if k == random_nums@[i - 1] {
                assert(after[i - 1] == k);
            }
        }
    }
    assert(random_nums@.subrange(0, random_nums@.len() as int) =~= random_nums@);
    results
}

/// Sets the URL of every record to the delay URL of its key; the other fields
/// stay as they were.
pub fn add_urls_to_results(results: &mut KeyMap<JobRecord>)
    ensures
        forall|k: i32| #[trigger] final(results)@.contains_key(k) <==> old(results)@.contains_key(k),
        forall|k: i32| #[trigger] final(results)@.contains_key(k) ==> {
            &&& final(results)@[k].url@ == delay_url_text(k as int)
            &&& final(results)@[k].time_taken@ == old(results)@[k].time_taken@
            &&& final(results)@[k].amz_id@ == old(results)@[k].amz_id@
        },
{
    let ghost orig = *results;
    proof {
        orig.lemma_ascending();
    }
    let n = results.len();
    let mut i: usize = 0;
    while i < n
        invariant
            n == orig.seq().len(),
            i <= n,
            results.seq().len() == n,
            forall|j: int| 0 <= j < n ==> (#[trigger] results.seq()[j]).0 == orig.seq()[j].0,
            forall|k: i32| #[trigger] results@.contains_key(k) <==> orig@.contains_key(k),
            forall|j: int| 0 <= j < i ==> {
                let k = (#[trigger] orig.seq()[j]).0;
                &&& results@[k].url@ == delay_url_text(k as int)
                &&& results@[k].time_taken@ == orig@[k].time_taken@
                &&& results@[k].amz_id@ == orig@[k].amz_id@
            },
            forall|j: int| i <= j < n ==> results@[(#[trigger] orig.seq()[j]).0] == orig@[orig.seq()[j].0],
            keys_ascending(orig.seq()),
        decreases n - i,
    {
        let k = results.key_at(i);
        let record = results.value_at(i);
        let updated = JobRecord {
            url: delay_url(k),
            time_taken: record.time_taken.clone(),
            amz_id: record.amz_id.clone(),
        };
        results.set_value_at(i, updated);
        proof {
            assert forall|j: int| 0 <= j < n && j != i implies orig.seq()[j].0 != k by {
                if j < i {
                    assert(orig.seq()[j].0 < orig.seq()[i as int].0);
                } else {
                    assert(orig.seq()[i as int].0 < orig.seq()[j].0);
                }
            }
        }
        i += 1;
    }
    proof {
        assert forall|k: i32| #[trigger] results@.contains_key(k) implies results@[k].url@ == delay_url_text(k as int)
            && results@[k].time_taken@ == orig@[k].time_taken@ && results@[k].amz_id@ == orig@[k].amz_id@ by {
            let j = choose|j: int| 0 <= j < orig.seq().len() && orig.seq()[j].0 == k;
            assert(orig.seq()[j].0 == k);
        }
    }
}

/// One job per record of the table, in ascending key order, each requesting
/// its record's URL. The keys of the jobs are unique.
pub fn make_jobs(results: &KeyMap<JobRecord>) -> (r: Vec<Job>)
    ensures
        r@.len() == results.seq().len(),
        forall|i: int| 0 <= i < r@.len() ==> (#[trigger] r@[i]).key == results.seq()[i].0
            && r@[i].url@ == results.seq()[i].1.url@,
        keys_unique(job_keys(r@)),
{
    proof {
        results.lemma_ascending();
    }
    let n = results.len();
    let mut jobs: Vec<Job> = Vec::new();
    let mut i: usize = 0;
    while i < n
        invariant
            n == results.seq().len(),
            keys_ascending(results.seq()),
            i <= n,
            jobs@.len() == i,
            forall|j: int| 0 <= j < i ==> (#[trigger] jobs@[j]).key == results.seq()[j].0
                && jobs@[j].url@ == results.seq()[j].1.url@,
        decreases n - i,
    {
        let key = results.key_at(i);
        let url = results.value_at(i).url.clone();
        jobs.push(Job { key, url });
        i += 1;
    }
    assert forall|a: int, b: int| 0 <= a < jobs@.len() && 0 <= b < jobs@.len() && a != b implies
        job_keys(jobs@)[a] != job_keys(jobs@)[b] by {
        if a < b {
            assert(results.seq()[a].0 < results.seq()[b].0);
        } else {
            assert(results.seq()[b].0 < results.seq()[a].0);
        }
    }
    jobs
}

} // verus!
