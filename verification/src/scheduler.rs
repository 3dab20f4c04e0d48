//! The rounds of a crawl: each takes the top batch off the frontier and
//! hands out one job for each of its resources.

use crate::frontier::Frontier;
use rand::Rng;
use vstd::prelude::*;

verus! {

/// One resource to cache and expand, after a delay.
#[derive(Debug, PartialEq, Eq)]
pub struct Job {
    /// How long to wait before the resource is fetched, in milliseconds.
    pub delay_ms: u64,
    pub resource: String,
}

/// What a round brings.
#[derive(Debug, PartialEq, Eq)]
pub enum Round {
    /// The jobs of the batch that was on top. All of them are to be finished
    /// before the next round is planned.
    Dispatch { jobs: Vec<Job> },
    /// The frontier was empty: the crawl is over.
    Finished,
}

/// The resources of the jobs, in order.
pub open spec fn resources_of(jobs: Seq<Job>) -> Seq<Seq<char>> {
    jobs.map_values(|job: Job| job.resource@)
}

/// `Rng::gen_range` on `rand::thread_rng()`, for the range from 0 up to, not
/// including, `bound`: some number of that range. The call panics on an
/// empty range, which `bound > 0` rules out, and where the system gives the
/// generator no seed.
#[verifier::external_body]
fn random_below(bound: u64) -> (n: u64)
    requires
        bound > 0,
    ensures
        n < bound,
{
    rand::thread_rng().gen_range(0..bound)
}

/// One job for each resource of `batch`, each with a delay of its own below
/// `delay_bound_ms`. Below a bound of 0 no delay can be drawn, so with that
/// bound the batch has to be empty.
pub fn jobs_for(batch: Vec<String>, delay_bound_ms: u64) -> (jobs: Vec<Job>)
    requires
        delay_bound_ms > 0 || batch@.len() == 0,
    ensures
        resources_of(jobs@) == batch.deep_view(),
        forall|k: int| 0 <= k < jobs.len() ==> jobs[k].delay_ms < delay_bound_ms,
{
    broadcast use vstd::std_specs::vec::axiom_spec_into_iter;

    let ghost all = batch.deep_view();
    let mut jobs: Vec<Job> = Vec::new();
    for resource in it: batch
        invariant
            delay_bound_ms > 0 || batch@.len() == 0,
            it.seq() == batch@,
            jobs.len() == it.index(),
            forall|k: int| 0 <= k < jobs.len() ==> (#[trigger] jobs[k]).resource == batch@[k],
            forall|k: int| 0 <= k < jobs.len() ==> jobs[k].delay_ms < delay_bound_ms,
    {
        jobs.push(Job { delay_ms: random_below(delay_bound_ms), resource });
    }
    proof {
        assert(resources_of(jobs@) =~= all);
    }
    jobs
}

/// Plans the next round: takes the top batch off the frontier and turns it
/// into jobs. The batch is consumed whole. With an empty frontier the crawl
/// is over. A bound of 0 will do where no delay is drawn: with an empty
/// frontier or an empty top batch.
pub fn plan_round(frontier: &mut Frontier, delay_bound_ms: u64) -> (round: Round)
    requires
        delay_bound_ms > 0 || old(frontier)@.len() == 0 || old(frontier)@.last().len() == 0,
    ensures
        match round {
            Round::Dispatch { jobs } => {
                &&& old(frontier)@.len() > 0
                &&& final(frontier)@ == old(frontier)@.drop_last()
                &&& resources_of(jobs@) == old(frontier)@.last()
                &&& forall|k: int| 0 <= k < jobs.len() ==> jobs[k].delay_ms < delay_bound_ms
            },
            Round::Finished => old(frontier)@.len() == 0 && final(frontier)@ == old(frontier)@,
        },
{
    match frontier.pop() {
        Some(batch) => Round::Dispatch { jobs: jobs_for(batch, delay_bound_ms) },
        None => Round::Finished,
    }
}

} // verus!
