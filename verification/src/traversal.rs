//! The crawl as a whole, among faithful surroundings: which rounds follow on
//! each other, when they come to an end, and what the cache folder holds
//! then.
//!
//! A round takes the top batch off the frontier. Its jobs end in some order
//! of their own, and each puts the links of its resource on the frontier, be
//! the resource cached already or not. So a resource that is linked on two
//! ways is expanded twice, and a crawl through pages that link in a circle
//! does not end. What is proved here is proved of webs without circles.

use crate::crawler::{entry_for, entry_path, url_of, Step};
use crate::entry::lines_of;
use crate::model::{ensure_cached, lemma_entry_path_injective, Web, World};
use crate::web_data_processing::resource_in;
use vstd::prelude::*;

verus! {

/// The cache folder and the frontier.
pub struct Crawl {
    /// The text of each cache entry, by its path.
    pub entries: Map<Seq<char>, Seq<char>>,
    /// The batches that wait, the top one last.
    pub frontier: Seq<Seq<Seq<char>>>,
}

/// The links of the page of `id`, as its cache entry gives them back.
pub open spec fn links_of(web: Web, id: Seq<char>) -> Seq<Seq<char>> {
    lines_of(entry_for(web[url_of(id)].1))
}

/// One job from start to end: the resource is cached, and the lines of its
/// entry become the top batch. A job that fails leaves the frontier alone.
pub open spec fn after_job(crawl: Crawl, web: Web, id: Seq<char>) -> Crawl {
    let (world, end) = ensure_cached(World { entries: crawl.entries, fetches: 0 }, web, id);
    match end {
        Step::Done { outcome: Ok(filed) } => Crawl {
            entries: world.entries,
            frontier: crawl.frontier.push(lines_of(world.entries[entry_path(filed)])),
        },
        _ => Crawl { entries: world.entries, frontier: crawl.frontier },
    }
}

/// The jobs end one after another, in the order of `jobs`.
pub open spec fn after_jobs(crawl: Crawl, web: Web, jobs: Seq<Seq<char>>) -> Crawl
    decreases jobs.len(),
{
    if jobs.len() == 0 {
        crawl
    } else {
        after_job(after_jobs(crawl, web, jobs.drop_last()), web, jobs.last())
    }
}

/// One round: the top batch leaves the frontier, and its jobs end in the
/// order of `finished`.
pub open spec fn round(crawl: Crawl, web: Web, finished: Seq<Seq<char>>) -> Crawl {
    after_jobs(
        Crawl { entries: crawl.entries, frontier: crawl.frontier.drop_last() },
        web,
        finished,
    )
}

/// Whether a round leads from `before` to `after`, its jobs ending in
/// whatever order.
pub open spec fn follows(web: Web, before: Crawl, after: Crawl) -> bool {
    &&& before.frontier.len() > 0
    &&& exists|finished: Seq<Seq<char>>|
        #[trigger] round(before, web, finished) == after && finished.to_multiset()
            == before.frontier.last().to_multiset()
}

/// Whether each crawl of `run` follows on the one before.
pub open spec fn is_run(web: Web, run: Seq<Crawl>) -> bool {
    forall|k: int| 0 <= k < run.len() - 1 ==> follows(web, #[trigger] run[k], run[k + 1])
}

/// The crawl after the seed was cached with nothing cached before: the
/// links of the seed are the one batch of the frontier.
pub open spec fn seeded(web: Web, seed: Seq<char>) -> Crawl {
    after_job(Crawl { entries: Map::empty(), frontier: Seq::empty() }, web, seed)
}

/// Whether `hops` links lead from `from` to `to`.
pub open spec fn reaches_within(web: Web, from: Seq<char>, to: Seq<char>, hops: nat) -> bool
    decreases hops,
{
    if hops == 0 {
        from == to
    } else {
        exists|next: Seq<char>|
            #[trigger] links_of(web, from).contains(next) && reaches_within(
                web,
                next,
                to,
                (hops - 1) as nat,
            )
    }
}

/// Whether links lead from `from` to `to`. Every resource reaches itself.
pub open spec fn reaches(web: Web, from: Seq<char>, to: Seq<char>) -> bool {
    exists|hops: nat| reaches_within(web, from, to, hops)
}

/// Whether the page of `id` can be fetched, is found under its own name, and
/// links only to resources of lower rank.
pub open spec fn well_served(web: Web, rank: spec_fn(Seq<char>) -> nat, id: Seq<char>) -> bool {
    &&& id.len() > 0
    &&& web.contains_key(url_of(id))
    &&& resource_in(web[url_of(id)].0) == id
    &&& forall|k: int|
        0 <= k < links_of(web, id).len() ==> rank(#[trigger] links_of(web, id)[k]) < rank(id)
}

/// Whether every resource that the seed reaches is well served. The ranks
/// fall along every link, so no links lead in a circle.
pub open spec fn tame(web: Web, seed: Seq<char>, rank: spec_fn(Seq<char>) -> nat) -> bool {
    forall|id: Seq<char>| #[trigger] reaches(web, seed, id) ==> well_served(web, rank, id)
}

/// The rounds that those of `items` that rank below `bound` bring with
/// them: one for each, and those of its links.
pub open spec fn load(
    web: Web,
    rank: spec_fn(Seq<char>) -> nat,
    bound: nat,
    items: Seq<Seq<char>>,
) -> nat
    decreases bound, items.len(),
{
    if items.len() == 0 {
        0
    } else {
        let last = items.last();
        load(web, rank, bound, items.drop_last()) + if rank(last) < bound {
            1 + load(web, rank, rank(last), links_of(web, last))
        } else {
            0
        }
    }
}

/// The rounds that `id` brings with it once it stands in a batch: the one in
/// which its links are the batch, and those that its links bring.
pub open spec fn weight(web: Web, rank: spec_fn(Seq<char>) -> nat, id: Seq<char>) -> nat {
    1 + load(web, rank, rank(id), links_of(web, id))
}

/// The rounds that the resources of `batch` bring with them.
pub open spec fn batch_weight(
    web: Web,
    rank: spec_fn(Seq<char>) -> nat,
    batch: Seq<Seq<char>>,
) -> nat
    decreases batch.len(),
{
    if batch.len() == 0 {
        0
    } else {
        batch_weight(web, rank, batch.drop_last()) + weight(web, rank, batch.last())
    }
}

/// The rounds that are still to come with this frontier: one for each batch,
/// and those that its resources bring.
pub open spec fn rounds_left(
    web: Web,
    rank: spec_fn(Seq<char>) -> nat,
    frontier: Seq<Seq<Seq<char>>>,
) -> nat
    decreases frontier.len(),
{
    if frontier.len() == 0 {
        0
    } else {
        rounds_left(web, rank, frontier.drop_last()) + 1 + batch_weight(
            web,
            rank,
            frontier.last(),
        )
    }
}

/// Whether `x` stands in a batch of `frontier`.
pub open spec fn listed(frontier: Seq<Seq<Seq<char>>>, x: Seq<char>) -> bool {
    exists|b: int| 0 <= b < frontier.len() && (#[trigger] frontier[b]).contains(x)
}

/// Whether `x` waits to be expanded: in a batch, or among the jobs at work.
pub open spec fn waits(frontier: Seq<Seq<Seq<char>>>, at_work: Seq<Seq<char>>, x: Seq<char>) -> bool {
    listed(frontier, x) || at_work.contains(x)
}

/// What holds of a crawl from `seed` at every moment, `at_work` being the
/// jobs of the round that have not ended yet: only resources that the seed
/// reaches wait or are cached, each entry is that of its page, and whatever
/// the seed reaches is cached or is reached by a resource that waits.
pub open spec fn sound(web: Web, seed: Seq<char>, crawl: Crawl, at_work: Seq<Seq<char>>) -> bool {
    &&& forall|x: Seq<char>| #[trigger] waits(crawl.frontier, at_work, x) ==> reaches(web, seed, x)
    &&& forall|path: Seq<char>| #[trigger]
        crawl.entries.contains_key(path) ==> exists|id: Seq<char>|
            #[trigger] reaches(web, seed, id) && path == entry_path(id) && crawl.entries[path]
                == entry_for(web[url_of(id)].1)
    &&& forall|id: Seq<char>| #[trigger]
        reaches(web, seed, id) ==> crawl.entries.contains_key(entry_path(id)) || exists|
            x: Seq<char>,
        |
            #[trigger] waits(crawl.frontier, at_work, x) && reaches(web, x, id)
}

pub proof fn lemma_reaches_self(web: Web, a: Seq<char>)
    ensures
        reaches(web, a, a),
{
    assert(reaches_within(web, a, a, 0));
}

proof fn lemma_within_one_more(web: Web, a: Seq<char>, b: Seq<char>, c: Seq<char>, hops: nat)
    requires
        reaches_within(web, a, b, hops),
        links_of(web, b).contains(c),
    ensures
        reaches_within(web, a, c, hops + 1),
    decreases hops,
{
    if hops == 0 {
        assert(reaches_within(web, c, c, 0));
    } else {
        let next = choose|next: Seq<char>|
            #[trigger] links_of(web, a).contains(next) && reaches_within(
                web,
                next,
                b,
                (hops - 1) as nat,
            );
        lemma_within_one_more(web, next, b, c, (hops - 1) as nat);
    }
}

/// Who reaches `b` reaches the links of `b`.
pub proof fn lemma_reaches_one_more(web: Web, a: Seq<char>, b: Seq<char>, c: Seq<char>)
    requires
        reaches(web, a, b),
        links_of(web, b).contains(c),
    ensures
        reaches(web, a, c),
{
    let hops = choose|hops: nat| reaches_within(web, a, b, hops);
    lemma_within_one_more(web, a, b, c, hops);
}

/// Who reaches another does so by one of its links.
pub proof fn lemma_reaches_through(web: Web, a: Seq<char>, b: Seq<char>) -> (c: Seq<char>)
    requires
        reaches(web, a, b),
        a != b,
    ensures
        links_of(web, a).contains(c),
        reaches(web, c, b),
{
    let hops = choose|hops: nat| reaches_within(web, a, b, hops);
    let next = choose|next: Seq<char>|
        #[trigger] links_of(web, a).contains(next) && reaches_within(
            web,
            next,
            b,
            (hops - 1) as nat,
        );
    next
}

proof fn lemma_listed_push(frontier: Seq<Seq<Seq<char>>>, batch: Seq<Seq<char>>, x: Seq<char>)
    ensures
        listed(frontier.push(batch), x) <==> listed(frontier, x) || batch.contains(x),
{
    let longer = frontier.push(batch);
    if listed(frontier, x) {
        let b = choose|b: int| 0 <= b < frontier.len() && (#[trigger] frontier[b]).contains(x);
        assert(longer[b].contains(x));
    }
    if batch.contains(x) {
        assert(longer[frontier.len() as int].contains(x));
    }
    if listed(longer, x) {
        let b = choose|b: int| 0 <= b < longer.len() && (#[trigger] longer[b]).contains(x);
        if b < frontier.len() {
            assert(frontier[b].contains(x));
        }
    }
}

proof fn lemma_listed_pop(frontier: Seq<Seq<Seq<char>>>, x: Seq<char>)
    requires
        frontier.len() > 0,
    ensures
        listed(frontier, x) <==> listed(frontier.drop_last(), x) || frontier.last().contains(x),
{
    assert(frontier =~= frontier.drop_last().push(frontier.last()));
    lemma_listed_push(frontier.drop_last(), frontier.last(), x);
}

/// Where all of `items` rank below `bound`, each of them counts.
proof fn lemma_load_is_weight(
    web: Web,
    rank: spec_fn(Seq<char>) -> nat,
    bound: nat,
    items: Seq<Seq<char>>,
)
    requires
        forall|k: int| 0 <= k < items.len() ==> rank(#[trigger] items[k]) < bound,
    ensures
        load(web, rank, bound, items) == batch_weight(web, rank, items),
    decreases items.len(),
{
    if items.len() > 0 {
        assert(rank(items[items.len() - 1]) < bound);
        assert forall|k: int| 0 <= k < items.drop_last().len() implies rank(
            #[trigger] items.drop_last()[k],
        ) < bound by {
            assert(items.drop_last()[k] == items[k]);
        }
        lemma_load_is_weight(web, rank, bound, items.drop_last());
    }
}

/// A well served resource brings one round and those of its links.
proof fn lemma_weight(web: Web, rank: spec_fn(Seq<char>) -> nat, id: Seq<char>)
    requires
        well_served(web, rank, id),
    ensures
        weight(web, rank, id) == 1 + batch_weight(web, rank, links_of(web, id)),
{
    lemma_load_is_weight(web, rank, rank(id), links_of(web, id));
}

proof fn lemma_batch_weight_remove(
    web: Web,
    rank: spec_fn(Seq<char>) -> nat,
    batch: Seq<Seq<char>>,
    at: int,
)
    requires
        0 <= at < batch.len(),
    ensures
        batch_weight(web, rank, batch) == batch_weight(web, rank, batch.remove(at)) + weight(
            web,
            rank,
            batch[at],
        ),
    decreases batch.len(),
{
    if at == batch.len() - 1 {
        assert(batch.remove(at) =~= batch.drop_last());
    } else {
        lemma_batch_weight_remove(web, rank, batch.drop_last(), at);
        assert(batch.remove(at).drop_last() =~= batch.drop_last().remove(at));
        assert(batch.remove(at).last() == batch.last());
    }
}

/// The order of a batch does not change what its resources bring.
proof fn lemma_batch_weight_any_order(
    web: Web,
    rank: spec_fn(Seq<char>) -> nat,
    a: Seq<Seq<char>>,
    b: Seq<Seq<char>>,
)
    requires
        a.to_multiset() == b.to_multiset(),
    ensures
        batch_weight(web, rank, a) == batch_weight(web, rank, b),
    decreases a.len(),
{
    a.to_multiset_ensures();
    b.to_multiset_ensures();
    if a.len() == 0 {
        assert(b.len() == 0);
    } else {
        let x = a.last();
        assert(a.contains(x));
        assert(b.to_multiset().count(x) > 0);
        assert(b.contains(x));
        let at = choose|at: int| 0 <= at < b.len() && b[at] == x;
        assert(a.remove(a.len() - 1) =~= a.drop_last());
        assert(a.drop_last().to_multiset() =~= b.remove(at).to_multiset());
        lemma_batch_weight_any_order(web, rank, a.drop_last(), b.remove(at));
        lemma_batch_weight_remove(web, rank, b, at);
    }
}

/// A batch in another order holds the same resources.
proof fn lemma_same_members(a: Seq<Seq<char>>, b: Seq<Seq<char>>, x: Seq<char>)
    requires
        a.to_multiset() == b.to_multiset(),
    ensures
        a.contains(x) <==> b.contains(x),
{
    a.to_multiset_ensures();
    b.to_multiset_ensures();
    assert(a.contains(x) <==> a.to_multiset().count(x) > 0);
    assert(b.contains(x) <==> b.to_multiset().count(x) > 0);
}

/// The job of a well served resource that the seed reaches: its entry is
/// there afterwards, its links are the new top batch, and the crawl stays
/// sound.
proof fn lemma_job(
    web: Web,
    seed: Seq<char>,
    rank: spec_fn(Seq<char>) -> nat,
    crawl: Crawl,
    x: Seq<char>,
    later: Seq<Seq<char>>,
)
    requires
        tame(web, seed, rank),
        sound(web, seed, crawl, seq![x] + later),
    ensures
        sound(web, seed, after_job(crawl, web, x), later),
        after_job(crawl, web, x).frontier == crawl.frontier.push(links_of(web, x)),
        rounds_left(web, rank, after_job(crawl, web, x).frontier) == rounds_left(
            web,
            rank,
            crawl.frontier,
        ) + weight(web, rank, x),
{
    let at_work = seq![x] + later;
    let after = after_job(crawl, web, x);
    let text = entry_for(web[url_of(x)].1);
    assert(at_work[0] == x);
    assert(at_work.contains(x));
    assert(waits(crawl.frontier, at_work, x));
    assert(reaches(web, seed, x));
    assert(well_served(web, rank, x));
    if crawl.entries.contains_key(entry_path(x)) {
        let id = choose|id: Seq<char>|
            #[trigger] reaches(web, seed, id) && entry_path(x) == entry_path(id)
                && crawl.entries[entry_path(x)] == entry_for(web[url_of(id)].1);
        lemma_entry_path_injective(x, id);
    }
    assert(after.entries == crawl.entries.insert(entry_path(x), text));
    assert(after.frontier == crawl.frontier.push(links_of(web, x)));
    assert(after.frontier.drop_last() =~= crawl.frontier);
    lemma_weight(web, rank, x);

    assert forall|y: Seq<char>| #[trigger] waits(after.frontier, later, y) implies reaches(
        web,
        seed,
        y,
    ) by {
        lemma_listed_push(crawl.frontier, links_of(web, x), y);
        if listed(crawl.frontier, y) {
            assert(waits(crawl.frontier, at_work, y));
        } else if later.contains(y) {
            let k = choose|k: int| 0 <= k < later.len() && later[k] == y;
            assert(at_work[k + 1] == y);
            assert(waits(crawl.frontier, at_work, y));
        } else {
            lemma_reaches_one_more(web, seed, x, y);
        }
    }
    assert forall|path: Seq<char>| #[trigger] after.entries.contains_key(path) implies exists|
        id: Seq<char>,
    |
        #[trigger] reaches(web, seed, id) && path == entry_path(id) && after.entries[path]
            == entry_for(web[url_of(id)].1) by {
        if path == entry_path(x) {
            assert(reaches(web, seed, x) && path == entry_path(x) && after.entries[path]
                == entry_for(web[url_of(x)].1));
        } else {
            assert(crawl.entries.contains_key(path));
            let id = choose|id: Seq<char>|
                #[trigger] reaches(web, seed, id) && path == entry_path(id)
                    && crawl.entries[path] == entry_for(web[url_of(id)].1);
            assert(reaches(web, seed, id) && path == entry_path(id) && after.entries[path]
                == entry_for(web[url_of(id)].1));
        }
    }
    assert forall|id: Seq<char>| #[trigger] reaches(web, seed, id) implies after.entries.contains_key(
        entry_path(id),
    ) || exists|y: Seq<char>| #[trigger]
        waits(after.frontier, later, y) && reaches(web, y, id) by {
        if !after.entries.contains_key(entry_path(id)) {
            assert(!crawl.entries.contains_key(entry_path(id)));
            let y = choose|y: Seq<char>| #[trigger]
                waits(crawl.frontier, at_work, y) && reaches(web, y, id);
            lemma_listed_push(crawl.frontier, links_of(web, x), y);
            if listed(crawl.frontier, y) {
                assert(waits(after.frontier, later, y) && reaches(web, y, id));
            } else {
                let k = choose|k: int| 0 <= k < at_work.len() && at_work[k] == y;
                if k > 0 {
                    assert(later[k - 1] == y);
                    assert(later.contains(y));
                    assert(waits(after.frontier, later, y) && reaches(web, y, id));
                } else {
                    assert(y == x);
                    assert(id != x);
                    let c = lemma_reaches_through(web, x, id);
                    lemma_listed_push(crawl.frontier, links_of(web, x), c);
                    assert(waits(after.frontier, later, c) && reaches(web, c, id));
                }
            }
        }
    }
}

/// The jobs of well served resources that the seed reaches, one after
/// another.
proof fn lemma_jobs(
    web: Web,
    seed: Seq<char>,
    rank: spec_fn(Seq<char>) -> nat,
    crawl: Crawl,
    jobs: Seq<Seq<char>>,
    later: Seq<Seq<char>>,
)
    requires
        tame(web, seed, rank),
        sound(web, seed, crawl, jobs + later),
    ensures
        sound(web, seed, after_jobs(crawl, web, jobs), later),
        rounds_left(web, rank, after_jobs(crawl, web, jobs).frontier) == rounds_left(
            web,
            rank,
            crawl.frontier,
        ) + batch_weight(web, rank, jobs),
    decreases jobs.len(),
{
    if jobs.len() == 0 {
        assert(jobs + later =~= later);
    } else {
        let x = jobs.last();
        assert(jobs.drop_last() + (seq![x] + later) =~= jobs + later);
        lemma_jobs(web, seed, rank, crawl, jobs.drop_last(), seq![x] + later);
        lemma_job(web, seed, rank, after_jobs(crawl, web, jobs.drop_last()), x, later);
    }
}

/// A round of a sound crawl leaves it sound, and one round less is to come.
proof fn lemma_round(
    web: Web,
    seed: Seq<char>,
    rank: spec_fn(Seq<char>) -> nat,
    crawl: Crawl,
    finished: Seq<Seq<char>>,
)
    requires
        tame(web, seed, rank),
        sound(web, seed, crawl, Seq::empty()),
        crawl.frontier.len() > 0,
        finished.to_multiset() == crawl.frontier.last().to_multiset(),
    ensures
        sound(web, seed, round(crawl, web, finished), Seq::empty()),
        rounds_left(web, rank, round(crawl, web, finished).frontier) + 1 == rounds_left(
            web,
            rank,
            crawl.frontier,
        ),
{
    let nothing = Seq::<Seq<char>>::empty();
    let popped = Crawl { entries: crawl.entries, frontier: crawl.frontier.drop_last() };
    let at_work = finished + nothing;
    assert(at_work =~= finished);
    assert forall|x: Seq<char>|
        waits(popped.frontier, at_work, x) <==> waits(crawl.frontier, nothing, x) by {
        lemma_listed_pop(crawl.frontier, x);
        lemma_same_members(finished, crawl.frontier.last(), x);
    }
    assert(sound(web, seed, popped, at_work)) by {
        assert forall|id: Seq<char>| #[trigger] reaches(web, seed, id) implies popped.entries.contains_key(
            entry_path(id),
        ) || exists|y: Seq<char>| #[trigger]
            waits(popped.frontier, at_work, y) && reaches(web, y, id) by {
            if !crawl.entries.contains_key(entry_path(id)) {
                let y = choose|y: Seq<char>| #[trigger]
                    waits(crawl.frontier, nothing, y) && reaches(web, y, id);
                assert(waits(popped.frontier, at_work, y) && reaches(web, y, id));
            }
        }
    }
    lemma_jobs(web, seed, rank, popped, finished, nothing);
    lemma_batch_weight_any_order(web, rank, finished, crawl.frontier.last());
}

/// The crawl is sound once the seed is cached.
proof fn lemma_seeded(web: Web, seed: Seq<char>, rank: spec_fn(Seq<char>) -> nat)
    requires
        tame(web, seed, rank),
    ensures
        sound(web, seed, seeded(web, seed), Seq::empty()),
        rounds_left(web, rank, seeded(web, seed).frontier) == weight(web, rank, seed),
{
    let nothing = Seq::<Seq<char>>::empty();
    let blank = Crawl { entries: Map::empty(), frontier: Seq::empty() };
    let at_work = seq![seed] + nothing;
    lemma_reaches_self(web, seed);
    assert(sound(web, seed, blank, at_work)) by {
        assert forall|x: Seq<char>| #[trigger] waits(blank.frontier, at_work, x) implies reaches(
            web,
            seed,
            x,
        ) by {
            assert(!listed(blank.frontier, x));
            let k = choose|k: int| 0 <= k < at_work.len() && at_work[k] == x;
            assert(x == seed);
        }
        assert forall|id: Seq<char>| #[trigger] reaches(web, seed, id) implies blank.entries.contains_key(
            entry_path(id),
        ) || exists|y: Seq<char>| #[trigger]
            waits(blank.frontier, at_work, y) && reaches(web, y, id) by {
            assert(at_work[0] == seed);
            assert(at_work.contains(seed));
            assert(waits(blank.frontier, at_work, seed) && reaches(web, seed, id));
        }
    }
    lemma_job(web, seed, rank, blank, seed, nothing);
    assert(rounds_left(web, rank, blank.frontier) == 0);
}

/// What holds of every run of rounds from the seed, in a web where every
/// resource that the seed reaches is well served: the run is sound, and the
/// rounds done and the rounds to come add up to the weight of the seed.
proof fn lemma_run(web: Web, seed: Seq<char>, rank: spec_fn(Seq<char>) -> nat, run: Seq<Crawl>)
    requires
        tame(web, seed, rank),
        run.len() > 0,
        run[0] == seeded(web, seed),
        is_run(web, run),
    ensures
        sound(web, seed, run.last(), Seq::empty()),
        rounds_left(web, rank, run.last().frontier) + run.len() == weight(web, rank, seed) + 1,
    decreases run.len(),
{
    if run.len() == 1 {
        lemma_seeded(web, seed, rank);
    } else {
        let shorter = run.drop_last();
        assert forall|k: int| 0 <= k < shorter.len() - 1 implies follows(
            web,
            #[trigger] shorter[k],
            shorter[k + 1],
        ) by {
            assert(follows(web, run[k], run[k + 1]));
        }
        lemma_run(web, seed, rank, shorter);
        let before = run[run.len() - 2];
        assert(before == shorter.last());
        assert(follows(web, before, run[run.len() - 2 + 1]));
        let finished = choose|finished: Seq<Seq<char>>|
            #[trigger] round(before, web, finished) == run.last() && finished.to_multiset()
                == before.frontier.last().to_multiset();
        lemma_round(web, seed, rank, before, finished);
    }
}

/// The crawl comes to an end, and the cache folder then holds the resources
/// that the seed reaches and no others.
///
/// This is said of a crawl that starts with nothing cached, in a web where
/// every resource that the seed reaches can be fetched, is found under its
/// own name, and links only to resources of lower rank. Then every run of
/// rounds from the seed is shorter than a bound that the web gives: the
/// weight of the seed. A run has that many rounds exactly when its frontier
/// is empty. And with an empty frontier a path is that of a cache entry
/// exactly when it is the path of a resource that the seed reaches.
pub proof fn lemma_crawl_ends(
    web: Web,
    seed: Seq<char>,
    rank: spec_fn(Seq<char>) -> nat,
    run: Seq<Crawl>,
)
    requires
        tame(web, seed, rank),
        run.len() > 0,
        run[0] == seeded(web, seed),
        is_run(web, run),
    ensures
        run.len() <= weight(web, rank, seed) + 1,
        run.last().frontier.len() == 0 <==> run.len() == weight(web, rank, seed) + 1,
        run.last().frontier.len() == 0 ==> forall|path: Seq<char>|
            run.last().entries.contains_key(path) <==> exists|id: Seq<char>|
                #[trigger] reaches(web, seed, id) && path == entry_path(id),
{
    let nothing = Seq::<Seq<char>>::empty();
    let last = run.last();
    lemma_run(web, seed, rank, run);
    if last.frontier.len() == 0 {
        assert forall|path: Seq<char>|
            last.entries.contains_key(path) <==> exists|id: Seq<char>|
                #[trigger] reaches(web, seed, id) && path == entry_path(id) by {
            if last.entries.contains_key(path) {
                let id = choose|id: Seq<char>|
                    #[trigger] reaches(web, seed, id) && path == entry_path(id)
                        && last.entries[path] == entry_for(web[url_of(id)].1);
                assert(reaches(web, seed, id) && path == entry_path(id));
            }
            if exists|id: Seq<char>| #[trigger] reaches(web, seed, id) && path == entry_path(id) {
                let id = choose|id: Seq<char>|
                    #[trigger] reaches(web, seed, id) && path == entry_path(id);
                if !last.entries.contains_key(entry_path(id)) {
                    let y = choose|y: Seq<char>| #[trigger]
                        waits(last.frontier, nothing, y) && reaches(web, y, id);
                    assert(!listed(last.frontier, y));
                    assert(!nothing.contains(y));
                }
            }
        }
    }
}

} // verus!
