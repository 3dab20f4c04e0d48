//! Cache tasks among faithful surroundings: a cache folder that creates an
//! entry for the first that asks and for no other, and a web that gives the
//! same page whenever it is asked. What holds of one caller, of one caller
//! twice, and of many callers at once.

use crate::crawler::{entry_for, entry_path, next_step, path_of, pending, url_of, Action,
    CrawlError, Event, Step};
use crate::web_data_processing::resource_in;
use vstd::prelude::*;

verus! {

/// The pages that can be fetched: for each address the final address that
/// the fetch ends at and the text of the page. An address that is no key
/// cannot be fetched.
pub type Web = Map<Seq<char>, (Seq<char>, Seq<char>)>;

/// The cache folder and what was asked of the web so far.
pub struct World {
    /// The text of each cache entry, by its path.
    pub entries: Map<Seq<char>, Seq<char>>,
    /// How many pages were fetched.
    pub fetches: nat,
}

/// A task at `step` gets what it asks for: the world after that, and where
/// the task then stands. Reading and writing never fail here, and an entry
/// is created only where none exists.
pub open spec fn advance(world: World, web: Web, step: Step<Seq<char>>) -> (World, Step<Seq<char>>) {
    match pending(step) {
        Action::CheckEntry { path } => if world.entries.contains_key(path) {
            (world, next_step(step, Event::EntryFound))
        } else {
            (world, next_step(step, Event::EntryMissing))
        },
        Action::Fetch { url } => {
            let asked = World { entries: world.entries, fetches: world.fetches + 1 };
            if web.contains_key(url) {
                (asked, next_step(step, Event::Fetched { final_url: web[url].0, body: web[url].1 }))
            } else {
                (asked, next_step(step, Event::FetchFailed))
            }
        },
        Action::CreateEntry { path, text } => if world.entries.contains_key(path) {
            (world, next_step(step, Event::AlreadyExists))
        } else {
            (
                World { entries: world.entries.insert(path, text), fetches: world.fetches },
                next_step(step, Event::Created),
            )
        },
        Action::RewriteEntry { path, text } => (
            World { entries: world.entries.insert(path, text), fetches: world.fetches },
            next_step(step, Event::Rewritten),
        ),
        Action::Finish { .. } => (world, step),
    }
}

/// One caller from start to end, which three answers bring about: the world
/// after the call and where the caller stands.
pub open spec fn ensure_cached(world: World, web: Web, id: Seq<char>) -> (World, Step<Seq<char>>) {
    let looked = advance(world, web, Step::Lookup { id });
    let fetched = advance(looked.0, web, looked.1);
    advance(fetched.0, web, fetched.1)
}

/// A caller that has ended with `outcome`.
pub open spec fn ended(outcome: Result<Seq<char>, CrawlError>) -> Step<Seq<char>> {
    Step::Done { outcome }
}

/// Several callers and the world that they share.
pub struct Crowd {
    pub world: World,
    pub tasks: Seq<Step<Seq<char>>>,
}

/// The caller `who` gets what it asks for; no other moves.
pub open spec fn turn(crowd: Crowd, web: Web, who: int) -> Crowd {
    if 0 <= who < crowd.tasks.len() {
        let moved = advance(crowd.world, web, crowd.tasks[who]);
        Crowd { world: moved.0, tasks: crowd.tasks.update(who, moved.1) }
    } else {
        crowd
    }
}

/// The callers move one at a time, in the order of `schedule`.
pub open spec fn run(crowd: Crowd, web: Web, schedule: Seq<int>) -> Crowd
    decreases schedule.len(),
{
    if schedule.len() == 0 {
        crowd
    } else {
        turn(run(crowd, web, schedule.drop_last()), web, schedule.last())
    }
}

/// How often `who` moves in `schedule`.
pub open spec fn turns_of(schedule: Seq<int>, who: int) -> nat
    decreases schedule.len(),
{
    if schedule.len() == 0 {
        0
    } else if schedule.last() == who {
        turns_of(schedule.drop_last(), who) + 1
    } else {
        turns_of(schedule.drop_last(), who)
    }
}

/// `n` callers that all set out for `id`.
pub open spec fn callers(world: World, id: Seq<char>, n: nat) -> Crowd {
    Crowd { world, tasks: Seq::new(n, |i: int| Step::Lookup { id }) }
}

/// Different resources have different entries.
pub proof fn lemma_entry_path_injective(a: Seq<char>, b: Seq<char>)
    requires
        entry_path(a) == entry_path(b),
    ensures
        a == b,
{
    lemma_path_of_injective("data"@, a, b);
}

/// In one folder, different resources have different paths.
pub proof fn lemma_path_of_injective(folder: Seq<char>, a: Seq<char>, b: Seq<char>)
    requires
        path_of(folder, a) == path_of(folder, b),
    ensures
        a == b,
{
    let head = folder + "/"@;
    assert((head + a).skip(head.len() as int) =~= a);
    assert((head + b).skip(head.len() as int) =~= b);
}

/// A call ends. Where it succeeds it leaves an entry under the identifier it
/// returns. No call takes an entry away or changes one, and none fetches
/// more than one page.
pub proof fn lemma_ensure_cached(world: World, web: Web, id: Seq<char>)
    ensures
        ({
            let (after, end) = ensure_cached(world, web, id);
            &&& end is Done
            &&& end->outcome matches Ok(filed) ==> after.entries.contains_key(entry_path(filed))
            &&& world.entries.submap_of(after.entries)
            &&& world.fetches <= after.fetches <= world.fetches + 1
        }),
{
}

/// A resource that has its entry is not fetched again: the call returns the
/// identifier it was given and changes nothing.
pub proof fn lemma_cached_is_left_alone(world: World, web: Web, id: Seq<char>)
    requires
        world.entries.contains_key(entry_path(id)),
    ensures
        ensure_cached(world, web, id) == (world, ended(Ok(id))),
{
}

/// After a call that succeeded, a call for the identifier it returned
/// fetches nothing, changes no entry and returns the same identifier.
pub proof fn lemma_second_call_is_idle(world: World, web: Web, id: Seq<char>)
    ensures
        ({
            let (first, end) = ensure_cached(world, web, id);
            end matches Step::Done { outcome: Ok(filed) } ==> ensure_cached(first, web, filed)
                == (first, ended(Ok(filed)))
        }),
{
    let (first, end) = ensure_cached(world, web, id);
    lemma_ensure_cached(world, web, id);
    if let Step::Done { outcome: Ok(filed) } = end {
        lemma_cached_is_left_alone(first, web, filed);
    }
}

/// Two calls for a resource that is not cached yet, that can be fetched and
/// whose page is found under its own name: both succeed, the page is fetched
/// once, and the second call leaves the entry of the first as it is.
pub proof fn lemma_twice_fetches_once(world: World, web: Web, id: Seq<char>)
    requires
        !world.entries.contains_key(entry_path(id)),
        web.contains_key(url_of(id)),
        resource_in(web[url_of(id)].0) == id,
        id.len() > 0,
    ensures
        ({
            let (first, end1) = ensure_cached(world, web, id);
            let (second, end2) = ensure_cached(first, web, id);
            &&& end1 == ended(Ok(id))
            &&& end2 == ended(Ok(id))
            &&& second.fetches == world.fetches + 1
            &&& first.entries == world.entries.insert(
                entry_path(id),
                entry_for(web[url_of(id)].1),
            )
            &&& second.entries == first.entries
        }),
{
}

/// A page that is fetched is filed under the identifier that its final
/// address names, whatever identifier was asked for. Under the identifier
/// that was asked for nothing is filed, unless it is the same.
pub proof fn lemma_filed_under_canonical(world: World, web: Web, id: Seq<char>)
    requires
        !world.entries.contains_key(entry_path(id)),
        web.contains_key(url_of(id)),
        resource_in(web[url_of(id)].0).len() > 0,
    ensures
        ({
            let canonical = resource_in(web[url_of(id)].0);
            let (after, end) = ensure_cached(world, web, id);
            &&& end == ended(Ok(canonical))
            &&& after.entries.contains_key(entry_path(canonical))
            &&& !world.entries.contains_key(entry_path(canonical)) ==> after.entries
                == world.entries.insert(entry_path(canonical), entry_for(web[url_of(id)].1))
            &&& canonical != id ==> !after.entries.contains_key(entry_path(id))
        }),
{
    let canonical = resource_in(web[url_of(id)].0);
    if canonical != id && entry_path(canonical) == entry_path(id) {
        lemma_entry_path_injective(canonical, id);
    }
}

/// A page whose final address names no resource is not filed at all.
pub proof fn lemma_unresolved_is_not_filed(world: World, web: Web, id: Seq<char>)
    requires
        !world.entries.contains_key(entry_path(id)),
        web.contains_key(url_of(id)),
        resource_in(web[url_of(id)].0).len() == 0,
    ensures
        ensure_cached(world, web, id) == (
            World { entries: world.entries, fetches: world.fetches + 1 },
            ended(Err(CrawlError::Resolution)),
        ),
{
}

/// A page that cannot be fetched leaves no entry.
pub proof fn lemma_unfetched_is_not_filed(world: World, web: Web, id: Seq<char>)
    requires
        !world.entries.contains_key(entry_path(id)),
        !web.contains_key(url_of(id)),
    ensures
        ensure_cached(world, web, id) == (
            World { entries: world.entries, fetches: world.fetches + 1 },
            ended(Err(CrawlError::Transport)),
        ),
{
}

/// How far a caller has come, counted in the answers it has had.
pub open spec fn stage(step: Step<Seq<char>>) -> nat {
    match step {
        Step::Lookup { .. } => 0,
        Step::Fetching { .. } => 1,
        Step::Creating { .. } => 2,
        Step::Rewriting { .. } => 2,
        Step::Done { .. } => 3,
    }
}

/// What holds of callers that set out together for one resource that is not
/// cached, at every moment.
pub open spec fn racing(
    base: World,
    id: Seq<char>,
    canonical: Seq<char>,
    text: Seq<char>,
    crowd: Crowd,
) -> bool {
    let filed = base.entries.insert(entry_path(canonical), text);
    &&& crowd.world.entries == base.entries || crowd.world.entries == filed
    &&& forall|i: int|
        0 <= i < crowd.tasks.len() ==> {
            let task = #[trigger] crowd.tasks[i];
            &&& task == (Step::Lookup { id }) || task == (Step::Fetching { id }) || task == (
            Step::Creating { id: canonical, text }) || task == ended(Ok(canonical))
            &&& task is Done ==> crowd.world.entries == filed
        }
}

/// Any number of callers set out at once for a resource that nobody has
/// cached yet and whose page can be fetched. However their steps fall among
/// each other, at most one entry comes about, the one of the page; each
/// caller that has ended has succeeded and finds the entry there; and three
/// answers end a caller.
pub proof fn lemma_race(world: World, web: Web, id: Seq<char>, n: nat, schedule: Seq<int>)
    requires
        web.contains_key(url_of(id)),
        resource_in(web[url_of(id)].0).len() > 0,
        !world.entries.contains_key(entry_path(id)),
        !world.entries.contains_key(entry_path(resource_in(web[url_of(id)].0))),
    ensures
        ({
            let canonical = resource_in(web[url_of(id)].0);
            let filed = world.entries.insert(entry_path(canonical), entry_for(web[url_of(id)].1));
            let end = run(callers(world, id, n), web, schedule);
            &&& end.tasks.len() == n
            &&& end.world.entries == world.entries || end.world.entries == filed
            &&& forall|i: int|
                0 <= i < n && (#[trigger] end.tasks[i]) is Done ==> end.tasks[i] == ended(
                    Ok(canonical),
                ) && end.world.entries == filed
            &&& forall|i: int|
                0 <= i < n && turns_of(schedule, i) >= 3 ==> (#[trigger] end.tasks[i]) is Done
        }),
    decreases schedule.len(),
{
    let canonical = resource_in(web[url_of(id)].0);
    let text = entry_for(web[url_of(id)].1);
    lemma_race_holds(world, web, id, n, schedule);
    let end = run(callers(world, id, n), web, schedule);
    assert(racing(world, id, canonical, text, end));
}

/// The conditions of a race hold after every schedule, and each caller is as
/// far as its turns have brought it.
proof fn lemma_race_holds(world: World, web: Web, id: Seq<char>, n: nat, schedule: Seq<int>)
    requires
        web.contains_key(url_of(id)),
        resource_in(web[url_of(id)].0).len() > 0,
        !world.entries.contains_key(entry_path(id)),
        !world.entries.contains_key(entry_path(resource_in(web[url_of(id)].0))),
    ensures
        ({
            let canonical = resource_in(web[url_of(id)].0);
            let end = run(callers(world, id, n), web, schedule);
            &&& end.tasks.len() == n
            &&& racing(world, id, canonical, entry_for(web[url_of(id)].1), end)
            &&& forall|i: int|
                0 <= i < n ==> stage(#[trigger] end.tasks[i]) >= turns_of(schedule, i)
                    || end.tasks[i] is Done
        }),
    decreases schedule.len(),
{
    let canonical = resource_in(web[url_of(id)].0);
    let text = entry_for(web[url_of(id)].1);
    if schedule.len() > 0 {
        let who = schedule.last();
        let before = run(callers(world, id, n), web, schedule.drop_last());
        lemma_race_holds(world, web, id, n, schedule.drop_last());
        let end = turn(before, web, who);
        if 0 <= who < n {
            if canonical != id && entry_path(canonical) == entry_path(id) {
                lemma_entry_path_injective(canonical, id);
            }
            let task = before.tasks[who];
            assert(racing(world, id, canonical, text, end)) by {
                assert forall|i: int| 0 <= i < end.tasks.len() implies {
                    let t = #[trigger] end.tasks[i];
                    &&& t == (Step::Lookup { id }) || t == (Step::Fetching { id }) || t == (
                    Step::Creating { id: canonical, text }) || t == ended(Ok(canonical))
                    &&& t is Done ==> end.world.entries == world.entries.insert(
                        entry_path(canonical),
                        text,
                    )
                } by {
                    if i != who {
                        assert(end.tasks[i] == before.tasks[i]);
                    }
                }
            }
        }
    }
}

} // verus!
