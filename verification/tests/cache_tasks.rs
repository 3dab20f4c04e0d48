use std::collections::HashMap;
use wiki_crawler::crawler::{
    get_filepath_from_resource, get_url_from_resource, CacheAction, CacheEvent, CacheTask,
    CrawlError,
};
use wiki_crawler::entry::split_lines;
use wiki_crawler::frontier::Frontier;
use wiki_crawler::scheduler::{plan_round, Round};

fn strings(items: &[&str]) -> Vec<String> {
    items.iter().map(|s| s.to_string()).collect()
}

fn fetched(final_resource: &str, body: &str) -> CacheEvent {
    CacheEvent::Fetched { final_url: get_url_from_resource(final_resource), body: body.to_string() }
}

/// A cache folder and a web that are held in memory.
struct Surroundings {
    entries: HashMap<String, String>,
    pages: HashMap<String, (String, String)>,
    fetches: usize,
}

impl Surroundings {
    fn new() -> Surroundings {
        Surroundings { entries: HashMap::new(), pages: HashMap::new(), fetches: 0 }
    }

    fn page(&mut self, resource: &str, found_as: &str, body: &str) {
        self.pages.insert(
            get_url_from_resource(resource),
            (get_url_from_resource(found_as), body.to_string()),
        );
    }

    fn answer(&mut self, action: CacheAction) -> CacheEvent {
        match action {
            CacheAction::CheckEntry { path } => {
                if self.entries.contains_key(&path) {
                    CacheEvent::EntryFound
                } else {
                    CacheEvent::EntryMissing
                }
            }
            CacheAction::Fetch { url } => {
                self.fetches += 1;
                match self.pages.get(&url) {
                    Some((final_url, body)) => {
                        CacheEvent::Fetched { final_url: final_url.clone(), body: body.clone() }
                    }
                    None => CacheEvent::FetchFailed,
                }
            }
            CacheAction::CreateEntry { path, text } => {
                if self.entries.contains_key(&path) {
                    CacheEvent::AlreadyExists
                } else {
                    self.entries.insert(path, text);
                    CacheEvent::Created
                }
            }
            CacheAction::RewriteEntry { path, text } => {
                self.entries.insert(path, text);
                CacheEvent::Rewritten
            }
            CacheAction::Finish { .. } => unreachable!(),
        }
    }

    fn ensure_cached(&mut self, id: &str) -> Result<String, CrawlError> {
        let mut task = CacheTask::start(id);
        loop {
            match task.pending() {
                CacheAction::Finish { outcome } => return outcome,
                action => {
                    let event = self.answer(action);
                    task = task.receive(event);
                }
            }
        }
    }

    fn links(&self, id: &str) -> Option<Vec<String>> {
        self.entries.get(&get_filepath_from_resource("data", id)).map(|text| split_lines(text))
    }

    /// Runs the rounds until the frontier is empty; gives their number.
    fn crawl(&mut self, frontier: &mut Frontier) -> usize {
        let mut rounds = 0;
        loop {
            match plan_round(frontier, 10) {
                Round::Finished => return rounds,
                Round::Dispatch { jobs } => {
                    rounds += 1;
                    for job in jobs {
                        let outcome = match self.ensure_cached(&job.resource) {
                            Ok(filed) => self.links(&filed).ok_or(CrawlError::Io),
                            Err(error) => Err(error),
                        };
                        frontier.absorb(outcome);
                    }
                }
            }
        }
    }
}

#[test]
fn task_asks_first_whether_the_entry_exists() {
    let task = CacheTask::start("JSON");
    assert_eq!(task.pending(), CacheAction::CheckEntry { path: "data/JSON".to_string() });
    assert_eq!(task.outcome(), None);
}

#[test]
fn task_ends_at_once_where_the_entry_exists() {
    let task = CacheTask::start("JSON").receive(CacheEvent::EntryFound);
    assert_eq!(task.pending(), CacheAction::Finish { outcome: Ok("JSON".to_string()) });
    assert_eq!(task.outcome(), Some(Ok("JSON".to_string())));
}

#[test]
fn task_fetches_where_the_entry_is_missing() {
    let task = CacheTask::start("JSON").receive(CacheEvent::EntryMissing);
    assert_eq!(
        task.pending(),
        CacheAction::Fetch {
            url: "https://en.wikipedia.org/w/index.php?title=JSON&action=raw".to_string()
        }
    );
}

#[test]
fn task_files_sorted_links_without_repetitions() {
    let task = CacheTask::start("A")
        .receive(CacheEvent::EntryMissing)
        .receive(fetched("A", "[[London]] [[Henry Willis]] [[File:x.png]] [[London|L]]"));
    assert_eq!(
        task.pending(),
        CacheAction::CreateEntry {
            path: "data/A".to_string(),
            text: "Henry Willis\nLondon\n".to_string()
        }
    );
    let task = task.receive(CacheEvent::Created);
    assert_eq!(task.outcome(), Some(Ok("A".to_string())));
}

#[test]
fn task_files_a_page_without_links_as_an_empty_entry() {
    let task = CacheTask::start("A")
        .receive(CacheEvent::EntryMissing)
        .receive(fetched("A", "no links here"));
    assert_eq!(
        task.pending(),
        CacheAction::CreateEntry { path: "data/A".to_string(), text: String::new() }
    );
}

#[test]
fn task_files_under_the_name_of_the_final_address() {
    let task = CacheTask::start("foo")
        .receive(CacheEvent::EntryMissing)
        .receive(fetched("Foo", "[[B]]"));
    assert_eq!(
        task.pending(),
        CacheAction::CreateEntry { path: "data/Foo".to_string(), text: "B\n".to_string() }
    );
    let task = task.receive(CacheEvent::Created);
    assert_eq!(task.outcome(), Some(Ok("Foo".to_string())));
}

#[test]
fn redirected_resource_is_cached_under_its_canonical_name_only() {
    let mut surroundings = Surroundings::new();
    surroundings.page("foo", "Foo", "[[B]]");
    assert_eq!(surroundings.ensure_cached("foo"), Ok("Foo".to_string()));
    assert!(surroundings.entries.contains_key("data/Foo"));
    assert!(!surroundings.entries.contains_key("data/foo"));
    assert_eq!(surroundings.entries.len(), 1);
}

#[test]
fn task_fails_where_the_page_cannot_be_fetched() {
    let task = CacheTask::start("B")
        .receive(CacheEvent::EntryMissing)
        .receive(CacheEvent::FetchFailed);
    assert_eq!(task.pending(), CacheAction::Finish { outcome: Err(CrawlError::Transport) });
    assert_eq!(task.outcome(), Some(Err(CrawlError::Transport)));
}

#[test]
fn task_fails_where_the_final_address_names_no_resource() {
    let task = CacheTask::start("B").receive(CacheEvent::EntryMissing).receive(
        CacheEvent::Fetched {
            final_url: "https://en.wikipedia.org/wiki/B".to_string(),
            body: "[[C]]".to_string(),
        },
    );
    assert_eq!(task.outcome(), Some(Err(CrawlError::Resolution)));
}

#[test]
fn task_fails_where_the_folder_cannot_be_read() {
    let task = CacheTask::start("B").receive(CacheEvent::IoFailed);
    assert_eq!(task.outcome(), Some(Err(CrawlError::Io)));
}

#[test]
fn task_succeeds_where_another_created_the_entry_first() {
    let task = CacheTask::start("A")
        .receive(CacheEvent::EntryMissing)
        .receive(fetched("A", "[[B]]"))
        .receive(CacheEvent::AlreadyExists);
    assert_eq!(task.outcome(), Some(Ok("A".to_string())));
}

#[test]
fn task_writes_over_only_where_creation_was_refused() {
    let task = CacheTask::start("A")
        .receive(CacheEvent::EntryMissing)
        .receive(fetched("A", "[[B]]"))
        .receive(CacheEvent::CreateRefused);
    assert_eq!(
        task.pending(),
        CacheAction::RewriteEntry { path: "data/A".to_string(), text: "B\n".to_string() }
    );
    assert_eq!(task.outcome(), None);
    let task = task.receive(CacheEvent::Rewritten);
    assert_eq!(task.outcome(), Some(Ok("A".to_string())));
}

#[test]
fn task_fails_where_writing_fails() {
    let created = CacheTask::start("A")
        .receive(CacheEvent::EntryMissing)
        .receive(fetched("A", "[[B]]"))
        .receive(CacheEvent::IoFailed);
    assert_eq!(created.outcome(), Some(Err(CrawlError::Io)));
    let rewritten = CacheTask::start("A")
        .receive(CacheEvent::EntryMissing)
        .receive(fetched("A", "[[B]]"))
        .receive(CacheEvent::CreateRefused)
        .receive(CacheEvent::IoFailed);
    assert_eq!(rewritten.outcome(), Some(Err(CrawlError::Io)));
}

#[test]
fn task_ignores_what_does_not_answer_it() {
    let task = CacheTask::start("A").receive(CacheEvent::Created);
    assert_eq!(task.pending(), CacheAction::CheckEntry { path: "data/A".to_string() });
    let task = task.receive(CacheEvent::EntryMissing).receive(CacheEvent::Rewritten);
    assert_eq!(task.pending(), CacheAction::Fetch { url: get_url_from_resource("A") });
    let done = task.receive(CacheEvent::FetchFailed).receive(CacheEvent::EntryFound);
    assert_eq!(done.outcome(), Some(Err(CrawlError::Transport)));
}

#[test]
fn second_call_fetches_nothing_and_leaves_the_entry() {
    let mut surroundings = Surroundings::new();
    surroundings.page("A", "A", "[[C]] [[B]] [[C]]");
    assert_eq!(surroundings.ensure_cached("A"), Ok("A".to_string()));
    let entry = surroundings.entries.get("data/A").cloned();
    assert_eq!(entry, Some("B\nC\n".to_string()));
    assert_eq!(surroundings.fetches, 1);
    assert_eq!(surroundings.ensure_cached("A"), Ok("A".to_string()));
    assert_eq!(surroundings.fetches, 1);
    assert_eq!(surroundings.entries.get("data/A").cloned(), entry);
    assert_eq!(surroundings.entries.len(), 1);
}

#[test]
fn callers_at_once_leave_one_entry_and_all_succeed() {
    let mut surroundings = Surroundings::new();
    surroundings.page("A", "A", "[[B]]");
    let mut tasks: Vec<CacheTask> = (0..5).map(|_| CacheTask::start("A")).collect();
    // every caller looks before any fetches, and every caller fetches before any creates
    for _ in 0..3 {
        let mut moved = Vec::new();
        for task in tasks {
            let event = surroundings.answer(task.pending());
            moved.push(task.receive(event));
        }
        tasks = moved;
    }
    for task in &tasks {
        assert_eq!(task.outcome(), Some(Ok("A".to_string())));
    }
    assert_eq!(surroundings.entries.len(), 1);
    assert_eq!(surroundings.entries.get("data/A"), Some(&"B\n".to_string()));
    assert_eq!(surroundings.fetches, 5);
}

#[test]
fn seed_with_a_repeated_link_gives_one_batch_of_one() {
    let mut surroundings = Surroundings::new();
    surroundings.page("A", "A", "[[B]] [[B]]");
    assert_eq!(surroundings.ensure_cached("A"), Ok("A".to_string()));
    assert_eq!(surroundings.entries.get("data/A"), Some(&"B\n".to_string()));
    let links = surroundings.links("A").expect("the entry of the seed");
    assert_eq!(links, strings(&["B"]));
    let mut frontier = Frontier::new(links);
    assert_eq!(frontier.len(), 1);
    assert_eq!(frontier.pop(), Some(strings(&["B"])));
    assert_eq!(frontier.pop(), None);
}

#[test]
fn resource_that_cannot_be_fetched_is_dropped_and_the_crawl_ends() {
    let mut surroundings = Surroundings::new();
    surroundings.page("A", "A", "[[B]]");
    assert_eq!(surroundings.ensure_cached("A"), Ok("A".to_string()));
    let mut frontier = Frontier::new(surroundings.links("A").expect("the entry of the seed"));

    match plan_round(&mut frontier, 10) {
        Round::Dispatch { jobs } => {
            assert_eq!(jobs.len(), 1);
            assert_eq!(jobs[0].resource, "B");
            assert_eq!(surroundings.ensure_cached("B"), Err(CrawlError::Transport));
            frontier.absorb(Err(CrawlError::Transport));
        }
        Round::Finished => panic!("the batch of the seed waits"),
    }
    assert!(!surroundings.entries.contains_key("data/B"));
    assert!(frontier.is_empty());
    assert_eq!(plan_round(&mut frontier, 10), Round::Finished);
}

#[test]
fn crawl_of_a_web_without_circles_caches_what_the_seed_reaches() {
    let mut surroundings = Surroundings::new();
    surroundings.page("A", "A", "[[B]] [[C]]");
    surroundings.page("B", "B", "[[C]] [[D]]");
    surroundings.page("C", "C", "[[D]]");
    surroundings.page("D", "D", "");
    surroundings.page("E", "E", "[[A]]");
    assert_eq!(surroundings.ensure_cached("A"), Ok("A".to_string()));
    let mut frontier = Frontier::new(surroundings.links("A").expect("the entry of the seed"));
    // one round for each way from the seed: A, A-B, A-C, A-B-C, A-B-D, A-C-D, A-B-C-D
    assert_eq!(surroundings.crawl(&mut frontier), 7);
    assert!(frontier.is_empty());
    let mut cached: Vec<&String> = surroundings.entries.keys().collect();
    cached.sort();
    assert_eq!(cached, ["data/A", "data/B", "data/C", "data/D"]);
    assert_eq!(surroundings.fetches, 4);
}
