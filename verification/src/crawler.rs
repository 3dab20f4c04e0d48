//! Caching one resource: where its page and its cache entry are found, and
//! the steps that bring the entry about if it is not there yet.
//!
//! The task itself touches neither network nor disk. It says what is to be
//! done next ([`CacheTask::pending`]) and is told what came of it
//! ([`CacheTask::receive`]).

use crate::entry::{entry_lines, entry_text, entry_text_of, sorted_unique};
use crate::web_data_processing::{links_in, read_page, resource_in};
use vstd::prelude::*;

verus! {

/// The address of the raw page text of `resource`.
pub open spec fn url_of(resource: Seq<char>) -> Seq<char> {
    "https://en.wikipedia.org/w/index.php?title="@ + resource + "&"@ + "action=raw"@
}

/// The path of the cache entry of `resource` below `folder`.
pub open spec fn path_of(folder: Seq<char>, resource: Seq<char>) -> Seq<char> {
    folder + "/"@ + resource
}

/// The folder that holds the cache entries.
pub open spec fn data_folder() -> Seq<char> {
    "data"@
}

/// The path of the cache entry of `resource`.
pub open spec fn entry_path(resource: Seq<char>) -> Seq<char> {
    path_of(data_folder(), resource)
}

/// The address from which the raw page text of `resource` is fetched.
pub fn get_url_from_resource(resource: &str) -> (url: String)
    ensures
        url@ == url_of(resource@),
{
    let mut url = String::from_str("https://en.wikipedia.org/w/index.php?title=");
    url.append(resource);
    url.append("&");
    url.append("action=raw");
    url
}

/// The path of the cache entry of `resource` in the folder
/// `data_folder_path`.
pub fn get_filepath_from_resource(data_folder_path: &str, resource: &str) -> (path: String)
    ensures
        path@ == path_of(data_folder_path@, resource@),
{
    let mut path = String::from_str(data_folder_path);
    path.append("/");
    path.append(resource);
    path
}

/// Why a resource could not be cached.
#[derive(Clone, Copy, Debug, PartialEq, Eq, Structural)]
pub enum CrawlError {
    /// The page could not be fetched.
    Transport,
    /// The cache entry could not be read or written.
    Io,
    /// The page was fetched, but its final address names no resource.
    Resolution,
}

/// What a cache task asks of its surroundings. `S` is the kind of text:
/// `String` where the task runs, `Seq<char>` where it is reasoned about.
#[derive(Debug, PartialEq, Eq)]
pub enum Action<S> {
    /// Tell whether a cache entry exists at `path`.
    CheckEntry { path: S },
    /// Fetch the page at `url`, following redirects.
    Fetch { url: S },
    /// Create the entry at `path` with `text`, unless one exists there.
    CreateEntry { path: S, text: S },
    /// Write `text` to the entry at `path`, creating it if need be.
    RewriteEntry { path: S, text: S },
    /// Nothing more: the task has ended with `outcome`.
    Finish { outcome: Result<S, CrawlError> },
}

/// What the surroundings answer to an action.
#[derive(Debug, PartialEq, Eq)]
pub enum Event<S> {
    /// `CheckEntry`: an entry exists.
    EntryFound,
    /// `CheckEntry`: no entry exists.
    EntryMissing,
    /// `Fetch`: the page came from `final_url` and reads `body`.
    Fetched { final_url: S, body: S },
    /// `Fetch`: the page could not be had.
    FetchFailed,
    /// `CreateEntry`: the entry was created and written.
    Created,
    /// `CreateEntry`: an entry was there already and was left alone.
    AlreadyExists,
    /// `CreateEntry`: the entry could not be created, and none was seen.
    CreateRefused,
    /// `RewriteEntry`: the entry was written.
    Rewritten,
    /// `CheckEntry`, `CreateEntry`, `RewriteEntry`: reading or writing failed.
    IoFailed,
}

/// How far a cache task has come.
#[derive(Debug, PartialEq, Eq)]
pub enum Step<S> {
    /// Waiting to learn whether `id` has an entry.
    Lookup { id: S },
    /// Waiting for the page of `id`.
    Fetching { id: S },
    /// Waiting for the entry of the canonical `id` to be created with `text`.
    Creating { id: S, text: S },
    /// Waiting for the entry of `id` to be written after creation was refused.
    Rewriting { id: S, text: S },
    /// Ended.
    Done { outcome: Result<S, CrawlError> },
}

pub type CacheAction = Action<String>;

pub type CacheEvent = Event<String>;

impl View for Action<String> {
    type V = Action<Seq<char>>;

    open spec fn view(&self) -> Action<Seq<char>> {
        match *self {
            Action::CheckEntry { path } => Action::CheckEntry { path: path@ },
            Action::Fetch { url } => Action::Fetch { url: url@ },
            Action::CreateEntry { path, text } => Action::CreateEntry { path: path@, text: text@ },
            Action::RewriteEntry { path, text } => Action::RewriteEntry {
                path: path@,
                text: text@,
            },
            Action::Finish { outcome } => Action::Finish { outcome: outcome_view(outcome) },
        }
    }
}

impl View for Event<String> {
    type V = Event<Seq<char>>;

    open spec fn view(&self) -> Event<Seq<char>> {
        match *self {
            Event::EntryFound => Event::EntryFound,
            Event::EntryMissing => Event::EntryMissing,
            Event::Fetched { final_url, body } => Event::Fetched {
                final_url: final_url@,
                body: body@,
            },
            Event::FetchFailed => Event::FetchFailed,
            Event::Created => Event::Created,
            Event::AlreadyExists => Event::AlreadyExists,
            Event::CreateRefused => Event::CreateRefused,
            Event::Rewritten => Event::Rewritten,
            Event::IoFailed => Event::IoFailed,
        }
    }
}

impl View for Step<String> {
    type V = Step<Seq<char>>;

    open spec fn view(&self) -> Step<Seq<char>> {
        match *self {
            Step::Lookup { id } => Step::Lookup { id: id@ },
            Step::Fetching { id } => Step::Fetching { id: id@ },
            Step::Creating { id, text } => Step::Creating { id: id@, text: text@ },
            Step::Rewriting { id, text } => Step::Rewriting { id: id@, text: text@ },
            Step::Done { outcome } => Step::Done { outcome: outcome_view(outcome) },
        }
    }
}

/// The outcome of a task, its identifier taken by its characters.
pub open spec fn outcome_view(outcome: Result<String, CrawlError>) -> Result<
    Seq<char>,
    CrawlError,
> {
    match outcome {
        Ok(id) => Ok(id@),
        Err(error) => Err(error),
    }
}

/// The text of the cache entry for a page that reads `body`.
pub open spec fn entry_for(body: Seq<char>) -> Seq<char> {
    entry_text(entry_lines(links_in(body)))
}

/// What a task at `step` asks for.
pub open spec fn pending(step: Step<Seq<char>>) -> Action<Seq<char>> {
    match step {
        Step::Lookup { id } => Action::CheckEntry { path: entry_path(id) },
        Step::Fetching { id } => Action::Fetch { url: url_of(id) },
        Step::Creating { id, text } => Action::CreateEntry { path: entry_path(id), text },
        Step::Rewriting { id, text } => Action::RewriteEntry { path: entry_path(id), text },
        Step::Done { outcome } => Action::Finish { outcome },
    }
}

/// Whether `event` answers what a task at `step` asks for.
pub open spec fn answers(step: Step<Seq<char>>, event: Event<Seq<char>>) -> bool {
    match step {
        Step::Lookup { .. } => event is EntryFound || event is EntryMissing || event is IoFailed,
        Step::Fetching { .. } => event is Fetched || event is FetchFailed,
        Step::Creating { .. } => event is Created || event is AlreadyExists
            || event is CreateRefused || event is IoFailed,
        Step::Rewriting { .. } => event is Rewritten || event is IoFailed,
        Step::Done { .. } => false,
    }
}

/// Where a task at `step` stands after `event`.
///
/// An entry that is found ends the task at once, under the identifier that
/// was asked for. A fetched page is filed under the identifier that its final
/// address names, never under the one asked for, and not at all where the
/// address names none. An entry that already exists when it is to be created
/// is left as it is, and the task has succeeded all the same. Only where
/// creation is refused for another reason is the entry written over. An
/// event that does not answer what was asked changes nothing.
pub open spec fn next_step(step: Step<Seq<char>>, event: Event<Seq<char>>) -> Step<Seq<char>> {
    match step {
        Step::Lookup { id } => match event {
            Event::EntryFound => Step::Done { outcome: Ok(id) },
            Event::EntryMissing => Step::Fetching { id },
            Event::IoFailed => Step::Done { outcome: Err(CrawlError::Io) },
            _ => step,
        },
        Step::Fetching { id } => match event {
            Event::Fetched { final_url, body } => {
                let canonical = resource_in(final_url);
                if canonical.len() == 0 {
                    Step::Done { outcome: Err(CrawlError::Resolution) }
                } else {
                    Step::Creating { id: canonical, text: entry_for(body) }
                }
            },
            Event::FetchFailed => Step::Done { outcome: Err(CrawlError::Transport) },
            _ => step,
        },
        Step::Creating { id, text } => match event {
            Event::Created => Step::Done { outcome: Ok(id) },
            Event::AlreadyExists => Step::Done { outcome: Ok(id) },
            Event::CreateRefused => Step::Rewriting { id, text },
            Event::IoFailed => Step::Done { outcome: Err(CrawlError::Io) },
            _ => step,
        },
        Step::Rewriting { id, text } => match event {
            Event::Rewritten => Step::Done { outcome: Ok(id) },
            Event::IoFailed => Step::Done { outcome: Err(CrawlError::Io) },
            _ => step,
        },
        Step::Done { .. } => step,
    }
}

/// The task of making sure that one resource has its cache entry.
pub struct CacheTask {
    step: Step<String>,
}

impl View for CacheTask {
    type V = Step<Seq<char>>;

    closed spec fn view(&self) -> Step<Seq<char>> {
        self.step@
    }
}

impl CacheTask {
    /// A task for `id`, which first asks whether `id` has an entry.
    pub fn start(id: &str) -> (task: CacheTask)
        ensures
            task@ == (Step::Lookup { id: id@ }),
    {
        CacheTask { step: Step::Lookup { id: String::from_str(id) } }
    }

    /// What the task asks for now.
    pub fn pending(&self) -> (action: CacheAction)
        ensures
            action@ == pending(self@),
    {
        match &self.step {
            Step::Lookup { id } => Action::CheckEntry {
                path: get_filepath_from_resource("data", id.as_str()),
            },
            Step::Fetching { id } => Action::Fetch { url: get_url_from_resource(id.as_str()) },
            Step::Creating { id, text } => Action::CreateEntry {
                path: get_filepath_from_resource("data", id.as_str()),
                text: text.clone(),
            },
            Step::Rewriting { id, text } => Action::RewriteEntry {
                path: get_filepath_from_resource("data", id.as_str()),
                text: text.clone(),
            },
            Step::Done { outcome } => Action::Finish {
                outcome: match outcome {
                    Ok(id) => Ok(id.clone()),
                    Err(error) => Err(*error),
                },
            },
        }
    }

    /// The outcome, once the task has ended.
    pub fn outcome(&self) -> (outcome: Option<Result<String, CrawlError>>)
        ensures
            match self@ {
                Step::Done { outcome: ended } => outcome matches Some(o) && outcome_view(o)
                    == ended,
                _ => outcome is None,
            },
    {
        match &self.step {
            Step::Done { outcome } => Some(
                match outcome {
                    Ok(id) => Ok(id.clone()),
                    Err(error) => Err(*error),
                },
            ),
            _ => None,
        }
    }

    /// Takes the answer to the pending action and moves on. An event that
    /// does not answer the pending action leaves the task where it is.
    pub fn receive(self, event: CacheEvent) -> (next: CacheTask)
        ensures
            next@ == next_step(self@, event@),
            !answers(self@, event@) ==> next@ == self@,
    {
        let step = match self.step {
            Step::Lookup { id } => match event {
                Event::EntryFound => Step::Done { outcome: Ok(id) },
                Event::EntryMissing => Step::Fetching { id },
                Event::IoFailed => Step::Done { outcome: Err(CrawlError::Io) },
                _ => Step::Lookup { id },
            },
            Step::Fetching { id } => match event {
                Event::Fetched { final_url, body } => {
                    let (canonical, links) = read_page(final_url.as_str(), body.as_str());
                    if canonical.as_str().is_empty() {
                        Step::Done { outcome: Err(CrawlError::Resolution) }
                    } else {
                        let lines = sorted_unique(&links);
                        Step::Creating { id: canonical, text: entry_text_of(&lines) }
                    }
                },
                Event::FetchFailed => Step::Done { outcome: Err(CrawlError::Transport) },
                _ => Step::Fetching { id },
            },
            Step::Creating { id, text } => match event {
                Event::Created => Step::Done { outcome: Ok(id) },
                Event::AlreadyExists => Step::Done { outcome: Ok(id) },
                Event::CreateRefused => Step::Rewriting { id, text },
                Event::IoFailed => Step::Done { outcome: Err(CrawlError::Io) },
                _ => Step::Creating { id, text },
            },
            Step::Rewriting { id, text } => match event {
                Event::Rewritten => Step::Done { outcome: Ok(id) },
                Event::IoFailed => Step::Done { outcome: Err(CrawlError::Io) },
                _ => Step::Rewriting { id, text },
            },
            Step::Done { outcome } => Step::Done { outcome },
        };
        CacheTask { step }
    }
}

} // verus!
