//! The frontier of a crawl: the batches of resources that wait to be
//! expanded, the latest on top.

use crate::crawler::CrawlError;
use vstd::prelude::*;

verus! {

/// A stack of batches. Each batch holds the outbound links of one page.
pub struct Frontier {
    batches: Vec<Vec<String>>,
}

impl View for Frontier {
    type V = Seq<Seq<Seq<char>>>;

    /// The batches from the bottom of the stack to its top.
    closed spec fn view(&self) -> Seq<Seq<Seq<char>>> {
        self.batches.deep_view()
    }
}

impl Frontier {
    /// The frontier at the start of a crawl: the links of the seed page and
    /// nothing else.
    pub fn new(seed_links: Vec<String>) -> (frontier: Frontier)
        ensures
            frontier@ == seq![seed_links.deep_view()],
    {
        let mut batches: Vec<Vec<String>> = Vec::new();
        batches.push(seed_links);
        let frontier = Frontier { batches };
        proof {
            assert(frontier@ =~= seq![seed_links.deep_view()]);
        }
        frontier
    }

    /// The number of batches that wait.
    pub fn len(&self) -> (n: usize)
        ensures
            n == self@.len(),
    {
        self.batches.len()
    }

    /// Whether no batch waits.
    pub fn is_empty(&self) -> (empty: bool)
        ensures
            empty == (self@.len() == 0),
    {
        self.batches.len() == 0
    }

    /// The number of resources in the top batch, if a batch waits.
    pub fn top_len(&self) -> (n: Option<usize>)
        ensures
            match n {
                Some(n) => self@.len() > 0 && n == self@.last().len(),
                None => self@.len() == 0,
            },
    {
        if self.batches.len() == 0 {
            None
        } else {
            Some(self.batches[self.batches.len() - 1].len())
        }
    }

    /// Puts `batch` on top.
    pub fn push(&mut self, batch: Vec<String>)
        ensures
            final(self)@ == old(self)@.push(batch.deep_view()),
    {
        self.batches.push(batch);
        proof {
            assert(self@ =~= old(self)@.push(batch.deep_view()));
        }
    }

    /// Takes the top batch off, if there is one.
    pub fn pop(&mut self) -> (top: Option<Vec<String>>)
        ensures
            match top {
                Some(batch) => {
                    &&& old(self)@.len() > 0
                    &&& batch.deep_view() == old(self)@.last()
                    &&& final(self)@ == old(self)@.drop_last()
                },
                None => old(self)@.len() == 0 && final(self)@ == old(self)@,
            },
    {
        let top = self.batches.pop();
        proof {
            if old(self)@.len() > 0 {
                assert(self@ =~= old(self)@.drop_last());
            }
        }
        top
    }

    /// Takes in what a finished task has to give: the links of its resource
    /// become the top batch. A task that failed gives nothing.
    pub fn absorb(&mut self, outcome: Result<Vec<String>, CrawlError>)
        ensures
            match outcome {
                Ok(batch) => final(self)@ == old(self)@.push(batch.deep_view()),
                Err(_) => final(self)@ == old(self)@,
            },
    {
        match outcome {
            Ok(batch) => self.push(batch),
            Err(_) => {},
        }
    }
}

} // verus!
