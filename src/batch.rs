//! The batch of one model: one file per scheme, tried in order, where a
//! failure is recorded and the batch goes on.
//!
//! The driver decides and keeps count; the caller performs each build and
//! reports its outcome.

use vstd::prelude::*;
use crate::layout::{filename_of, joined, join_path, materialize};

verus! {

/// Where the file for `scheme` goes.
pub open spec fn job_path_of(dir: Seq<char>, template: Seq<char>, scheme: Seq<char>) -> Seq<char> {
    joined(dir, filename_of(template, scheme))
}

/// One build to perform.
pub struct BatchJob {
    /// Position of the scheme in the catalog.
    pub index: usize,
    pub scheme: String,
    pub path: String,
}

/// A build that failed.
pub struct SchemeFailure {
    pub scheme: String,
    pub path: String,
    pub error: String,
}

/// Progress through the schemes of one model.
pub struct BatchDriver {
    pub schemes: Vec<String>,
    pub output_dir: String,
    pub template: String,
    /// How many schemes have been tried.
    pub next: usize,
    pub failures: Vec<SchemeFailure>,
}

impl BatchDriver {
    pub open spec fn wf(&self) -> bool {
        self.next <= self.schemes@.len()
    }

    pub open spec fn job_path(&self, i: int) -> Seq<char> {
        job_path_of(self.output_dir@, self.template@, self.schemes@[i]@)
    }

    /// A batch over `schemes` in their order, with nothing tried yet.
    pub fn new(schemes: Vec<String>, output_dir: String, template: String) -> (r: BatchDriver)
        ensures
            r.wf(),
            r.schemes == schemes,
            r.output_dir == output_dir,
            r.template == template,
            r.next == 0,
            r.failures@.len() == 0,
    {
        BatchDriver { schemes, output_dir, template, next: 0, failures: Vec::new() }
    }

    /// The build to perform next, or nothing when every scheme has been tried.
    pub fn next_job(&self) -> (r: Option<BatchJob>)
        requires
            self.wf(),
        ensures
            r is None <==> self.next == self.schemes@.len(),
            r matches Some(j) ==> j.index == self.next && j.scheme@ == self.schemes@[self.next as int]@
                && j.path@ == self.job_path(self.next as int),
    {
        if self.next == self.schemes.len() {
            return None;
        }
        let scheme = &self.schemes[self.next];
        let name = materialize(self.template.as_str(), scheme.as_str());
        let path = join_path(self.output_dir.as_str(), name.as_str());
        Some(BatchJob { index: self.next, scheme: scheme.as_str().to_string(), path })
    }

    /// Takes the outcome of the current build: `Some(error)` when it failed.
    pub fn complete(&mut self, error: Option<String>)
        requires
            old(self).wf(),
            old(self).next < old(self).schemes@.len(),
        ensures
            final(self).wf(),
            final(self).next == old(self).next + 1,
            final(self).schemes == old(self).schemes,
            final(self).output_dir == old(self).output_dir,
            final(self).template == old(self).template,
            match error {
                Some(e) => final(self).failures@.len() == old(self).failures@.len() + 1
                    && final(self).failures@.take(old(self).failures@.len() as int)
                    == old(self).failures@ && final(self).failures@.last().scheme@
                    == old(self).schemes@[old(self).next as int]@
                    && final(self).failures@.last().path@ == old(self).job_path(
                    old(self).next as int,
                ) && final(self).failures@.last().error == e,
                None => final(self).failures@ == old(self).failures@,
            },
    {
        let n = self.schemes.len();
        if let Some(e) = error {
            let scheme = &self.schemes[self.next];
            let name = materialize(self.template.as_str(), scheme.as_str());
            let path = join_path(self.output_dir.as_str(), name.as_str());
            let ghost before = self.failures@;
            self.failures.push(
                SchemeFailure { scheme: scheme.as_str().to_string(), path, error: e },
            );
            assert(self.failures@.take(before.len() as int) =~= before);
        }
        assert(self.next < n);
        self.next = self.next + 1;
    }

    /// How many schemes have been tried.
    pub fn attempted(&self) -> (r: usize)
        ensures
            r == self.next,
    {
        self.next
    }

    /// The failures so far, in the order they came.
    pub fn failures(&self) -> (r: &Vec<SchemeFailure>)
        ensures
            r@ == self.failures@,
    {
        &self.failures
    }
}

} // verus!
