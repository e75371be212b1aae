//! The task data model: a named unit of work with declared dependency
//! names, input files, an optional output artifact and an optional opaque
//! action handle, together with the freshness query `cached_at`.

use vstd::prelude::*;

verus! {

/// A half-open range of source text; carried for diagnostics only.
#[derive(Clone, Copy, PartialEq, Eq, Structural, Debug)]
pub struct Span {
    pub start: usize,
    pub end: usize,
}

/// A value together with the source span it was declared at.
#[derive(Clone, Debug)]
pub struct Spanned<T> {
    pub item: T,
    pub span: Span,
}

/// A filesystem path together with the last-modified stamp the freshness
/// oracle reported for it at scheduling time; `None` means the path did
/// not resolve to an existing entry (or its metadata was unreadable).
#[derive(Clone, Debug)]
pub struct FileStamp {
    pub path: String,
    pub stamp: Option<u64>,
}

/// One declared unit of work. Immutable once declared; addressed by its
/// index in the declaration arena.
#[derive(Clone, Debug)]
pub struct Task {
    /// Unique name within one declared set.
    pub name: Spanned<String>,
    /// Names of the tasks that must be resolved before this one.
    pub deps: Vec<Spanned<String>>,
    /// Declared input files, stamped by the freshness oracle.
    pub files: Vec<FileStamp>,
    /// The output artifact, stamped by the freshness oracle; `None` means
    /// the task has no output path ("phony" task, never skippable).
    pub target: Option<FileStamp>,
    /// Opaque handle to the task's action body; `None` for a label-only
    /// task whose execution trivially succeeds.
    pub run: Option<u64>,
}

impl Task {
    /// The task's freshness: its output stamp, provided the output exists
    /// and no input is absent or newer than it; `None` otherwise.
    pub open spec fn spec_cached_at(&self) -> Option<u64> {
        match self.target {
            Option::None => Option::None,
            Option::Some(out) => match out.stamp {
                Option::None => Option::None,
                Option::Some(ts) => {
                    if forall|i: int|
                        0 <= i < self.files@.len() ==> (#[trigger] self.files@[i].stamp) is Some
                            && self.files@[i].stamp->0 <= ts {
                        Option::Some(ts)
                    } else {
                        Option::None
                    }
                },
            },
        }
    }

    /// The task's name.
    pub fn name(&self) -> (r: &str)
        ensures
            r@ == self.name.item@,
    {
        self.name.item.as_str()
    }

    /// Where the task's name was declared.
    pub fn name_span(&self) -> (r: Span)
        ensures
            r == self.name.span,
    {
        self.name.span
    }

    /// Returns the output's stamp if the task's prior output is still
    /// valid: the output path exists and every declared input file exists
    /// and is no newer than it. Returns `None` if the task has no output
    /// path, the output is absent, or some input is absent or newer.
    pub fn cached_at(&self) -> (r: Option<u64>)
        ensures
            r == self.spec_cached_at(),
    {
        let out_ts: u64 = match &self.target {
            Option::None => {
                return Option::None;
            },
            Option::Some(out) => match out.stamp {
                Option::None => {
                    return Option::None;
                },
                Option::Some(ts) => ts,
            },
        };

        let mut i: usize = 0;
        while i < self.files.len()
            invariant
                0 <= i <= self.files@.len(),
                self.target matches Option::Some(out) && out.stamp == Option::Some(out_ts),
                forall|k: int|
                    0 <= k < i ==> (#[trigger] self.files@[k].stamp) is Some
                        && self.files@[k].stamp->0 <= out_ts,
            decreases self.files@.len() - i,
        {
            match self.files[i].stamp {
                Option::None => {
                    return Option::None;
                },
                Option::Some(ts) => {
                    if ts > out_ts {
                        return Option::None;
                    }
                },
            }
            i += 1;
        }
        Option::Some(out_ts)
    }

    /// The task's action handle, if it has one.
    pub fn run(&self) -> (r: Option<u64>)
        ensures
            r == self.run,
    {
        self.run
    }

    /// The declared dependency names.
    pub fn deps(&self) -> (r: &Vec<Spanned<String>>)
        ensures
            r == &self.deps,
    {
        &self.deps
    }
}

/// A task with no output path is never fresh: it is always scheduled to
/// run when reached.
pub proof fn lemma_no_target_never_fresh(t: &Task)
    requires
        t.target is None,
    ensures
        t.spec_cached_at() is None,
{
}

/// The index of the first declared task with the given name, if any.
pub fn find_task(arena: &Vec<Task>, name: &String) -> (r: Option<usize>)
    ensures
        match r {
            Option::Some(k) => k < arena@.len() && arena@[k as int].name.item@ == name@
                && forall|j: int| 0 <= j < k ==> arena@[j].name.item@ != name@,
            Option::None => forall|j: int| 0 <= j < arena@.len() ==> arena@[j].name.item@ != name@,
        },
{
    let mut k: usize = 0;
    while k < arena.len()
        invariant
            0 <= k <= arena@.len(),
            forall|j: int| 0 <= j < k ==> arena@[j].name.item@ != name@,
        decreases arena@.len() - k,
    {
        if arena[k].name.item == *name {
            return Option::Some(k);
        }
        k += 1;
    }
    Option::None
}

} // verus!
