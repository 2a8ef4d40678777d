//! Depth-first traversal of a directory tree, as decisions. The caller owns
//! the directory handles: it performs each `Action` and reports what came of
//! it as an `Event`. Every entry whose extension the filter accepts is handed
//! to the reservoir as it is found; directories are entered unless they are
//! symbolic links, and one that cannot be read is skipped.

use vstd::prelude::*;
use crate::extension::{name_matches, ExtensionFilter};
use crate::random::seeded;
use crate::reservoir::{kept, valid_draws, Reservoir};

verus! {

/// One entry read from the directory being listed.
pub struct Entry {
    /// The entry's full path.
    pub path: String,
    /// Its last component.
    pub name: String,
    /// Whether it is a directory, symbolic links followed.
    pub is_dir: bool,
    /// Whether it is itself a symbolic link.
    pub is_symlink: bool,
}

/// What the caller observed after performing an action.
pub enum Event {
    /// The directory of a `Descend` was opened for listing.
    Opened,
    /// The directory of a `Descend` could not be opened.
    OpenFailed,
    /// The directory being listed yielded an entry.
    Found(Entry),
    /// The directory being listed yielded an error in place of an entry.
    EntryFailed,
    /// The directory being listed has no more entries.
    Exhausted,
}

/// What the caller does next.
pub enum Action {
    /// Open this directory for listing, on top of those already open.
    Descend(String),
    /// Read the next entry of the directory listed last.
    Next,
    /// Close the directory listed last, then read the next entry of the one
    /// below it.
    Ascend,
    /// The traversal is over.
    Done,
}

/// A traversal in progress: the filter, how many directories are open, the
/// reservoir and its random source.
pub struct Walk {
    filter: ExtensionFilter,
    depth: u64,
    picker: Reservoir,
    rng: rand::rngs::StdRng,
}

impl Walk {
    pub closed spec fn wf(&self) -> bool {
        self.picker.wf()
    }

    pub closed spec fn filter(&self) -> Seq<Seq<char>> {
        self.filter@
    }

    /// Number of directories open.
    pub closed spec fn depth(&self) -> nat {
        self.depth as nat
    }

    /// The paths handed to the reservoir so far, in order.
    pub closed spec fn visited(&self) -> Seq<Seq<char>> {
        self.picker@.seen
    }

    /// The draws made for them.
    pub closed spec fn draws(&self) -> Seq<nat> {
        self.picker@.draws
    }

    /// A traversal with nothing open and nothing seen, whose random source is
    /// seeded with `seed`.
    pub fn new(filter: ExtensionFilter, seed: u64) -> (r: Walk)
        ensures
            r.wf(),
            r.filter() == filter@,
            r.depth() == 0,
            r.visited().len() == 0,
    {
        Walk { filter, depth: 0, picker: Reservoir::new(), rng: seeded(seed) }
    }

    /// Number of directories open.
    pub fn open_dirs(&self) -> (r: u64)
        ensures
            r == self.depth(),
    {
        self.depth
    }

    /// Number of entries handed to the reservoir.
    pub fn count(&self) -> (r: u64)
        requires
            self.wf(),
        ensures
            r == self.visited().len(),
    {
        self.picker.count()
    }

    /// The first action for a traversal from `root`: none at all where the
    /// root is itself a symbolic link.
    pub fn begin(root: String, root_is_symlink: bool) -> (r: Action)
        ensures
            r == if root_is_symlink {
                Action::Done
            } else {
                Action::Descend(root)
            },
    {
        if root_is_symlink {
            Action::Done
        } else {
            Action::Descend(root)
        }
    }

    /// Takes in what came of the last action and gives the next one.
    pub fn step(&mut self, event: Event) -> (r: Action)
        requires
            old(self).wf(),
            event is Opened ==> old(self).depth() < u64::MAX,
        ensures
            final(self).wf(),
            final(self).filter() == old(self).filter(),
            match event {
                Event::Found(e) => {
                    &&& final(self).depth() == old(self).depth()
                    &&& final(self).visited() == if name_matches(old(self).filter(), e.name@)
                        && old(self).visited().len() < u64::MAX {
                        old(self).visited().push(e.path@)
                    } else {
                        old(self).visited()
                    }
                    &&& final(self).visited() == old(self).visited() ==> final(self).draws()
                        == old(self).draws()
                    &&& final(self).visited() != old(self).visited() ==> {
                        &&& final(self).draws().drop_last() == old(self).draws()
                        &&& final(self).draws().last() <= old(self).visited().len()
                        &&& kept(final(self).visited(), final(self).draws())
                            == if final(self).draws().last() == 0 {
                            Some(e.path@)
                        } else {
                            kept(old(self).visited(), old(self).draws())
                        }
                    }
                    &&& r == if e.is_dir && !e.is_symlink {
                        Action::Descend(e.path)
                    } else {
                        Action::Next
                    }
                },
                Event::Opened => {
                    &&& final(self).depth() == old(self).depth() + 1
                    &&& final(self).visited() == old(self).visited()
                    &&& final(self).draws() == old(self).draws()
                    &&& r == Action::Next
                },
                Event::OpenFailed => {
                    &&& final(self).depth() == old(self).depth()
                    &&& final(self).visited() == old(self).visited()
                    &&& final(self).draws() == old(self).draws()
                    &&& r == if old(self).depth() == 0 {
                        Action::Done
                    } else {
                        Action::Next
                    }
                },
                Event::EntryFailed => {
                    &&& final(self).depth() == old(self).depth()
                    &&& final(self).visited() == old(self).visited()
                    &&& final(self).draws() == old(self).draws()
                    &&& r == Action::Next
                },
                Event::Exhausted => {
                    &&& final(self).depth() == if old(self).depth() == 0 {
                        0
                    } else {
                        (old(self).depth() - 1) as nat
                    }
                    &&& final(self).visited() == old(self).visited()
                    &&& final(self).draws() == old(self).draws()
                    &&& r == if old(self).depth() <= 1 {
                        Action::Done
                    } else {
                        Action::Ascend
                    }
                },
            },
    {
        match event {
            Event::Found(e) => {
                if self.filter.matches(e.name.as_str()) && self.picker.count() < u64::MAX {
                    let p = e.path.clone();
                    self.picker.observe(p, &mut self.rng);
                }
                if e.is_dir && !e.is_symlink {
                    Action::Descend(e.path)
                } else {
                    Action::Next
                }
            },
            Event::Opened => {
                self.depth = self.depth + 1;
                Action::Next
            },
            Event::OpenFailed => {
                if self.depth == 0 {
                    Action::Done
                } else {
                    Action::Next
                }
            },
            Event::EntryFailed => Action::Next,
            Event::Exhausted => {
                if self.depth <= 1 {
                    self.depth = 0;
                    Action::Done
                } else {
                    self.depth = self.depth - 1;
                    Action::Ascend
                }
            },
        }
    }

    /// Ends the traversal with the kept path, or none where no entry matched.
    pub fn finish(self) -> (r: Option<String>)
        requires
            self.wf(),
        ensures
            match r {
                Some(c) => kept(self.visited(), self.draws()) == Some(c@),
                None => kept(self.visited(), self.draws()) is None,
            },
            r is None <==> self.visited().len() == 0,
            self.draws().len() == self.visited().len(),
            valid_draws(self.draws()),
    {
        self.picker.into_chosen()
    }
}

} // verus!
