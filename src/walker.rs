use vstd::prelude::*;

verus! {

/// What the directory listing says an entry is.
#[derive(PartialEq, Eq, Structural, Clone, Copy, Debug)]
pub enum EntryKind {
    File,
    Directory,
    Other,
}

/// What the driver of the walk must do after handing one event to the walker.
#[derive(Debug)]
pub enum Action {
    /// The entry's name is excluded: no descent, no transfer.
    Excluded,
    /// Transfer the file at this path, relative to both roots.
    Transfer(Vec<String>),
    /// Create this directory under the destination root (with its parents),
    /// open the source directory at the same relative path and push its frame.
    Descend(Vec<String>),
    /// The entry is neither a file nor a directory: report it and go on.
    Ignored,
    /// The top frame is finished: drop it. When `true`, a top-level unit has
    /// just completed and a progress line is due.
    Ascend(bool),
    /// The root frame is finished: the walk is over.
    Finished,
}

/// The names of a path, as character sequences.
pub open spec fn names_view(v: Seq<String>) -> Seq<Seq<char>> {
    v.map_values(|s: String| s@)
}

/// The abstract state of a walk: the top frame's path, the number of open
/// frames and the number of root-level entries seen.
pub struct WalkModel {
    pub path: Seq<Seq<char>>,
    pub depth: int,
    pub completed: int,
}

/// What the walker is told: the top frame's next entry, or its end.
pub enum Event {
    Entry(Seq<char>, EntryKind),
    Exhausted,
}

/// The abstract value of an `Action`.
pub enum Out {
    Excluded,
    Transfer(Seq<Seq<char>>),
    Descend(Seq<Seq<char>>),
    Ignored,
    Ascend(bool),
    Finished,
}

impl Action {
    pub open spec fn out(&self) -> Out {
        match self {
            Action::Excluded => Out::Excluded,
            Action::Transfer(p) => Out::Transfer(names_view(p@)),
            Action::Descend(p) => Out::Descend(names_view(p@)),
            Action::Ignored => Out::Ignored,
            Action::Ascend(b) => Out::Ascend(*b),
            Action::Finished => Out::Finished,
        }
    }
}

/// One step of the walk over the excluded names `x`.
pub open spec fn step(s: WalkModel, e: Event, x: Set<Seq<char>>) -> (WalkModel, Out) {
    match e {
        Event::Entry(n, k) => {
            let c = s.completed + if s.depth == 1 {
                1int
            } else {
                0int
            };
            if x.contains(n) {
                (WalkModel { path: s.path, depth: s.depth, completed: c }, Out::Excluded)
            } else {
                match k {
                    EntryKind::File => (
                        WalkModel { path: s.path, depth: s.depth, completed: c },
                        Out::Transfer(s.path.push(n)),
                    ),
                    EntryKind::Directory => (
                        WalkModel { path: s.path.push(n), depth: s.depth + 1, completed: c },
                        Out::Descend(s.path.push(n)),
                    ),
                    EntryKind::Other => (
                        WalkModel { path: s.path, depth: s.depth, completed: c },
                        Out::Ignored,
                    ),
                }
            }
        },
        Event::Exhausted => if s.depth == 1 {
            (WalkModel { path: s.path, depth: 0, completed: s.completed }, Out::Finished)
        } else {
            (
                WalkModel { path: s.path.drop_last(), depth: s.depth - 1, completed: s.completed },
                Out::Ascend(s.depth == 2),
            )
        },
    }
}

proof fn lemma_names_push(p: Seq<String>, n: String)
    ensures
        names_view(p.push(n)) == names_view(p).push(n@),
{
    assert(names_view(p.push(n)) =~= names_view(p).push(n@));
}

proof fn lemma_names_drop_last(p: Seq<String>)
    requires
        p.len() > 0,
    ensures
        names_view(p.drop_last()) == names_view(p).drop_last(),
{
    assert(names_view(p.drop_last()) =~= names_view(p).drop_last());
}

/// No component of `path` is one of the `excluded` names.
pub open spec fn free_of(path: Seq<String>, excluded: Set<Seq<char>>) -> bool {
    forall|i: int| 0 <= i < path.len() ==> !excluded.contains(#[trigger] path[i]@)
}

/// An iterative depth-first walk over a source tree, mirrored into a
/// destination tree. The frames of open directory listings are held by the
/// caller; the walker holds their depth, the path of the top frame relative to
/// the roots, and the progress counters.
pub struct Walker {
    /// Names excluded at any depth.
    pub exclude: Vec<String>,
    /// The path of the top frame, relative to the source and destination roots.
    pub path: Vec<String>,
    /// The number of open frames.
    pub depth: usize,
    /// The number of root-level entries seen so far, excluded ones included.
    pub how_much_completed: u64,
    /// The number of direct children of the source root.
    pub root_files_count: u64,
}

impl Walker {
    pub open spec fn excluded_names(&self) -> Set<Seq<char>> {
        names_view(self.exclude@).to_set()
    }

    pub open spec fn path_view(&self) -> Seq<Seq<char>> {
        names_view(self.path@)
    }

    pub open spec fn model(&self) -> WalkModel {
        WalkModel {
            path: self.path_view(),
            depth: self.depth as int,
            completed: self.how_much_completed as int,
        }
    }

    /// The frames mirror the path: one frame per path component plus the
    /// root's, or none once the walk is over. No component is excluded.
    pub open spec fn wf(&self) -> bool {
        &&& (self.depth == self.path@.len() + 1 || (self.depth == 0 && self.path@.len() == 0))
        &&& free_of(self.path@, self.excluded_names())
    }

    /// A walker positioned on the source root.
    pub fn new(exclude: Vec<String>, root_files_count: u64) -> (r: Walker)
        ensures
            r.wf(),
            r.exclude@ == exclude@,
            r.path@.len() == 0,
            r.depth == 1,
            r.how_much_completed == 0,
            r.root_files_count == root_files_count,
    {
        Walker { exclude, path: Vec::new(), depth: 1, how_much_completed: 0, root_files_count }
    }

    /// Whether `name` is one of the excluded names.
    pub fn is_excluded(&self, name: &String) -> (r: bool)
        ensures
            r == self.excluded_names().contains(name@),
    {
        let mut i: usize = 0;
        while i < self.exclude.len()
            invariant
                i <= self.exclude@.len(),
                forall|j: int| 0 <= j < i ==> self.exclude@[j]@ != name@,
            decreases self.exclude@.len() - i,
        {
            if self.exclude[i] == *name {
                proof {
                    assert(names_view(self.exclude@)[i as int] == name@);
                }
                return true;
            }
            i = i + 1;
        }
        proof {
            if names_view(self.exclude@).contains(name@) {
                let k = choose|k: int|
                    0 <= k < names_view(self.exclude@).len() && names_view(self.exclude@)[k]
                        == name@;
                assert(self.exclude@[k]@ == name@);
            }
        }
        false
    }

    /// The path of an entry of the top frame: the frame's path and the name.
    fn child_path(&self, name: &String) -> (r: Vec<String>)
        ensures
            r@ == self.path@.push(*name),
    {
        let mut r = self.path.clone();
        proof {
            assert(r@ =~= self.path@);
        }
        r.push(name.clone());
        r
    }

    /// Handles the next entry of the top frame.
    pub fn on_entry(&mut self, name: String, kind: EntryKind) -> (r: Action)
        requires
            old(self).wf(),
            old(self).depth >= 1,
            old(self).depth < usize::MAX,
            old(self).how_much_completed < u64::MAX,
        ensures
            final(self).wf(),
            (final(self).model(), r.out()) == step(
                old(self).model(),
                Event::Entry(name@, kind),
                old(self).excluded_names(),
            ),
            final(self).exclude@ == old(self).exclude@,
            final(self).root_files_count == old(self).root_files_count,
            final(self).how_much_completed == old(self).how_much_completed + if old(self).depth
                == 1 {
                1int
            } else {
                0int
            },
            r is Transfer ==> free_of(r->Transfer_0@, old(self).excluded_names()),
            r is Descend ==> free_of(r->Descend_0@, old(self).excluded_names()),
            old(self).excluded_names().contains(name@) ==> (r is Excluded && final(self).path@
                == old(self).path@ && final(self).depth == old(self).depth),
            !old(self).excluded_names().contains(name@) && kind == EntryKind::File ==> (
            r is Transfer && r->Transfer_0@ == old(self).path@.push(name) && final(self).path@
                == old(self).path@ && final(self).depth == old(self).depth),
            !old(self).excluded_names().contains(name@) && kind == EntryKind::Directory ==> (
            r is Descend && r->Descend_0@ == old(self).path@.push(name) && final(self).path@
                == old(self).path@.push(name) && final(self).depth == old(self).depth + 1),
            !old(self).excluded_names().contains(name@) && kind == EntryKind::Other ==> (
            r is Ignored && final(self).path@ == old(self).path@ && final(self).depth == old(
                self,
            ).depth),
    {
        proof {
            lemma_names_push(self.path@, name);
        }
        if self.depth == 1 {
            self.how_much_completed = self.how_much_completed + 1;
        }
        if self.is_excluded(&name) {
            return Action::Excluded;
        }
        match kind {
            EntryKind::File => {
                let r = self.child_path(&name);
                proof {
                    assert forall|i: int| 0 <= i < r@.len() implies !self.excluded_names().contains(
                        #[trigger] r@[i]@,
                    ) by {
                        if i < self.path@.len() {
                            assert(r@[i] == self.path@[i]);
                        }
                    }
                }
                Action::Transfer(r)
            },
            EntryKind::Directory => {
                let r = self.child_path(&name);
                self.path.push(name);
                self.depth = self.depth + 1;
                proof {
                    assert forall|i: int| 0 <= i < self.path@.len() implies !self.excluded_names().contains(
                        #[trigger] self.path@[i]@,
                    ) by {
                        if i < old(self).path@.len() {
                            assert(self.path@[i] == old(self).path@[i]);
                        }
                    }
                }
                proof {
                    assert(r@ == self.path@);
                }
                Action::Descend(r)
            },
            EntryKind::Other => Action::Ignored,
        }
    }

    /// Handles the end of the top frame's entries.
    pub fn on_exhausted(&mut self) -> (r: Action)
        requires
            old(self).wf(),
            old(self).depth >= 1,
        ensures
            final(self).wf(),
            (final(self).model(), r.out()) == step(
                old(self).model(),
                Event::Exhausted,
                old(self).excluded_names(),
            ),
            final(self).exclude@ == old(self).exclude@,
            final(self).root_files_count == old(self).root_files_count,
            final(self).how_much_completed == old(self).how_much_completed,
            final(self).depth == old(self).depth - 1,
            final(self).path@ == if old(self).depth == 1 {
                old(self).path@
            } else {
                old(self).path@.drop_last()
            },
            old(self).depth == 1 ==> r is Finished,
            old(self).depth > 1 ==> r == Action::Ascend(old(self).depth == 2),
    {
        self.depth = self.depth - 1;
        if self.depth == 0 {
            return Action::Finished;
        }
        proof {
            lemma_names_drop_last(self.path@);
        }
        self.path.pop();
        proof {
            assert(self.path@ =~= old(self).path@.drop_last());
            assert forall|i: int| 0 <= i < self.path@.len() implies !self.excluded_names().contains(
                #[trigger] self.path@[i]@,
            ) by {
                assert(self.path@[i] == old(self).path@[i]);
            }
        }
        Action::Ascend(self.depth == 1)
    }
}

} // verus!
