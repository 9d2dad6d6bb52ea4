use vstd::prelude::*;
use crate::walker::{step, EntryKind, Event, Out, WalkModel};

verus! {

/// A source tree: a directory holds named children in listing order.
pub enum Node {
    File,
    Other,
    Dir(Seq<(Seq<char>, Node)>),
}

/// The walker's state on the source root, before any entry.
pub open spec fn start() -> WalkModel {
    WalkModel { path: Seq::empty(), depth: 1, completed: 0 }
}

/// The events that a driver hands to the walker while it lists the children
/// `cs` of an open frame, opening every directory that is not excluded and
/// reading at most `h` levels further down (deeper directories read as empty).
pub open spec fn events_of(cs: Seq<(Seq<char>, Node)>, h: nat, x: Set<Seq<char>>) -> Seq<Event>
    decreases h, cs.len(),
{
    if cs.len() == 0 {
        Seq::empty()
    } else {
        let n = cs[0].0;
        let head = match cs[0].1 {
            Node::File => seq![Event::Entry(n, EntryKind::File)],
            Node::Other => seq![Event::Entry(n, EntryKind::Other)],
            Node::Dir(ch) => if x.contains(n) {
                seq![Event::Entry(n, EntryKind::Directory)]
            } else if h == 0 {
                seq![Event::Entry(n, EntryKind::Directory), Event::Exhausted]
            } else {
                seq![Event::Entry(n, EntryKind::Directory)] + events_of(ch, (h - 1) as nat, x)
                    + seq![Event::Exhausted]
            },
        };
        head + events_of(cs.drop_first(), h, x)
    }
}

/// The state and the actions after handing `evs` to the walker in state `s`.
pub open spec fn run(s: WalkModel, evs: Seq<Event>, x: Set<Seq<char>>) -> (WalkModel, Seq<Out>)
    decreases evs.len(),
{
    if evs.len() == 0 {
        (s, Seq::empty())
    } else {
        let (s1, o) = step(s, evs[0], x);
        let (s2, os) = run(s1, evs.drop_first(), x);
        (s2, seq![o] + os)
    }
}

/// The events of a whole walk over the root's children `cs`.
pub open spec fn walk_events(cs: Seq<(Seq<char>, Node)>, h: nat, x: Set<Seq<char>>) -> Seq<Event> {
    events_of(cs, h, x).push(Event::Exhausted)
}

/// Handing two runs of events one after the other.
pub proof fn lemma_run_append(s: WalkModel, a: Seq<Event>, b: Seq<Event>, x: Set<Seq<char>>)
    ensures
        run(s, a + b, x).0 == run(run(s, a, x).0, b, x).0,
        run(s, a + b, x).1 == run(s, a, x).1 + run(run(s, a, x).0, b, x).1,
    decreases a.len(),
{
    if a.len() == 0 {
        assert(a + b =~= b);
        assert(run(s, a, x).1 + run(s, b, x).1 =~= run(s, b, x).1);
    } else {
        let s1 = step(s, a[0], x).0;
        assert((a + b).drop_first() =~= a.drop_first() + b);
        lemma_run_append(s1, a.drop_first(), b, x);
        assert(run(s, a + b, x).1 =~= run(s, a, x).1 + run(run(s, a, x).0, b, x).1);
    }
}

/// Handing a single event is one step.
pub proof fn lemma_run_one(s: WalkModel, e: Event, x: Set<Seq<char>>)
    ensures
        run(s, seq![e], x) == (step(s, e, x).0, seq![step(s, e, x).1]),
{
    let evs = seq![e];
    assert(evs[0] == e);
    assert(evs.drop_first() =~= Seq::<Event>::empty());
    let s1 = step(s, e, x).0;
    assert(run(s1, Seq::<Event>::empty(), x) == (s1, Seq::<Out>::empty()));
    assert(seq![step(s, e, x).1] + Seq::<Out>::empty() =~= seq![step(s, e, x).1]);
}

/// Inside a frame at depth `s.depth`, the events of its children leave the
/// path and the depth as they were, and count each child once at the root.
proof fn lemma_frame_restored(s: WalkModel, cs: Seq<(Seq<char>, Node)>, h: nat, x: Set<Seq<char>>)
    requires
        s.depth >= 1,
    ensures
        run(s, events_of(cs, h, x), x).0 == (WalkModel {
            path: s.path,
            depth: s.depth,
            completed: s.completed + if s.depth == 1 {
                cs.len() as int
            } else {
                0int
            },
        }),
    decreases h, cs.len(),
{
    if cs.len() > 0 {
        let n = cs[0].0;
        let c1 = s.completed + if s.depth == 1 {
            1int
        } else {
            0int
        };
        let s1 = WalkModel { path: s.path, depth: s.depth, completed: c1 };
        let rest = events_of(cs.drop_first(), h, x);
        match cs[0].1 {
            Node::File => {
                let head = seq![Event::Entry(n, EntryKind::File)];
                assert(events_of(cs, h, x) == head + rest);
                lemma_run_append(s, head, rest, x);
                lemma_run_one(s, head[0], x);
                assert(head =~= seq![head[0]]);
                assert(run(s, head, x).0 == s1);
            },
            Node::Other => {
                let head = seq![Event::Entry(n, EntryKind::Other)];
                assert(events_of(cs, h, x) == head + rest);
                lemma_run_append(s, head, rest, x);
                lemma_run_one(s, head[0], x);
                assert(head =~= seq![head[0]]);
                assert(run(s, head, x).0 == s1);
            },
            Node::Dir(ch) => {
                if x.contains(n) {
                    let head = seq![Event::Entry(n, EntryKind::Directory)];
                    assert(events_of(cs, h, x) == head + rest);
                    lemma_run_append(s, head, rest, x);
                    lemma_run_one(s, head[0], x);
                    assert(head =~= seq![head[0]]);
                    assert(run(s, head, x).0 == s1);
                } else {
                    let inner = WalkModel { path: s.path.push(n), depth: s.depth + 1, completed: c1 };
                    let e1 = seq![Event::Entry(n, EntryKind::Directory)];
                    let mid = if h == 0 {
                        Seq::<Event>::empty()
                    } else {
                        events_of(ch, (h - 1) as nat, x)
                    };
                    let head = e1 + mid + seq![Event::Exhausted];
                    if h == 0 {
                        assert(e1 + mid =~= e1);
                    }
                    assert(events_of(cs, h, x) == head + rest);
                    lemma_run_append(s, head, rest, x);
                    lemma_run_append(s, e1 + mid, seq![Event::Exhausted], x);
                    lemma_run_append(s, e1, mid, x);
                    lemma_run_one(s, e1[0], x);
                    assert(e1 =~= seq![e1[0]]);
                    assert(run(s, e1, x).0 == inner);
                    if h > 0 {
                        lemma_frame_restored(inner, ch, (h - 1) as nat, x);
                    }
                    assert(run(s, e1 + mid, x).0 == inner);
                    assert(inner.path.drop_last() =~= s.path);
                    lemma_run_one(inner, Event::Exhausted, x);
                    assert(run(inner, seq![Event::Exhausted], x).0 == s1);
                    assert(run(s, head, x).0 == s1);
                }
            },
        }
        lemma_frame_restored(s1, cs.drop_first(), h, x);
    }
}

/// At the end of a walk, every direct child of the source root has been
/// counted exactly once, excluded children included, and the walk is over.
pub proof fn lemma_counts_root_children(cs: Seq<(Seq<char>, Node)>, h: nat, x: Set<Seq<char>>)
    ensures
        run(start(), walk_events(cs, h, x), x).0.completed == cs.len(),
        run(start(), walk_events(cs, h, x), x).0.depth == 0,
{
    lemma_frame_restored(start(), cs, h, x);
    assert(walk_events(cs, h, x) =~= events_of(cs, h, x) + seq![Event::Exhausted]);
    lemma_run_append(start(), events_of(cs, h, x), seq![Event::Exhausted], x);
    lemma_run_one(run(start(), events_of(cs, h, x), x).0, Event::Exhausted, x);
}

/// The paths of the files below the children `cs` of the directory at
/// `prefix`: every file whose name and whose directories' names are not
/// excluded, reading at most `h` levels further down.
pub open spec fn files_under(
    prefix: Seq<Seq<char>>,
    cs: Seq<(Seq<char>, Node)>,
    h: nat,
    x: Set<Seq<char>>,
) -> Set<Seq<Seq<char>>>
    decreases h, cs.len(),
{
    if cs.len() == 0 {
        Set::empty()
    } else {
        let n = cs[0].0;
        let here = if x.contains(n) {
            Set::empty()
        } else {
            match cs[0].1 {
                Node::File => set![prefix.push(n)],
                Node::Other => Set::empty(),
                Node::Dir(ch) => if h == 0 {
                    Set::empty()
                } else {
                    files_under(prefix.push(n), ch, (h - 1) as nat, x)
                },
            }
        };
        here + files_under(prefix, cs.drop_first(), h, x)
    }
}

/// The paths of the directories below the children `cs` of the directory at
/// `prefix` whose names, and whose parents' names, are not excluded.
pub open spec fn dirs_under(
    prefix: Seq<Seq<char>>,
    cs: Seq<(Seq<char>, Node)>,
    h: nat,
    x: Set<Seq<char>>,
) -> Set<Seq<Seq<char>>>
    decreases h, cs.len(),
{
    if cs.len() == 0 {
        Set::empty()
    } else {
        let n = cs[0].0;
        let here = if x.contains(n) {
            Set::empty()
        } else {
            match cs[0].1 {
                Node::Dir(ch) => if h == 0 {
                    set![prefix.push(n)]
                } else {
                    set![prefix.push(n)] + dirs_under(prefix.push(n), ch, (h - 1) as nat, x)
                },
                _ => Set::empty(),
            }
        };
        here + dirs_under(prefix, cs.drop_first(), h, x)
    }
}

/// The paths that a sequence of actions transfers.
pub open spec fn transfers(outs: Seq<Out>) -> Set<Seq<Seq<char>>> {
    Set::new(|p: Seq<Seq<char>>| exists|i: int| 0 <= i < outs.len() && outs[i] == Out::Transfer(p))
}

/// The directories that a sequence of actions creates.
pub open spec fn created(outs: Seq<Out>) -> Set<Seq<Seq<char>>> {
    Set::new(|p: Seq<Seq<char>>| exists|i: int| 0 <= i < outs.len() && outs[i] == Out::Descend(p))
}

proof fn lemma_outs_union(a: Seq<Out>, b: Seq<Out>)
    ensures
        transfers(a + b) == transfers(a) + transfers(b),
        created(a + b) == created(a) + created(b),
{
    assert forall|p: Seq<Seq<char>>| transfers(a + b).contains(p) implies (transfers(a)
        + transfers(b)).contains(p) by {
        let i = choose|i: int| 0 <= i < (a + b).len() && (a + b)[i] == Out::Transfer(p);
        if i < a.len() {
            assert(a[i] == (a + b)[i]);
        } else {
            assert(b[i - a.len()] == (a + b)[i]);
        }
    }
    assert forall|p: Seq<Seq<char>>| (transfers(a) + transfers(b)).contains(p) implies transfers(
        a + b,
    ).contains(p) by {
        if transfers(a).contains(p) {
            let i = choose|i: int| 0 <= i < a.len() && a[i] == Out::Transfer(p);
            assert((a + b)[i] == a[i]);
        } else {
            let i = choose|i: int| 0 <= i < b.len() && b[i] == Out::Transfer(p);
            assert((a + b)[i + a.len()] == b[i]);
        }
    }
    assert forall|p: Seq<Seq<char>>| created(a + b).contains(p) implies (created(a) + created(
        b,
    )).contains(p) by {
        let i = choose|i: int| 0 <= i < (a + b).len() && (a + b)[i] == Out::Descend(p);
        if i < a.len() {
            assert(a[i] == (a + b)[i]);
        } else {
            assert(b[i - a.len()] == (a + b)[i]);
        }
    }
    assert forall|p: Seq<Seq<char>>| (created(a) + created(b)).contains(p) implies created(
        a + b,
    ).contains(p) by {
        if created(a).contains(p) {
            let i = choose|i: int| 0 <= i < a.len() && a[i] == Out::Descend(p);
            assert((a + b)[i] == a[i]);
        } else {
            let i = choose|i: int| 0 <= i < b.len() && b[i] == Out::Descend(p);
            assert((a + b)[i + a.len()] == b[i]);
        }
    }
    assert(transfers(a + b) =~= transfers(a) + transfers(b));
    assert(created(a + b) =~= created(a) + created(b));
}

proof fn lemma_outs_one(o: Out)
    ensures
        transfers(seq![o]) == match o {
            Out::Transfer(p) => set![p],
            _ => Set::empty(),
        },
        created(seq![o]) == match o {
            Out::Descend(p) => set![p],
            _ => Set::empty(),
        },
{
    let s = seq![o];
    assert(s[0] == o);
    assert(transfers(s) =~= match o {
        Out::Transfer(p) => set![p],
        _ => Set::empty(),
    });
    assert(created(s) =~= match o {
        Out::Descend(p) => set![p],
        _ => Set::empty(),
    });
}

/// Inside a frame whose path is `s.path`, the events of its children
/// transfer exactly the files below it and create exactly the directories
/// below it.
proof fn lemma_frame_outputs(s: WalkModel, cs: Seq<(Seq<char>, Node)>, h: nat, x: Set<Seq<char>>)
    requires
        s.depth >= 1,
    ensures
        transfers(run(s, events_of(cs, h, x), x).1) == files_under(s.path, cs, h, x),
        created(run(s, events_of(cs, h, x), x).1) == dirs_under(s.path, cs, h, x),
    decreases h, cs.len(),
{
    if cs.len() == 0 {
        assert(transfers(Seq::<Out>::empty()) =~= Set::empty());
        assert(created(Seq::<Out>::empty()) =~= Set::empty());
    } else {
        let n = cs[0].0;
        let rest_cs = cs.drop_first();
        let rest = events_of(rest_cs, h, x);
        let one = cs.subrange(0, 1);
        assert(one.drop_first() =~= Seq::<(Seq<char>, Node)>::empty());
        assert(one[0] == cs[0]);
        let head = events_of(one, h, x);
        assert(events_of(one.drop_first(), h, x) == Seq::<Event>::empty());
        let hd = events_of(cs, h, x).subrange(0, events_of(cs, h, x).len() - rest.len());
        assert(hd + Seq::<Event>::empty() =~= hd);
        assert(events_of(cs, h, x) =~= hd + rest);
        assert(head == hd);
        assert(events_of(cs, h, x) == head + rest);
        lemma_frame_restored(s, one, h, x);
        let s1 = run(s, head, x).0;
        assert(s1.path == s.path && s1.depth == s.depth);
        lemma_run_append(s, head, rest, x);
        lemma_outs_union(run(s, head, x).1, run(s1, rest, x).1);
        lemma_frame_outputs(s1, rest_cs, h, x);
        let fh = if x.contains(n) {
            Set::<Seq<Seq<char>>>::empty()
        } else {
            match cs[0].1 {
                Node::File => set![s.path.push(n)],
                Node::Other => Set::empty(),
                Node::Dir(ch) => if h == 0 {
                    Set::empty()
                } else {
                    files_under(s.path.push(n), ch, (h - 1) as nat, x)
                },
            }
        };
        let dh = if x.contains(n) {
            Set::<Seq<Seq<char>>>::empty()
        } else {
            match cs[0].1 {
                Node::Dir(ch) => if h == 0 {
                    set![s.path.push(n)]
                } else {
                    set![s.path.push(n)] + dirs_under(s.path.push(n), ch, (h - 1) as nat, x)
                },
                _ => Set::empty(),
            }
        };
        assert(files_under(s.path, cs, h, x) == fh + files_under(s.path, rest_cs, h, x));
        assert(dirs_under(s.path, cs, h, x) == dh + dirs_under(s.path, rest_cs, h, x));
        let e0 = Event::Entry(n, match cs[0].1 {
            Node::File => EntryKind::File,
            Node::Other => EntryKind::Other,
            Node::Dir(_) => EntryKind::Directory,
        });
        let opened = match cs[0].1 {
            Node::Dir(_) => !x.contains(n),
            _ => false,
        };
        if !opened {
            assert(head =~= seq![e0]);
            lemma_run_one(s, e0, x);
            lemma_outs_one(step(s, e0, x).1);
            assert(transfers(run(s, head, x).1) =~= fh);
            assert(created(run(s, head, x).1) =~= dh);
        } else {
            let ch = cs[0].1->Dir_0;
            let inner = WalkModel {
                path: s.path.push(n),
                depth: s.depth + 1,
                completed: s1.completed,
            };
            let e1 = seq![e0];
            let mid = if h == 0 {
                Seq::<Event>::empty()
            } else {
                events_of(ch, (h - 1) as nat, x)
            };
            let last = seq![Event::Exhausted];
            if h == 0 {
                assert(e1 + mid =~= e1);
            }
            assert(head == e1 + mid + last);
            lemma_run_append(s, e1 + mid, last, x);
            lemma_run_append(s, e1, mid, x);
            lemma_run_one(s, e0, x);
            assert(run(s, e1, x).0 == inner);
            if h > 0 {
                lemma_frame_restored(inner, ch, (h - 1) as nat, x);
                lemma_frame_outputs(inner, ch, (h - 1) as nat, x);
            } else {
                assert(transfers(Seq::<Out>::empty()) =~= Set::empty());
                assert(created(Seq::<Out>::empty()) =~= Set::empty());
            }
            assert(run(s, e1 + mid, x).0 == inner);
            lemma_run_one(inner, Event::Exhausted, x);
            lemma_outs_one(step(s, e0, x).1);
            lemma_outs_one(step(inner, Event::Exhausted, x).1);
            lemma_outs_union(run(s, e1, x).1, run(inner, mid, x).1);
            lemma_outs_union(run(s, e1 + mid, x).1, run(inner, last, x).1);
            assert(transfers(run(s, head, x).1) =~= fh);
            assert(created(run(s, head, x).1) =~= dh);
        }
    }
}

/// A whole walk transfers exactly the files of the source tree whose path
/// holds no excluded name, each to the same path relative to the
/// destination root; with nothing excluded, that is every file.
pub proof fn lemma_walk_transfers_files(cs: Seq<(Seq<char>, Node)>, h: nat, x: Set<Seq<char>>)
    ensures
        transfers(run(start(), walk_events(cs, h, x), x).1) == files_under(
            Seq::empty(),
            cs,
            h,
            x,
        ),
{
    lemma_walk_outputs(cs, h, x);
}

/// A whole walk creates exactly the directories of the source tree whose
/// path holds no excluded name, empty ones included.
pub proof fn lemma_walk_creates_dirs(cs: Seq<(Seq<char>, Node)>, h: nat, x: Set<Seq<char>>)
    ensures
        created(run(start(), walk_events(cs, h, x), x).1) == dirs_under(Seq::empty(), cs, h, x),
{
    lemma_walk_outputs(cs, h, x);
}

proof fn lemma_walk_outputs(cs: Seq<(Seq<char>, Node)>, h: nat, x: Set<Seq<char>>)
    ensures
        transfers(run(start(), walk_events(cs, h, x), x).1) == files_under(
            Seq::empty(),
            cs,
            h,
            x,
        ),
        created(run(start(), walk_events(cs, h, x), x).1) == dirs_under(Seq::empty(), cs, h, x),
{
    let evs = events_of(cs, h, x);
    let last = seq![Event::Exhausted];
    lemma_frame_outputs(start(), cs, h, x);
    lemma_frame_restored(start(), cs, h, x);
    assert(walk_events(cs, h, x) =~= evs + last);
    lemma_run_append(start(), evs, last, x);
    let s1 = run(start(), evs, x).0;
    lemma_run_one(s1, Event::Exhausted, x);
    lemma_outs_one(step(s1, Event::Exhausted, x).1);
    lemma_outs_union(run(start(), evs, x).1, run(s1, last, x).1);
    assert(transfers(run(start(), walk_events(cs, h, x), x).1) =~= files_under(
        Seq::empty(),
        cs,
        h,
        x,
    ));
    assert(created(run(start(), walk_events(cs, h, x), x).1) =~= dirs_under(
        Seq::empty(),
        cs,
        h,
        x,
    ));
}

/// No component of the path `p` is an excluded name.
pub open spec fn clear_of(p: Seq<Seq<char>>, x: Set<Seq<char>>) -> bool {
    forall|i: int| 0 <= i < p.len() ==> !x.contains(#[trigger] p[i])
}

proof fn lemma_under_clear(prefix: Seq<Seq<char>>, cs: Seq<(Seq<char>, Node)>, h: nat, x: Set<Seq<char>>)
    requires
        clear_of(prefix, x),
    ensures
        forall|p| #[trigger] files_under(prefix, cs, h, x).contains(p) ==> clear_of(p, x),
        forall|p| #[trigger] dirs_under(prefix, cs, h, x).contains(p) ==> clear_of(p, x),
    decreases h, cs.len(),
{
    if cs.len() > 0 {
        let n = cs[0].0;
        let q = prefix.push(n);
        let rest = cs.drop_first();
        lemma_under_clear(prefix, rest, h, x);
        if !x.contains(n) {
            assert forall|i: int| 0 <= i < q.len() implies !x.contains(#[trigger] q[i]) by {
                if i < prefix.len() {
                    assert(q[i] == prefix[i]);
                }
            }
        }
        let fh = if x.contains(n) {
            Set::<Seq<Seq<char>>>::empty()
        } else {
            match cs[0].1 {
                Node::File => set![q],
                Node::Other => Set::empty(),
                Node::Dir(ch) => if h == 0 {
                    Set::empty()
                } else {
                    files_under(q, ch, (h - 1) as nat, x)
                },
            }
        };
        let dh = if x.contains(n) {
            Set::<Seq<Seq<char>>>::empty()
        } else {
            match cs[0].1 {
                Node::Dir(ch) => if h == 0 {
                    set![q]
                } else {
                    set![q] + dirs_under(q, ch, (h - 1) as nat, x)
                },
                _ => Set::empty(),
            }
        };
        assert(files_under(prefix, cs, h, x) == fh + files_under(prefix, rest, h, x));
        assert(dirs_under(prefix, cs, h, x) == dh + dirs_under(prefix, rest, h, x));
        if !x.contains(n) {
            match cs[0].1 {
                Node::Dir(ch) => {
                    if h > 0 {
                        lemma_under_clear(q, ch, (h - 1) as nat, x);
                    }
                },
                _ => {},
            }
        }
        assert forall|p| #[trigger] fh.contains(p) implies clear_of(p, x) by {}
        assert forall|p| #[trigger] dh.contains(p) implies clear_of(p, x) by {}
    }
}

/// No file transferred and no directory created by a whole walk has an
/// excluded name anywhere in its path.
pub proof fn lemma_walk_avoids_excluded(cs: Seq<(Seq<char>, Node)>, h: nat, x: Set<Seq<char>>)
    ensures
        forall|p| #[trigger]
            transfers(run(start(), walk_events(cs, h, x), x).1).contains(p) ==> clear_of(p, x),
        forall|p| #[trigger]
            created(run(start(), walk_events(cs, h, x), x).1).contains(p) ==> clear_of(p, x),
{
    lemma_walk_outputs(cs, h, x);
    lemma_under_clear(Seq::empty(), cs, h, x);
}

} // verus!
