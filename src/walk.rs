use crate::tree::Tree;
use vstd::prelude::*;

verus! {

/// Which entries a walk keeps and how deep it descends.
#[derive(Clone, Copy, Debug, PartialEq, Eq)]
pub struct FilterConfig {
    /// Keep entries whose name starts with a dot.
    pub include_hidden: bool,
    /// Deepest level whose directories are expanded; `None` is unbounded,
    /// `Some(0)` keeps the root unexpanded.
    pub max_depth: Option<u32>,
}

/// One entry of a directory listing.
#[derive(Debug, PartialEq, Eq)]
pub struct Entry {
    /// The final path component.
    pub name: String,
    pub is_dir: bool,
}

/// What a walk does with one listed entry.
#[derive(Clone, Copy, Debug, PartialEq, Eq, Structural)]
pub enum EntryAction {
    /// Hidden and filtered out: nothing of it appears.
    Skip,
    /// Attached as a file.
    Leaf,
    /// A directory attached without children: it lies at the depth limit.
    Collapsed,
    /// A directory whose own listing is read and walked.
    Expand,
}

/// A name that the filesystem convention hides: it begins with a dot.
pub open spec fn hidden(name: Seq<char>) -> bool {
    name.len() > 0 && name[0] == '.'
}

/// A directory at `level` (the root is at 0, its entries at 1) has its own
/// listing read.
pub open spec fn expands(config: FilterConfig, level: nat) -> bool {
    match config.max_depth {
        None => true,
        Some(m) => level < m,
    }
}

/// The action for entry `e` listed at `level`.
pub open spec fn action_of(config: FilterConfig, e: Entry, level: nat) -> EntryAction {
    if !config.include_hidden && hidden(e.name@) {
        EntryAction::Skip
    } else if !e.is_dir {
        EntryAction::Leaf
    } else if expands(config, level) {
        EntryAction::Expand
    } else {
        EntryAction::Collapsed
    }
}

pub fn is_hidden(name: &str) -> (r: bool)
    ensures
        r == hidden(name@),
{
    name.unicode_len() > 0 && name.get_char(0) == '.'
}

pub fn expands_at(config: &FilterConfig, level: usize) -> (r: bool)
    ensures
        r == expands(*config, level as nat),
{
    match config.max_depth {
        None => true,
        Some(m) => level < m as usize,
    }
}

pub fn classify(config: &FilterConfig, e: &Entry, level: usize) -> (r: EntryAction)
    ensures
        r == action_of(*config, *e, level as nat),
{
    if !config.include_hidden && is_hidden(e.name.as_str()) {
        EntryAction::Skip
    } else if !e.is_dir {
        EntryAction::Leaf
    } else if expands_at(config, level) {
        EntryAction::Expand
    } else {
        EntryAction::Collapsed
    }
}

/// A directory of a walk whose children are still being gathered.
struct Frame {
    name: String,
    children: Vec<Tree>,
    /// The directory's listing, once it has been read.
    entries: Option<Vec<Entry>>,
    /// How many of the listed entries have been handled.
    next: usize,
}

/// The state of a directory being gathered, as the contracts see it.
pub struct FrameView {
    pub name: Seq<char>,
    pub children: Seq<Tree>,
    pub entries: Option<Seq<Entry>>,
    pub next: nat,
}

impl Frame {
    spec fn view(&self) -> FrameView {
        FrameView {
            name: self.name@,
            children: self.children@,
            entries: match self.entries {
                Some(v) => Some(v@),
                None => None,
            },
            next: self.next as nat,
        }
    }
}

/// A depth-first walk of a directory hierarchy that builds a [`Tree`]. The
/// walk never touches the filesystem: each [`Step::List`] names a directory
/// whose listing the caller hands back through [`Walk::feed`].
pub struct Walk {
    config: FilterConfig,
    stack: Vec<Frame>,
}

/// What a walk asks for next.
#[derive(Debug)]
pub enum Step {
    /// Read the listing of the directory at this path, given by its
    /// components below the root, and feed it to the walk.
    List(Vec<String>),
    /// One entry or one finished directory was handled; step again.
    Continue,
    /// The walk is over: the root's tree.
    Done(Tree),
}

/// `t` is a node of the given kind, name and children.
pub open spec fn node_is(t: Tree, is_dir: bool, name: Seq<char>, children: Seq<Tree>) -> bool {
    &&& if is_dir {
        t is Dir
    } else {
        t is File
    }
    &&& t.name_view() == name
    &&& t.children_view() == children
}

/// `q` is `p` with one more child, described by the other arguments, and its
/// cursor at `next`.
pub open spec fn with_child(
    p: FrameView,
    q: FrameView,
    next: nat,
    is_dir: bool,
    name: Seq<char>,
    children: Seq<Tree>,
) -> bool {
    &&& q.name == p.name
    &&& q.entries == p.entries
    &&& q.next == next
    &&& q.children.len() == p.children.len() + 1
    &&& q.children.drop_last() == p.children
    &&& node_is(q.children.last(), is_dir, name, children)
}

/// The path of the innermost directory of a walk: the names of every
/// directory on the stack but the root.
pub open spec fn path_of(frames: Seq<FrameView>) -> Seq<Seq<char>> {
    frames.subrange(1, frames.len() as int).map_values(|f: FrameView| f.name)
}

/// A frame's cursor lies within its listing.
pub open spec fn cursor_in_range(f: FrameView) -> bool {
    f.entries matches Some(es) ==> f.next <= es.len()
}

/// A listing of the directory at `path` (components below the root) is one
/// that the filter lets a walk read: within the depth limit, and through no
/// hidden name unless hidden entries are kept.
pub open spec fn may_list(config: FilterConfig, path: Seq<Seq<char>>) -> bool {
    &&& expands(config, path.len())
    &&& forall|i: int| 0 <= i < path.len() ==> config.include_hidden || !hidden(#[trigger] path[i])
}

/// Every directory on a walk's stack is one the filter lets it enter.
pub open spec fn admitted(config: FilterConfig, frames: Seq<FrameView>) -> bool {
    &&& forall|i: int|
        1 <= i < frames.len() ==> (expands(config, i as nat) && (config.include_hidden || !hidden(
            #[trigger] frames[i].name,
        )))
    &&& (frames.len() > 0 && (frames[0].entries is None)) ==> expands(config, 0)
}

proof fn lemma_path_may_be_listed(config: FilterConfig, frames: Seq<FrameView>)
    requires
        admitted(config, frames),
        frames.len() > 0,
        frames.len() == 1 ==> frames[0].entries is None,
    ensures
        may_list(config, path_of(frames)),
{
    let p = path_of(frames);
    assert(p.len() == frames.len() - 1);
    if frames.len() > 1 {
        let last = frames.len() - 1;
        let nm = frames[last].name;
        assert(config.include_hidden || !hidden(nm));
        assert(expands(config, last as nat));
    }
    assert forall|i: int| 0 <= i < p.len() implies config.include_hidden || !hidden(#[trigger] p[i]) by {
        assert(p[i] == frames[i + 1].name);
    }
}

/// A frame for a directory that was just entered.
pub open spec fn fresh(name: Seq<char>, entries: Option<Seq<Entry>>) -> FrameView {
    FrameView { name, children: Seq::empty(), entries, next: 0 }
}

/// One step of a walk, from stack `before` to stack `after`, reporting `r`.
/// The innermost directory is the one on top of the stack; its entries lie at
/// level `before.len()`.
pub open spec fn steps_to(config: FilterConfig, before: Seq<FrameView>, after: Seq<FrameView>, r: Step) -> bool {
    let top = before.last();
    let below = before.drop_last();
    match top.entries {
        None => after == before && (r matches Step::List(p) && p.deep_view() == path_of(before)),
        Some(es) => if top.next < es.len() {
            let e = es[top.next as int];
            let moved = FrameView { next: top.next + 1, ..top };
            match action_of(config, e, before.len()) {
                EntryAction::Skip => after == below.push(moved) && r is Continue,
                EntryAction::Leaf => {
                    &&& after.len() == before.len()
                    &&& after.drop_last() == below
                    &&& with_child(top, after.last(), top.next + 1, false, e.name@, Seq::empty())
                    &&& r is Continue
                },
                EntryAction::Collapsed => {
                    &&& after.len() == before.len()
                    &&& after.drop_last() == below
                    &&& with_child(top, after.last(), top.next + 1, true, e.name@, Seq::empty())
                    &&& r is Continue
                },
                EntryAction::Expand => {
                    &&& after == below.push(moved).push(fresh(e.name@, None))
                    &&& r matches Step::List(p) && p.deep_view() == path_of(after)
                },
            }
        } else if below.len() == 0 {
            after.len() == 0 && (r matches Step::Done(t) && node_is(t, true, top.name, top.children))
        } else {
            let parent = below.last();
            &&& after.len() == below.len()
            &&& after.drop_last() == below.drop_last()
            &&& with_child(parent, after.last(), parent.next, true, top.name, top.children)
            &&& r is Continue
        },
    }
}

/// Starts a walk of the directory `root`, which the tree names `root`. The
/// root's listing is asked for unless the depth limit is 0.
pub fn read_dir(root: String, config: FilterConfig) -> (w: Walk)
    ensures
        w.wf(),
        w.config() == config,
        w.frames() == seq![fresh(root@, if expands(config, 0) { None } else { Some(Seq::empty()) })],
{
    let entries = if expands_at(&config, 0) {
        None
    } else {
        Some(Vec::new())
    };
    let mut stack: Vec<Frame> = Vec::new();
    stack.push(Frame { name: root, children: Vec::new(), entries, next: 0 });
    let w = Walk { config, stack };
    proof {
        assert(w.frames() =~= seq![fresh(root@, if expands(config, 0) { None } else { Some(Seq::empty()) })]);
    }
    w
}

impl Walk {
    pub closed spec fn config(&self) -> FilterConfig {
        self.config
    }

    /// The directories being gathered, outermost first.
    pub closed spec fn frames(&self) -> Seq<FrameView> {
        self.stack@.map_values(|f: Frame| f.view())
    }

    /// Every frame's cursor lies within its listing, and every directory on
    /// the stack passed the filter.
    pub open spec fn wf(&self) -> bool {
        &&& forall|i: int| 0 <= i < self.frames().len() ==> cursor_in_range(#[trigger] self.frames()[i])
        &&& admitted(self.config(), self.frames())
    }

    /// The walk is over once its stack is empty.
    pub fn is_done(&self) -> (r: bool)
        ensures
            r == (self.frames().len() == 0),
    {
        self.stack.len() == 0
    }
    /// The components of the innermost directory's path below the root.
    fn path(&self) -> (r: Vec<String>)
        requires
            self.frames().len() > 0,
        ensures
            r.deep_view() == path_of(self.frames()),
    {
        let mut r: Vec<String> = Vec::new();
        let mut i: usize = 1;
        while i < self.stack.len()
            invariant
                1 <= i <= self.stack.len(),
                r.deep_view() =~= self.frames().subrange(1, i as int).map_values(|f: FrameView| f.name),
            decreases self.stack.len() - i,
        {
            let ghost prior = r.deep_view();
            let name = self.stack[i].name.clone();
            r.push(name);
            proof {
                assert(self.frames()[i as int] == self.stack@[i as int].view());
                assert(r.deep_view() =~= prior.push(name@));
                assert(self.frames().subrange(1, i + 1).map_values(|f: FrameView| f.name)
                    =~= self.frames().subrange(1, i as int).map_values(|f: FrameView| f.name).push(self.frames()[i as int].name));
            }
            i = i + 1;
        }
        r
    }

    /// Hands over the listing of the directory that the last [`Step::List`]
    /// asked for. A walk that asked for nothing ignores it.
    pub fn feed(&mut self, listing: Vec<Entry>)
        requires
            old(self).wf(),
            old(self).frames().len() > 0,
        ensures
            final(self).wf(),
            final(self).config() == old(self).config(),
            ({
                let top = old(self).frames().last();
                final(self).frames() == if top.entries is None {
                    old(self).frames().drop_last().push(FrameView { entries: Some(listing@), next: 0, ..top })
                } else {
                    old(self).frames()
                }
            }),
    {
        let ghost before = self.frames();
        let mut top = self.stack.pop().unwrap();
        proof {
            assert(self.frames() =~= before.drop_last());
            assert(top.view() == before.last());
        }
        let unread = match &top.entries {
            None => true,
            Some(_) => false,
        };
        if unread {
            top.entries = Some(listing);
            top.next = 0;
        }
        self.stack.push(top);
        proof {
            assert(self.frames() =~= before.drop_last().push(top.view()));
            if !unread {
                assert(self.frames() =~= before);
            }
        }
    }
    /// Handles the next entry of the innermost directory, closes that
    /// directory once its entries are done, or asks for its listing.
    pub fn step(&mut self) -> (r: Step)
        requires
            old(self).wf(),
            old(self).frames().len() > 0,
        ensures
            final(self).wf(),
            final(self).config() == old(self).config(),
            steps_to(old(self).config(), old(self).frames(), final(self).frames(), r),
            r matches Step::List(p) ==> may_list(old(self).config(), p.deep_view()),
    {
        let ghost before = self.frames();
        let level = self.stack.len();
        let mut top = self.stack.pop().unwrap();
        proof {
            assert(self.frames() =~= before.drop_last());
            assert(top.view() == before.last());
            assert(cursor_in_range(before[before.len() - 1]));
        }
        let mut pending: Option<(EntryAction, String)> = None;
        let unread = match &top.entries {
            None => true,
            Some(es) => {
                if top.next < es.len() {
                    let e = &es[top.next];
                    pending = Some((classify(&self.config, e, level), e.name.clone()));
                }
                false
            },
        };
        if unread {
            self.stack.push(top);
            proof {
                assert(self.frames() =~= before);
                lemma_path_may_be_listed(self.config, before);
            }
            return Step::List(self.path());
        }
        match pending {
            Some((action, name)) => {
                proof {
                    let es = before.last().entries->0;
                    let e = es[before.last().next as int];
                    assert(action == action_of(self.config, e, before.len()));
                    assert(name@ == e.name@);
                }
                top.next = top.next + 1;
                match action {
                    EntryAction::Skip => {
                        self.stack.push(top);
                        proof {
                            assert(self.frames() =~= before.drop_last().push(top.view()));
                            assert(steps_to(self.config, before, self.frames(), Step::Continue));
                        }
                        Step::Continue
                    },
                    EntryAction::Leaf => {
                        let ghost nv = name@;
                        top.children.push(Tree::File { name });
                        self.stack.push(top);
                        proof {
                            let after = self.frames();
                            assert(after =~= before.drop_last().push(top.view()));
                            assert(after.drop_last() =~= before.drop_last());
                            assert(after.last().children.drop_last() =~= before.last().children);
                            assert(with_child(before.last(), after.last(), before.last().next + 1, false, nv, Seq::empty()));
                            assert(steps_to(self.config, before, after, Step::Continue));
                        }
                        Step::Continue
                    },
                    EntryAction::Collapsed => {
                        let ghost nv = name@;
                        top.children.push(Tree::Dir { name, children: Vec::new() });
                        self.stack.push(top);
                        proof {
                            let after = self.frames();
                            assert(after =~= before.drop_last().push(top.view()));
                            assert(after.drop_last() =~= before.drop_last());
                            assert(after.last().children.drop_last() =~= before.last().children);
                            assert(with_child(before.last(), after.last(), before.last().next + 1, true, nv, Seq::empty()));
                            assert(steps_to(self.config, before, after, Step::Continue));
                        }
                        Step::Continue
                    },
                    EntryAction::Expand => {
                        self.stack.push(top);
                        let ghost name_view = name@;
                        self.stack.push(Frame { name, children: Vec::new(), entries: None, next: 0 });
                        proof {
                            assert(self.frames() =~= before.drop_last().push(top.view()).push(fresh(name_view, None)));
                        }
                        let p = self.path();
                        proof {
                            lemma_path_may_be_listed(self.config, self.frames());
                            assert(steps_to(self.config, before, self.frames(), Step::List(p)));
                        }
                        Step::List(p)
                    },
                }
            },
            None => {
                let t = Tree::Dir { name: top.name, children: top.children };
                if self.stack.len() == 0 {
                    proof {
                        assert(self.frames() =~= Seq::<FrameView>::empty());
                    }
                    Step::Done(t)
                } else {
                    let ghost below = self.frames();
                    let mut parent = self.stack.pop().unwrap();
                    proof {
                        assert(self.frames() =~= below.drop_last());
                        assert(parent.view() == below.last());
                    }
                    parent.children.push(t);
                    self.stack.push(parent);
                    proof {
                        assert(self.frames() =~= below.drop_last().push(parent.view()));
                        assert(parent.children@.drop_last() =~= below.last().children);
                        let after = self.frames();
                        assert(after.drop_last() =~= before.drop_last().drop_last());
                        assert(node_is(after.last().children.last(), true, before.last().name, before.last().children));
                        assert(with_child(below.last(), after.last(), below.last().next, true, before.last().name, before.last().children));
                        assert(steps_to(self.config, before, self.frames(), Step::Continue));
                    }
                    Step::Continue
                }
            },
        }
    }
}

} // verus!
