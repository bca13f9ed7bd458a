use vstd::prelude::*;

verus! {

/// A source position that identifies an instrumented scope.
#[derive(Clone, Copy, Debug, PartialEq, Eq)]
pub struct Location {
    pub name: &'static str,
    pub file: &'static str,
    pub line: u32,
    pub column: u32,
}

/// A handle to a frame stored in a [`Forest`].
#[derive(Clone, Copy, Debug, PartialEq, Eq, Structural)]
pub struct Frame {
    pub id: usize,
}

/// The kind of a frame.
#[derive(Clone, Copy, Debug)]
pub enum Kind {
    /// The frame has not been activated yet.
    Uninitialized,
    /// The frame is the root of its tree; `locked` tells whether the lock
    /// that guards the structure of the whole tree is held.
    Root { locked: bool },
    /// The frame has a parent, and sits in the parent's list of children
    /// between `prev` (more recently activated) and `next`.
    Node { parent: usize, prev: Option<usize>, next: Option<usize> },
}

/// What is stored for one frame.
#[derive(Clone, Copy, Debug)]
pub struct Slot {
    pub location: Location,
    pub kind: Kind,
    pub first_child: Option<usize>,
    pub alive: bool,
}

/// A call made to the task registry.
#[derive(Clone, Copy, Debug, PartialEq, Eq, Structural)]
pub enum TaskEvent {
    Registered(Frame),
    Deregistered(Frame),
}

/// The storage of all frames; a frame never moves once created, and is
/// referred to by its index.
pub struct Forest {
    slots: Vec<Slot>,
    events: Vec<TaskEvent>,
    /// The children of each frame, most recently activated first.
    kids: Ghost<Seq<Seq<usize>>>,
    /// The order in which frames were linked into a tree.
    order: Ghost<Seq<nat>>,
    ticks: Ghost<nat>,
}

/// The frame that is active on one thread.
pub struct Context {
    active: Option<Frame>,
}

/// An open activation of a frame, closed by [`Scope::exit`].
pub struct Scope {
    frame: Frame,
    prev: Option<Frame>,
    locked: bool,
}

/// One line of a rendered tree: box-drawing text, followed by the label of
/// `location` when there is one.
#[derive(Debug)]
pub struct TreeLine {
    pub text: Vec<char>,
    pub location: Option<Location>,
}

pub open spec fn line_view(l: TreeLine) -> (Seq<char>, Option<Location>) {
    (l.text@, l.location)
}

pub open spec fn lines_view(ls: Seq<TreeLine>) -> Seq<(Seq<char>, Option<Location>)> {
    ls.map_values(|l: TreeLine| line_view(l))
}

/// The connector drawn before a frame: the last child of its parent closes
/// the branch.
pub open spec fn connector(is_last: bool) -> Seq<char> {
    if is_last {
        seq!['\u{2514}', '\u{257c}', ' ']
    } else {
        seq!['\u{251c}', '\u{257c}', ' ']
    }
}

/// The indentation under a frame, for its children.
pub open spec fn indent(is_last: bool) -> Seq<char> {
    if is_last {
        seq![' ', ' ', ' ']
    } else {
        seq!['\u{2502}', ' ', ' ']
    }
}

/// The text of a frame's line; the first three characters are left out, so
/// that the top frame starts at the margin.
pub open spec fn frame_text(prefix: Seq<char>, is_last: bool) -> Seq<char> {
    prefix.add(connector(is_last)).skip(3)
}

/// The line that stands for children that cannot be read now.
pub open spec fn polling_text(prefix: Seq<char>) -> Seq<char> {
    prefix.add(seq!['\u{2514}', '\u{2508}', ' ', '[', 'P', 'O', 'L', 'L', 'I', 'N', 'G', ']'])
}

/// The indentation of the top frame of a drawing.
pub open spec fn margin() -> Seq<char> {
    seq![' ', ' ']
}

pub open spec fn opt_int(o: Option<usize>) -> Option<int> {
    match o {
        Some(x) => Some(x as int),
        None => None,
    }
}

impl Forest {
    pub closed spec fn slot(&self, i: int) -> Slot {
        self.slots@[i]
    }

    pub closed spec fn len(&self) -> int {
        self.slots@.len() as int
    }

    /// The children of frame `i`, most recently activated first.
    pub closed spec fn children(&self, i: int) -> Seq<usize> {
        self.kids@[i]
    }

    /// The calls made to the task registry so far.
    pub closed spec fn log(&self) -> Seq<TaskEvent> {
        self.events@
    }

    /// How many frames have been linked into a tree so far.
    pub closed spec fn linked(&self) -> nat {
        self.ticks@
    }

    pub closed spec fn rank(&self, i: int) -> nat {
        self.order@[i]
    }

    pub open spec fn kind(&self, i: int) -> Kind {
        self.slot(i).kind
    }

    pub open spec fn alive(&self, i: int) -> bool {
        0 <= i < self.len() && self.slot(i).alive
    }

    pub open spec fn initialized(&self, i: int) -> bool {
        !(self.kind(i) is Uninitialized)
    }

    /// A handle that refers to a frame that still exists.
    pub open spec fn valid(&self, f: Frame) -> bool {
        self.alive(f.id as int)
    }

    /// The parent of frame `i`, if it has one.
    pub open spec fn parent_of(&self, i: int) -> Option<int> {
        match self.kind(i) {
            Kind::Node { parent, .. } => Some(parent as int),
            _ => None,
        }
    }

    pub open spec fn prev_of(&self, i: int) -> Option<int> {
        match self.kind(i) {
            Kind::Node { prev, .. } => opt_int(prev),
            _ => None,
        }
    }

    pub open spec fn next_of(&self, i: int) -> Option<int> {
        match self.kind(i) {
            Kind::Node { next, .. } => opt_int(next),
            _ => None,
        }
    }

    pub open spec fn is_locked(&self, i: int) -> bool {
        match self.kind(i) {
            Kind::Root { locked } => locked,
            _ => false,
        }
    }

    pub closed spec fn kid_ok(&self, p: int, k: int) -> bool {
        let s = self.kids@[p];
        let c = s[k] as int;
        &&& 0 <= c < self.len()
        &&& self.slot(c).alive
        &&& self.parent_of(c) == Some(p)
        &&& self.prev_of(c) == (if k == 0 { None } else { Some(s[k - 1] as int) })
        &&& self.next_of(c) == (if k + 1 == s.len() { None } else { Some(s[k + 1] as int) })
    }

    pub closed spec fn slot_ok(&self, i: int) -> bool {
        let s = self.slot(i);
        let ks = self.kids@[i];
        &&& s.first_child == (if ks.len() == 0 { None } else { Some(ks[0]) })
        &&& (!s.alive || s.kind is Uninitialized) ==> ks.len() == 0
        &&& s.alive && !(s.kind is Uninitialized) ==> self.order@[i] < self.ticks@
        &&& s.alive ==> match s.kind {
            Kind::Node { parent, .. } => {
                &&& 0 <= parent < self.len()
                &&& self.kids@[parent as int].contains(i as usize)
                &&& self.order@[parent as int] < self.order@[i]
            },
            _ => true,
        }
    }

    /// The frames met by following parents from `i`, with at most `fuel` steps.
    pub open spec fn chain(&self, i: int, fuel: nat) -> Seq<Frame>
        decreases fuel,
    {
        if fuel == 0 {
            Seq::empty()
        } else {
            match self.parent_of(i) {
                Some(p) => seq![Frame { id: i as usize }].add(self.chain(p, (fuel - 1) as nat)),
                None => seq![Frame { id: i as usize }],
            }
        }
    }

    /// The ancestors of frame `i`, from `i` itself up to its root.
    pub open spec fn ancestors(&self, i: int) -> Seq<Frame> {
        self.chain(i, self.rank(i) + 1)
    }

    /// The locations of a sequence of frames.
    pub open spec fn locations(&self, fs: Seq<Frame>) -> Seq<Location> {
        fs.map_values(|f: Frame| self.slot(f.id as int).location)
    }

    /// The lines that draw frame `i` and, depth first, its descendants.
    pub open spec fn subtree_lines(&self, i: int, is_last: bool, prefix: Seq<char>, fuel: nat) -> Seq<
        (Seq<char>, Option<Location>),
    >
        decreases fuel, 0nat, 0int,
    {
        if fuel == 0 {
            Seq::empty()
        } else {
            seq![(frame_text(prefix, is_last), Some(self.slot(i).location))].add(
                self.children_lines(i, 0, prefix.add(indent(is_last)), (fuel - 1) as nat),
            )
        }
    }

    /// The lines that draw the children of `p` from the `k`-th on.
    pub open spec fn children_lines(&self, p: int, k: int, prefix: Seq<char>, fuel: nat) -> Seq<
        (Seq<char>, Option<Location>),
    >
        decreases fuel, 1nat, self.children(p).len() - k,
    {
        if k < 0 || k >= self.children(p).len() {
            Seq::empty()
        } else {
            let n = self.children(p).len();
            self.subtree_lines(self.children(p)[k] as int, k + 1 == n, prefix, fuel).add(
                self.children_lines(p, k + 1, prefix, fuel),
            )
        }
    }

    /// The drawing of the tree under frame `i`: the frame itself and, when
    /// the lock of its root is free, all its descendants; otherwise one line
    /// that says they are being polled.
    pub open spec fn drawing(&self, i: int) -> Seq<(Seq<char>, Option<Location>)> {
        let root = self.ancestors(i).last().id as int;
        if self.is_locked(root) {
            seq![(frame_text(margin(), true), Some(self.slot(i).location)), (polling_text(margin()), None)]
        } else {
            self.subtree_lines(i, true, margin(), (self.linked() + 2) as nat)
        }
    }

    pub closed spec fn wf(&self) -> bool {
        &&& self.slots@.len() <= usize::MAX
        &&& self.kids@.len() == self.slots@.len()
        &&& self.order@.len() == self.slots@.len()
        &&& forall|i: int| 0 <= i < self.len() ==> #[trigger] self.slot_ok(i)
        &&& forall|p: int, k: int|
            0 <= p < self.len() && 0 <= k < self.kids@[p].len() ==> #[trigger] self.kid_ok(p, k)
        &&& forall|p: int, j: int, k: int|
            0 <= p < self.len() && 0 <= j < self.kids@[p].len() && 0 <= k < self.kids@[p].len()
                && #[trigger] self.kids@[p][j] == #[trigger] self.kids@[p][k] ==> j == k
    }

    /// Whether `f` is a frame of this forest that has not been destroyed.
    pub fn is_live(&self, f: Frame) -> (r: bool)
        ensures
            r == self.valid(f),
    {
        f.id < self.slots.len() && self.slots[f.id].alive
    }

    /// The calls made to the task registry so far, oldest first.
    pub fn events(&self) -> (r: &Vec<TaskEvent>)
        ensures
            r@ == self.log(),
    {
        &self.events
    }

    /// An empty forest.
    pub fn new() -> (r: Forest)
        ensures
            r.wf(),
            r.len() == 0,
            r.log() == Seq::<TaskEvent>::empty(),
    {
        Forest {
            slots: Vec::new(),
            events: Vec::new(),
            kids: Ghost(Seq::empty()),
            order: Ghost(Seq::empty()),
            ticks: Ghost(0),
        }
    }
}

impl Context {
    /// The frame active on this thread, if any.
    pub closed spec fn active(&self) -> Option<Frame> {
        self.active
    }

    /// The innermost frame active on this thread, if any.
    pub fn current_active(&self) -> (r: Option<Frame>)
        ensures
            r == self.active(),
    {
        self.active
    }

    /// A thread on which no frame is active.
    pub fn new() -> (r: Context)
        ensures
            r.active() is None,
    {
        Context { active: None }
    }
}

impl Scope {
    pub closed spec fn frame(&self) -> Frame {
        self.frame
    }

    /// The frame that was active before this scope was entered.
    pub closed spec fn prev(&self) -> Option<Frame> {
        self.prev
    }

    /// Whether entering this scope took the root's lock.
    pub closed spec fn took_lock(&self) -> bool {
        self.locked
    }
}

impl Forest {
    /// The active frame of `cx`, if any, is a frame of this forest that has
    /// been linked into a tree.
    pub open spec fn context_ok(&self, cx: &Context) -> bool {
        match cx.active() {
            Some(a) => self.valid(a) && self.initialized(a.id as int),
            None => true,
        }
    }

    /// Nothing but the links of frame `c` changed from `old`: locations,
    /// liveness, parents and locks of every other frame stay.
    pub open spec fn others_kept(&self, old: &Forest, c: int) -> bool {
        &&& self.len() == old.len()
        &&& forall|i: int| 0 <= i < self.len() ==> #[trigger] self.slot(i).location == old.slot(i).location
        &&& forall|i: int| 0 <= i < self.len() ==> #[trigger] self.alive(i) == old.alive(i)
        &&& forall|i: int| 0 <= i < self.len() && i != c ==> #[trigger] self.parent_of(i) == old.parent_of(i)
        &&& forall|i: int| 0 <= i < self.len() && i != c ==> #[trigger] self.initialized(i) == old.initialized(i)
        &&& forall|i: int| 0 <= i < self.len() && i != c ==> #[trigger] self.is_locked(i) == old.is_locked(i)
        &&& forall|i: int| 0 <= i < self.len() && i != c ==> (#[trigger] self.kind(i) is Root) == (old.kind(i) is Root)
    }

    /// What activating frame `f` makes of forest `old`, when `active` was the
    /// active frame: `f` is linked into a tree (on its first activation only)
    /// and, if it is a root, its lock is held.
    pub open spec fn entered(&self, old: &Forest, active: Option<Frame>, f: Frame) -> bool {
        let i = f.id as int;
        &&& self.wf()
        &&& self.others_kept(old, i)
        &&& self.valid(f)
        &&& self.initialized(i)
        &&& self.slot(i).location == old.slot(i).location
        &&& self.kind(i) is Root ==> self.is_locked(i)
        &&& self.children(i) == old.children(i)
        &&& old.initialized(i) ==> {
            &&& self.parent_of(i) == old.parent_of(i)
            &&& (self.kind(i) is Root) == (old.kind(i) is Root)
            &&& self.log() == old.log()
            &&& forall|j: int| 0 <= j < old.len() ==> #[trigger] self.children(j) == old.children(j)
            &&& forall|j: int| 0 <= j < old.len() ==> #[trigger] self.prev_of(j) == old.prev_of(j)
            &&& forall|j: int| 0 <= j < old.len() ==> #[trigger] self.next_of(j) == old.next_of(j)
        }
        &&& !old.initialized(i) ==> match active {
            None => {
                &&& self.ancestors(i) == seq![f]
                &&& self.kind(i) is Root
                &&& self.parent_of(i) is None
                &&& self.log() == old.log().push(TaskEvent::Registered(f))
                &&& forall|j: int| 0 <= j < old.len() ==> #[trigger] self.children(j) == old.children(j)
            },
            Some(a) => {
                &&& self.parent_of(i) == Some(a.id as int)
                &&& !(self.kind(i) is Root)
                &&& self.ancestors(i) == seq![f].add(old.ancestors(a.id as int))
                &&& self.log() == old.log()
                &&& self.children(a.id as int) == seq![f.id].add(old.children(a.id as int))
                &&& self.prev_of(i) is None
                &&& self.next_of(i) == (if old.children(a.id as int).len() == 0 {
                    None
                } else {
                    Some(old.children(a.id as int)[0] as int)
                })
                &&& forall|j: int| 0 <= j < old.len() && j != a.id ==> #[trigger] self.children(j) == old.children(j)
            },
        }
    }

    /// What closing an activation of frame `f` makes of forest `old`: only
    /// the lock of `f` is released, when the activation took it.
    pub open spec fn exited(&self, old: &Forest, f: Frame, took_lock: bool) -> bool {
        let i = f.id as int;
        &&& self.wf()
        &&& self.others_kept(old, i)
        &&& self.slot(i).location == old.slot(i).location
        &&& self.alive(i) == old.alive(i)
        &&& self.initialized(i) == old.initialized(i)
        &&& self.parent_of(i) == old.parent_of(i)
        &&& self.log() == old.log()
        &&& forall|j: int| 0 <= j < old.len() ==> #[trigger] self.children(j) == old.children(j)
        &&& forall|j: int| 0 <= j < old.len() ==> #[trigger] self.prev_of(j) == old.prev_of(j)
        &&& forall|j: int| 0 <= j < old.len() ==> #[trigger] self.next_of(j) == old.next_of(j)
        &&& took_lock ==> self.kind(i) == (Kind::Root { locked: false })
        &&& !took_lock ==> self.kind(i) == old.kind(i)
    }

    /// Links uninitialized frame `c` into a tree: as a root when there is no
    /// parent, else at the front of the parent's children.
    fn initialize(&mut self, c: usize, parent: Option<usize>)
        requires
            old(self).wf(),
            old(self).alive(c as int),
            !old(self).initialized(c as int),
            match parent {
                Some(p) => old(self).alive(p as int) && old(self).initialized(p as int),
                None => true,
            },
        ensures
            final(self).wf(),
            final(self).others_kept(old(self), c as int),
            final(self).alive(c as int),
            final(self).slot(c as int).location == old(self).slot(c as int).location,
            final(self).children(c as int) == old(self).children(c as int),
            forall|j: int| 0 <= j < old(self).len() && j != c ==> #[trigger] final(self).rank(j) == old(self).rank(j),
            match parent {
                None => {
                    &&& final(self).kind(c as int) == Kind::Root { locked: false }
                    &&& final(self).log() == old(self).log().push(TaskEvent::Registered(Frame { id: c }))
                    &&& forall|i: int| 0 <= i < old(self).len() ==>
                        #[trigger] final(self).children(i) == old(self).children(i)
                },
                Some(p) => {
                    &&& final(self).parent_of(c as int) == Some(p as int)
                    &&& final(self).prev_of(c as int) is None
                    &&& final(self).next_of(c as int) == (if old(self).children(p as int).len() == 0 {
                        None
                    } else {
                        Some(old(self).children(p as int)[0] as int)
                    })
                    &&& final(self).log() == old(self).log()
                    &&& final(self).children(p as int) == seq![c].add(old(self).children(p as int))
                    &&& forall|i: int| 0 <= i < old(self).len() && i != p ==>
                        #[trigger] final(self).children(i) == old(self).children(i)
                },
            },
    {
        let ghost old_f = *self;
        proof {
            assert(old_f.slot_ok(c as int));
            if let Some(p) = parent {
                assert(old_f.slot_ok(p as int));
            }
        }
        match parent {
            None => {
                let mut s = self.slots[c];
                s.kind = Kind::root();
                self.slots.set(c, s);
                self.events.push(TaskEvent::Registered(Frame { id: c }));
                proof {
                    self.order@ = self.order@.update(c as int, self.ticks@);
                    self.ticks@ = self.ticks@ + 1;
                    let f = *self;
                    assert forall|i: int| 0 <= i < f.len() implies #[trigger] f.slot_ok(i) by {
                        assert(old_f.slot_ok(i));
                        if i != c {
                            if f.slot(i).alive {
                                if let Kind::Node { parent, .. } = f.slot(i).kind {
                                    assert(old_f.kids@[parent as int] == f.kids@[parent as int]);
                                    assert(parent != c) by {
                                        if parent == c {
                                            assert(old_f.kids@[c as int].len() == 0);
                                        }
                                    }
                                }
                            }
                        }
                    }
                    assert forall|p: int, k: int|
                        0 <= p < f.len() && 0 <= k < f.kids@[p].len() implies #[trigger] f.kid_ok(p, k) by {
                        assert(old_f.kid_ok(p, k));
                    }
                }
            },
            Some(p) => {
                let head = self.slots[p].first_child;
                let mut s = self.slots[c];
                s.kind = Kind::node(Frame { id: p });
                if let Kind::Node { parent: np, prev: np_prev, next: _ } = s.kind {
                    s.kind = Kind::Node { parent: np, prev: np_prev, next: head };
                }
                self.slots.set(c, s);
                match head {
                    Some(h) => {
                        proof {
                            assert(old_f.kid_ok(p as int, 0));
                        }
                        let mut hs = self.slots[h];
                        if let Kind::Node { parent: hp, prev: _, next: hn } = hs.kind {
                            hs.kind = Kind::Node { parent: hp, prev: Some(c), next: hn };
                        }
                        self.slots.set(h, hs);
                    },
                    None => {},
                }
                let mut ps = self.slots[p];
                ps.first_child = Some(c);
                self.slots.set(p, ps);
                proof {
                    self.kids@ = self.kids@.update(p as int, seq![c].add(old_f.kids@[p as int]));
                    self.order@ = self.order@.update(c as int, self.ticks@);
                    self.ticks@ = self.ticks@ + 1;
                    let f = *self;
                    assert(old_f.slot_ok(p as int));
                    assert(!old_f.kids@[p as int].contains(c)) by {
                        if old_f.kids@[p as int].contains(c) {
                            let k = old_f.kids@[p as int].index_of(c);
                            assert(old_f.kid_ok(p as int, k));
                        }
                    }
                    assert forall|i: int| 0 <= i < f.len() implies #[trigger] f.slot_ok(i) by {
                        assert(old_f.slot_ok(i));
                        if i != c && f.slot(i).alive {
                            if let Kind::Node { parent, .. } = f.slot(i).kind {
                                if parent == p {
                                    let k = old_f.kids@[p as int].index_of(i as usize);
                                    assert(f.kids@[p as int][k + 1] == i as usize);
                                }
                            }
                        }
                        if i == c {
                            assert(f.kids@[p as int][0] == c);
                        }
                    }
                    assert forall|q: int, k: int|
                        0 <= q < f.len() && 0 <= k < f.kids@[q].len() implies #[trigger] f.kid_ok(q, k) by {
                        if q == p {
                            if k > 0 {
                                assert(old_f.kid_ok(q, k - 1));
                                if k > 1 {
                                    assert(old_f.kid_ok(q, k - 2));
                                }
                            }
                        } else {
                            assert(old_f.kid_ok(q, k));
                            let x = old_f.kids@[q][k];
                            assert(x != c);
                            if let Some(h) = head {
                                if x == h {
                                    assert(old_f.kid_ok(p as int, 0));
                                }
                            }
                        }
                    }
                    assert forall|q: int, j: int, k: int|
                        0 <= q < f.len() && 0 <= j < f.kids@[q].len() && 0 <= k < f.kids@[q].len()
                            && #[trigger] f.kids@[q][j] == #[trigger] f.kids@[q][k] implies j == k by {
                        if q == p {
                            if j > 0 && k > 0 {
                                assert(old_f.kids@[q][j - 1] == old_f.kids@[q][k - 1]);
                            } else if j > 0 {
                                assert(old_f.kids@[q].contains(c));
                            } else if k > 0 {
                                assert(old_f.kids@[q][k - 1] == c);
                            }
                        }
                    }
                }
            },
        }
    }
}

impl Forest {
    /// Takes or releases the lock of root `r`.
    fn set_lock(&mut self, r: usize, locked: bool)
        requires
            old(self).wf(),
            0 <= r < old(self).len(),
            old(self).kind(r as int) is Root,
        ensures
            final(self).wf(),
            final(self).others_kept(old(self), r as int),
            final(self).kind(r as int) == (Kind::Root { locked }),
            final(self).slot(r as int).alive == old(self).slot(r as int).alive,
            final(self).log() == old(self).log(),
            forall|i: int| 0 <= i < old(self).len() ==> #[trigger] final(self).children(i) == old(self).children(i),
            forall|i: int| 0 <= i < old(self).len() ==> #[trigger] final(self).prev_of(i) == old(self).prev_of(i),
            forall|i: int| 0 <= i < old(self).len() ==> #[trigger] final(self).next_of(i) == old(self).next_of(i),
    {
        let ghost old_f = *self;
        let mut s = self.slots[r];
        s.kind = Kind::Root { locked };
        self.slots.set(r, s);
        proof {
            let f = *self;
            assert forall|i: int| 0 <= i < f.len() implies #[trigger] f.slot_ok(i) by {
                assert(old_f.slot_ok(i));
            }
            assert forall|p: int, k: int|
                0 <= p < f.len() && 0 <= k < f.kids@[p].len() implies #[trigger] f.kid_ok(p, k) by {
                assert(old_f.kid_ok(p, k));
            }
        }
    }
}

/// Appends the characters of `src` to `dst`.
fn push_all(dst: &mut Vec<char>, src: &[char])
    ensures
        final(dst)@ == old(dst)@.add(src@),
{
    let mut k: usize = 0;
    while k < src.len()
        invariant
            0 <= k <= src@.len(),
            dst@ == old(dst)@.add(src@.take(k as int)),
        decreases src@.len() - k,
    {
        dst.push(src[k]);
        proof {
            assert(src@.take(k + 1) =~= src@.take(k as int).push(src@[k as int]));
        }
        k = k + 1;
    }
    proof {
        assert(src@.take(k as int) =~= src@);
    }
}

/// Appends to `out` the lines that draw frame `i` and its descendants.
fn render_subtree(
    forest: &Forest,
    i: usize,
    is_last: bool,
    prefix: &Vec<char>,
    out: &mut Vec<TreeLine>,
    Ghost(fuel): Ghost<nat>,
)
    requires
        forest.wf(),
        forest.alive(i as int),
        prefix@.len() >= 2,
        fuel >= 1,
        forest.initialized(i as int) ==> fuel > forest.ticks@ - forest.rank(i as int),
    ensures
        lines_view(final(out)@) == lines_view(old(out)@).add(forest.subtree_lines(i as int, is_last, prefix@, fuel)),
    decreases fuel,
{
    proof {
        assert(forest.slot_ok(i as int));
    }
    let mut current: Vec<char> = Vec::new();
    push_all(&mut current, prefix.as_slice());
    if is_last {
        push_all(&mut current, &['\u{2514}', '\u{257c}', ' ']);
    } else {
        push_all(&mut current, &['\u{251c}', '\u{257c}', ' ']);
    }
    let mut text: Vec<char> = Vec::new();
    let mut k: usize = 3;
    while k < current.len()
        invariant
            3 <= k <= current@.len(),
            text@ == current@.subrange(3, k as int),
        decreases current@.len() - k,
    {
        text.push(current[k]);
        proof {
            assert(current@.subrange(3, k + 1) =~= current@.subrange(3, k as int).push(current@[k as int]));
        }
        k = k + 1;
    }
    proof {
        assert(text@ =~= frame_text(prefix@, is_last));
    }
    let ghost start = lines_view(old(out)@);
    out.push(TreeLine { text, location: Some(forest.slots[i].location) });
    let mut next: Vec<char> = Vec::new();
    push_all(&mut next, prefix.as_slice());
    if is_last {
        push_all(&mut next, &[' ', ' ', ' ']);
    } else {
        push_all(&mut next, &['\u{2502}', ' ', ' ']);
    }
    let ghost kids = forest.children(i as int);
    let ghost f1 = (fuel - 1) as nat;
    let ghost head = seq![(frame_text(prefix@, is_last), Some(forest.slot(i as int).location))];
    proof {
        assert(lines_view(out@) =~= start.add(head));
        assert(next@ =~= prefix@.add(indent(is_last)));
    }
    let mut cur = forest.slots[i].first_child;
    let ghost mut n: int = 0;
    loop
        invariant
            forest.wf(),
            forest.alive(i as int),
            kids == forest.children(i as int),
            next@ == prefix@.add(indent(is_last)),
            next@.len() >= 2,
            fuel >= 1,
            f1 == fuel - 1,
            start == lines_view(old(out)@),
            head == seq![(frame_text(prefix@, is_last), Some(forest.slot(i as int).location))],
            forest.initialized(i as int) ==> fuel > forest.ticks@ - forest.rank(i as int),
            0 <= n <= kids.len(),
            n < kids.len() ==> cur == Some(kids[n]),
            n == kids.len() ==> cur is None,
            lines_view(out@).add(forest.children_lines(i as int, n, next@, f1))
                == start.add(head).add(forest.children_lines(i as int, 0, next@, f1)),
        decreases kids.len() - n,
    {
        match cur {
            Some(c) => {
                proof {
                    assert(forest.kid_ok(i as int, n));
                    assert(forest.slot_ok(c as int));
                    assert(forest.slot_ok(i as int));
                }
                let ghost before = lines_view(out@);
                let is_last_child = (Frame { id: c }).next_frame(forest).is_none();
                render_subtree(forest, c, is_last_child, &next, out, Ghost(f1));
                proof {
                    let sub = forest.subtree_lines(c as int, is_last_child, next@, f1);
                    let rest = forest.children_lines(i as int, n + 1, next@, f1);
                    assert(forest.children_lines(i as int, n, next@, f1) == sub.add(rest));
                    assert(before.add(sub.add(rest)) =~= before.add(sub).add(rest));
                }
                cur = match (Frame { id: c }).next_frame(forest) {
                    Some(x) => Some(x.id),
                    None => None,
                };
                proof {
                    n = n + 1;
                }
                proof {
                    if (n) < kids.len() {
                        assert(cur == Some(kids[n]));
                    }
                }
            },
            None => {
                proof {
                    assert(lines_view(out@).add(Seq::empty()) =~= lines_view(out@));
                    assert(forest.subtree_lines(i as int, is_last, prefix@, fuel) == head.add(
                        forest.children_lines(i as int, 0, next@, f1),
                    ));
                    assert(start.add(head).add(forest.children_lines(i as int, 0, next@, f1)) =~= start.add(
                        forest.subtree_lines(i as int, is_last, prefix@, fuel),
                    ));
                }
                return;
            },
        }
    }
}

impl Kind {
    /// A root whose lock is free.
    pub fn root() -> (r: Kind)
        ensures
            r == (Kind::Root { locked: false }),
    {
        Kind::Root { locked: false }
    }

    /// A node under `parent`, not yet linked to any sibling.
    pub fn node(parent: Frame) -> (r: Kind)
        ensures
            r == (Kind::Node { parent: parent.id, prev: None, next: None }),
    {
        Kind::Node { parent: parent.id, prev: None, next: None }
    }
}

impl Frame {
    /// The location of this frame.
    pub fn location(&self, forest: &Forest) -> (r: Location)
        requires
            0 <= self.id < forest.len(),
        ensures
            r == forest.slot(self.id as int).location,
    {
        forest.slots[self.id].location
    }

    /// Whether this frame has not been activated yet.
    pub fn is_uninitialized(&self, forest: &Forest) -> (r: bool)
        requires
            0 <= self.id < forest.len(),
        ensures
            r == !forest.initialized(self.id as int),
    {
        forest.is_uninitialized(self.id)
    }

    /// Whether the lock that guards this frame's tree is held, if this frame
    /// is a root.
    pub fn mutex(&self, forest: &Forest) -> (r: Option<bool>)
        requires
            0 <= self.id < forest.len(),
        ensures
            forest.kind(self.id as int) matches Kind::Root { locked } ==> r == Some(locked),
            !(forest.kind(self.id as int) is Root) ==> r is None,
    {
        match forest.slots[self.id].kind {
            Kind::Root { locked } => Some(locked),
            _ => None,
        }
    }

    /// The parent of this frame, if it has one.
    pub fn parent(&self, forest: &Forest) -> (r: Option<Frame>)
        requires
            0 <= self.id < forest.len(),
        ensures
            r matches Some(p) ==> forest.parent_of(self.id as int) == Some(p.id as int),
            r is None ==> forest.parent_of(self.id as int) is None,
    {
        match forest.slots[self.id].kind {
            Kind::Node { parent, .. } => Some(Frame { id: parent }),
            _ => None,
        }
    }

    /// This frame's previous (more recently activated) sibling, if any.
    pub fn prev_frame(&self, forest: &Forest) -> (r: Option<Frame>)
        requires
            0 <= self.id < forest.len(),
        ensures
            r matches Some(p) ==> forest.prev_of(self.id as int) == Some(p.id as int),
            r is None ==> forest.prev_of(self.id as int) is None,
    {
        match forest.slots[self.id].kind {
            Kind::Node { prev: Some(p), .. } => Some(Frame { id: p }),
            _ => None,
        }
    }

    /// This frame's next (less recently activated) sibling, if any.
    pub fn next_frame(&self, forest: &Forest) -> (r: Option<Frame>)
        requires
            0 <= self.id < forest.len(),
        ensures
            r matches Some(n) ==> forest.next_of(self.id as int) == Some(n.id as int),
            r is None ==> forest.next_of(self.id as int) is None,
    {
        match forest.slots[self.id].kind {
            Kind::Node { next: Some(n), .. } => Some(Frame { id: n }),
            _ => None,
        }
    }

    /// This frame and its ancestors, up to and including its root.
    pub fn backtrace(&self, forest: &Forest) -> (r: Vec<Frame>)
        requires
            forest.wf(),
            forest.valid(*self),
        ensures
            r@ == forest.ancestors(self.id as int),
            forall|j: int| 0 <= j < r@.len() ==> forest.valid(#[trigger] r@[j]),
    {
        let mut r: Vec<Frame> = Vec::new();
        let mut cur = *self;
        loop
            invariant
                forest.wf(),
                forest.valid(cur),
                forall|j: int| 0 <= j < r@.len() ==> forest.valid(#[trigger] r@[j]),
                r@.add(forest.ancestors(cur.id as int)) == forest.ancestors(self.id as int),
            decreases forest.rank(cur.id as int),
        {
            proof {
                forest.lemma_ancestors_step(cur.id as int);
            }
            r.push(cur);
            match cur.parent(forest) {
                Some(p) => {
                    proof {
                        forest.lemma_parent(cur.id as int);
                        assert(r@.add(forest.ancestors(p.id as int)) =~= r@.drop_last().add(forest.ancestors(cur.id as int)));
                    }
                    cur = p;
                },
                None => {
                    proof {
                        assert(r@ =~= r@.drop_last().add(forest.ancestors(cur.id as int)));
                    }
                    return r;
                },
            }
        }
    }

    /// The locations of this frame and its ancestors, up to its root.
    pub fn backtrace_locations(&self, forest: &Forest) -> (r: Vec<Location>)
        requires
            forest.wf(),
            forest.valid(*self),
        ensures
            r@ == forest.locations(forest.ancestors(self.id as int)),
    {
        let frames = self.backtrace(forest);
        let mut r: Vec<Location> = Vec::new();
        let mut k: usize = 0;
        while k < frames.len()
            invariant
                forest.wf(),
                frames@ == forest.ancestors(self.id as int),
                0 <= k <= frames.len(),
                r@ == forest.locations(frames@.take(k as int)),
                forall|j: int| 0 <= j < frames@.len() ==> 0 <= #[trigger] frames@[j].id < forest.len(),
            decreases frames.len() - k,
        {
            r.push(frames[k].location(forest));
            proof {
                assert(frames@.take(k + 1) =~= frames@.take(k as int).push(frames@[k as int]));
            }
            k = k + 1;
        }
        proof {
            assert(frames@.take(k as int) =~= frames@);
        }
        r
    }

    /// The root of this frame's tree: the last of its ancestors.
    pub fn root(&self, forest: &Forest) -> (r: Frame)
        requires
            forest.wf(),
            forest.valid(*self),
        ensures
            r == forest.ancestors(self.id as int).last(),
            forest.valid(r),
            forest.parent_of(r.id as int) is None,
    {
        let mut cur = *self;
        loop
            invariant
                forest.wf(),
                forest.valid(cur),
                forest.ancestors(cur.id as int).last() == forest.ancestors(self.id as int).last(),
            decreases forest.rank(cur.id as int),
        {
            proof {
                forest.lemma_ancestors_step(cur.id as int);
            }
            match cur.parent(forest) {
                Some(p) => {
                    proof {
                        forest.lemma_parent(cur.id as int);
                        forest.lemma_ancestors_step(p.id as int);
                    }
                    cur = p;
                },
                None => {
                    return cur;
                },
            }
        }
    }

    /// The children of this frame, most recently activated first.
    pub fn subframes(&self, forest: &Forest) -> (r: Vec<Frame>)
        requires
            forest.wf(),
            0 <= self.id < forest.len(),
        ensures
            r@.len() == forest.children(self.id as int).len(),
            forall|k: int| 0 <= k < r@.len() ==> #[trigger] r@[k].id == forest.children(self.id as int)[k],
            forall|k: int| 0 <= k < r@.len() ==> forest.valid(#[trigger] r@[k])
                && forest.parent_of(r@[k].id as int) == Some(self.id as int),
            forall|k: int| 0 <= k < r@.len() ==> forest.prev_of(#[trigger] r@[k].id as int) == (if k == 0 {
                None
            } else {
                Some(r@[k - 1].id as int)
            }),
            forall|k: int| 0 <= k < r@.len() ==> forest.next_of(#[trigger] r@[k].id as int) == (if k + 1 == r@.len() {
                None
            } else {
                Some(r@[k + 1].id as int)
            }),
            forall|j: int, k: int| 0 <= j < r@.len() && 0 <= k < r@.len() && #[trigger] r@[j] == #[trigger] r@[k] ==> j == k,
            forall|g: Frame| forest.valid(g) && forest.parent_of(g.id as int) == Some(self.id as int) ==> #[trigger] r@.contains(g),
    {
        let ghost ks = forest.children(self.id as int);
        proof {
            assert(forest.slot_ok(self.id as int));
        }
        let mut r: Vec<Frame> = Vec::new();
        let mut cur = forest.slots[self.id].first_child;
        loop
            invariant
                forest.wf(),
                0 <= self.id < forest.len(),
                ks == forest.children(self.id as int),
                r@.len() <= ks.len(),
                forall|k: int| 0 <= k < r@.len() ==> #[trigger] r@[k].id == ks[k],
                r@.len() < ks.len() ==> cur == Some(ks[r@.len() as int]),
                r@.len() == ks.len() ==> cur is None,
            decreases ks.len() - r@.len(),
        {
            match cur {
                Some(c) => {
                    let ghost k = r@.len() as int;
                    proof {
                        assert(forest.kid_ok(self.id as int, k));
                    }
                    r.push(Frame { id: c });
                    cur = match (Frame { id: c }).next_frame(forest) {
                        Some(n) => Some(n.id),
                        None => None,
                    };
                    proof {
                        if k + 1 < ks.len() {
                            assert(cur == Some(ks[k + 1]));
                        }
                    }
                },
                None => {
                    proof {
                        let p = self.id as int;
                        assert forall|k: int| 0 <= k < r@.len() implies forest.valid(#[trigger] r@[k])
                            && forest.parent_of(r@[k].id as int) == Some(p) by {
                            forest.lemma_child_links(p, k);
                        }
                        assert forall|k: int| 0 <= k < r@.len() implies forest.prev_of(#[trigger] r@[k].id as int) == (if k == 0 {
                            None
                        } else {
                            Some(r@[k - 1].id as int)
                        }) by {
                            forest.lemma_child_links(p, k);
                        }
                        assert forall|k: int| 0 <= k < r@.len() implies forest.next_of(#[trigger] r@[k].id as int) == (if k + 1 == r@.len() {
                            None
                        } else {
                            Some(r@[k + 1].id as int)
                        }) by {
                            forest.lemma_child_links(p, k);
                        }
                        assert forall|j: int, k: int| 0 <= j < r@.len() && 0 <= k < r@.len() && #[trigger] r@[j] == #[trigger] r@[k] implies j == k by {
                            forest.lemma_child_links(p, k);
                            assert(ks[j] == ks[k]);
                        }
                        assert forall|g: Frame| forest.valid(g) && forest.parent_of(g.id as int) == Some(p) implies #[trigger] r@.contains(g) by {
                            forest.lemma_parent(g.id as int);
                            let k = ks.index_of(g.id);
                            assert(r@[k] == g);
                        }
                    }
                    return r;
                },
            }
        }
    }

    /// Draws the tree under this frame, most recently activated child first.
    ///
    /// The lock of the root is tried first, never waited for: when it is held
    /// the children are not read, and a placeholder line stands for them.
    pub fn render_tree(&self, forest: &Forest) -> (r: Vec<TreeLine>)
        requires
            forest.wf(),
            forest.valid(*self),
        ensures
            lines_view(r@) == forest.drawing(self.id as int),
    {
        let root = self.root(forest);
        let mut prefix: Vec<char> = Vec::new();
        prefix.push(' ');
        prefix.push(' ');
        let mut out: Vec<TreeLine> = Vec::new();
        proof {
            assert(prefix@ =~= margin());
            assert(lines_view(out@) =~= Seq::empty());
        }
        if root.mutex(forest) == Some(true) {
            let mut text: Vec<char> = Vec::new();
            text.push('\u{257c}');
            text.push(' ');
            proof {
                assert(text@ =~= frame_text(margin(), true));
            }
            out.push(TreeLine { text, location: Some(self.location(forest)) });
            let mut polling = prefix;
            push_all(&mut polling, &['\u{2514}', '\u{2508}', ' ', '[', 'P', 'O', 'L', 'L', 'I', 'N', 'G', ']']);
            out.push(TreeLine { text: polling, location: None });
            proof {
                assert(polling@ =~= polling_text(margin()));
                assert(lines_view(out@) =~= forest.drawing(self.id as int));
            }
        } else {
            proof {
                assert(forest.slot_ok(self.id as int));
            }
            render_subtree(forest, self.id, true, &prefix, &mut out, Ghost((forest.ticks@ + 2) as nat));
            proof {
                assert(lines_view(out@) =~= forest.drawing(self.id as int));
            }
        }
        out
    }

    /// Runs `f` on the frame active on the thread of `cx`, if any.
    pub fn with_active<F, R>(cx: &Context, f: F) -> (r: R)
        where
            F: FnOnce(Option<Frame>) -> R,
        requires
            f.requires((cx.active(),)),
        ensures
            f.ensures((cx.active(),), r),
    {
        f(cx.active)
    }
}

impl Frame {
    /// Activates this frame on the thread of `cx`.
    ///
    /// On its first activation the frame joins a tree: with no active frame
    /// it becomes a root and is registered as a task; otherwise it becomes a
    /// child of the active frame, at the front of its children. A root takes
    /// the lock of its tree, which nested activations inherit. The frame then
    /// becomes the active one until the returned scope is exited.
    pub fn enter(self, forest: &mut Forest, cx: &mut Context) -> (r: Scope)
        requires
            old(forest).wf(),
            old(forest).valid(self),
            old(forest).context_ok(old(cx)),
            !old(forest).is_locked(self.id as int),
        ensures
            final(forest).entered(old(forest), old(cx).active(), self),
            final(forest).context_ok(final(cx)),
            final(cx).active() == Some(self),
            r.frame() == self,
            r.prev() == old(cx).active(),
            r.took_lock() == (final(forest).kind(self.id as int) is Root),
    {
        let id = self.id;
        if !forest.is_uninitialized(id) {
        } else {
            let parent = match cx.active {
                Some(a) => Some(a.id),
                None => None,
            };
            forest.initialize(id, parent);
        }
        proof {
            if !old(forest).initialized(id as int) {
                forest.lemma_ancestors_step(id as int);
                if let Some(a) = old(cx).active() {
                    forest.lemma_chain_kept(old(forest), id as int, a.id as int, old(forest).rank(a.id as int) + 1);
                    assert(forest.rank(a.id as int) == old(forest).rank(a.id as int));
                }
            }
        }
        let locked = match forest.slots[id].kind {
            Kind::Root { .. } => {
                forest.set_lock(id, true);
                true
            },
            _ => false,
        };
        let prev = cx.active;
        cx.active = Some(self);
        Scope { frame: self, prev, locked }
    }
}

impl Forest {
    /// `frame` is still a live frame of the same kind as in `old`, and so is
    /// `prev`, if any: what closing an activation of `frame` needs.
    pub open spec fn keeps_active(&self, old: &Forest, frame: Frame, prev: Option<Frame>) -> bool {
        &&& self.valid(frame)
        &&& (self.kind(frame.id as int) is Root) == (old.kind(frame.id as int) is Root)
        &&& self.initialized(frame.id as int)
        &&& prev matches Some(a) ==> self.valid(a) && self.initialized(a.id as int)
    }
}

impl Frame {
    /// Runs `f` with this frame active on the thread of `cx`, as
    /// [`Frame::enter`] describes, and closes the activation afterwards:
    /// the previously active frame is active again and a lock taken is
    /// released. `f` receives the forest and the context, and hands them
    /// back with its result.
    pub fn in_scope<F, R>(self, forest: &mut Forest, cx: &mut Context, f: F) -> (r: R)
        where
            F: FnOnce(Forest, Context) -> (Forest, Context, R),
        requires
            old(forest).wf(),
            old(forest).valid(self),
            old(forest).context_ok(old(cx)),
            !old(forest).is_locked(self.id as int),
            forall|fo: Forest, c: Context|
                fo.wf() && fo.valid(self) && fo.initialized(self.id as int) && fo.context_ok(&c)
                    && c.active() == Some(self) ==> #[trigger] f.requires((fo, c)),
            forall|fo: Forest, c: Context, res: (Forest, Context, R)|
                #[trigger] f.ensures((fo, c), res) && fo.wf() && fo.keeps_active(&fo, self, old(cx).active())
                    && c.active() == Some(self) ==> res.0.wf() && res.0.keeps_active(&fo, self, old(cx).active()),
        ensures
            final(forest).wf(),
            final(cx).active() == old(cx).active(),
            final(forest).context_ok(final(cx)),
            final(forest).valid(self),
            final(forest).initialized(self.id as int),
            !final(forest).is_locked(self.id as int),
            exists|fo: Forest, c: Context, fo2: Forest, c2: Context| {
                &&& #[trigger] f.ensures((fo, c), (fo2, c2, r))
                &&& fo.entered(old(forest), old(cx).active(), self)
                &&& c.active() == Some(self)
                &&& final(forest).exited(&fo2, self, fo.kind(self.id as int) is Root)
            },
    {
        let scope = self.enter(forest, cx);
        proof {
            if let Some(a) = old(cx).active() {
                assert(forest.parent_of(a.id as int) == old(forest).parent_of(a.id as int));
                assert(forest.slot(a.id as int).location == old(forest).slot(a.id as int).location);
            }
        }
        let mut fo = Forest::new();
        let mut c = Context::new();
        std::mem::swap(forest, &mut fo);
        std::mem::swap(cx, &mut c);
        let ghost fo_in = fo;
        let ghost c_in = c;
        let (fo2, c2, r) = f(fo, c);
        let ghost fo_out = fo2;
        let ghost c_out = c2;
        *forest = fo2;
        *cx = c2;
        scope.exit(forest, cx);
        proof {
            assert(f.ensures((fo_in, c_in), (fo_out, c_out, r)));
            assert(fo_in.entered(old(forest), old(cx).active(), self));
            assert(forest.exited(&fo_out, self, fo_in.kind(self.id as int) is Root));
        }
        r
    }
}

impl Scope {
    /// Closes this activation: the previously active frame becomes active
    /// again on the thread of `cx`, and a lock taken on entry is released.
    pub fn exit(self, forest: &mut Forest, cx: &mut Context)
        requires
            old(forest).wf(),
            old(forest).valid(self.frame()),
            self.took_lock() ==> old(forest).kind(self.frame().id as int) is Root,
            match self.prev() {
                Some(a) => old(forest).valid(a) && old(forest).initialized(a.id as int),
                None => true,
            },
        ensures
            final(forest).exited(old(forest), self.frame(), self.took_lock()),
            final(cx).active() == self.prev(),
            final(forest).context_ok(final(cx)),
    {
        if self.locked {
            forest.set_lock(self.frame.id, false);
        }
        cx.active = self.prev;
        proof {
            if let Some(a) = self.prev {
                assert(forest.parent_of(a.id as int) == old(forest).parent_of(a.id as int));
                assert(forest.slot(a.id as int).location == old(forest).slot(a.id as int).location);
            }
        }
    }
}

impl Frame {
    /// Destroys this frame. A node leaves its parent's children, its former
    /// neighbours becoming linked to each other; a root is deregistered as a
    /// task; an uninitialized frame needs nothing more.
    pub fn destroy(self, forest: &mut Forest)
        requires
            old(forest).wf(),
            old(forest).valid(self),
            old(forest).children(self.id as int).len() == 0,
            !old(forest).is_locked(self.id as int),
        ensures
            final(forest).wf(),
            final(forest).len() == old(forest).len(),
            !final(forest).valid(self),
            forall|i: int| 0 <= i < old(forest).len() ==> #[trigger] final(forest).slot(i).location == old(forest).slot(i).location,
            forall|i: int| 0 <= i < old(forest).len() && i != self.id ==> #[trigger] final(forest).alive(i) == old(forest).alive(i),
            forall|i: int| 0 <= i < old(forest).len() && i != self.id ==> #[trigger] final(forest).parent_of(i) == old(forest).parent_of(i),
            forall|i: int| 0 <= i < old(forest).len() && i != self.id ==> (#[trigger] final(forest).kind(i) is Root) == (old(forest).kind(i) is Root),
            forall|i: int| 0 <= i < old(forest).len() && i != self.id ==> #[trigger] final(forest).initialized(i) == old(forest).initialized(i),
            forall|i: int| 0 <= i < old(forest).len() && i != self.id ==> #[trigger] final(forest).is_locked(i) == old(forest).is_locked(i),
            match old(forest).parent_of(self.id as int) {
                Some(p) => {
                    let old_kids = old(forest).children(p);
                    &&& old_kids.contains(self.id)
                    &&& final(forest).children(p) == old_kids.remove(old_kids.index_of(self.id))
                    &&& !final(forest).children(p).contains(self.id)
                    &&& forall|i: int| 0 <= i < old(forest).len() && i != p ==>
                        #[trigger] final(forest).children(i) == old(forest).children(i)
                    &&& final(forest).log() == old(forest).log()
                    &&& old(forest).prev_of(self.id as int) matches Some(a)
                        ==> final(forest).next_of(a) == old(forest).next_of(self.id as int)
                    &&& old(forest).next_of(self.id as int) matches Some(b)
                        ==> final(forest).prev_of(b) == old(forest).prev_of(self.id as int)
                },
                None => {
                    &&& forall|i: int| 0 <= i < old(forest).len() ==>
                        #[trigger] final(forest).children(i) == old(forest).children(i)
                    &&& old(forest).kind(self.id as int) is Root ==>
                        final(forest).log() == old(forest).log().push(TaskEvent::Deregistered(self))
                    &&& old(forest).kind(self.id as int) is Uninitialized ==>
                        final(forest).log() == old(forest).log()
                },
            },
    {
        let c = self.id;
        let ghost old_f = *forest;
        proof {
            assert(old_f.slot_ok(c as int));
        }
        let s = forest.slots[c];
        match s.kind {
            Kind::Uninitialized => {},
            Kind::Root { .. } => {
                forest.events.push(TaskEvent::Deregistered(self));
            },
            Kind::Node { parent: p, prev, next } => {
                let ghost k = old_f.kids@[p as int].index_of(c);
                proof {
                    assert(old_f.kid_ok(p as int, k));
                    assert(old_f.slot_ok(p as int));
                    if k > 0 {
                        assert(old_f.kid_ok(p as int, k - 1));
                    }
                    if k + 1 < old_f.kids@[p as int].len() {
                        assert(old_f.kid_ok(p as int, k + 1));
                    }
                }
                match prev {
                    Some(a) => {
                        let mut a_s = forest.slots[a];
                        if let Kind::Node { parent: ap, prev: aprev, next: _ } = a_s.kind {
                            a_s.kind = Kind::Node { parent: ap, prev: aprev, next };
                        }
                        forest.slots.set(a, a_s);
                    },
                    None => {
                        let mut ps = forest.slots[p];
                        ps.first_child = next;
                        forest.slots.set(p, ps);
                    },
                }
                match next {
                    Some(b) => {
                        let mut b_s = forest.slots[b];
                        if let Kind::Node { parent: bp, prev: _, next: bnext } = b_s.kind {
                            b_s.kind = Kind::Node { parent: bp, prev, next: bnext };
                        }
                        forest.slots.set(b, b_s);
                    },
                    None => {},
                }
                proof {
                    forest.kids@ = forest.kids@.update(p as int, old_f.kids@[p as int].remove(k));
                }
            },
        }
        let mut s2 = forest.slots[c];
        s2.alive = false;
        forest.slots.set(c, s2);
        proof {
            let f = *forest;
            let ghost pk = old_f.parent_of(c as int);
            assert forall|i: int| 0 <= i < f.len() implies #[trigger] f.slot_ok(i) by {
                assert(old_f.slot_ok(i));
                if i != c && f.slot(i).alive {
                    if let Kind::Node { parent, .. } = f.slot(i).kind {
                        if Some(parent as int) == pk {
                            let ok = old_f.kids@[parent as int];
                            let j = ok.index_of(i as usize);
                            let k = ok.index_of(c);
                            assert(ok[j] == i as usize);
                            assert(ok[k] == c);
                            if j < k {
                                assert(f.kids@[parent as int][j] == i as usize);
                            } else {
                                assert(j != k);
                                assert(f.kids@[parent as int][j - 1] == i as usize);
                            }
                        }
                    }
                }
            }
            assert forall|q: int, j: int|
                0 <= q < f.len() && 0 <= j < f.kids@[q].len() implies #[trigger] f.kid_ok(q, j) by {
                if Some(q) == pk {
                    let k = old_f.kids@[q].index_of(c);
                    if j < k {
                        assert(old_f.kid_ok(q, j));
                        if j > 0 {
                            assert(old_f.kid_ok(q, j - 1));
                        }
                    } else {
                        assert(old_f.kid_ok(q, j + 1));
                        assert(old_f.kid_ok(q, j));
                        if j + 2 < old_f.kids@[q].len() {
                            assert(old_f.kid_ok(q, j + 2));
                        }
                    }
                } else {
                    assert(old_f.kid_ok(q, j));
                    let x = old_f.kids@[q][j] as int;
                    if let Some(p) = pk {
                        assert(old_f.slot_ok(p));
                        assert(x != c);
                    }
                }
            }
            assert forall|q: int, j: int, k: int|
                0 <= q < f.len() && 0 <= j < f.kids@[q].len() && 0 <= k < f.kids@[q].len()
                    && #[trigger] f.kids@[q][j] == #[trigger] f.kids@[q][k] implies j == k by {
                if Some(q) == pk {
                    let m = old_f.kids@[q].index_of(c);
                    let jj = if j < m { j } else { j + 1 };
                    let kk = if k < m { k } else { k + 1 };
                    assert(old_f.kids@[q][jj] == old_f.kids@[q][kk]);
                }
            }
        }
    }
}

impl Forest {
    /// The parent of a live frame is live, linked into a tree, and was
    /// linked before it.
    pub proof fn lemma_parent(&self, i: int)
        requires
            self.wf(),
            self.alive(i),
            self.parent_of(i) is Some,
        ensures
            self.alive(self.parent_of(i).unwrap()),
            self.initialized(self.parent_of(i).unwrap()),
            self.rank(self.parent_of(i).unwrap()) < self.rank(i),
            self.initialized(i),
            self.children(self.parent_of(i).unwrap()).contains(i as usize),
    {
        assert(self.slot_ok(i));
        let p = self.parent_of(i).unwrap();
        assert(self.slot_ok(p));
    }

    /// The `k`-th child of `p` is a live frame whose parent is `p`, whose
    /// siblings are the `(k-1)`-th and `(k+1)`-th children, and which stands
    /// nowhere else in the list.
    pub proof fn lemma_child_links(&self, p: int, k: int)
        requires
            self.wf(),
            0 <= p < self.len(),
            0 <= k < self.children(p).len(),
        ensures
            ({
                let ks = self.children(p);
                let c = ks[k] as int;
                &&& self.alive(c)
                &&& self.valid(Frame { id: ks[k] })
                &&& self.parent_of(c) == Some(p)
                &&& self.prev_of(c) == (if k == 0 { None } else { Some(ks[k - 1] as int) })
                &&& self.next_of(c) == (if k + 1 == ks.len() { None } else { Some(ks[k + 1] as int) })
                &&& forall|j: int| 0 <= j < ks.len() && #[trigger] ks[j] == ks[k] ==> j == k
            }),
    {
        assert(self.kid_ok(p, k));
    }

    /// The lines of a subtree do not depend on the budget, once it exceeds
    /// the number of links that can lie below the frame.
    pub proof fn lemma_subtree_budget(&self, i: int, is_last: bool, prefix: Seq<char>, a: nat, b: nat)
        requires
            self.wf(),
            self.alive(i),
            a >= 1,
            b >= 1,
            self.initialized(i) ==> a > self.linked() - self.rank(i) && b > self.linked() - self.rank(i),
        ensures
            self.subtree_lines(i, is_last, prefix, a) == self.subtree_lines(i, is_last, prefix, b),
        decreases a, 0nat, 0int,
    {
        assert(self.slot_ok(i));
        let next = prefix.add(indent(is_last));
        if self.initialized(i) {
            self.lemma_children_budget(i, 0, next, (a - 1) as nat, (b - 1) as nat);
        }
    }

    /// The lines of the children of `p` from the `k`-th on do not depend on
    /// the budget, once it suffices.
    pub proof fn lemma_children_budget(&self, p: int, k: int, prefix: Seq<char>, a: nat, b: nat)
        requires
            self.wf(),
            self.alive(p),
            self.initialized(p),
            0 <= k <= self.children(p).len(),
            a >= self.linked() - self.rank(p),
            b >= self.linked() - self.rank(p),
        ensures
            self.children_lines(p, k, prefix, a) == self.children_lines(p, k, prefix, b),
        decreases a, 1nat, self.children(p).len() - k,
    {
        assert(self.slot_ok(p));
        if k < self.children(p).len() {
            let c = self.children(p)[k] as int;
            let n = self.children(p).len();
            self.lemma_child_links(p, k);
            self.lemma_parent(c);
            self.lemma_subtree_budget(c, k + 1 == n, prefix, a, b);
            self.lemma_children_budget(p, k + 1, prefix, a, b);
        }
    }

    /// The drawing of a subtree is complete: a larger budget than the one
    /// used draws the same lines.
    pub proof fn lemma_drawing_complete(&self, i: int, fuel: nat)
        requires
            self.wf(),
            self.alive(i),
            fuel >= self.linked() + 2,
        ensures
            self.subtree_lines(i, true, margin(), fuel) == self.subtree_lines(i, true, margin(), (self.linked() + 2) as nat),
    {
        self.lemma_subtree_budget(i, true, margin(), fuel, (self.linked() + 2) as nat);
    }

    /// The chain from `i` does not depend on the fuel, once it suffices.
    pub proof fn lemma_chain_fuel(&self, i: int, a: nat, b: nat)
        requires
            self.wf(),
            self.alive(i),
            a > self.rank(i),
            b > self.rank(i),
        ensures
            self.chain(i, a) == self.chain(i, b),
        decreases a,
    {
        if let Some(p) = self.parent_of(i) {
            self.lemma_parent(i);
            self.lemma_chain_fuel(p, (a - 1) as nat, (b - 1) as nat);
        }
    }

    /// The ancestors of `i` are `i` followed by the ancestors of its parent.
    pub proof fn lemma_ancestors_step(&self, i: int)
        requires
            self.wf(),
            self.alive(i),
        ensures
            self.parent_of(i) matches Some(p) ==> self.ancestors(i) == seq![Frame { id: i as usize }].add(self.ancestors(p)),
            self.parent_of(i) is None ==> self.ancestors(i) == seq![Frame { id: i as usize }],
    {
        if let Some(p) = self.parent_of(i) {
            self.lemma_parent(i);
            self.lemma_chain_fuel(p, self.rank(i), self.rank(p) + 1);
        }
    }

    /// Frames linked one inside the other, each the parent of the next, have
    /// as ancestors of the innermost exactly those frames in reverse order,
    /// ending at the outermost, which is the root.
    pub proof fn lemma_nested_ancestors(&self, frames: Seq<Frame>)
        requires
            self.wf(),
            frames.len() >= 1,
            forall|k: int| 0 <= k < frames.len() ==> self.valid(#[trigger] frames[k]),
            self.parent_of(frames[0].id as int) is None,
            forall|k: int| 1 <= k < frames.len() ==>
                self.parent_of(#[trigger] frames[k].id as int) == Some(frames[k - 1].id as int),
        ensures
            self.ancestors(frames.last().id as int) == frames.reverse(),
            self.ancestors(frames.last().id as int).len() == frames.len(),
        decreases frames.len(),
    {
        let n = frames.len();
        let last = frames.last().id as int;
        self.lemma_ancestors_step(last);
        if n == 1 {
            assert(frames.reverse() =~= seq![frames[0]]);
        } else {
            let inner = frames.drop_last();
            assert forall|k: int| 1 <= k < inner.len() implies
                self.parent_of(#[trigger] inner[k].id as int) == Some(inner[k - 1].id as int) by {
                assert(inner[k] == frames[k]);
            }
            assert(self.parent_of(last) == Some(frames[n - 2].id as int));
            self.lemma_nested_ancestors(inner);
            assert(frames.reverse() =~= seq![Frame { id: last as usize }].add(inner.reverse()));
        }
    }

    /// Nested activations of fresh frames on one thread: when each frame is
    /// entered while the one before it is active, the first with no frame
    /// active, then the ancestors of the innermost are the frames in reverse
    /// order of activation, ending at the first, as many as the nesting is
    /// deep.
    pub proof fn lemma_nested_entries(states: Seq<Forest>, frames: Seq<Frame>)
        requires
            frames.len() >= 1,
            states.len() == frames.len() + 1,
            forall|k: int| 0 <= k < frames.len() ==> !(#[trigger] states[k]).initialized(frames[k].id as int),
            forall|k: int| 0 <= k < frames.len() ==> (#[trigger] states[k + 1]).entered(
                &states[k],
                if k == 0 { None } else { Some(frames[k - 1]) },
                frames[k],
            ),
        ensures
            states.last().ancestors(frames.last().id as int) == frames.reverse(),
            states.last().ancestors(frames.last().id as int).len() == frames.len(),
        decreases frames.len(),
    {
        let n = frames.len();
        let k = n - 1;
        assert(states[k + 1].entered(&states[k], if k == 0 { None } else { Some(frames[k - 1]) }, frames[k]));
        assert(!states[k].initialized(frames[k].id as int));
        if n == 1 {
            assert(frames.reverse() =~= seq![frames[0]]);
        } else {
            let inner = frames.drop_last();
            let inner_states = states.drop_last();
            assert forall|j: int| 0 <= j < inner.len() implies !(#[trigger] inner_states[j]).initialized(inner[j].id as int) by {
                assert(inner_states[j] == states[j]);
                assert(!states[j].initialized(frames[j].id as int));
            }
            assert forall|j: int| 0 <= j < inner.len() implies (#[trigger] inner_states[j + 1]).entered(
                &inner_states[j],
                if j == 0 { None } else { Some(inner[j - 1]) },
                inner[j],
            ) by {
                assert(inner_states[j + 1] == states[j + 1]);
                assert(states[j + 1].entered(&states[j], if j == 0 { None } else { Some(frames[j - 1]) }, frames[j]));
            }
            Self::lemma_nested_entries(inner_states, inner);
            assert(frames.reverse() =~= seq![frames[k]].add(inner.reverse()));
        }
    }

    /// The ancestors of a frame form a finite chain: it starts at the frame,
    /// each element is the parent of the one before, every element is a live
    /// frame, and it ends at a frame with no parent.
    pub proof fn lemma_ancestors_chain(&self, i: int)
        requires
            self.wf(),
            self.alive(i),
        ensures
            1 <= self.ancestors(i).len() <= self.rank(i) + 1,
            self.ancestors(i)[0] == (Frame { id: i as usize }),
            self.parent_of(self.ancestors(i).last().id as int) is None,
            forall|k: int| 0 <= k < self.ancestors(i).len() ==> self.valid(#[trigger] self.ancestors(i)[k]),
            forall|k: int| 1 <= k < self.ancestors(i).len() ==>
                self.parent_of(self.ancestors(i)[k - 1].id as int) == Some(#[trigger] self.ancestors(i)[k].id as int),
            forall|j: int, k: int| 0 <= j < k < self.ancestors(i).len() ==>
                self.rank(#[trigger] self.ancestors(i)[k].id as int) < self.rank(#[trigger] self.ancestors(i)[j].id as int),
            forall|j: int, k: int| 0 <= j < self.ancestors(i).len() && 0 <= k < self.ancestors(i).len()
                && #[trigger] self.ancestors(i)[j] == #[trigger] self.ancestors(i)[k] ==> j == k,
        decreases self.rank(i),
    {
        self.lemma_ancestors_step(i);
        if let Some(p) = self.parent_of(i) {
            self.lemma_parent(i);
            self.lemma_ancestors_chain(p);
            let a = self.ancestors(i);
            let b = self.ancestors(p);
            assert forall|k: int| 0 <= k < a.len() implies self.valid(#[trigger] a[k]) by {
                if k > 0 {
                    assert(a[k] == b[k - 1]);
                }
            }
            assert forall|k: int| 1 <= k < a.len() implies
                self.parent_of(a[k - 1].id as int) == Some(#[trigger] a[k].id as int) by {
                assert(a[k] == b[k - 1]);
                if k > 1 {
                    assert(a[k - 1] == b[k - 2]);
                }
            }
            assert forall|j: int, k: int| 0 <= j < k < a.len() implies
                self.rank(#[trigger] a[k].id as int) < self.rank(#[trigger] a[j].id as int) by {
                assert(a[k] == b[k - 1]);
                if j > 0 {
                    assert(a[j] == b[j - 1]);
                } else if k > 1 {
                    assert(self.rank(b[k - 1].id as int) < self.rank(b[0].id as int));
                }
            }
            assert forall|j: int, k: int| 0 <= j < a.len() && 0 <= k < a.len()
                && #[trigger] a[j] == #[trigger] a[k] implies j == k by {
                if j < k {
                    assert(self.rank(a[k].id as int) < self.rank(a[j].id as int));
                } else if k < j {
                    assert(self.rank(a[j].id as int) < self.rank(a[k].id as int));
                }
            }
        }
    }

    /// Following parents from `i` meets the same frames in `self` as in
    /// `old` when only frame `c`, which nothing in `old` has as parent, has
    /// changed.
    proof fn lemma_chain_kept(&self, old: &Forest, c: int, i: int, fuel: nat)
        requires
            old.wf(),
            old.alive(i),
            i != c,
            !old.initialized(c),
            self.len() == old.len(),
            forall|j: int| 0 <= j < old.len() && j != c ==> #[trigger] self.parent_of(j) == old.parent_of(j),
        ensures
            self.chain(i, fuel) == old.chain(i, fuel),
        decreases fuel,
    {
        if fuel > 0 {
            if let Some(p) = old.parent_of(i) {
                old.lemma_parent(i);
                self.lemma_chain_kept(old, c, p, (fuel - 1) as nat);
            }
        }
    }

    /// Whether frame `i` has not been activated yet.
    pub fn is_uninitialized(&self, i: usize) -> (r: bool)
        requires
            0 <= i < self.len(),
        ensures
            r == !self.initialized(i as int),
    {
        self.slots[i].kind.is_uninitialized()
    }
}

impl Kind {
    /// Whether this is [`Kind::Uninitialized`].
    pub fn is_uninitialized(&self) -> (r: bool)
        ensures
            r == (*self is Uninitialized),
    {
        match self {
            Kind::Uninitialized => true,
            _ => false,
        }
    }
}

impl Frame {
    /// Constructs a new, uninitialized frame at `location`.
    pub fn new(forest: &mut Forest, location: Location) -> (r: Frame)
        requires
            old(forest).wf(),
            old(forest).len() < usize::MAX,
        ensures
            final(forest).wf(),
            r.id == old(forest).len(),
            final(forest).len() == old(forest).len() + 1,
            final(forest).valid(r),
            final(forest).slot(r.id as int) == (Slot {
                location,
                kind: Kind::Uninitialized,
                first_child: None,
                alive: true,
            }),
            final(forest).children(r.id as int) == Seq::<usize>::empty(),
            forall|i: int| 0 <= i < old(forest).len() ==> #[trigger] final(forest).slot(i) == old(forest).slot(i),
            forall|i: int| 0 <= i < old(forest).len() ==> #[trigger] final(forest).children(i) == old(forest).children(i),
            forall|i: int| 0 <= i < old(forest).len() ==> #[trigger] final(forest).kind(i) == old(forest).kind(i),
            forall|i: int| 0 <= i < old(forest).len() ==> #[trigger] final(forest).alive(i) == old(forest).alive(i),
            forall|i: int| 0 <= i < old(forest).len() ==> #[trigger] final(forest).parent_of(i) == old(forest).parent_of(i),
            forall|i: int| 0 <= i < old(forest).len() ==> #[trigger] final(forest).prev_of(i) == old(forest).prev_of(i),
            forall|i: int| 0 <= i < old(forest).len() ==> #[trigger] final(forest).next_of(i) == old(forest).next_of(i),
            forall|i: int| 0 <= i < old(forest).len() ==> #[trigger] final(forest).is_locked(i) == old(forest).is_locked(i),
            final(forest).log() == old(forest).log(),
    {
        let id = forest.slots.len();
        forest.slots.push(Slot { location, kind: Kind::Uninitialized, first_child: None, alive: true });
        forest.kids = Ghost(forest.kids@.push(Seq::empty()));
        forest.order = Ghost(forest.order@.push(0));
        proof {
            let f = *forest;
            assert forall|i: int| 0 <= i < f.len() implies #[trigger] f.slot_ok(i) by {
                if i < id {
                    assert(old(forest).slot_ok(i));
                    let s = f.slot(i);
                    if s.alive {
                        if let Kind::Node { parent, .. } = s.kind {
                            assert(f.kids@[parent as int] == old(forest).kids@[parent as int]);
                        }
                    }
                }
            }
            assert forall|p: int, k: int|
                0 <= p < f.len() && 0 <= k < f.kids@[p].len() implies #[trigger] f.kid_ok(p, k) by {
                assert(p < id);
                assert(old(forest).kid_ok(p, k));
            }
        }
        Frame { id }
    }
}

} // verus!
