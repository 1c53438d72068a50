use vstd::prelude::*;

use crate::path::{PathView, same_path, is_strictly_under, strictly_under};

verus! {

/// What a path holds, as a mathematical value.
pub enum NodeView {
    Dir,
    File(Seq<u8>),
}

/// What a path holds.
#[derive(Debug)]
pub enum Node {
    Dir,
    File(Vec<u8>),
}

impl View for Node {
    type V = NodeView;

    open spec fn view(&self) -> NodeView {
        match self {
            Node::Dir => NodeView::Dir,
            Node::File(b) => NodeView::File(b@),
        }
    }
}

/// Why a filesystem operation was refused.
#[derive(Clone, Copy, Debug, PartialEq, Eq, Structural)]
pub enum FsFault {
    NotFound,
    AlreadyExists,
    NotADirectory,
    IsADirectory,
    NotEmpty,
    Overlapping,
    Unreadable,
}

/// A mutation that succeeded, in the order it was made.
#[derive(Debug)]
pub enum FsOp {
    CreateDir(Vec<String>),
    WriteFile(Vec<String>, Vec<u8>),
}

pub enum FsOpView {
    CreateDir(PathView),
    WriteFile(PathView, Seq<u8>),
}

impl View for FsOp {
    type V = FsOpView;

    open spec fn view(&self) -> FsOpView {
        match self {
            FsOp::CreateDir(p) => FsOpView::CreateDir(p.deep_view()),
            FsOp::WriteFile(p, b) => FsOpView::WriteFile(p.deep_view(), b@),
        }
    }
}

/// One stored path and what it holds; a later record for a path shadows earlier ones.
pub struct FsEntry {
    pub path: Vec<String>,
    pub node: Node,
}

pub open spec fn record_of(e: FsEntry) -> (PathView, NodeView) {
    (e.path.deep_view(), e.node@)
}

/// What the latest record for `p` holds.
pub open spec fn lookup(s: Seq<(PathView, NodeView)>, p: PathView) -> Option<NodeView>
    decreases s.len(),
{
    if s.len() == 0 {
        None
    } else if s.last().0 == p {
        Some(s.last().1)
    } else {
        lookup(s.drop_last(), p)
    }
}

/// The longest path that any record names.
pub open spec fn longest(s: Seq<(PathView, NodeView)>) -> nat
    decreases s.len(),
{
    if s.len() == 0 {
        0
    } else {
        let m = longest(s.drop_last());
        if s.last().0.len() > m {
            s.last().0.len()
        } else {
            m
        }
    }
}

pub proof fn lemma_lookup(s: Seq<(PathView, NodeView)>, p: PathView)
    ensures
        lookup(s, p) is Some <==> exists|j: int| 0 <= j < s.len() && (#[trigger] s[j]).0 == p,
        lookup(s, p) is Some ==> p.len() <= longest(s),
    decreases s.len(),
{
    if s.len() > 0 {
        lemma_lookup(s.drop_last(), p);
        if lookup(s.drop_last(), p) is Some {
            let j = choose|j: int| 0 <= j < s.drop_last().len() && (#[trigger] s.drop_last()[j]).0 == p;
            assert(s[j].0 == p);
        }
        if exists|j: int| 0 <= j < s.len() && (#[trigger] s[j]).0 == p {
            let j = choose|j: int| 0 <= j < s.len() && (#[trigger] s[j]).0 == p;
            if j < s.len() - 1 {
                assert(s.drop_last()[j].0 == p);
            }
        }
    }
}

/// Every non-root path of `m` sits in a directory of `m`.
pub open spec fn parent_closed(m: Map<PathView, NodeView>) -> bool {
    forall|p: PathView|
        #![trigger m.contains_key(p)]
        m.contains_key(p) && p.len() > 0 ==> {
            &&& m.contains_key(p.drop_last())
            &&& m[p.drop_last()] is Dir
        }
}

/// What `m` holds at `p`, if anything.
pub open spec fn entry_at(m: Map<PathView, NodeView>, p: PathView) -> Option<NodeView> {
    if m.contains_key(p) {
        Some(m[p])
    } else {
        None
    }
}

/// Every proper prefix of a stored path is a stored directory.
pub proof fn lemma_ancestor(m: Map<PathView, NodeView>, q: PathView, k: int)
    requires
        parent_closed(m),
        m.contains_key(q),
        0 <= k < q.len(),
    ensures
        m.contains_key(q.subrange(0, k)),
        m[q.subrange(0, k)] is Dir,
    decreases q.len(),
{
    let up = q.drop_last();
    assert(m.contains_key(up));
    if k == q.len() - 1 {
        assert(q.subrange(0, k) =~= up);
    } else {
        lemma_ancestor(m, up, k);
        assert(up.subrange(0, k) =~= q.subrange(0, k));
    }
}

/// `m` after the mutation `op`.
pub open spec fn step(m: Map<PathView, NodeView>, op: FsOpView) -> Map<PathView, NodeView> {
    match op {
        FsOpView::CreateDir(p) => m.insert(p, NodeView::Dir),
        FsOpView::WriteFile(p, b) => m.insert(p, NodeView::File(b)),
    }
}

/// `m` after the mutations `ops`, in order.
pub open spec fn replay(m: Map<PathView, NodeView>, ops: Seq<FsOpView>) -> Map<PathView, NodeView>
    decreases ops.len(),
{
    if ops.len() == 0 {
        m
    } else {
        step(replay(m, ops.drop_last()), ops.last())
    }
}

pub proof fn lemma_replay_concat(m: Map<PathView, NodeView>, a: Seq<FsOpView>, b: Seq<FsOpView>)
    ensures
        replay(m, a + b) == replay(replay(m, a), b),
    decreases b.len(),
{
    if b.len() == 0 {
        assert(a + b =~= a);
    } else {
        lemma_replay_concat(m, a, b.drop_last());
        assert((a + b).drop_last() =~= a + b.drop_last());
    }
}

/// `after` is `before` with further mutations, and replaying those
/// mutations, in order, on the paths of `before` gives the paths of `after`.
pub open spec fn replays_from(after: MemFs, before: MemFs) -> bool {
    let n = before.history().len();
    &&& after.history().len() >= n
    &&& after.history().subrange(0, n as int) == before.history()
    &&& after.model() == replay(before.model(), after.history().skip(n as int))
}

pub proof fn lemma_replays_same(f: MemFs)
    ensures
        replays_from(f, f),
{
    assert(f.history().subrange(0, f.history().len() as int) =~= f.history());
    assert(f.history().skip(f.history().len() as int) =~= Seq::<FsOpView>::empty());
}

pub proof fn lemma_replays_step(f2: MemFs, f1: MemFs, f0: MemFs, op: FsOpView)
    requires
        replays_from(f1, f0),
        f2.history() == f1.history().push(op),
        f2.model() == step(f1.model(), op),
    ensures
        replays_from(f2, f0),
{
    let n = f0.history().len() as int;
    assert(f2.history().subrange(0, n) =~= f1.history().subrange(0, n));
    assert(f2.history().skip(n).drop_last() =~= f1.history().skip(n));
}

pub proof fn lemma_replays_trans(f2: MemFs, f1: MemFs, f0: MemFs)
    requires
        replays_from(f2, f1),
        replays_from(f1, f0),
    ensures
        replays_from(f2, f0),
{
    let n0 = f0.history().len() as int;
    let n1 = f1.history().len() as int;
    assert(f2.history().subrange(0, n0) =~= f1.history().subrange(0, n0));
    assert(f2.history().skip(n0) =~= f1.history().skip(n0) + f2.history().skip(n1));
    lemma_replay_concat(f0.model(), f1.history().skip(n0), f2.history().skip(n1));
}

/// A filesystem held in memory: a tree of directories and files under the root,
/// together with the log of the mutations made to it. It holds directories and
/// regular files only: links and special files are left out by whoever fills it,
/// and are therefore never copied.
pub struct MemFs {
    entries: Vec<FsEntry>,
    log: Vec<FsOp>,
}

impl MemFs {
    pub closed spec fn records(&self) -> Seq<(PathView, NodeView)> {
        self.entries@.map_values(|e: FsEntry| record_of(e))
    }

    /// Every path the filesystem holds, with its content.
    pub closed spec fn model(&self) -> Map<PathView, NodeView> {
        Map::new(
            |p: PathView| lookup(self.records(), p) is Some,
            |p: PathView| lookup(self.records(), p)->0,
        )
    }

    /// The mutations made so far, oldest first.
    pub closed spec fn history(&self) -> Seq<FsOpView> {
        self.log@.map_values(|o: FsOp| o@)
    }

    /// A bound on the length of every path the filesystem holds.
    pub closed spec fn depth_bound(&self) -> nat {
        longest(self.records())
    }

    /// The root is a directory, and every other path sits in a directory.
    pub open spec fn wf(&self) -> bool {
        &&& self.model().contains_key(Seq::empty())
        &&& self.model()[Seq::empty()] is Dir
        &&& parent_closed(self.model())
    }

    pub proof fn lemma_depth(&self, p: PathView)
        ensures
            self.model().contains_key(p) ==> p.len() <= self.depth_bound(),
    {
        lemma_lookup(self.records(), p);
    }

    /// A filesystem that holds the root directory alone.
    pub fn new() -> (r: MemFs)
        ensures
            r.wf(),
            r.model() == map![Seq::<Seq<char>>::empty() => NodeView::Dir],
            r.history() == Seq::<FsOpView>::empty(),
    {
        let mut entries: Vec<FsEntry> = Vec::new();
        entries.push(FsEntry { path: Vec::new(), node: Node::Dir });
        let r = MemFs { entries, log: Vec::new() };
        assert(r.records()[0].0 =~= Seq::<Seq<char>>::empty());
        assert(r.records().drop_last() =~= Seq::empty());
        assert forall|p: PathView| #[trigger] lookup(r.records(), p) == if p == Seq::<Seq<char>>::empty() {
            Some(NodeView::Dir)
        } else {
            None
        } by {
            assert(lookup(r.records().drop_last(), p) is None);
        }
        assert(r.model() =~= map![Seq::<Seq<char>>::empty() => NodeView::Dir]);
        assert(r.history() =~= Seq::<FsOpView>::empty());
        r
    }

    /// Index of the latest record for `p`.
    fn find(&self, p: &Vec<String>) -> (r: Option<usize>)
        ensures
            match r {
                Some(i) => i < self.entries.len() && self.records()[i as int].0 == p.deep_view()
                    && lookup(self.records(), p.deep_view()) == Some(self.records()[i as int].1),
                None => lookup(self.records(), p.deep_view()) is None,
            },
    {
        let ghost s = self.records();
        let mut i: usize = self.entries.len();
        assert(s.subrange(0, i as int) =~= s);
        while i > 0
            invariant
                i <= self.entries.len(),
                s == self.records(),
                s.len() == self.entries.len(),
                lookup(s, p.deep_view()) == lookup(s.subrange(0, i as int), p.deep_view()),
            decreases i,
        {
            let ghost t = s.subrange(0, i as int);
            assert(t.drop_last() =~= s.subrange(0, i - 1));
            if same_path(&self.entries[i - 1].path, p) {
                return Some(i - 1);
            }
            i = i - 1;
        }
        None
    }

    /// What `p` holds, without its bytes.
    pub fn is_dir(&self, p: &Vec<String>) -> (r: bool)
        ensures
            r == (self.model().contains_key(p.deep_view()) && self.model()[p.deep_view()] is Dir),
    {
        match self.find(p) {
            Some(i) => match &self.entries[i].node {
                Node::Dir => true,
                Node::File(_) => false,
            },
            None => false,
        }
    }

    /// Whether anything stands at `p`.
    pub fn contains(&self, p: &Vec<String>) -> (r: bool)
        ensures
            r == self.model().contains_key(p.deep_view()),
    {
        self.find(p).is_some()
    }

    /// The bytes of the file at `p`.
    pub fn read_file(&self, p: &Vec<String>) -> (r: Result<Vec<u8>, FsFault>)
        ensures
            match r {
                Ok(b) => self.model().contains_key(p.deep_view())
                    && self.model()[p.deep_view()] == NodeView::File(b@),
                Err(f) => !self.model().contains_key(p.deep_view()) && f == FsFault::NotFound
                    || self.model().contains_key(p.deep_view()) && self.model()[p.deep_view()] is Dir
                    && f == FsFault::IsADirectory,
            },
    {
        match self.find(p) {
            Some(i) => match &self.entries[i].node {
                Node::Dir => Err(FsFault::IsADirectory),
                Node::File(bytes) => Ok(clone_bytes(bytes)),
            },
            None => Err(FsFault::NotFound),
        }
    }

    fn store(&mut self, path: Vec<String>, node: Node)
        ensures
            final(self).model() == old(self).model().insert(path.deep_view(), node@),
            final(self).depth_bound() >= old(self).depth_bound(),
            final(self).history() == old(self).history(),
    {
        let ghost pv = path.deep_view();
        let ghost nv = node@;
        self.entries.push(FsEntry { path, node });
        let ghost s = self.records();
        assert(s.drop_last() =~= old(self).records());
        assert(s.last() == (pv, nv));
        assert(self.model() =~= old(self).model().insert(pv, nv));
        assert(self.history() =~= old(self).history());
    }

    fn note(&mut self, op: FsOp)
        ensures
            final(self).model() == old(self).model(),
            final(self).depth_bound() == old(self).depth_bound(),
            final(self).history() == old(self).history().push(op@),
    {
        self.log.push(op);
        assert(self.history() =~= old(self).history().push(op@));
    }

    /// Creates an empty directory at `p`; refused where `p` is the root or
    /// already stands, or where its parent is not a directory.
    pub fn create_dir(&mut self, p: &Vec<String>) -> (r: Result<(), FsFault>)
        requires
            old(self).wf(),
        ensures
            final(self).wf(),
            final(self).depth_bound() >= old(self).depth_bound(),
            r is Ok <==> p@.len() > 0 && !old(self).model().contains_key(p.deep_view())
                && old(self).model().contains_key(p.deep_view().drop_last())
                && old(self).model()[p.deep_view().drop_last()] is Dir,
            r is Ok ==> final(self).model() == old(self).model().insert(p.deep_view(), NodeView::Dir)
                && final(self).history() == old(self).history().push(FsOpView::CreateDir(p.deep_view())),
            r is Err ==> *final(self) == *old(self),
            replays_from(*final(self), *old(self)),
    {
        proof {
            lemma_replays_same(*old(self));
        }
        if p.len() == 0 {
            return Err(FsFault::AlreadyExists);
        }
        if self.contains(p) {
            return Err(FsFault::AlreadyExists);
        }
        let parent = parent_of(p);
        if !self.is_dir(&parent) {
            return Err(FsFault::NotFound);
        }
        self.store(clone_path(p), Node::Dir);
        self.note(FsOp::CreateDir(clone_path(p)));
        proof {
            lemma_replays_step(*self, *old(self), *old(self), FsOpView::CreateDir(p.deep_view()));
            let m = self.model();
            assert forall|q: PathView| #![trigger m.contains_key(q)] m.contains_key(q) && q.len() > 0
                implies m.contains_key(q.drop_last()) && m[q.drop_last()] is Dir by {
                if q != p.deep_view() {
                    assert(old(self).model().contains_key(q));
                }
            }
        }
        Ok(())
    }

    /// Writes `bytes` as the whole content of the file at `p`, replacing any
    /// earlier content; refused where `p` is a directory or its parent is not one.
    pub fn write_file(&mut self, p: &Vec<String>, bytes: Vec<u8>) -> (r: Result<(), FsFault>)
        requires
            old(self).wf(),
        ensures
            final(self).wf(),
            final(self).depth_bound() >= old(self).depth_bound(),
            r is Ok <==> p@.len() > 0
                && !(old(self).model().contains_key(p.deep_view()) && old(self).model()[p.deep_view()] is Dir)
                && old(self).model().contains_key(p.deep_view().drop_last())
                && old(self).model()[p.deep_view().drop_last()] is Dir,
            r is Ok ==> final(self).model() == old(self).model().insert(p.deep_view(), NodeView::File(bytes@))
                && final(self).history() == old(self).history().push(FsOpView::WriteFile(p.deep_view(), bytes@)),
            r is Err ==> *final(self) == *old(self),
            replays_from(*final(self), *old(self)),
    {
        proof {
            lemma_replays_same(*old(self));
        }
        if p.len() == 0 || self.is_dir(p) {
            return Err(FsFault::IsADirectory);
        }
        let parent = parent_of(p);
        if !self.is_dir(&parent) {
            return Err(FsFault::NotFound);
        }
        let copy = clone_bytes(&bytes);
        let ghost bv = bytes@;
        self.store(clone_path(p), Node::File(bytes));
        self.note(FsOp::WriteFile(clone_path(p), copy));
        proof {
            lemma_replays_step(*self, *old(self), *old(self), FsOpView::WriteFile(p.deep_view(), bv));
            let m = self.model();
            assert forall|q: PathView| #![trigger m.contains_key(q)] m.contains_key(q) && q.len() > 0
                implies m.contains_key(q.drop_last()) && m[q.drop_last()] is Dir by {
                if q != p.deep_view() {
                    assert(old(self).model().contains_key(q));
                }
            }
        }
        Ok(())
    }

    /// The names of the entries directly inside `dir`, each once, in the order
    /// in which they were first made.
    pub fn children(&self, dir: &Vec<String>) -> (r: Vec<String>)
        ensures
            forall|k: int| 0 <= k < r@.len() ==>
                self.model().contains_key(#[trigger] dir.deep_view().push(r.deep_view()[k])),
            forall|n: Seq<char>| #[trigger] self.model().contains_key(dir.deep_view().push(n))
                ==> r.deep_view().contains(n),
            r.deep_view().no_duplicates(),
    {
        let ghost s = self.records();
        let ghost d = dir.deep_view();
        let mut names: Vec<String> = Vec::new();
        let mut j: usize = 0;
        while j < self.entries.len()
            invariant
                j <= self.entries.len(),
                s == self.records(),
                s.len() == self.entries.len(),
                d == dir.deep_view(),
                forall|k: int| 0 <= k < names@.len() ==> exists|i: int|
                    0 <= i < j && (#[trigger] s[i]).0 == d.push(#[trigger] names.deep_view()[k]),
                forall|i: int| 0 <= i < j && (#[trigger] s[i]).0.len() == d.len() + 1
                    && strictly_under(s[i].0, d) ==> names.deep_view().contains(s[i].0.last()),
                names.deep_view().no_duplicates(),
            decreases self.entries.len() - j,
        {
            let path = &self.entries[j].path;
            if path.len() > dir.len() && path.len() - 1 == dir.len() && is_strictly_under(path, dir) {
                let name = &path[path.len() - 1];
                assert(s[j as int].0 =~= d.push(name@));
                if !contains_name(&names, name) {
                    let ghost before = names.deep_view();
                    names.push(name.clone());
                    assert(names.deep_view() =~= before.push(name@));
                    assert forall|k: int| 0 <= k < names@.len() implies exists|i: int|
                        0 <= i < j + 1 && (#[trigger] s[i]).0 == d.push(#[trigger] names.deep_view()[k]) by {
                        if k < before.len() {
                            assert(names.deep_view()[k] == before[k]);
                        } else {
                            assert(s[j as int].0 == d.push(names.deep_view()[k]));
                        }
                    }
                    assert forall|i: int| 0 <= i < j + 1 && (#[trigger] s[i]).0.len() == d.len() + 1
                        && strictly_under(s[i].0, d) implies names.deep_view().contains(s[i].0.last()) by {
                        if i < j {
                            let k = choose|k: int| 0 <= k < before.len() && before[k] == s[i].0.last();
                            assert(names.deep_view()[k] == s[i].0.last());
                        } else {
                            assert(names.deep_view()[before.len() as int] == s[i].0.last());
                        }
                    }
                }
            }
            assert forall|k: int| 0 <= k < names@.len() implies exists|i: int|
                0 <= i < j + 1 && (#[trigger] s[i]).0 == d.push(#[trigger] names.deep_view()[k]) by {
                if exists|i: int| 0 <= i < j && (#[trigger] s[i]).0 == d.push(#[trigger] names.deep_view()[k]) {
                    let i = choose|i: int| 0 <= i < j && (#[trigger] s[i]).0 == d.push(#[trigger] names.deep_view()[k]);
                    assert(s[i].0 == d.push(names.deep_view()[k]));
                }
            }
            j = j + 1;
        }
        proof {
            assert forall|k: int| 0 <= k < names@.len() implies
                self.model().contains_key(#[trigger] d.push(names.deep_view()[k])) by {
                lemma_lookup(s, d.push(names.deep_view()[k]));
            }
            assert forall|n: Seq<char>| #[trigger] self.model().contains_key(d.push(n))
                implies names.deep_view().contains(n) by {
                lemma_lookup(s, d.push(n));
                let i = choose|i: int| 0 <= i < s.len() && (#[trigger] s[i]).0 == d.push(n);
                assert(s[i].0.subrange(0, d.len() as int) =~= d);
                assert(s[i].0.last() == n);
            }
        }
        names
    }

    /// The mutations made so far, oldest first.
    pub fn operations(&self) -> (r: &Vec<FsOp>)
        ensures
            r@.map_values(|o: FsOp| o@) == self.history(),
    {
        &self.log
    }
}

fn contains_name(names: &Vec<String>, n: &String) -> (r: bool)
    ensures
        r == names.deep_view().contains(n@),
{
    let mut i: usize = 0;
    while i < names.len()
        invariant
            i <= names.len(),
            forall|k: int| 0 <= k < i ==> names.deep_view()[k] != n@,
        decreases names.len() - i,
    {
        if names[i] == *n {
            assert(names.deep_view()[i as int] == n@);
            return true;
        }
        i = i + 1;
    }
    false
}

/// A copy of a path.
pub fn clone_path(p: &Vec<String>) -> (r: Vec<String>)
    ensures
        r.deep_view() == p.deep_view(),
{
    let mut r: Vec<String> = Vec::new();
    let mut i: usize = 0;
    while i < p.len()
        invariant
            i <= p.len(),
            r@ == p@.subrange(0, i as int),
        decreases p.len() - i,
    {
        r.push(p[i].clone());
        assert(r@ =~= p@.subrange(0, i + 1));
        i = i + 1;
    }
    assert(r@ =~= p@);
    assert(r.deep_view() =~= p.deep_view());
    r
}

/// The path of the directory that holds `p`.
pub fn parent_of(p: &Vec<String>) -> (r: Vec<String>)
    requires
        p@.len() > 0,
    ensures
        r.deep_view() == p.deep_view().drop_last(),
{
    let mut r: Vec<String> = Vec::new();
    let mut i: usize = 0;
    while i + 1 < p.len()
        invariant
            i + 1 <= p.len(),
            r@ == p@.subrange(0, i as int),
        decreases p.len() - i,
    {
        r.push(p[i].clone());
        assert(r@ =~= p@.subrange(0, i + 1));
        i = i + 1;
    }
    assert(r@ =~= p@.drop_last());
    assert(r.deep_view() =~= p.deep_view().drop_last());
    r
}

fn clone_bytes(b: &Vec<u8>) -> (r: Vec<u8>)
    ensures
        r@ == b@,
{
    let mut r: Vec<u8> = Vec::new();
    let mut i: usize = 0;
    while i < b.len()
        invariant
            i <= b.len(),
            r@ == b@.subrange(0, i as int),
        decreases b.len() - i,
    {
        r.push(b[i]);
        assert(r@ =~= b@.subrange(0, i + 1));
        i = i + 1;
    }
    assert(r@ =~= b@);
    r
}

} // verus!
