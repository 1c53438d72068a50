use vstd::prelude::*;
use vstd::multiset::Multiset;

use crate::error::{FsOperation, IoError};
use crate::lexical::{lemma_lex_asymmetric, lemma_lex_transitive, lex_less, lex_lt};
use crate::memfs::{FsFault, clone_path};
use crate::path::{PathView, child_path, render, render_path};

verus! {

/// One subdirectory of a listed root.
#[derive(Debug)]
pub struct FolderEntry {
    /// The directory's own name.
    pub name: String,
    /// Its absolute path.
    pub path: String,
    /// When it was last modified, in seconds since the Unix epoch; 0 where unknown.
    pub last_modified: u64,
}

/// A folder entry as values: name, path and modification time.
pub type FolderView = (Seq<char>, Seq<char>, u64);

impl View for FolderEntry {
    type V = FolderView;

    open spec fn view(&self) -> FolderView {
        (self.name@, self.path@, self.last_modified)
    }
}

/// What a directory listing reports of one child.
pub struct ChildInfo {
    pub name: String,
    /// Whether the child is a directory (a link to one counts as one).
    pub is_dir: bool,
    /// Its modification time in seconds since the Unix epoch, where it could be read.
    pub modified: Option<u64>,
}

/// What reading the root of a listing gave.
pub enum RootListing {
    /// The root does not exist.
    Missing,
    /// The root exists but could not be read.
    Unreadable,
    /// The root's children, in the order the system reported them.
    Listed(Vec<ChildInfo>),
}

/// The order in which a listing is presented.
#[derive(Clone, Copy, Debug, PartialEq, Eq, Structural)]
pub enum SortOrder {
    /// By name, ascending, ignoring case.
    NameAscending,
    /// By modification time, newest first.
    NewestFirst,
}

/// The lowercase form of `s`, as Unicode defines it.
pub uninterp spec fn lower_of(s: Seq<char>) -> Seq<char>;

/// Relies on `str::to_lowercase`: the result depends on the characters alone.
#[verifier::external_body]
fn lowercase(s: &str) -> (r: String)
    ensures
        r@ == lower_of(s@),
{
    s.to_lowercase()
}

pub open spec fn views(s: Seq<FolderEntry>) -> Seq<FolderView> {
    s.map_values(|e: FolderEntry| e@)
}

/// The entry that a listing of `root` makes of the child directory `c`.
pub open spec fn entry_for(root: PathView, c: ChildInfo) -> FolderView {
    (
        c.name@,
        render(root.push(c.name@)),
        match c.modified {
            Some(t) => t,
            None => 0,
        },
    )
}

/// The entries for the children of `root` that are directories, in listing order.
pub open spec fn folders_of(root: PathView, s: Seq<ChildInfo>) -> Seq<FolderView>
    decreases s.len(),
{
    if s.len() == 0 {
        Seq::empty()
    } else if s.last().is_dir {
        folders_of(root, s.drop_last()).push(entry_for(root, s.last()))
    } else {
        folders_of(root, s.drop_last())
    }
}

/// A listing holds an entry exactly for each child that is a directory, and
/// for nothing else: no file appears in it.
pub proof fn lemma_only_directories(root: PathView, s: Seq<ChildInfo>)
    ensures
        forall|e: FolderView| #[trigger] folders_of(root, s).contains(e) <==> exists|i: int|
            0 <= i < s.len() && (#[trigger] s[i]).is_dir && entry_for(root, s[i]) == e,
    decreases s.len(),
{
    if s.len() > 0 {
        let p = s.drop_last();
        lemma_only_directories(root, p);
        let f = folders_of(root, p);
        assert(p == s.drop_last());
        assert(folders_of(root, s) == if s.last().is_dir { f.push(entry_for(root, s.last())) } else { f });
        assert forall|e: FolderView| #[trigger] folders_of(root, s).contains(e) <==> exists|i: int|
            0 <= i < s.len() && (#[trigger] s[i]).is_dir && entry_for(root, s[i]) == e by {
            if folders_of(root, s).contains(e) {
                if f.contains(e) {
                    let i = choose|i: int| 0 <= i < p.len() && (#[trigger] p[i]).is_dir && entry_for(root, p[i]) == e;
                    assert(s[i] == p[i]);
                    assert(s[i].is_dir && entry_for(root, s[i]) == e);
                } else {
                    let k = choose|k: int| 0 <= k < folders_of(root, s).len() && folders_of(root, s)[k] == e;
                    assert(s.last().is_dir);
                    if k < f.len() {
                        assert(folders_of(root, s)[k] == f[k]);
                    }
                    assert(s[s.len() - 1].is_dir && entry_for(root, s[s.len() - 1]) == e);
                }
            }
            if exists|i: int| 0 <= i < s.len() && (#[trigger] s[i]).is_dir && entry_for(root, s[i]) == e {
                let i = choose|i: int| 0 <= i < s.len() && (#[trigger] s[i]).is_dir && entry_for(root, s[i]) == e;
                if i < s.len() - 1 {
                    assert(p[i] == s[i]);
                    assert(p[i].is_dir && entry_for(root, p[i]) == e);
                    assert(f.contains(e));
                    let k = choose|k: int| 0 <= k < f.len() && f[k] == e;
                    if s.last().is_dir {
                        assert(f.push(entry_for(root, s.last()))[k] == e);
                    }
                    assert(folders_of(root, s)[k] == e);
                } else {
                    assert(folders_of(root, s) == f.push(entry_for(root, s.last())));
                    assert(folders_of(root, s)[f.len() as int] == e);
                }
            }
        }
    }
}

/// `a` must be presented before `b` under `order`.
pub open spec fn goes_before(order: SortOrder, a: FolderView, b: FolderView) -> bool {
    match order {
        SortOrder::NameAscending => lex_lt(lower_of(a.0), lower_of(b.0)),
        SortOrder::NewestFirst => a.2 > b.2,
    }
}

/// No entry of `s` must be presented before one that precedes it.
pub open spec fn sorted_by(order: SortOrder, s: Seq<FolderView>) -> bool {
    forall|i: int, j: int| 0 <= i < j < s.len() ==> !goes_before(order, #[trigger] s[j], #[trigger] s[i])
}

/// `a` and `b` have the same key under `order`, so neither goes before the other.
pub open spec fn same_rank(order: SortOrder, a: FolderView, b: FolderView) -> bool {
    match order {
        SortOrder::NameAscending => lower_of(a.0) == lower_of(b.0),
        SortOrder::NewestFirst => a.2 == b.2,
    }
}

/// The entries of `s` with the same key as `y`, in their order in `s`.
pub open spec fn tied_with(order: SortOrder, s: Seq<FolderView>, y: FolderView) -> Seq<FolderView>
    decreases s.len(),
{
    if s.len() == 0 {
        s
    } else if same_rank(order, s.last(), y) {
        tied_with(order, s.drop_last(), y).push(s.last())
    } else {
        tied_with(order, s.drop_last(), y)
    }
}

proof fn lemma_tied_insert(order: SortOrder, s: Seq<FolderView>, j: int, x: FolderView, y: FolderView)
    requires
        0 <= j <= s.len(),
        forall|k: int| j <= k < s.len() ==> !same_rank(order, #[trigger] s[k], x),
    ensures
        tied_with(order, s.insert(j, x), y) == if same_rank(order, x, y) {
            tied_with(order, s, y).push(x)
        } else {
            tied_with(order, s, y)
        },
    decreases s.len(),
{
    let t = s.insert(j, x);
    if j == s.len() {
        assert(t.drop_last() =~= s);
        assert(t.last() == x);
    } else {
        assert(t.drop_last() =~= s.drop_last().insert(j, x));
        assert(t.last() == s.last());
        assert(!same_rank(order, s[s.len() - 1], x));
        lemma_tied_insert(order, s.drop_last(), j, x, y);
    }
}

proof fn lemma_order(order: SortOrder, a: FolderView, b: FolderView, c: FolderView)
    ensures
        goes_before(order, a, b) ==> !goes_before(order, b, a),
        goes_before(order, a, b) && goes_before(order, b, c) ==> goes_before(order, a, c),
{
    if order == SortOrder::NameAscending {
        if goes_before(order, a, b) {
            lemma_lex_asymmetric(lower_of(a.0), lower_of(b.0));
            if goes_before(order, b, c) {
                lemma_lex_transitive(lower_of(a.0), lower_of(b.0), lower_of(c.0));
            }
        }
    }
}

proof fn lemma_insert_multiset<A>(s: Seq<A>, j: int, x: A)
    requires
        0 <= j <= s.len(),
    ensures
        s.insert(j, x).to_multiset() == s.to_multiset().insert(x),
{
    broadcast use vstd::seq_lib::group_to_multiset_ensures;
    let t = s.insert(j, x);
    assert(t.remove(j) =~= s);
    assert(t[j] == x);
    assert(t.contains(x));
    assert(t.to_multiset() =~= t.to_multiset().remove(x).insert(x));
}

/// An entry with the key by which it is ordered by name.
struct Keyed {
    entry: FolderEntry,
    key: String,
}

spec fn keyed_views(s: Seq<Keyed>) -> Seq<FolderView> {
    s.map_values(|k: Keyed| k.entry@)
}

spec fn keys_fit(s: Seq<Keyed>) -> bool {
    forall|i: int| 0 <= i < s.len() ==> (#[trigger] s[i]).key@ == lower_of(s[i].entry.name@)
}

fn precedes(order: SortOrder, a: &Keyed, b: &Keyed) -> (r: bool)
    requires
        a.key@ == lower_of(a.entry.name@),
        b.key@ == lower_of(b.entry.name@),
    ensures
        r == goes_before(order, a.entry@, b.entry@),
{
    match order {
        SortOrder::NameAscending => lex_less(a.key.as_str(), b.key.as_str()),
        SortOrder::NewestFirst => a.entry.last_modified > b.entry.last_modified,
    }
}

/// Puts `x` after every entry that need not follow it and before the rest,
/// so that entries that tie keep the order in which they came.
fn insert_sorted(out: &mut Vec<Keyed>, x: Keyed, order: SortOrder)
    requires
        sorted_by(order, keyed_views(old(out)@)),
        keys_fit(old(out)@),
        x.key@ == lower_of(x.entry.name@),
    ensures
        sorted_by(order, keyed_views(final(out)@)),
        keys_fit(final(out)@),
        keyed_views(final(out)@).to_multiset() == keyed_views(old(out)@).to_multiset().insert(x.entry@),
        forall|y: FolderView| #[trigger] tied_with(order, keyed_views(final(out)@), y) == if same_rank(order, x.entry@, y) {
            tied_with(order, keyed_views(old(out)@), y).push(x.entry@)
        } else {
            tied_with(order, keyed_views(old(out)@), y)
        },
{
    let ghost s = keyed_views(out@);
    let mut j: usize = 0;
    while j < out.len() && !precedes(order, &x, &out[j])
        invariant
            j <= out.len(),
            s == keyed_views(out@),
            keys_fit(out@),
            x.key@ == lower_of(x.entry.name@),
            forall|k: int| 0 <= k < j ==> !goes_before(order, x.entry@, #[trigger] s[k]),
        decreases out.len() - j,
    {
        j = j + 1;
    }
    let ghost xv = x.entry@;
    proof {
        if j < s.len() {
            assert(goes_before(order, xv, s[j as int]));
        }
    }
    out.insert(j, x);
    proof {
        let t = keyed_views(out@);
        assert(t =~= s.insert(j as int, xv));
        lemma_insert_multiset(s, j as int, xv);
        assert forall|k: int| j <= k < s.len() implies !same_rank(order, #[trigger] s[k], xv) by {
            if same_rank(order, s[k], xv) && k > j {
                assert(!goes_before(order, s[k], s[j as int]));
                if order == SortOrder::NameAscending {
                    lemma_lex_transitive(lower_of(s[k].0), lower_of(xv.0), lower_of(s[j as int].0));
                    lemma_lex_transitive(lower_of(xv.0), lower_of(s[j as int].0), lower_of(s[k].0));
                }
            }
            if same_rank(order, s[k], xv) && k == j && order == SortOrder::NameAscending {
                lemma_lex_asymmetric(lower_of(xv.0), lower_of(s[k].0));
            }
        }
        assert forall|y: FolderView| #[trigger] tied_with(order, t, y) == if same_rank(order, xv, y) {
            tied_with(order, s, y).push(xv)
        } else {
            tied_with(order, s, y)
        } by {
            lemma_tied_insert(order, s, j as int, xv, y);
        }
        assert forall|a: int, b: int| 0 <= a < b < t.len() implies !goes_before(order, #[trigger] t[b], #[trigger] t[a]) by {
            if a < j && b > j {
                assert(t[a] == s[a]);
                assert(t[b] == s[b - 1]);
            } else if a == j {
                assert(t[b] == s[b - 1]);
                lemma_order(order, xv, s[j as int], s[b - 1]);
                lemma_order(order, s[b - 1], xv, s[j as int]);
                if b - 1 > j {
                    assert(!goes_before(order, s[b - 1], s[j as int]));
                }
            } else if b == j {
                assert(t[a] == s[a]);
            } else if b < j {
                assert(t[a] == s[a]);
                assert(t[b] == s[b]);
            } else {
                assert(t[a] == s[a - 1]);
                assert(t[b] == s[b - 1]);
            }
        }
        assert forall|i: int| 0 <= i < out@.len() implies (#[trigger] out@[i]).key@ == lower_of(out@[i].entry.name@) by {
            if i < j {
                assert(out@[i] == old(out)@[i]);
            } else if i > j {
                assert(out@[i] == old(out)@[i - 1]);
            }
        }
    }
}

/// Lists the subdirectories of `root` from what reading it gave: files are
/// left out, each directory becomes an entry with its name, its absolute path
/// and its modification time (0 where unknown), and the entries come in
/// `order`; entries with the same key keep the order of the listing. A root
/// that does not exist lists as empty; one that cannot be read is an error.
pub fn list_folders(root: &Vec<String>, listing: RootListing, order: SortOrder) -> (r: Result<Vec<FolderEntry>, IoError>)
    ensures
        match listing {
            RootListing::Missing => r matches Ok(v) && v@.len() == 0,
            RootListing::Unreadable => r matches Err(e) && e.operation == FsOperation::ReadDir
                && e.path.deep_view() == root.deep_view() && e.cause == FsFault::Unreadable,
            RootListing::Listed(children) => r matches Ok(v)
                && views(v@).to_multiset() == folders_of(root.deep_view(), children@).to_multiset()
                && sorted_by(order, views(v@))
                && forall|y: FolderView| #[trigger] tied_with(order, views(v@), y)
                    == tied_with(order, folders_of(root.deep_view(), children@), y),
        },
{
    let children = match listing {
        RootListing::Missing => {
            return Ok(Vec::new());
        },
        RootListing::Unreadable => {
            return Err(IoError { operation: FsOperation::ReadDir, path: clone_path(root), cause: FsFault::Unreadable });
        },
        RootListing::Listed(children) => children,
    };
    let ghost rv = root.deep_view();
    let ghost cs = children@;
    let mut out: Vec<Keyed> = Vec::new();
    let mut i: usize = 0;
    proof {
        broadcast use vstd::seq_lib::group_to_multiset_ensures;
        assert(keyed_views(out@) =~= Seq::empty());
        assert(cs.subrange(0, 0) =~= Seq::empty());
        assert(keyed_views(out@).to_multiset() =~= Multiset::empty());
        assert(folders_of(rv, cs.subrange(0, 0)).to_multiset() =~= Multiset::empty());
        assert forall|y: FolderView| #[trigger] tied_with(order, keyed_views(out@), y)
            == tied_with(order, folders_of(rv, cs.subrange(0, 0)), y) by {}
    }
    while i < children.len()
        invariant
            i <= children.len(),
            cs == children@,
            rv == root.deep_view(),
            sorted_by(order, keyed_views(out@)),
            keys_fit(out@),
            keyed_views(out@).to_multiset() == folders_of(rv, cs.subrange(0, i as int)).to_multiset(),
            forall|y: FolderView| #[trigger] tied_with(order, keyed_views(out@), y)
                == tied_with(order, folders_of(rv, cs.subrange(0, i as int)), y),
        decreases children.len() - i,
    {
        let c = &children[i];
        proof {
            assert(cs.subrange(0, i + 1).drop_last() =~= cs.subrange(0, i as int));
            assert(cs.subrange(0, i + 1).last() == cs[i as int]);
        }
        if c.is_dir {
            let path = render_path(&child_path(root, &c.name));
            let last_modified = match c.modified {
                Some(t) => t,
                None => 0,
            };
            let entry = FolderEntry { name: c.name.clone(), path, last_modified };
            assert(entry@ == entry_for(rv, *c));
            let key = lowercase(entry.name.as_str());
            insert_sorted(&mut out, Keyed { entry, key }, order);
            proof {
                broadcast use vstd::seq_lib::group_to_multiset_ensures;
                let f = folders_of(rv, cs.subrange(0, i as int));
                assert(folders_of(rv, cs.subrange(0, i + 1)) == f.push(entry_for(rv, *c)));
                assert forall|y: FolderView| #[trigger] tied_with(order, keyed_views(out@), y)
                    == tied_with(order, folders_of(rv, cs.subrange(0, i + 1)), y) by {
                    assert(f.push(entry_for(rv, *c)).drop_last() =~= f);
                }
            }
        }
        i = i + 1;
    }
    assert(cs.subrange(0, cs.len() as int) =~= cs);
    let ghost sorted = keyed_views(out@);
    let mut v: Vec<FolderEntry> = Vec::new();
    assert(sorted =~= keyed_views(out@) + views(v@));
    while out.len() > 0
        invariant
            sorted == keyed_views(out@) + views(v@),
        decreases out.len(),
    {
        let ghost before = views(v@);
        let k = out.pop().unwrap();
        let ghost kv = k.entry@;
        v.insert(0, k.entry);
        proof {
            assert(views(v@) =~= seq![kv] + before);
            assert(sorted =~= keyed_views(out@) + views(v@));
        }
    }
    assert(sorted =~= views(v@));
    Ok(v)
}

} // verus!
