use vstd::prelude::*;

use crate::category::{TemplateCategory, category_tag};
use crate::error::MaterializeError;
use crate::memfs::{MemFs, NodeView, clone_path, parent_of};
use crate::path::{PathView, child_path, render, render_path};

verus! {

/// Where a running application may find its templates.
pub struct SearchContext {
    /// The packaged resource directory, when the application runs from an installation.
    pub resource_dir: Option<Vec<String>>,
    /// The working directory of the process.
    pub working_dir: Vec<String>,
    /// The directory that holds the running executable, when known.
    pub exe_dir: Option<Vec<String>>,
}

pub open spec fn opt_path(p: Option<Vec<String>>) -> Option<PathView> {
    match p {
        Some(v) => Some(v.deep_view()),
        None => None,
    }
}

/// The name of the file whose presence marks a project root.
pub open spec fn marker_name() -> Seq<char> {
    seq!['C', 'a', 'r', 'g', 'o', '.', 't', 'o', 'm', 'l']
}

/// The name of the subdirectory of a search root that holds templates.
pub open spec fn template_dir() -> Seq<char> {
    seq!['s', 'r', 'c']
}

/// The name of the template tree for `c`, such as `2d-game-boilerplate`.
pub open spec fn template_leaf(c: TemplateCategory) -> Seq<char> {
    category_tag(c) + seq!['-', 'g', 'a', 'm', 'e', '-', 'b', 'o', 'i', 'l', 'e', 'r', 'p', 'l', 'a', 't', 'e']
}

pub open spec fn is_dir_in(m: Map<PathView, NodeView>, p: PathView) -> bool {
    m.contains_key(p) && m[p] is Dir
}

/// The nearest ancestor of `wd` among its first `k + 1` prefixes, longest
/// first, that holds the marker file.
pub open spec fn marked_ancestor(m: Map<PathView, NodeView>, wd: PathView, k: nat) -> Option<PathView>
    decreases k,
{
    if k > wd.len() {
        None
    } else if m.contains_key(wd.subrange(0, k as int).push(marker_name())) {
        Some(wd.subrange(0, k as int))
    } else if k == 0 {
        None
    } else {
        marked_ancestor(m, wd, (k - 1) as nat)
    }
}

/// The project root: the nearest ancestor of `wd`, itself included, that
/// holds the marker; `wd` itself where none does.
pub open spec fn project_root(m: Map<PathView, NodeView>, wd: PathView) -> PathView {
    match marked_ancestor(m, wd, wd.len()) {
        Some(p) => p,
        None => wd,
    }
}

/// Where the template for `c` sits below the search root `root`.
pub open spec fn template_under(root: PathView, c: TemplateCategory) -> PathView {
    root.push(template_dir()).push(template_leaf(c))
}

/// The executable's directory and up to three of its ancestors, nearest first.
pub open spec fn exe_roots(e: PathView) -> Seq<PathView> {
    Seq::new(
        if e.len() < 3 { e.len() + 1 } else { 4 },
        |k: int| e.subrange(0, e.len() - k),
    )
}

/// Every candidate location of the template for `c`, in the order searched:
/// the packaged resources (the template directly inside them, then inside
/// the `src` folder beside them), then the working directory, the project
/// root, and the executable's directory with its ancestors.
pub open spec fn candidates(
    c: TemplateCategory,
    resource_dir: Option<PathView>,
    wd: PathView,
    root: PathView,
    exe_dir: Option<PathView>,
) -> Seq<PathView> {
    let packaged = match resource_dir {
        Some(r) => seq![
            r.push(template_leaf(c)),
            template_under(if r.len() > 0 { r.drop_last() } else { r }, c),
        ],
        None => Seq::empty(),
    };
    let local = seq![template_under(wd, c), template_under(root, c)];
    let installed = match exe_dir {
        Some(e) => exe_roots(e).map_values(|p: PathView| template_under(p, c)),
        None => Seq::empty(),
    };
    packaged + local + installed
}

/// The first path of `s` that is a directory of `m`.
pub open spec fn first_dir(m: Map<PathView, NodeView>, s: Seq<PathView>) -> Option<PathView>
    decreases s.len(),
{
    if s.len() == 0 {
        None
    } else if is_dir_in(m, s[0]) {
        Some(s[0])
    } else {
        first_dir(m, s.skip(1))
    }
}

/// Search is first match wins, in the fixed order of the candidates: the
/// result is the earliest candidate that is a directory, every candidate
/// before it was probed and is not one, and no result means that none is.
pub proof fn lemma_first_match_wins(m: Map<PathView, NodeView>, s: Seq<PathView>)
    ensures
        match first_dir(m, s) {
            Some(p) => exists|i: int|
                0 <= i < s.len() && s[i] == p && is_dir_in(m, s[i])
                    && forall|j: int| 0 <= j < i ==> !is_dir_in(m, #[trigger] s[j]),
            None => forall|j: int| 0 <= j < s.len() ==> !is_dir_in(m, #[trigger] s[j]),
        },
    decreases s.len(),
{
    if s.len() > 0 && !is_dir_in(m, s[0]) {
        let t = s.skip(1);
        lemma_first_match_wins(m, t);
        match first_dir(m, t) {
            Some(p) => {
                let i = choose|i: int|
                    0 <= i < t.len() && t[i] == p && is_dir_in(m, t[i])
                        && forall|j: int| 0 <= j < i ==> !is_dir_in(m, #[trigger] t[j]);
                assert(s[i + 1] == p);
                assert forall|j: int| 0 <= j < i + 1 implies !is_dir_in(m, #[trigger] s[j]) by {
                    if j > 0 {
                        assert(s[j] == t[j - 1]);
                    }
                }
            },
            None => {
                assert forall|j: int| 0 <= j < s.len() implies !is_dir_in(m, #[trigger] s[j]) by {
                    if j > 0 {
                        assert(s[j] == t[j - 1]);
                    }
                }
            },
        }
    }
}

fn text(s: &str) -> (r: String)
    ensures
        r@ == s@,
{
    String::from_str(s)
}

/// The name of the template tree for `c`.
pub fn template_name(c: TemplateCategory) -> (r: String)
    ensures
        r@ == template_leaf(c),
{
    let tag = match c {
        TemplateCategory::TwoD => "2d",
        TemplateCategory::ThreeD => "3d",
    };
    let suffix = "-game-boilerplate";
    proof {
        reveal_strlit("2d");
        reveal_strlit("3d");
        reveal_strlit("-game-boilerplate");
    }
    let mut r = text(tag);
    r.append(suffix);
    assert(r@ =~= template_leaf(c));
    r
}

fn under_root(root: &Vec<String>, c: TemplateCategory) -> (r: Vec<String>)
    ensures
        r.deep_view() == template_under(root.deep_view(), c),
{
    let folder = "src";
    proof {
        reveal_strlit("src");
    }
    let sub = text(folder);
    assert(sub@ == template_dir());
    let dir = child_path(root, &sub);
    child_path(&dir, &template_name(c))
}

/// The nearest ancestor of `wd`, itself included, that holds the marker
/// file of a project; `wd` itself where none does.
pub fn find_project_root(fs: &MemFs, wd: &Vec<String>) -> (r: Vec<String>)
    ensures
        r.deep_view() == project_root(fs.model(), wd.deep_view()),
{
    let marker = "Cargo.toml";
    proof {
        reveal_strlit("Cargo.toml");
    }
    let name = text(marker);
    assert(name@ == marker_name());
    let ghost m = fs.model();
    let ghost w = wd.deep_view();
    let mut k: usize = wd.len();
    let mut prefix = clone_path(wd);
    assert(w.subrange(0, k as int) =~= w);
    loop
        invariant
            k <= wd.len(),
            m == fs.model(),
            w == wd.deep_view(),
            name@ == marker_name(),
            prefix.deep_view() == w.subrange(0, k as int),
            marked_ancestor(m, w, w.len()) == marked_ancestor(m, w, k as nat),
        decreases k,
    {
        if fs.contains(&child_path(&prefix, &name)) {
            return prefix;
        }
        if k == 0 {
            return clone_path(wd);
        }
        assert(prefix@.len() == prefix.deep_view().len());
        let up = parent_of(&prefix);
        assert(up.deep_view() =~= w.subrange(0, k - 1));
        prefix = up;
        k = k - 1;
    }
}

/// The candidate locations of the template for `c`, in search order.
pub fn candidate_paths(c: TemplateCategory, ctx: &SearchContext, root: &Vec<String>) -> (r: Vec<Vec<String>>)
    ensures
        r.deep_view() == candidates(
            c,
            opt_path(ctx.resource_dir),
            ctx.working_dir.deep_view(),
            root.deep_view(),
            opt_path(ctx.exe_dir),
        ),
{
    let mut r: Vec<Vec<String>> = Vec::new();
    let ghost packaged: Seq<PathView> = Seq::empty();
    match &ctx.resource_dir {
        Some(res) => {
            r.push(child_path(res, &template_name(c)));
            let beside = if res.len() > 0 { parent_of(res) } else { clone_path(res) };
            r.push(under_root(&beside, c));
            proof {
                let rv = res.deep_view();
                packaged = seq![
                    rv.push(template_leaf(c)),
                    template_under(if rv.len() > 0 { rv.drop_last() } else { rv }, c),
                ];
                assert(r.deep_view() =~= packaged);
            }
        },
        None => {
            assert(r.deep_view() =~= packaged);
        },
    }
    r.push(under_root(&ctx.working_dir, c));
    r.push(under_root(root, c));
    let ghost local = seq![template_under(ctx.working_dir.deep_view(), c), template_under(root.deep_view(), c)];
    assert(r.deep_view() =~= packaged + local);
    match &ctx.exe_dir {
        Some(e) => {
            let ghost ev = e.deep_view();
            let ghost installed = exe_roots(ev).map_values(|p: PathView| template_under(p, c));
            let ghost base = r.deep_view();
            let count: usize = if e.len() < 3 { e.len() + 1 } else { 4 };
            let mut k: usize = 0;
            let mut dir = clone_path(e);
            while k < count
                invariant
                    k <= count,
                    count == installed.len(),
                    ev == e.deep_view(),
                    installed == exe_roots(ev).map_values(|p: PathView| template_under(p, c)),
                    k < count ==> dir.deep_view() == ev.subrange(0, ev.len() - k),
                    r.deep_view() == base + installed.subrange(0, k as int),
                decreases count - k,
            {
                let ghost before = r.deep_view();
                assert(installed[k as int] == template_under(dir.deep_view(), c));
                let t = under_root(&dir, c);
                let ghost tv = t.deep_view();
                r.push(t);
                assert(r.deep_view() =~= before.push(tv));
                assert(r.deep_view() =~= base + installed.subrange(0, k + 1));
                if k + 1 < count {
                    assert(dir@.len() == dir.deep_view().len());
                    let up = parent_of(&dir);
                    assert(up.deep_view() =~= ev.subrange(0, ev.len() - (k + 1)));
                    dir = up;
                }
                k = k + 1;
            }
            assert(installed.subrange(0, count as int) =~= installed);
        },
        None => {
            assert(r.deep_view() =~= packaged + local + Seq::<PathView>::empty());
        },
    }
    r
}

/// The ordered candidate list that a search for `c` probes in `m`.
pub open spec fn search_list(m: Map<PathView, NodeView>, c: TemplateCategory, ctx: &SearchContext) -> Seq<PathView> {
    candidates(
        c,
        opt_path(ctx.resource_dir),
        ctx.working_dir.deep_view(),
        project_root(m, ctx.working_dir.deep_view()),
        opt_path(ctx.exe_dir),
    )
}

/// Every candidate as an absolute path string.
pub open spec fn rendered(s: Seq<PathView>) -> Seq<Seq<char>> {
    s.map_values(|p: PathView| render(p))
}

/// Finds the template for `c`: the first candidate location, in search
/// order, that is a directory. Where none is, the error carries every
/// candidate that was checked, in order.
pub fn locate(fs: &MemFs, c: TemplateCategory, ctx: &SearchContext) -> (r: Result<Vec<String>, MaterializeError>)
    ensures
        match r {
            Ok(p) => first_dir(fs.model(), search_list(fs.model(), c, ctx)) == Some(p.deep_view()),
            Err(MaterializeError::TemplateNotFound { category, checked_paths }) => {
                &&& first_dir(fs.model(), search_list(fs.model(), c, ctx)) is None
                &&& category == c
                &&& checked_paths.deep_view() == rendered(search_list(fs.model(), c, ctx))
            },
            Err(_) => false,
        },
{
    let ghost m = fs.model();
    let root = find_project_root(fs, &ctx.working_dir);
    let cands = candidate_paths(c, ctx, &root);
    let ghost s = cands.deep_view();
    assert(s == search_list(m, c, ctx));
    let mut i: usize = 0;
    assert(s.skip(0) =~= s);
    while i < cands.len()
        invariant
            i <= cands.len(),
            s == cands.deep_view(),
            s == search_list(m, c, ctx),
            m == fs.model(),
            first_dir(m, s) == first_dir(m, s.skip(i as int)),
        decreases cands.len() - i,
    {
        assert(s.skip(i as int)[0] == cands[i as int].deep_view());
        if fs.is_dir(&cands[i]) {
            assert(s.skip(i as int).len() > 0);
            assert(is_dir_in(m, s.skip(i as int)[0]));
            assert(first_dir(m, s.skip(i as int)) == Some(cands[i as int].deep_view()));
            let found = clone_path(&cands[i]);
            return Ok(found);
        }
        assert(s.skip(i as int).skip(1) =~= s.skip(i + 1));
        i = i + 1;
    }
    let mut checked: Vec<String> = Vec::new();
    let mut k: usize = 0;
    while k < cands.len()
        invariant
            k <= cands.len(),
            s == cands.deep_view(),
            checked.deep_view() == rendered(s.subrange(0, k as int)),
        decreases cands.len() - k,
    {
        let ghost before = checked.deep_view();
        let line = render_path(&cands[k]);
        let ghost lv = line@;
        checked.push(line);
        assert(checked.deep_view() =~= before.push(lv));
        assert(checked.deep_view() =~= rendered(s.subrange(0, k + 1)));
        k = k + 1;
    }
    assert(s.subrange(0, s.len() as int) =~= s);
    Err(MaterializeError::TemplateNotFound { category: c, checked_paths: checked })
}

} // verus!
