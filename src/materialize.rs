use vstd::prelude::*;

use crate::category::{TemplateCategory, category_of, parse_category};
use crate::copier::{
    clash_at, clashes, copy_allowed, copy_tree, empty_dir, files_below, lemma_concat, lemma_copy_round_trip,
    mirrors, same_outside, tree_below,
};
use crate::error::{FsOperation, IoError, MaterializeError};
use crate::locator::{SearchContext, first_dir, marked_ancestor, marker_name, project_root, is_dir_in, lemma_first_match_wins, locate, rendered, search_list};
use crate::memfs::{FsFault, MemFs, lemma_ancestor, NodeView, clone_path, entry_at, lemma_replays_same, lemma_replays_trans, replays_from};
use crate::path::{PathView, child_path, render, render_path, strictly_under};

verus! {

/// The filesystem once the new project directory `t` has been made in `m`.
pub open spec fn with_dir(m: Map<PathView, NodeView>, t: PathView) -> Map<PathView, NodeView> {
    m.insert(t, NodeView::Dir)
}

proof fn lemma_marks_unmoved(m: Map<PathView, NodeView>, t: PathView, wd: PathView, k: nat)
    requires
        t.len() > 0,
        t.last() != marker_name(),
    ensures
        marked_ancestor(with_dir(m, t), wd, k) == marked_ancestor(m, wd, k),
    decreases k,
{
    if k <= wd.len() {
        assert(wd.subrange(0, k as int).push(marker_name()) != t) by {
            if wd.subrange(0, k as int).push(marker_name()) == t {
                assert(t.last() == marker_name());
            }
        }
        if k > 0 {
            lemma_marks_unmoved(m, t, wd, (k - 1) as nat);
        }
    }
}

proof fn lemma_first_dir_unmoved(m: Map<PathView, NodeView>, t: PathView, s: Seq<PathView>)
    requires
        !s.contains(t),
    ensures
        first_dir(with_dir(m, t), s) == first_dir(m, s),
    decreases s.len(),
{
    if s.len() > 0 {
        assert(s[0] != t);
        assert(!s.skip(1).contains(t)) by {
            if s.skip(1).contains(t) {
                let k = choose|k: int| 0 <= k < s.skip(1).len() && s.skip(1)[k] == t;
                assert(s[k + 1] == t);
            }
        }
        lemma_first_dir_unmoved(m, t, s.skip(1));
    }
}

/// Making the new directory `t` leaves the search for a template as it was,
/// unless `t` is itself a candidate location or is named like the marker of
/// a project root: the same candidates are probed and the same one is found.
/// So a project made by `materialize` holds the files of the template that
/// the search finds before the project directory is made.
pub proof fn lemma_search_unmoved(m: Map<PathView, NodeView>, t: PathView, c: TemplateCategory, ctx: &SearchContext)
    requires
        t.len() > 0,
        t.last() != marker_name(),
        !search_list(m, c, ctx).contains(t),
    ensures
        search_list(with_dir(m, t), c, ctx) == search_list(m, c, ctx),
        first_dir(with_dir(m, t), search_list(with_dir(m, t), c, ctx)) == first_dir(m, search_list(m, c, ctx)),
{
    let wd = ctx.working_dir.deep_view();
    lemma_marks_unmoved(m, t, wd, wd.len());
    assert(project_root(with_dir(m, t), wd) == project_root(m, wd));
    lemma_first_dir_unmoved(m, t, search_list(m, c, ctx));
}

/// Makes the project `name` inside `parent` from the template for `category`:
/// validates the parent, the category and the target, in that order; makes the
/// target directory; finds the template; copies it in; returns the new
/// directory's absolute path. Each step is tried once. A failure after the
/// target was made leaves it as it stands, empty. The one copy that can fail
/// is that of a template that holds the new directory itself.
pub fn materialize(
    fs: &mut MemFs,
    parent: &Vec<String>,
    name: &String,
    category: &str,
    ctx: &SearchContext,
) -> (r: Result<String, MaterializeError>)
    requires
        old(fs).wf(),
    ensures
        final(fs).wf(),
        replays_from(*final(fs), *old(fs)),
        ({
            let m = old(fs).model();
            let pv = parent.deep_view();
            let tv = pv.push(name@);
            let m1 = with_dir(m, tv);
            match r {
                Ok(p) => {
                    &&& is_dir_in(m, pv)
                    &&& category_of(category@) is Some
                    &&& !m.contains_key(tv)
                    &&& p@ == render(tv)
                    &&& first_dir(m1, search_list(m1, category_of(category@)->0, ctx)) is Some
                    &&& copy_allowed(m1, first_dir(m1, search_list(m1, category_of(category@)->0, ctx))->0, tv)
                    &&& mirrors(final(fs).model(), tv, m1, first_dir(m1, search_list(m1, category_of(category@)->0, ctx))->0)
                    &&& same_outside(final(fs).model(), m1, tv)
                    &&& tree_below(final(fs).model(), tv)
                        == tree_below(m, first_dir(m1, search_list(m1, category_of(category@)->0, ctx))->0)
                    &&& files_below(final(fs).model(), tv)
                        == files_below(m, first_dir(m1, search_list(m1, category_of(category@)->0, ctx))->0)
                },
                Err(MaterializeError::InvalidParent { path }) => {
                    &&& !is_dir_in(m, pv)
                    &&& path.deep_view() == pv
                    &&& *final(fs) == *old(fs)
                },
                Err(MaterializeError::InvalidCategory { given }) => {
                    &&& is_dir_in(m, pv)
                    &&& category_of(category@) is None
                    &&& given@ == category@
                    &&& *final(fs) == *old(fs)
                },
                Err(MaterializeError::AlreadyExists { path }) => {
                    &&& is_dir_in(m, pv)
                    &&& category_of(category@) is Some
                    &&& m.contains_key(tv)
                    &&& path.deep_view() == tv
                    &&& *final(fs) == *old(fs)
                },
                Err(MaterializeError::TemplateNotFound { category: c, checked_paths }) => {
                    &&& is_dir_in(m, pv)
                    &&& category_of(category@) == Some(c)
                    &&& !m.contains_key(tv)
                    &&& final(fs).model() == m1
                    &&& first_dir(m1, search_list(m1, c, ctx)) is None
                    &&& checked_paths.deep_view() == rendered(search_list(m1, c, ctx))
                },
                Err(MaterializeError::Io(e)) => {
                    &&& is_dir_in(m, pv)
                    &&& category_of(category@) is Some
                    &&& !m.contains_key(tv)
                    &&& final(fs).model() == m1
                    &&& first_dir(m1, search_list(m1, category_of(category@)->0, ctx)) is Some
                    &&& strictly_under(tv, first_dir(m1, search_list(m1, category_of(category@)->0, ctx))->0)
                    &&& e.operation == FsOperation::Copy
                    &&& e.path.deep_view() == tv
                    &&& e.cause == FsFault::Overlapping
                },
            }
        }),
{
    let ghost f0 = *fs;
    proof {
        lemma_replays_same(f0);
    }
    if !fs.is_dir(parent) {
        return Err(MaterializeError::InvalidParent { path: clone_path(parent) });
    }
    let c = match parse_category(category) {
        Some(c) => c,
        None => {
            return Err(MaterializeError::InvalidCategory { given: category.to_string() });
        },
    };
    let target = child_path(parent, name);
    if fs.contains(&target) {
        return Err(MaterializeError::AlreadyExists { path: target });
    }
    assert(target.deep_view().drop_last() =~= parent.deep_view());
    match fs.create_dir(&target) {
        Ok(()) => {},
        Err(cause) => {
            return Err(MaterializeError::Io(IoError { operation: FsOperation::CreateDir, path: target, cause }));
        },
    }
    let ghost m = old(fs).model();
    let ghost m1 = fs.model();
    let ghost f1 = *fs;
    proof {
        let tv = target.deep_view();
        assert forall|q: PathView| strictly_under(q, tv) implies !#[trigger] m1.contains_key(q) by {
            if m1.contains_key(q) {
                assert(q != tv);
                assert(m.contains_key(q));
                lemma_ancestor(m, q, tv.len() as int);
                assert(q.subrange(0, tv.len() as int) == tv);
            }
        }
        assert(empty_dir(m1, tv));
    }
    let template = match locate(fs, c, ctx) {
        Ok(t) => t,
        Err(e) => {
            return Err(e);
        },
    };
    proof {
        lemma_first_match_wins(m1, search_list(m1, c, ctx));
    }
    match copy_tree(fs, &template, &target) {
        Ok(()) => {},
        Err(e) => {
            proof {
                lemma_replays_trans(*fs, f1, f0);
                let t = template.deep_view();
                let tv = target.deep_view();
                assert(!strictly_under(t, tv));
                assert(!clashes(m1, t, tv)) by {
                    assert forall|n: Seq<char>| !#[trigger] clash_at(m1, t, tv, n) by {
                        lemma_concat(tv, seq![n]);
                        assert(tv + seq![n] == tv.push(n));
                    }
                }
            }
            return Err(MaterializeError::Io(e));
        },
    }
    proof {
        lemma_replays_trans(*fs, f1, f0);
        let t = template.deep_view();
        let tv = target.deep_view();
        lemma_copy_round_trip(fs.model(), tv, m1, t);
        assert forall|r: PathView| r.len() > 0 implies entry_at(m1, t + r) == entry_at(m, t + r) by {
            if t + r == tv {
                assert((t + r).subrange(0, t.len() as int) =~= t);
            }
        }
        assert(tree_below(m1, t) =~= tree_below(m, t));
        assert(files_below(m1, t) =~= files_below(m, t));
    }
    Ok(render_path(&target))
}

} // verus!
