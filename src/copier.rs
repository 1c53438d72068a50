use vstd::prelude::*;

use crate::error::{FsOperation, IoError};
use crate::memfs::{
    FsFault, MemFs, NodeView, clone_path, entry_at, lemma_ancestor, lemma_replays_same,
    lemma_replays_trans, parent_closed, replays_from,
};
use crate::path::{PathView, at_or_under, child_path, is_strictly_under, same_path, strictly_under};

verus! {

/// Below `dst`, `after` holds exactly what `before` holds below `src`:
/// the same relative paths, each with the same kind and the same bytes.
pub open spec fn mirrors(
    after: Map<PathView, NodeView>,
    dst: PathView,
    before: Map<PathView, NodeView>,
    src: PathView,
) -> bool {
    forall|r: PathView| r.len() > 0 ==> #[trigger] entry_at(after, dst + r) == entry_at(before, src + r)
}

/// `after` and `before` agree everywhere but strictly below `dst`.
pub open spec fn same_outside(
    after: Map<PathView, NodeView>,
    before: Map<PathView, NodeView>,
    dst: PathView,
) -> bool {
    forall|q: PathView| !strictly_under(q, dst) ==> #[trigger] entry_at(after, q) == entry_at(before, q)
}

/// `d` is a directory of `m` with nothing below it.
pub open spec fn empty_dir(m: Map<PathView, NodeView>, d: PathView) -> bool {
    &&& m.contains_key(d)
    &&& m[d] is Dir
    &&& forall|q: PathView| strictly_under(q, d) ==> !#[trigger] m.contains_key(q)
}

/// Neither path is the other or lies below it.
pub open spec fn disjoint(a: PathView, b: PathView) -> bool {
    !at_or_under(a, b) && !at_or_under(b, a)
}

/// A copy of the tree at `src` into the empty directory `dst`, outside it.
spec fn fresh_copy(m: Map<PathView, NodeView>, src: PathView, dst: PathView) -> bool {
    &&& m.contains_key(src)
    &&& m[src] is Dir
    &&& empty_dir(m, dst)
    &&& disjoint(src, dst)
}

/// The entry `n` of `src` cannot be copied over the entry `n` of `dst`:
/// both exist and one is a directory. (A file replaces a file.)
pub open spec fn clash_at(m: Map<PathView, NodeView>, src: PathView, dst: PathView, n: Seq<char>) -> bool {
    &&& m.contains_key(src.push(n))
    &&& m.contains_key(dst.push(n))
    &&& (m[src.push(n)] is Dir || m[dst.push(n)] is Dir)
}

pub open spec fn clashes(m: Map<PathView, NodeView>, src: PathView, dst: PathView) -> bool {
    exists|n: Seq<char>| #[trigger] clash_at(m, src, dst, n)
}

/// What a copy of the tree at `src` into `dst` needs to succeed: both are
/// directories, neither lies strictly below the other, and no entry of
/// `src` clashes with the entry of the same name in `dst`.
pub open spec fn copy_allowed(m: Map<PathView, NodeView>, src: PathView, dst: PathView) -> bool {
    &&& m.contains_key(src)
    &&& m[src] is Dir
    &&& m.contains_key(dst)
    &&& m[dst] is Dir
    &&& !strictly_under(src, dst)
    &&& !strictly_under(dst, src)
    &&& !clashes(m, src, dst)
}

/// Below `dst`, `after` holds what `before` holds below `src` for every entry
/// directly inside `src`, each taken whole with what lies below it; the other
/// entries of `dst` stay as they were.
pub open spec fn overlays(
    after: Map<PathView, NodeView>,
    dst: PathView,
    before: Map<PathView, NodeView>,
    src: PathView,
) -> bool {
    forall|r: PathView| r.len() > 0 ==> #[trigger] entry_at(after, dst + r) == if before.contains_key(src.push(r[0])) {
        entry_at(before, src + r)
    } else {
        entry_at(before, dst + r)
    }
}

pub proof fn lemma_concat(d: PathView, r: PathView)
    requires
        r.len() > 0,
    ensures
        strictly_under(d + r, d),
        (d + r).subrange(0, d.len() as int) == d,
        (d + r)[d.len() as int] == r[0],
        r.len() == 1 ==> d + r == d.push(r[0]),
        r.len() > 1 ==> d + r == d.push(r[0]) + r.skip(1),
{
    assert((d + r).subrange(0, d.len() as int) =~= d);
    if r.len() == 1 {
        assert(d + r =~= d.push(r[0]));
    }
    if r.len() > 1 {
        assert(d + r =~= d.push(r[0]) + r.skip(1));
    }
}

proof fn lemma_split(d: PathView, q: PathView)
    requires
        strictly_under(q, d),
    ensures
        q == d + q.skip(d.len() as int),
        q.skip(d.len() as int).len() > 0,
{
    assert(q =~= d + q.skip(d.len() as int));
}

proof fn lemma_two_roots(q: PathView, a: PathView, b: PathView)
    requires
        strictly_under(q, a),
        strictly_under(q, b),
    ensures
        at_or_under(a, b) || at_or_under(b, a),
{
    if a.len() >= b.len() {
        assert(a.subrange(0, b.len() as int) =~= q.subrange(0, b.len() as int));
    } else {
        assert(b.subrange(0, a.len() as int) =~= q.subrange(0, a.len() as int));
    }
}

/// Copies every entry directly inside `src` into `dst`, descending into
/// subdirectories; `height` bounds how deep the tree at `src` goes.
fn copy_dir_contents(fs: &mut MemFs, src: &Vec<String>, dst: &Vec<String>, Ghost(height): Ghost<nat>) -> (r: Result<(), IoError>)
    requires
        old(fs).wf(),
        fresh_copy(old(fs).model(), src.deep_view(), dst.deep_view()),
        forall|q: PathView| #[trigger] old(fs).model().contains_key(q) && strictly_under(q, src.deep_view())
            ==> q.len() <= src.deep_view().len() + height,
    ensures
        final(fs).wf(),
        r is Ok,
        mirrors(final(fs).model(), dst.deep_view(), old(fs).model(), src.deep_view()),
        same_outside(final(fs).model(), old(fs).model(), dst.deep_view()),
        replays_from(*final(fs), *old(fs)),
    decreases height,
{
    let ghost f0 = *old(fs);
    proof {
        lemma_replays_same(f0);
    }
    let ghost m0 = old(fs).model();
    let ghost sd = src.deep_view();
    let ghost dd = dst.deep_view();
    let names = fs.children(src);
    let ghost nv = names.deep_view();
    let mut i: usize = 0;
    proof {
        assert forall|r: PathView| r.len() > 0 implies #[trigger] entry_at(fs.model(), dd + r) == if nv.subrange(0, 0).contains(r[0]) {
            entry_at(m0, sd + r)
        } else {
            None
        } by {
            lemma_concat(dd, r);
        }
    }
    while i < names.len()
        invariant
            i <= names.len(),
            fs.wf(),
            m0 == old(fs).model(),
            m0 == f0.model(),
            replays_from(*fs, f0),
            fresh_copy(m0, sd, dd),
            sd == src.deep_view(),
            dd == dst.deep_view(),
            nv == names.deep_view(),
            nv.no_duplicates(),
            parent_closed(m0),
            forall|k: int| 0 <= k < nv.len() ==> m0.contains_key(#[trigger] sd.push(nv[k])),
            forall|n: Seq<char>| #[trigger] m0.contains_key(sd.push(n)) ==> nv.contains(n),
            forall|q: PathView| #[trigger] m0.contains_key(q) && strictly_under(q, sd)
                ==> q.len() <= sd.len() + height,
            same_outside(fs.model(), m0, dd),
            forall|r: PathView| r.len() > 0 ==> #[trigger] entry_at(fs.model(), dd + r) == if nv.subrange(0, i as int).contains(r[0]) {
                entry_at(m0, sd + r)
            } else {
                None
            },
        decreases names.len() - i,
    {
        let ghost m = fs.model();
        let ghost fa = *fs;
        let ghost n = nv[i as int];
        let ghost done = nv.subrange(0, i as int);
        let ghost done1 = nv.subrange(0, i + 1);
        let sp = child_path(src, &names[i]);
        let tp = child_path(dst, &names[i]);
        proof {
            assert(m0.contains_key(sd.push(n)));
            assert(!done.contains(n));
            assert(done1 =~= done.push(n));
            lemma_concat(dd, seq![n]);
            lemma_concat(sd, seq![n]);
            assert(dd + seq![n] == tp.deep_view());
            assert(sd + seq![n] == sp.deep_view());
            assert(entry_at(m, dd + seq![n]) == None::<NodeView>);
            assert(!strictly_under(sp.deep_view(), dd)) by {
                if strictly_under(sp.deep_view(), dd) {
                    lemma_two_roots(sp.deep_view(), sd, dd);
                }
            }
            assert(entry_at(m, sp.deep_view()) == entry_at(m0, sp.deep_view()));
            assert(!strictly_under(dd, dd));
            assert(entry_at(m, dd) == entry_at(m0, dd));
            assert(tp.deep_view().drop_last() =~= dd);
        }
        if fs.is_dir(&sp) {
            match fs.create_dir(&tp) {
                Ok(()) => {},
                Err(cause) => {
                    return Err(IoError { operation: FsOperation::CreateDir, path: tp, cause });
                },
            }
            let ghost m1 = fs.model();
            let ghost fb = *fs;
            proof {
                lemma_replays_trans(fb, fa, f0);
                assert(m1 == m.insert(tp.deep_view(), NodeView::Dir));
                assert(strictly_under(sp.deep_view(), sd));
                assert(height >= 1);
                assert forall|q: PathView| strictly_under(q, tp.deep_view()) implies !#[trigger] m1.contains_key(q) by {
                    assert(q.subrange(0, dd.len() as int) =~= dd);
                    assert(strictly_under(q, dd));
                    lemma_split(dd, q);
                    let r = q.skip(dd.len() as int);
                    assert(r[0] == q[dd.len() as int]);
                    assert(q[dd.len() as int] == tp.deep_view().subrange(0, tp.deep_view().len() as int)[dd.len() as int]);
                    assert(entry_at(m, dd + r) == None::<NodeView>);
                }
                assert forall|q: PathView| #[trigger] m1.contains_key(q) && strictly_under(q, sp.deep_view())
                    implies q.len() <= sp.deep_view().len() + (height - 1) by {
                    assert(q.subrange(0, sd.len() as int) =~= sd);
                    if strictly_under(q, dd) {
                        lemma_two_roots(q, sd, dd);
                    }
                    assert(q != tp.deep_view());
                    assert(entry_at(m, q) == entry_at(m0, q));
                    assert(entry_at(m1, q) == entry_at(m0, q));
                }
                assert(!at_or_under(tp.deep_view(), sp.deep_view())) by {
                    if at_or_under(tp.deep_view(), sp.deep_view()) {
                        assert(dd.subrange(0, sd.len() as int) =~= sd);
                    }
                }
                assert(!at_or_under(sp.deep_view(), tp.deep_view())) by {
                    if at_or_under(sp.deep_view(), tp.deep_view()) {
                        assert(sd.subrange(0, dd.len() as int) =~= dd);
                    }
                }
                assert(entry_at(m1, sp.deep_view()) == entry_at(m, sp.deep_view()));
            }
            let res = copy_dir_contents(fs, &sp, &tp, Ghost((height - 1) as nat));
            match res {
                Ok(()) => {},
                Err(e) => {
                    return Err(e);
                },
            }
            let ghost m2 = fs.model();
            proof {
                lemma_replays_trans(*fs, fb, f0);
                let tv = tp.deep_view();
                let spv = sp.deep_view();
                assert forall|q: PathView| !strictly_under(q, dd) implies #[trigger] entry_at(m2, q) == entry_at(m0, q) by {
                    if strictly_under(q, tv) {
                        assert(q.subrange(0, dd.len() as int) =~= dd);
                    }
                    assert(entry_at(m2, q) == entry_at(m1, q));
                    assert(entry_at(m, q) == entry_at(m0, q));
                }
                assert forall|r: PathView| r.len() > 0 implies #[trigger] entry_at(m2, dd + r) == if done1.contains(r[0]) {
                    entry_at(m0, sd + r)
                } else {
                    None
                } by {
                    lemma_concat(dd, r);
                    lemma_concat(sd, r);
                    if r[0] == n {
                        assert(done1.contains(r[0])) by { assert(done1[i as int] == n); }
                        assert(dd.push(r[0]) == tv);
                        assert(sd.push(r[0]) == spv);
                        if r.len() == 1 {
                            assert(!strictly_under(tv, tv));
                            assert(entry_at(m2, tv) == entry_at(m1, tv));
                            assert(entry_at(m1, tv) == Some(NodeView::Dir));
                            assert(entry_at(m0, spv) == Some(NodeView::Dir));
                        } else {
                            let rest = r.skip(1);
                            assert(dd + r == tv + rest);
                            assert(sd + r == spv + rest);
                            assert(entry_at(m2, tv + rest) == entry_at(m1, spv + rest));
                            assert(strictly_under(tv, dd));
                            assert(!strictly_under(spv + rest, dd)) by {
                                lemma_concat(spv, rest);
                                assert((spv + rest).subrange(0, sd.len() as int) =~= sd);
                                if strictly_under(spv + rest, dd) {
                                    lemma_two_roots(spv + rest, sd, dd);
                                }
                            }
                            assert(spv + rest != tv);
                            assert(entry_at(m1, spv + rest) == entry_at(m, spv + rest));
                            assert(entry_at(m, spv + rest) == entry_at(m0, spv + rest));
                        }
                    } else {
                        assert(!strictly_under(dd + r, tv)) by {
                            if strictly_under(dd + r, tv) {
                                assert((dd + r).subrange(0, tv.len() as int)[dd.len() as int] == tv[dd.len() as int]);
                            }
                        }
                        assert(dd + r != tv) by {
                            if dd + r == tv {
                                assert((dd + r)[dd.len() as int] == tv[dd.len() as int]);
                            }
                        }
                        assert(entry_at(m2, dd + r) == entry_at(m1, dd + r));
                        assert(entry_at(m1, dd + r) == entry_at(m, dd + r));
                        assert(done1.contains(r[0]) == done.contains(r[0])) by {
                            if done1.contains(r[0]) {
                                let k = choose|k: int| 0 <= k < done1.len() && done1[k] == r[0];
                                if k < i {
                                    assert(done[k] == r[0]);
                                }
                            }
                            if done.contains(r[0]) {
                                let k = choose|k: int| 0 <= k < done.len() && done[k] == r[0];
                                assert(done1[k] == r[0]);
                            }
                        }
                    }
                }
            }
        } else {
            let bytes = match fs.read_file(&sp) {
                Ok(b) => b,
                Err(cause) => {
                    return Err(IoError { operation: FsOperation::ReadFile, path: sp, cause });
                },
            };
            let ghost bv = bytes@;
            match fs.write_file(&tp, bytes) {
                Ok(()) => {},
                Err(cause) => {
                    return Err(IoError { operation: FsOperation::WriteFile, path: tp, cause });
                },
            }
            let ghost m2 = fs.model();
            proof {
                lemma_replays_trans(*fs, fa, f0);
                let tv = tp.deep_view();
                let spv = sp.deep_view();
                assert(m2 == m.insert(tv, NodeView::File(bv)));
                assert forall|q: PathView| !strictly_under(q, dd) implies #[trigger] entry_at(m2, q) == entry_at(m0, q) by {
                    assert(q != tv);
                    assert(entry_at(m, q) == entry_at(m0, q));
                }
                assert forall|r: PathView| r.len() > 0 implies #[trigger] entry_at(m2, dd + r) == if done1.contains(r[0]) {
                    entry_at(m0, sd + r)
                } else {
                    None
                } by {
                    lemma_concat(dd, r);
                    lemma_concat(sd, r);
                    if r[0] == n {
                        assert(done1.contains(r[0])) by { assert(done1[i as int] == n); }
                        if r.len() > 1 {
                            let rest = r.skip(1);
                            lemma_concat(tv, rest);
                            assert(dd + r != tv);
                            assert(entry_at(m, dd + r) == None::<NodeView>);
                            assert(!m0.contains_key(sd + r)) by {
                                lemma_concat(spv, rest);
                                if m0.contains_key(sd + r) {
                                    assert((sd + r).subrange(0, spv.len() as int) =~= spv);
                                    lemma_ancestor(m0, sd + r, spv.len() as int);
                                }
                            }
                        }
                    } else {
                        assert(dd + r != tv) by {
                            if dd + r == tv {
                                assert((dd + r)[dd.len() as int] == tv[dd.len() as int]);
                            }
                        }
                        assert(done1.contains(r[0]) == done.contains(r[0])) by {
                            if done1.contains(r[0]) {
                                let k = choose|k: int| 0 <= k < done1.len() && done1[k] == r[0];
                                if k < i {
                                    assert(done[k] == r[0]);
                                }
                            }
                            if done.contains(r[0]) {
                                let k = choose|k: int| 0 <= k < done.len() && done[k] == r[0];
                                assert(done1[k] == r[0]);
                            }
                        }
                    }
                }
            }
        }
        i = i + 1;
    }
    proof {
        let m = fs.model();
        assert(nv.subrange(0, nv.len() as int) =~= nv);
        assert forall|r: PathView| r.len() > 0 implies #[trigger] entry_at(m, dd + r) == entry_at(m0, sd + r) by {
            lemma_concat(sd, r);
            if !nv.contains(r[0]) && m0.contains_key(sd + r) {
                if r.len() > 1 {
                    assert((sd + r).subrange(0, sd.len() + 1int) =~= sd.push(r[0]));
                    lemma_ancestor(m0, sd + r, sd.len() + 1int);
                }
            }
        }
    }
    Ok(())
}

/// Copies every entry directly inside `src` over the entry of the same name
/// in `dst`: a file replaces a file or fills an empty place, a directory is
/// made afresh and filled from its source.
fn copy_children(fs: &mut MemFs, src: &Vec<String>, dst: &Vec<String>) -> (r: Result<(), IoError>)
    requires
        old(fs).wf(),
        copy_allowed(old(fs).model(), src.deep_view(), dst.deep_view()),
    ensures
        final(fs).wf(),
        r is Ok,
        overlays(final(fs).model(), dst.deep_view(), old(fs).model(), src.deep_view()),
        same_outside(final(fs).model(), old(fs).model(), dst.deep_view()),
        replays_from(*final(fs), *old(fs)),
{
    let ghost f0 = *old(fs);
    proof {
        lemma_replays_same(f0);
    }
    let ghost m0 = old(fs).model();
    let ghost sd = src.deep_view();
    let ghost dd = dst.deep_view();
    proof {
        if sd != dd && !disjoint(sd, dd) {
            if at_or_under(sd, dd) && sd.len() == dd.len() {
                assert(sd =~= sd.subrange(0, dd.len() as int));
            }
            if at_or_under(dd, sd) && sd.len() == dd.len() {
                assert(dd =~= dd.subrange(0, sd.len() as int));
            }
        }
    }
    let names = fs.children(src);
    let ghost nv = names.deep_view();
    let mut i: usize = 0;
    proof {
        assert forall|r: PathView| r.len() > 0 implies #[trigger] entry_at(fs.model(), dd + r) == if nv.subrange(0, 0).contains(r[0]) {
            entry_at(m0, sd + r)
        } else {
            entry_at(m0, dd + r)
        } by {}
    }
    while i < names.len()
        invariant
            i <= names.len(),
            fs.wf(),
            m0 == old(fs).model(),
            m0 == f0.model(),
            replays_from(*fs, f0),
            copy_allowed(m0, sd, dd),
            sd == dd || disjoint(sd, dd),
            sd == src.deep_view(),
            dd == dst.deep_view(),
            nv == names.deep_view(),
            nv.no_duplicates(),
            parent_closed(m0),
            forall|k: int| 0 <= k < nv.len() ==> m0.contains_key(#[trigger] sd.push(nv[k])),
            forall|n: Seq<char>| #[trigger] m0.contains_key(sd.push(n)) ==> nv.contains(n),
            same_outside(fs.model(), m0, dd),
            forall|r: PathView| r.len() > 0 ==> #[trigger] entry_at(fs.model(), dd + r) == if nv.subrange(0, i as int).contains(r[0]) {
                entry_at(m0, sd + r)
            } else {
                entry_at(m0, dd + r)
            },
        decreases names.len() - i,
    {
        let ghost m = fs.model();
        let ghost fa = *fs;
        let ghost n = nv[i as int];
        let ghost done = nv.subrange(0, i as int);
        let ghost done1 = nv.subrange(0, i + 1);
        let sp = child_path(src, &names[i]);
        let tp = child_path(dst, &names[i]);
        proof {
            assert(m0.contains_key(sd.push(n)));
            assert(!done.contains(n));
            assert(done1 =~= done.push(n));
            lemma_concat(dd, seq![n]);
            lemma_concat(sd, seq![n]);
            assert(dd + seq![n] == tp.deep_view());
            assert(sd + seq![n] == sp.deep_view());
            assert(entry_at(m, tp.deep_view()) == entry_at(m0, tp.deep_view()));
            if sd == dd {
                assert(entry_at(m, sp.deep_view()) == entry_at(m0, sp.deep_view()));
            } else {
                assert(!strictly_under(sp.deep_view(), dd)) by {
                    if strictly_under(sp.deep_view(), dd) {
                        lemma_two_roots(sp.deep_view(), sd, dd);
                    }
                }
                assert(entry_at(m, sp.deep_view()) == entry_at(m0, sp.deep_view()));
            }
            assert(!strictly_under(dd, dd));
            assert(entry_at(m, dd) == entry_at(m0, dd));
            assert(tp.deep_view().drop_last() =~= dd);
            assert(!clash_at(m0, sd, dd, n));
        }
        if fs.is_dir(&sp) {
            proof {
                assert(!m0.contains_key(tp.deep_view()));
                assert(sd != dd);
            }
            match fs.create_dir(&tp) {
                Ok(()) => {},
                Err(cause) => {
                    return Err(IoError { operation: FsOperation::CreateDir, path: tp, cause });
                },
            }
            let ghost m1 = fs.model();
            let ghost fb = *fs;
            proof {
                lemma_replays_trans(fb, fa, f0);
                let tv = tp.deep_view();
                let spv = sp.deep_view();
                assert(m1 == m.insert(tv, NodeView::Dir));
                assert forall|q: PathView| strictly_under(q, tv) implies !#[trigger] m1.contains_key(q) by {
                    assert(q.subrange(0, dd.len() as int) =~= dd);
                    assert(strictly_under(q, dd));
                    lemma_split(dd, q);
                    let r = q.skip(dd.len() as int);
                    assert(r[0] == q[dd.len() as int]);
                    assert(q[dd.len() as int] == tv.subrange(0, tv.len() as int)[dd.len() as int]);
                    assert(entry_at(m, dd + r) == entry_at(m0, dd + r));
                    if m0.contains_key(q) {
                        if q.len() > tv.len() {
                            lemma_ancestor(m0, q, tv.len() as int);
                        }
                        assert(q.subrange(0, tv.len() as int) =~= tv);
                    }
                }
                assert forall|q: PathView| #[trigger] m1.contains_key(q) && strictly_under(q, spv)
                    implies q.len() <= spv.len() + fb.depth_bound() by {
                    fb.lemma_depth(q);
                }
                assert(!at_or_under(tv, spv)) by {
                    if at_or_under(tv, spv) {
                        assert(dd.subrange(0, sd.len() as int) =~= sd);
                    }
                }
                assert(!at_or_under(spv, tv)) by {
                    if at_or_under(spv, tv) {
                        assert(sd.subrange(0, dd.len() as int) =~= dd);
                    }
                }
                assert(entry_at(m1, spv) == entry_at(m, spv));
            }
            let res = copy_dir_contents(fs, &sp, &tp, Ghost(fs.depth_bound()));
            match res {
                Ok(()) => {},
                Err(e) => {
                    return Err(e);
                },
            }
            let ghost m2 = fs.model();
            proof {
                lemma_replays_trans(*fs, fb, f0);
                let tv = tp.deep_view();
                let spv = sp.deep_view();
                assert forall|q: PathView| !strictly_under(q, dd) implies #[trigger] entry_at(m2, q) == entry_at(m0, q) by {
                    if strictly_under(q, tv) {
                        assert(q.subrange(0, dd.len() as int) =~= dd);
                    }
                    assert(entry_at(m2, q) == entry_at(m1, q));
                    assert(entry_at(m, q) == entry_at(m0, q));
                }
                assert forall|r: PathView| r.len() > 0 implies #[trigger] entry_at(m2, dd + r) == if done1.contains(r[0]) {
                    entry_at(m0, sd + r)
                } else {
                    entry_at(m0, dd + r)
                } by {
                    lemma_concat(dd, r);
                    lemma_concat(sd, r);
                    if r[0] == n {
                        assert(done1.contains(r[0])) by { assert(done1[i as int] == n); }
                        assert(dd.push(r[0]) == tv);
                        assert(sd.push(r[0]) == spv);
                        if r.len() == 1 {
                            assert(!strictly_under(tv, tv));
                            assert(entry_at(m2, tv) == entry_at(m1, tv));
                        } else {
                            let rest = r.skip(1);
                            assert(dd + r == tv + rest);
                            assert(sd + r == spv + rest);
                            assert(entry_at(m2, tv + rest) == entry_at(m1, spv + rest));
                            assert(strictly_under(tv, dd));
                            assert(!strictly_under(spv + rest, dd)) by {
                                lemma_concat(spv, rest);
                                assert((spv + rest).subrange(0, sd.len() as int) =~= sd);
                                if strictly_under(spv + rest, dd) {
                                    lemma_two_roots(spv + rest, sd, dd);
                                }
                            }
                            assert(spv + rest != tv);
                            assert(entry_at(m1, spv + rest) == entry_at(m, spv + rest));
                            assert(entry_at(m, spv + rest) == entry_at(m0, spv + rest));
                        }
                    } else {
                        assert(!strictly_under(dd + r, tv)) by {
                            if strictly_under(dd + r, tv) {
                                assert((dd + r).subrange(0, tv.len() as int)[dd.len() as int] == tv[dd.len() as int]);
                            }
                        }
                        assert(dd + r != tv) by {
                            if dd + r == tv {
                                assert((dd + r)[dd.len() as int] == tv[dd.len() as int]);
                            }
                        }
                        assert(entry_at(m2, dd + r) == entry_at(m1, dd + r));
                        assert(entry_at(m1, dd + r) == entry_at(m, dd + r));
                        assert(done1.contains(r[0]) == done.contains(r[0])) by {
                            if done1.contains(r[0]) {
                                let k = choose|k: int| 0 <= k < done1.len() && done1[k] == r[0];
                                if k < i {
                                    assert(done[k] == r[0]);
                                }
                            }
                            if done.contains(r[0]) {
                                let k = choose|k: int| 0 <= k < done.len() && done[k] == r[0];
                                assert(done1[k] == r[0]);
                            }
                        }
                    }
                }
            }
        } else {
            let bytes = match fs.read_file(&sp) {
                Ok(b) => b,
                Err(cause) => {
                    return Err(IoError { operation: FsOperation::ReadFile, path: sp, cause });
                },
            };
            let ghost bv = bytes@;
            match fs.write_file(&tp, bytes) {
                Ok(()) => {},
                Err(cause) => {
                    return Err(IoError { operation: FsOperation::WriteFile, path: tp, cause });
                },
            }
            let ghost m2 = fs.model();
            proof {
                lemma_replays_trans(*fs, fa, f0);
                let tv = tp.deep_view();
                let spv = sp.deep_view();
                assert(m2 == m.insert(tv, NodeView::File(bv)));
                assert forall|q: PathView| !strictly_under(q, dd) implies #[trigger] entry_at(m2, q) == entry_at(m0, q) by {
                    assert(q != tv);
                    assert(entry_at(m, q) == entry_at(m0, q));
                }
                assert forall|r: PathView| r.len() > 0 implies #[trigger] entry_at(m2, dd + r) == if done1.contains(r[0]) {
                    entry_at(m0, sd + r)
                } else {
                    entry_at(m0, dd + r)
                } by {
                    lemma_concat(dd, r);
                    lemma_concat(sd, r);
                    if r[0] == n {
                        assert(done1.contains(r[0])) by { assert(done1[i as int] == n); }
                        assert(dd.push(r[0]) == tv);
                        assert(sd.push(r[0]) == spv);
                        if r.len() > 1 {
                            let rest = r.skip(1);
                            lemma_concat(tv, rest);
                            lemma_concat(spv, rest);
                            assert(dd + r == tv + rest);
                            assert(sd + r == spv + rest);
                            assert(dd + r != tv);
                            assert(entry_at(m, dd + r) == entry_at(m0, dd + r));
                            assert(!m0.contains_key(sd + r)) by {
                                if m0.contains_key(sd + r) {
                                    assert((sd + r).subrange(0, spv.len() as int) =~= spv);
                                    lemma_ancestor(m0, sd + r, spv.len() as int);
                                }
                            }
                            assert(!m0.contains_key(dd + r)) by {
                                if m0.contains_key(dd + r) {
                                    assert((dd + r).subrange(0, tv.len() as int) =~= tv);
                                    lemma_ancestor(m0, dd + r, tv.len() as int);
                                    assert(clash_at(m0, sd, dd, n));
                                }
                            }
                        }
                    } else {
                        assert(dd + r != tv) by {
                            if dd + r == tv {
                                assert((dd + r)[dd.len() as int] == tv[dd.len() as int]);
                            }
                        }
                        assert(done1.contains(r[0]) == done.contains(r[0])) by {
                            if done1.contains(r[0]) {
                                let k = choose|k: int| 0 <= k < done1.len() && done1[k] == r[0];
                                if k < i {
                                    assert(done[k] == r[0]);
                                }
                            }
                            if done.contains(r[0]) {
                                let k = choose|k: int| 0 <= k < done.len() && done[k] == r[0];
                                assert(done1[k] == r[0]);
                            }
                        }
                    }
                }
            }
        }
        i = i + 1;
    }
    proof {
        let m = fs.model();
        assert(nv.subrange(0, nv.len() as int) =~= nv);
        assert forall|r: PathView| r.len() > 0 implies #[trigger] entry_at(m, dd + r) == if m0.contains_key(sd.push(r[0])) {
            entry_at(m0, sd + r)
        } else {
            entry_at(m0, dd + r)
        } by {
            if nv.contains(r[0]) {
                let k = choose|k: int| 0 <= k < nv.len() && nv[k] == r[0];
                assert(m0.contains_key(sd.push(nv[k])));
            }
        }
    }
    Ok(())
}

/// Fails on the first entry of `src` that clashes with its namesake in `dst`,
/// with the error that copying it would meet.
fn check_clashes(fs: &MemFs, src: &Vec<String>, dst: &Vec<String>) -> (r: Result<(), IoError>)
    ensures
        r is Ok <==> !clashes(fs.model(), src.deep_view(), dst.deep_view()),
        r matches Err(e) ==> clash_error(fs.model(), src.deep_view(), dst.deep_view(), e),
{
    let ghost m = fs.model();
    let names = fs.children(src);
    let ghost nv = names.deep_view();
    let mut i: usize = 0;
    while i < names.len()
        invariant
            i <= names.len(),
            m == fs.model(),
            nv == names.deep_view(),
            forall|n: Seq<char>| #[trigger] m.contains_key(src.deep_view().push(n)) ==> nv.contains(n),
            forall|k: int| 0 <= k < nv.len() ==> m.contains_key(#[trigger] src.deep_view().push(nv[k])),
            forall|k: int| 0 <= k < i ==> !clash_at(m, src.deep_view(), dst.deep_view(), #[trigger] nv[k]),
        decreases names.len() - i,
    {
        let sp = child_path(src, &names[i]);
        let tp = child_path(dst, &names[i]);
        proof {
            assert(m.contains_key(src.deep_view().push(nv[i as int])));
        }
        if fs.is_dir(&sp) {
            if fs.contains(&tp) {
                assert(clash_at(m, src.deep_view(), dst.deep_view(), nv[i as int]));
                return Err(IoError { operation: FsOperation::CreateDir, path: tp, cause: FsFault::AlreadyExists });
            }
        } else if fs.is_dir(&tp) {
            assert(clash_at(m, src.deep_view(), dst.deep_view(), nv[i as int]));
            return Err(IoError { operation: FsOperation::WriteFile, path: tp, cause: FsFault::IsADirectory });
        }
        i = i + 1;
    }
    proof {
        assert forall|n: Seq<char>| !#[trigger] clash_at(m, src.deep_view(), dst.deep_view(), n) by {
            if clash_at(m, src.deep_view(), dst.deep_view(), n) {
                let k = choose|k: int| 0 <= k < nv.len() && nv[k] == n;
                assert(!clash_at(m, src.deep_view(), dst.deep_view(), nv[k]));
            }
        }
    }
    Ok(())
}

/// `e` is the error met on copying an entry of `src` over a clashing namesake in `dst`.
pub open spec fn clash_error(m: Map<PathView, NodeView>, src: PathView, dst: PathView, e: IoError) -> bool {
    exists|n: Seq<char>| {
        &&& #[trigger] clash_at(m, src, dst, n)
        &&& e.path.deep_view() == dst.push(n)
        &&& if m[src.push(n)] is Dir {
            e.operation == FsOperation::CreateDir && e.cause == FsFault::AlreadyExists
        } else {
            e.operation == FsOperation::WriteFile && e.cause == FsFault::IsADirectory
        }
    }
}

/// Copies the tree at `src` into the directory `dst`. Each entry directly
/// inside `src` lands at the same name in `dst` with all that lies below it:
/// every file at the same relative path with the same bytes, every directory
/// made there, empty ones included; a file of `dst` with the name of a file
/// of `src` is overwritten, and the other entries of `dst` stay. Nothing
/// outside `dst` changes. The copy is refused, and nothing changes, where
/// `src` or `dst` is not a directory, one lies strictly inside the other, or
/// an entry of `src` clashes with its namesake in `dst` (both exist and one
/// is a directory). Copying an empty directory onto itself does nothing.
pub fn copy_tree(fs: &mut MemFs, src: &Vec<String>, dst: &Vec<String>) -> (r: Result<(), IoError>)
    requires
        old(fs).wf(),
    ensures
        final(fs).wf(),
        r is Ok <==> copy_allowed(old(fs).model(), src.deep_view(), dst.deep_view()),
        r is Ok ==> overlays(final(fs).model(), dst.deep_view(), old(fs).model(), src.deep_view())
            && same_outside(final(fs).model(), old(fs).model(), dst.deep_view()),
        r is Ok && empty_dir(old(fs).model(), dst.deep_view())
            ==> mirrors(final(fs).model(), dst.deep_view(), old(fs).model(), src.deep_view()),
        r is Err ==> *final(fs) == *old(fs),
        replays_from(*final(fs), *old(fs)),
        r matches Err(e) ==> {
            let m = old(fs).model();
            let s = src.deep_view();
            let d = dst.deep_view();
            if !(m.contains_key(s) && m[s] is Dir) {
                &&& e.operation == FsOperation::ReadDir
                &&& e.path.deep_view() == s
                &&& e.cause == if m.contains_key(s) { FsFault::NotADirectory } else { FsFault::NotFound }
            } else if !(m.contains_key(d) && m[d] is Dir) {
                &&& e.operation == FsOperation::Copy
                &&& e.path.deep_view() == d
                &&& e.cause == if m.contains_key(d) { FsFault::NotADirectory } else { FsFault::NotFound }
            } else if strictly_under(s, d) || strictly_under(d, s) {
                &&& e.operation == FsOperation::Copy
                &&& e.path.deep_view() == d
                &&& e.cause == FsFault::Overlapping
            } else {
                clash_error(m, s, d, e)
            }
        },
{
    let ghost m = fs.model();
    proof {
        lemma_replays_same(*fs);
    }
    if !fs.is_dir(src) {
        let cause = if fs.contains(src) { FsFault::NotADirectory } else { FsFault::NotFound };
        return Err(IoError { operation: FsOperation::ReadDir, path: clone_path(src), cause });
    }
    if !fs.is_dir(dst) {
        let cause = if fs.contains(dst) { FsFault::NotADirectory } else { FsFault::NotFound };
        return Err(IoError { operation: FsOperation::Copy, path: clone_path(dst), cause });
    }
    if is_strictly_under(src, dst) || is_strictly_under(dst, src) {
        return Err(IoError { operation: FsOperation::Copy, path: clone_path(dst), cause: FsFault::Overlapping });
    }
    match check_clashes(fs, src, dst) {
        Ok(()) => {},
        Err(e) => {
            return Err(e);
        },
    }
    let r = copy_children(fs, src, dst);
    proof {
        let s = src.deep_view();
        let d = dst.deep_view();
        if empty_dir(m, d) {
            let after = fs.model();
            assert forall|r: PathView| r.len() > 0 implies #[trigger] entry_at(after, d + r) == entry_at(m, s + r) by {
                lemma_concat(d, r);
                lemma_concat(s, r);
                if !m.contains_key(s.push(r[0])) && m.contains_key(s + r) {
                    assert((s + r).subrange(0, s.len() + 1int) =~= s.push(r[0]));
                    if r.len() > 1 {
                        lemma_ancestor(m, s + r, s.len() + 1int);
                    } else {
                        assert(s + r == s.push(r[0]));
                    }
                }
            }
        }
    }
    r
}

/// Everything strictly below `d` in `m`, keyed by path relative to `d`.
pub open spec fn tree_below(m: Map<PathView, NodeView>, d: PathView) -> Map<PathView, NodeView> {
    Map::new(|r: PathView| r.len() > 0 && m.contains_key(d + r), |r: PathView| m[d + r])
}

/// The relative paths of the files strictly below `d` in `m`, with their bytes.
pub open spec fn files_below(m: Map<PathView, NodeView>, d: PathView) -> Map<PathView, Seq<u8>> {
    Map::new(
        |r: PathView| r.len() > 0 && m.contains_key(d + r) && m[d + r] is File,
        |r: PathView| m[d + r]->File_0,
    )
}

/// A copied tree reads back as its source: walking the destination finds
/// the same relative paths as walking the source, directories and files
/// alike, and every file with the same bytes.
pub proof fn lemma_copy_round_trip(
    after: Map<PathView, NodeView>,
    dst: PathView,
    before: Map<PathView, NodeView>,
    src: PathView,
)
    requires
        mirrors(after, dst, before, src),
    ensures
        tree_below(after, dst) == tree_below(before, src),
        files_below(after, dst) == files_below(before, src),
        files_below(after, dst).dom() == files_below(before, src).dom(),
{
    assert forall|r: PathView| r.len() > 0 implies
        (after.contains_key(dst + r) == before.contains_key(src + r))
        && (after.contains_key(dst + r) ==> after[dst + r] == before[src + r]) by {
        assert(entry_at(after, dst + r) == entry_at(before, src + r));
    }
    assert(tree_below(after, dst) =~= tree_below(before, src));
    assert(files_below(after, dst) =~= files_below(before, src));
}

} // verus!
