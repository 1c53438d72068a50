use vstd::prelude::*;

verus! {

/// A path as the sequence of its components, from the filesystem root down.
pub type PathView = Seq<Seq<char>>;

/// `q` lies strictly below `p`.
pub open spec fn strictly_under(q: PathView, p: PathView) -> bool {
    q.len() > p.len() && q.subrange(0, p.len() as int) == p
}

/// `q` is `p` or lies below it.
pub open spec fn at_or_under(q: PathView, p: PathView) -> bool {
    q.len() >= p.len() && q.subrange(0, p.len() as int) == p
}

/// The components of a non-root path joined by separators, each preceded by one.
pub open spec fn joined(p: PathView) -> Seq<char>
    decreases p.len(),
{
    if p.len() == 0 {
        Seq::empty()
    } else {
        joined(p.drop_last()) + seq!['/'] + p.last()
    }
}

/// The absolute path string of `p`: `/` for the root, else `/a/b/c`.
pub open spec fn render(p: PathView) -> Seq<char> {
    if p.len() == 0 {
        seq!['/']
    } else {
        joined(p)
    }
}

/// The path of the entry called `name` inside `dir`.
pub fn child_path(dir: &Vec<String>, name: &String) -> (r: Vec<String>)
    ensures
        r.deep_view() == dir.deep_view().push(name@),
{
    let mut r: Vec<String> = Vec::new();
    let mut i: usize = 0;
    while i < dir.len()
        invariant
            i <= dir.len(),
            r@ == dir@.subrange(0, i as int),
        decreases dir.len() - i,
    {
        r.push(dir[i].clone());
        assert(r@ =~= dir@.subrange(0, i + 1));
        i = i + 1;
    }
    r.push(name.clone());
    assert(r@ =~= dir@.push(*name));
    assert(r.deep_view() =~= dir.deep_view().push(name@));
    r
}

/// Whether two paths name the same entry.
pub fn same_path(a: &Vec<String>, b: &Vec<String>) -> (r: bool)
    ensures
        r == (a.deep_view() == b.deep_view()),
{
    if a.len() != b.len() {
        assert(a.deep_view().len() != b.deep_view().len());
        return false;
    }
    let mut i: usize = 0;
    while i < a.len()
        invariant
            i <= a.len(),
            a.len() == b.len(),
            forall|k: int| 0 <= k < i ==> a.deep_view()[k] == b.deep_view()[k],
        decreases a.len() - i,
    {
        if a[i] != b[i] {
            assert(a.deep_view()[i as int] != b.deep_view()[i as int]);
            return false;
        }
        i = i + 1;
    }
    assert(a.deep_view() =~= b.deep_view());
    true
}

/// Whether `q` lies strictly below `p`.
pub fn is_strictly_under(q: &Vec<String>, p: &Vec<String>) -> (r: bool)
    ensures
        r == strictly_under(q.deep_view(), p.deep_view()),
{
    if q.len() <= p.len() {
        return false;
    }
    let mut i: usize = 0;
    while i < p.len()
        invariant
            i <= p.len(),
            p.len() < q.len(),
            forall|k: int| 0 <= k < i ==> q.deep_view()[k] == p.deep_view()[k],
        decreases p.len() - i,
    {
        if q[i] != p[i] {
            assert(q.deep_view().subrange(0, p.len() as int)[i as int] != p.deep_view()[i as int]);
            return false;
        }
        i = i + 1;
    }
    assert(q.deep_view().subrange(0, p.len() as int) =~= p.deep_view());
    true
}

/// The absolute path string of `p`.
pub fn render_path(p: &Vec<String>) -> (r: String)
    ensures
        r@ == render(p.deep_view()),
{
    let sep: &str = "/";
    proof {
        reveal_strlit("/");
    }
    if p.len() == 0 {
        return String::from_str(sep);
    }
    let mut r = String::new();
    let mut i: usize = 0;
    while i < p.len()
        invariant
            i <= p.len(),
            sep@ == seq!['/'],
            r@ == joined(p.deep_view().subrange(0, i as int)),
        decreases p.len() - i,
    {
        r.append(sep);
        r.append(p[i].as_str());
        proof {
            let s = p.deep_view().subrange(0, i + 1);
            assert(s.drop_last() =~= p.deep_view().subrange(0, i as int));
        }
        i = i + 1;
    }
    assert(p.deep_view().subrange(0, p.len() as int) =~= p.deep_view());
    r
}

} // verus!
