//! The editor's bookkeeping of which shader source files each shader read when it was last
//! built, so that a change to a file rebuilds exactly the shaders that read it.
//!
//! Building a shader, reading files and watching them for changes is the caller's part; the
//! bookkeeping decides what to read, what to rebuild and what to forget.
use vstd::prelude::*;
use crate::param_types::same_text;

verus! {

/// A source file that shaders read: its path, the shaders (by key) that read it when they were
/// last built, and its contents as then read.
pub struct ShaderDependency {
    pub path: String,
    pub depended_by: Vec<usize>,
    pub content_cache: String,
}

/// The files that shaders read, and for each shader (by key, in the order the shaders were
/// loaded) the paths of the files it read, in reading order.
pub struct ShaderDependencies {
    pub dependencies: Vec<ShaderDependency>,
    pub depends_on: Vec<Vec<String>>,
}

/// The path of each file.
pub open spec fn dependency_paths(ds: Seq<ShaderDependency>) -> Seq<Seq<char>> {
    ds.map_values(|d: ShaderDependency| d.path@)
}

/// The paths that a shader read.
pub open spec fn path_views(ps: Seq<String>) -> Seq<Seq<char>> {
    ps.map_values(|p: String| p@)
}

/// Strictly increasing keys.
pub open spec fn increasing(s: Seq<usize>) -> bool {
    forall|i: int, j: int| 0 <= i < j < s.len() ==> s[i] < s[j]
}

/// The files, among the first `n` of `ds`, that `drop` does not pick, in order.
pub open spec fn files_kept(ds: Seq<ShaderDependency>, drop: spec_fn(ShaderDependency) -> bool, n: int) -> Seq<ShaderDependency>
    decreases n,
{
    if n <= 0 {
        Seq::empty()
    } else if drop(ds[n - 1]) {
        files_kept(ds, drop, n - 1)
    } else {
        files_kept(ds, drop, n - 1).push(ds[n - 1])
    }
}

/// Picks the files whose path is among `paths`.
pub open spec fn at_paths(paths: Seq<Seq<char>>) -> spec_fn(ShaderDependency) -> bool {
    |d: ShaderDependency| paths.contains(d.path@)
}

/// Picks the files whose path is among `paths` and that no shader reads.
pub open spec fn unused_at_paths(paths: Seq<Seq<char>>) -> spec_fn(ShaderDependency) -> bool {
    |d: ShaderDependency| paths.contains(d.path@) && d.depended_by@.len() == 0
}

/// The files, among the first `n` of `ds`, whose path is not among `paths`, in order.
pub open spec fn files_other_than(ds: Seq<ShaderDependency>, paths: Seq<Seq<char>>, n: int) -> Seq<ShaderDependency> {
    files_kept(ds, at_paths(paths), n)
}

/// Shader `s` is listed as reading one of the first `n` files of `ds` whose path is among
/// `paths`.
pub open spec fn reads_one_of(ds: Seq<ShaderDependency>, paths: Seq<Seq<char>>, n: int, s: usize) -> bool {
    exists|i: int, j: int|
        0 <= i < n && 0 <= j < ds[i].depended_by@.len() && paths.contains(ds[i].path@) && #[trigger] ds[i].depended_by@[j]
            == s
}

/// Every file kept is one of the files it was kept from.
proof fn lemma_files_kept_origin(ds: Seq<ShaderDependency>, drop: spec_fn(ShaderDependency) -> bool, n: int, k: int)
    requires
        0 <= n <= ds.len(),
        0 <= k < files_kept(ds, drop, n).len(),
    ensures
        exists|i: int| 0 <= i < n && #[trigger] ds[i] == files_kept(ds, drop, n)[k],
    decreases n,
{
    if n > 0 {
        let prev = files_kept(ds, drop, n - 1);
        if k < prev.len() {
            lemma_files_kept_origin(ds, drop, n - 1, k);
            let i = choose|i: int| 0 <= i < n - 1 && #[trigger] ds[i] == prev[k];
            assert(ds[i] == files_kept(ds, drop, n)[k]);
        } else {
            assert(ds[n - 1] == files_kept(ds, drop, n)[k]);
        }
    }
}

/// Files told apart by path stay so when some are left out.
proof fn lemma_files_kept_distinct(ds: Seq<ShaderDependency>, drop: spec_fn(ShaderDependency) -> bool, n: int)
    requires
        0 <= n <= ds.len(),
        dependency_paths(ds).no_duplicates(),
    ensures
        dependency_paths(files_kept(ds, drop, n)).no_duplicates(),
        forall|k: int|
            #![trigger files_kept(ds, drop, n)[k]]
            0 <= k < files_kept(ds, drop, n).len() ==> exists|i: int|
                0 <= i < n && #[trigger] ds[i] == files_kept(ds, drop, n)[k],
    decreases n,
{
    assert forall|k: int|
        #![trigger files_kept(ds, drop, n)[k]]
        0 <= k < files_kept(ds, drop, n).len() implies exists|i: int|
        0 <= i < n && #[trigger] ds[i] == files_kept(ds, drop, n)[k] by {
        lemma_files_kept_origin(ds, drop, n, k);
    }
    if n > 0 {
        lemma_files_kept_distinct(ds, drop, n - 1);
        let prev = files_kept(ds, drop, n - 1);
        if !drop(ds[n - 1]) {
            let cur = prev.push(ds[n - 1]);
            assert forall|a: int, b: int| 0 <= a < b < cur.len() implies dependency_paths(cur)[a] != dependency_paths(cur)[b] by {
                if b == prev.len() {
                    lemma_files_kept_origin(ds, drop, n - 1, a);
                    let i = choose|i: int| 0 <= i < n - 1 && #[trigger] ds[i] == prev[a];
                    assert(dependency_paths(ds)[i] == ds[i].path@);
                    assert(dependency_paths(ds)[n - 1] == ds[n - 1].path@);
                } else {
                    assert(dependency_paths(prev)[a] == dependency_paths(cur)[a]);
                    assert(dependency_paths(prev)[b] == dependency_paths(cur)[b]);
                }
            }
        }
    }
}

/// Whether `path` is among `paths`.
fn contains_path(paths: &Vec<String>, path: &String) -> (r: bool)
    ensures
        r == path_views(paths@).contains(path@),
{
    let mut i: usize = 0;
    while i < paths.len()
        invariant
            i <= paths@.len(),
            forall|k: int| 0 <= k < i ==> path_views(paths@)[k] != path@,
        decreases paths@.len() - i,
    {
        if same_text(paths[i].as_str(), path.as_str()) {
            proof {
                assert(path_views(paths@)[i as int] == path@);
            }
            return true;
        }
        i = i + 1;
    }
    false
}

/// Adds `x` to strictly increasing keys unless it is there.
fn insert_key(v: &mut Vec<usize>, x: usize)
    requires
        increasing(old(v)@),
    ensures
        increasing(final(v)@),
        forall|y: usize| #[trigger] final(v)@.contains(y) <==> old(v)@.contains(y) || y == x,
{
    let n = v.len();
    let mut i: usize = 0;
    while i < n && v[i] < x
        invariant
            i <= n,
            n == v@.len(),
            v@ == old(v)@,
            forall|j: int| 0 <= j < i ==> v@[j] < x,
        decreases n - i,
    {
        i = i + 1;
    }
    if i < n && v[i] == x {
        proof {
            assert(v@[i as int] == x);
        }
        return;
    }
    let ghost before = v@;
    assert(before == old(v)@);
    v.insert(i, x);
    proof {
        assert forall|y: usize| #[trigger] v@.contains(y) <==> (before.contains(y) || y == x) by {
            if v@.contains(y) {
                let j = choose|j: int| 0 <= j < v@.len() && v@[j] == y;
                if j < i {
                    assert(before[j] == y);
                } else if j > i {
                    assert(before[j - 1] == y);
                }
            }
            if before.contains(y) {
                let j = choose|j: int| 0 <= j < before.len() && before[j] == y;
                if j < i {
                    assert(v@[j] == y);
                } else {
                    assert(v@[j + 1] == y);
                }
            }
            if y == x {
                assert(v@[i as int] == y);
            }
        }
        assert forall|a: int, b: int| 0 <= a < b < v@.len() implies v@[a] < v@[b] by {
            if a < i && b > i {
                assert(before[a] < before[b - 1]);
            } else if a < i && b < i {
                assert(before[a] < before[b]);
            } else if a > i {
                assert(before[a - 1] < before[b - 1]);
            }
        }
    }
}

/// The keys of `s` other than `x`, in order.
pub open spec fn without_key(s: Seq<usize>, x: usize) -> Seq<usize>
    decreases s.len(),
{
    if s.len() == 0 {
        s
    } else if s.last() == x {
        without_key(s.drop_last(), x)
    } else {
        without_key(s.drop_last(), x).push(s.last())
    }
}

/// What `without_key` keeps: the other keys, each as often as before.
proof fn lemma_without_key(s: Seq<usize>, x: usize)
    ensures
        forall|y: usize| #[trigger] without_key(s, x).contains(y) <==> s.contains(y) && y != x,
        s.no_duplicates() ==> without_key(s, x).no_duplicates(),
        !s.contains(x) ==> without_key(s, x) == s,
        without_key(without_key(s, x), x) == without_key(s, x),
    decreases s.len(),
{
    if s.len() > 0 {
        let t = s.drop_last();
        lemma_without_key(t, x);
        assert forall|y: usize| #[trigger] without_key(s, x).contains(y) <==> s.contains(y) && y != x by {
            let w = without_key(t, x);
            if s.contains(y) && y != x {
                let k = choose|k: int| 0 <= k < s.len() && s[k] == y;
                if k < s.len() - 1 {
                    assert(t[k] == y);
                    assert(w.contains(y));
                    let kk = choose|kk: int| 0 <= kk < w.len() && w[kk] == y;
                    if s.last() != x {
                        assert(w.push(s.last())[kk] == y);
                    }
                } else {
                    assert(s.last() == y);
                    assert(w.push(s.last())[w.len() as int] == y);
                }
            }
            if without_key(s, x).contains(y) {
                if s.last() != x {
                    let k = choose|k: int| 0 <= k < w.push(s.last()).len() && w.push(s.last())[k] == y;
                    if k < w.len() {
                        assert(w[k] == y);
                        assert(w.contains(y));
                        let kk = choose|kk: int| 0 <= kk < t.len() && t[kk] == y;
                        assert(s[kk] == y);
                    } else {
                        assert(s[s.len() - 1] == y);
                    }
                } else {
                    assert(w.contains(y));
                    let kk = choose|kk: int| 0 <= kk < t.len() && t[kk] == y;
                    assert(s[kk] == y);
                }
            }
        }
        if s.no_duplicates() {
            assert(t.no_duplicates()) by {
                assert forall|a: int, b: int| 0 <= a < b < t.len() implies t[a] != t[b] by {
                    assert(s[a] == t[a] && s[b] == t[b]);
                }
            }
            if s.last() != x {
                assert(!t.contains(s.last())) by {
                    if t.contains(s.last()) {
                        let k = choose|k: int| 0 <= k < t.len() && t[k] == s.last();
                        assert(s[k] == s[s.len() - 1]);
                    }
                }
                assert(!without_key(t, x).contains(s.last()));
            }
        }
        if !s.contains(x) {
            assert(!t.contains(x)) by {
                if t.contains(x) {
                    let k = choose|k: int| 0 <= k < t.len() && t[k] == x;
                    assert(s[k] == x);
                }
            }
            assert(s.last() != x) by {
                assert(s[s.len() - 1] == s.last());
            }
            assert(t.push(s.last()) =~= s);
        }
        let w = without_key(t, x);
        if s.last() != x {
            assert(w.push(s.last()).drop_last() =~= w);
            assert(without_key(w.push(s.last()), x) == without_key(w, x).push(s.last()));
        }
    }
}

/// Takes the key `x` out of keys that hold it at most once.
fn remove_key(v: &mut Vec<usize>, x: usize)
    requires
        old(v)@.no_duplicates(),
    ensures
        final(v)@ == without_key(old(v)@, x),
{
    let ghost o = v@;
    proof {
        lemma_without_key(o, x);
    }
    let mut j: usize = 0;
    while j < v.len()
        invariant
            v@ == o,
            o == old(v)@,
            o.no_duplicates(),
            j <= o.len(),
            forall|k: int| 0 <= k < j ==> o[k] != x,
        decreases o.len() - j,
    {
        if v[j] == x {
            v.remove(j);
            proof {
                lemma_without_key_at(o, x, j as int);
            }
            return;
        }
        j = j + 1;
    }
    proof {
        assert(!o.contains(x));
    }
}

/// Keys without repeats lose `x` where it stands.
proof fn lemma_without_key_at(s: Seq<usize>, x: usize, j: int)
    requires
        0 <= j < s.len(),
        s[j] == x,
        s.no_duplicates(),
    ensures
        without_key(s, x) == s.remove(j),
    decreases s.len(),
{
    let t = s.drop_last();
    if j == s.len() - 1 {
        assert(!t.contains(x)) by {
            if t.contains(x) {
                let k = choose|k: int| 0 <= k < t.len() && t[k] == x;
                assert(s[k] == s[j]);
            }
        }
        lemma_without_key(t, x);
        assert(s.remove(j) =~= t);
    } else {
        assert(t.no_duplicates()) by {
            assert forall|a: int, b: int| 0 <= a < b < t.len() implies t[a] != t[b] by {
                assert(s[a] == t[a] && s[b] == t[b]);
            }
        }
        lemma_without_key_at(t, x, j);
        assert(s.last() != x) by {
            assert(s[s.len() - 1] != s[j]);
        }
        assert(s.remove(j) =~= t.remove(j).push(s.last()));
    }
}

/// What a longer list of paths holds.
proof fn lemma_push_contains(t: Seq<Seq<char>>, e: Seq<char>)
    ensures
        forall|x: Seq<char>| #[trigger] t.push(e).contains(x) <==> t.contains(x) || x == e,
{
    assert forall|x: Seq<char>| #[trigger] t.push(e).contains(x) <==> t.contains(x) || x == e by {
        if t.push(e).contains(x) {
            let k = choose|k: int| 0 <= k < t.push(e).len() && t.push(e)[k] == x;
            if k < t.len() {
                assert(t[k] == x);
            }
        }
        if t.contains(x) {
            let k = choose|k: int| 0 <= k < t.len() && t[k] == x;
            assert(t.push(e)[k] == x);
        }
        if x == e {
            assert(t.push(e)[t.len() as int] == x);
        }
    }
}

/// What one call of `record_read` does, as a step from `before` to `after`: the files keep
/// their paths, shader `shader` adds the path of file `dep` to those it read, file `dep` lists
/// the shader among its readers, no file stops listing a reader, and the other files stay as
/// they are.
#[verifier::opaque]
pub open spec fn read_recorded(
    before: ShaderDependencies,
    after: ShaderDependencies,
    shader: usize,
    dep: usize,
) -> bool {
    &&& shader < before.depends_on@.len()
    &&& dep < before.dependencies@.len()
    &&& after.consistent()
    &&& after.depends_on@.len() == before.depends_on@.len()
    &&& dependency_paths(after.dependencies@) == dependency_paths(before.dependencies@)
    &&& path_views(after.depends_on@[shader as int]@) == path_views(before.depends_on@[shader as int]@).push(
        before.dependencies@[dep as int].path@,
    )
    &&& after.dependencies@[dep as int].depended_by@.contains(shader)
    &&& forall|i: int|
        0 <= i < before.dependencies@.len() && i != dep ==> #[trigger] after.dependencies@[i] == before.dependencies@[i]
    &&& forall|i: int, x: usize|
        0 <= i < before.dependencies@.len() && #[trigger] before.dependencies@[i].depended_by@.contains(x)
            ==> after.dependencies@[i].depended_by@.contains(x)
}

/// The paths of the files at positions `deps` of `files`, in order.
pub open spec fn paths_at(files: Seq<ShaderDependency>, deps: Seq<usize>) -> Seq<Seq<char>> {
    deps.map_values(|d: usize| files[d as int].path@)
}

/// The facts that a run of reads keeps, after its first `m` reads.
proof fn lemma_reads_prefix(states: Seq<ShaderDependencies>, shader: usize, deps: Seq<usize>, m: int)
    requires
        states.len() == deps.len() + 1,
        0 <= m <= deps.len(),
        states[0].consistent(),
        shader < states[0].depends_on@.len(),
        states[0].depends_on@[shader as int]@.len() == 0,
        forall|i: int| 0 <= i < states[0].dependencies@.len() ==> !(#[trigger] states[0].dependencies@[i]).depended_by@.contains(shader),
        forall|k: int| 0 <= k < deps.len() ==> read_recorded(#[trigger] states[k], states[k + 1], shader, deps[k]),
    ensures
        states[m].consistent(),
        forall|i: int|
            0 <= i < states[m].dependencies@.len() && (#[trigger] states[m].dependencies@[i]).depended_by@.contains(shader)
                ==> exists|k: int| 0 <= k < m && deps[k] == i,
        shader < states[m].depends_on@.len(),
        dependency_paths(states[m].dependencies@) == dependency_paths(states[0].dependencies@),
        path_views(states[m].depends_on@[shader as int]@) == paths_at(states[0].dependencies@, deps.take(m)),
        forall|k: int| 0 <= k < m ==> #[trigger] deps[k] < states[m].dependencies@.len(),
        forall|k: int|
            0 <= k < m ==> (#[trigger] states[m].dependencies@[deps[k] as int]).depended_by@.contains(shader),
    decreases m,
{
    if m == 0 {
        assert(path_views(states[0].depends_on@[shader as int]@) =~= paths_at(states[0].dependencies@, deps.take(0)));
    } else {
        lemma_reads_prefix(states, shader, deps, m - 1);
        let b = states[m - 1];
        let a = states[m];
        let d = deps[m - 1];
        assert(read_recorded(b, a, shader, d));
        assert({
            &&& shader < b.depends_on@.len()
            &&& d < b.dependencies@.len()
            &&& a.consistent()
            &&& a.depends_on@.len() == b.depends_on@.len()
            &&& dependency_paths(a.dependencies@) == dependency_paths(b.dependencies@)
            &&& path_views(a.depends_on@[shader as int]@) == path_views(b.depends_on@[shader as int]@).push(
                b.dependencies@[d as int].path@,
            )
            &&& a.dependencies@[d as int].depended_by@.contains(shader)
            &&& forall|i: int|
                0 <= i < b.dependencies@.len() && i != d ==> #[trigger] a.dependencies@[i] == b.dependencies@[i]
            &&& forall|i: int, x: usize|
                0 <= i < b.dependencies@.len() && #[trigger] b.dependencies@[i].depended_by@.contains(x)
                    ==> a.dependencies@[i].depended_by@.contains(x)
        }) by {
            reveal(read_recorded);
        }
        let p0 = dependency_paths(states[0].dependencies@);
        assert(dependency_paths(b.dependencies@)[deps[m - 1] as int] == p0[deps[m - 1] as int]);
        assert(paths_at(states[0].dependencies@, deps.take(m)) =~= paths_at(states[0].dependencies@, deps.take(m - 1)).push(
            states[0].dependencies@[deps[m - 1] as int].path@,
        ));
        assert(dependency_paths(a.dependencies@).len() == dependency_paths(b.dependencies@).len());
        assert(a.dependencies@.len() == b.dependencies@.len());
        assert forall|k: int| 0 <= k < m implies #[trigger] deps[k] < a.dependencies@.len() by {
            if k == m - 1 {
                assert(deps[k] == d);
            }
        }
        assert forall|k: int|
            0 <= k < m implies (#[trigger] a.dependencies@[deps[k] as int]).depended_by@.contains(shader) by {
            assert(dependency_paths(a.dependencies@).len() == dependency_paths(b.dependencies@).len());
            assert(a.dependencies@.len() == b.dependencies@.len());
            if k < m - 1 {
                assert(deps[k] < b.dependencies@.len());
                assert(b.dependencies@[deps[k] as int].depended_by@.contains(shader));
                assert(a.dependencies@[deps[k] as int].depended_by@.contains(shader));
            } else {
                assert(deps[k] == d);
            }
        }
        assert forall|i: int|
            0 <= i < a.dependencies@.len() && (#[trigger] a.dependencies@[i]).depended_by@.contains(shader) implies exists|k: int|
                0 <= k < m && deps[k] == i by {
            if i == d {
                assert(deps[m - 1] == i);
            } else {
                assert(a.dependencies@[i] == b.dependencies@[i]);
                let k = choose|k: int| 0 <= k < m - 1 && deps[k] == i;
                assert(0 <= k < m && deps[k] == i);
            }
        }
    }
}

/// A shader's build lists exactly what it read: starting from a shader that has read nothing
/// and that no file lists (just added, or forgotten before a new build after a build whose list
/// was kept), after any run of reads (`states[k]`
/// before read `k`, of the file at position `deps[k]`, each as `record_read` does it) the
/// shader's read paths are those of the files read, in reading order, and a file lists the
/// shader among its readers exactly when the file's path is among the shader's read paths.
pub proof fn law_build_lists_reads(states: Seq<ShaderDependencies>, shader: usize, deps: Seq<usize>)
    requires
        states.len() == deps.len() + 1,
        states[0].consistent(),
        shader < states[0].depends_on@.len(),
        states[0].depends_on@[shader as int]@.len() == 0,
        forall|i: int| 0 <= i < states[0].dependencies@.len() ==> !(#[trigger] states[0].dependencies@[i]).depended_by@.contains(shader),
        forall|k: int| 0 <= k < deps.len() ==> read_recorded(#[trigger] states[k], states[k + 1], shader, deps[k]),
    ensures
        ({
            let last = states[deps.len() as int];
            &&& path_views(last.depends_on@[shader as int]@) == paths_at(states[0].dependencies@, deps)
            &&& forall|i: int|
                0 <= i < last.dependencies@.len() ==> ((#[trigger] last.dependencies@[i]).depended_by@.contains(
                    shader,
                ) <==> path_views(last.depends_on@[shader as int]@).contains(last.dependencies@[i].path@))
        }),
{
    let n = deps.len() as int;
    lemma_reads_prefix(states, shader, deps, n);
    assert(deps.take(n) =~= deps);
    let last = states[n];
    let p0 = dependency_paths(states[0].dependencies@);
    let lp = dependency_paths(last.dependencies@);
    assert forall|i: int| 0 <= i < last.dependencies@.len() implies ((#[trigger] last.dependencies@[i]).depended_by@.contains(
        shader,
    ) <==> path_views(last.depends_on@[shader as int]@).contains(last.dependencies@[i].path@)) by {
        let reads = path_views(last.depends_on@[shader as int]@);
        assert(p0.len() == states[0].dependencies@.len());
        assert(lp.len() == last.dependencies@.len());
        if last.dependencies@[i].depended_by@.contains(shader) {
            let k = choose|k: int| 0 <= k < n && deps[k] == i;
            assert(reads[k] == states[0].dependencies@[i].path@);
            assert(lp[i] == p0[i]);
            assert(reads.contains(last.dependencies@[i].path@));
        }
        if reads.contains(last.dependencies@[i].path@) {
            let k = choose|k: int| 0 <= k < reads.len() && reads[k] == last.dependencies@[i].path@;
            let d = deps[k] as int;
            assert(deps[k] < last.dependencies@.len() && last.dependencies@[deps[k] as int].depended_by@.contains(shader));
            assert(p0.len() == states[0].dependencies@.len());
            assert(lp.len() == last.dependencies@.len());
            assert(reads[k] == states[0].dependencies@[d].path@);
            assert(lp[d] == p0[d]);
            assert(lp[i] == last.dependencies@[i].path@);
            assert(lp[d] == lp[i]);
            assert(d == i);
            assert(last.dependencies@[deps[k] as int].depended_by@.contains(shader));
        }
    }
}

impl ShaderDependencies {
    /// Every file is listed once, and each shader that a file lists as reading it exists, once
    /// per file. (A file may list a shader whose own list no longer names the file: the list
    /// of what a shader read on its first build is not kept, see `end_first_build`.)
    pub open spec fn consistent(&self) -> bool {
        &&& dependency_paths(self.dependencies@).no_duplicates()
        &&& forall|i: int| 0 <= i < self.dependencies@.len() ==> (#[trigger] self.dependencies@[i]).depended_by@.no_duplicates()
        &&& forall|i: int, j: int|
            0 <= i < self.dependencies@.len() && 0 <= j < self.dependencies@[i].depended_by@.len() ==> {
                let s = #[trigger] self.dependencies@[i].depended_by@[j];
                &&& s < self.depends_on@.len()
            }
    }

    /// Position of the file at `path`, if it is listed.
    pub open spec fn position(&self, path: Seq<char>) -> Option<int> {
        if dependency_paths(self.dependencies@).contains(path) {
            Some(dependency_paths(self.dependencies@).index_of(path))
        } else {
            None
        }
    }

    /// No files, no shaders.
    pub fn new() -> (d: Self)
        ensures
            d.dependencies@.len() == 0,
            d.depends_on@.len() == 0,
            d.consistent(),
    {
        ShaderDependencies { dependencies: Vec::new(), depends_on: Vec::new() }
    }

    /// A new shader, which has read nothing yet; returns its key. As it is built, the files it
    /// reads list it among their readers and it lists their paths (`record_read`); once its
    /// first build is done, that list is dropped (`end_first_build`), as the editor keeps the
    /// list only from a shader's rebuilds on.
    pub fn add_shader(&mut self) -> (key: usize)
        requires
            old(self).consistent(),
        ensures
            key == old(self).depends_on@.len(),
            final(self).depends_on@.len() == old(self).depends_on@.len() + 1,
            final(self).depends_on@.take(key as int) == old(self).depends_on@,
            final(self).depends_on@[key as int]@.len() == 0,
            final(self).dependencies@ == old(self).dependencies@,
            final(self).consistent(),
    {
        let key = self.depends_on.len();
        self.depends_on.push(Vec::new());
        proof {
            let o = old(self);
            assert forall|i: int, j: int|
                0 <= i < self.dependencies@.len() && 0 <= j < self.dependencies@[i].depended_by@.len() implies {
                    let s = #[trigger] self.dependencies@[i].depended_by@[j];
                    &&& s < self.depends_on@.len()
                } by {
                let s = self.dependencies@[i].depended_by@[j];
                assert(s < o.depends_on@.len());
                assert(self.depends_on@[s as int] == o.depends_on@[s as int]);
            }
        }
        key
    }

    /// Position of the file at `path`, if it is listed (see `position`).
    pub fn find(&self, path: &String) -> (r: Option<usize>)
        requires
            dependency_paths(self.dependencies@).no_duplicates(),
        ensures
            match r {
                Some(i) => self.position(path@) == Some(i as int) && i < self.dependencies@.len(),
                None => self.position(path@) is None,
            },
    {
        let ghost paths = dependency_paths(self.dependencies@);
        let mut i: usize = 0;
        while i < self.dependencies.len()
            invariant
                i <= self.dependencies@.len(),
                paths == dependency_paths(self.dependencies@),
                paths.no_duplicates(),
                forall|k: int| 0 <= k < i ==> paths[k] != path@,
            decreases self.dependencies@.len() - i,
        {
            if same_text(self.dependencies[i].path.as_str(), path.as_str()) {
                proof {
                    assert(paths[i as int] == path@);
                    assert(paths.contains(path@));
                    let k = paths.index_of(path@);
                    assert(0 <= k < paths.len() && paths[k] == path@);
                    assert(k == i);
                }
                return Some(i);
            }
            i = i + 1;
        }
        None
    }

    /// Lists the file at `path`, which is not listed yet, with its contents as just read; no
    /// shader reads it yet. Returns its position.
    pub fn add_dependency(&mut self, path: String, content: String) -> (i: usize)
        requires
            old(self).consistent(),
            old(self).position(path@) is None,
        ensures
            i == old(self).dependencies@.len(),
            final(self).dependencies@ == old(self).dependencies@.push(
                ShaderDependency { path, depended_by: final(self).dependencies@[i as int].depended_by, content_cache: content },
            ),
            final(self).dependencies@[i as int].depended_by@.len() == 0,
            final(self).depends_on@ == old(self).depends_on@,
            final(self).consistent(),
    {
        let i = self.dependencies.len();
        let ghost o = self.dependencies@;
        self.dependencies.push(ShaderDependency { path, depended_by: Vec::new(), content_cache: content });
        proof {
            assert(dependency_paths(self.dependencies@) =~= dependency_paths(o).push(self.dependencies@[i as int].path@));
            assert forall|a: int, b: int|
                0 <= a < b < dependency_paths(self.dependencies@).len() implies dependency_paths(self.dependencies@)[a]
                    != dependency_paths(self.dependencies@)[b] by {
                if b == i {
                    assert(dependency_paths(o)[a] == o[a].path@);
                }
            }
            assert forall|k: int| 0 <= k < self.dependencies@.len() implies (#[trigger] self.dependencies@[k]).depended_by@.no_duplicates() by {
                if k < i {
                    assert(self.dependencies@[k] == o[k]);
                }
            }
            assert forall|k: int, j: int|
                0 <= k < self.dependencies@.len() && 0 <= j < self.dependencies@[k].depended_by@.len() implies {
                    let s = #[trigger] self.dependencies@[k].depended_by@[j];
                    &&& s < self.depends_on@.len()
                } by {
                assert(k < i);
                assert(self.dependencies@[k] == o[k]);
            }
        }
        i
    }

    /// Shader `shader`, as it is being built, reads the file at position `dep`: the file lists
    /// the shader among its readers (once), the shader lists the file's path among those it
    /// read, and the file's cached contents are handed out.
    pub fn record_read(&mut self, shader: usize, dep: usize) -> (content: String)
        requires
            old(self).consistent(),
            shader < old(self).depends_on@.len(),
            dep < old(self).dependencies@.len(),
        ensures
            final(self).consistent(),
            read_recorded(*old(self), *final(self), shader, dep),
            content == old(self).dependencies@[dep as int].content_cache,
            final(self).depends_on@.len() == old(self).depends_on@.len(),
            forall|s: int|
                0 <= s < old(self).depends_on@.len() && s != shader ==> #[trigger] final(self).depends_on@[s]
                    == old(self).depends_on@[s],
            path_views(final(self).depends_on@[shader as int]@) == path_views(old(self).depends_on@[shader as int]@).push(
                old(self).dependencies@[dep as int].path@,
            ),
            final(self).dependencies@.len() == old(self).dependencies@.len(),
            forall|i: int|
                0 <= i < old(self).dependencies@.len() && i != dep ==> #[trigger] final(self).dependencies@[i]
                    == old(self).dependencies@[i],
            final(self).dependencies@[dep as int] == (ShaderDependency {
                depended_by: final(self).dependencies@[dep as int].depended_by,
                ..old(self).dependencies@[dep as int]
            }),
            final(self).dependencies@[dep as int].depended_by@ == if old(self).dependencies@[dep as int].depended_by@.contains(
                shader,
            ) {
                old(self).dependencies@[dep as int].depended_by@
            } else {
                old(self).dependencies@[dep as int].depended_by@.push(shader)
            },
    {
        let ghost o = *self;
        let path = self.dependencies[dep].path.clone();
        let mut read_paths: Vec<String> = Vec::new();
        std::mem::swap(&mut read_paths, &mut self.depends_on[shader]);
        read_paths.push(path);
        self.depends_on.set(shader, read_paths);
        let mut readers: Vec<usize> = Vec::new();
        std::mem::swap(&mut readers, &mut self.dependencies[dep].depended_by);
        let mut seen = false;
        let mut j: usize = 0;
        while j < readers.len()
            invariant
                j <= readers@.len(),
                seen == (exists|k: int| 0 <= k < j && readers@[k] == shader),
            decreases readers@.len() - j,
        {
            if readers[j] == shader {
                seen = true;
            }
            j = j + 1;
        }
        proof {
            if seen {
                let k = choose|k: int| 0 <= k < j && readers@[k] == shader;
                assert(readers@.contains(shader));
            }
        }
        if !seen {
            readers.push(shader);
        }
        let content = self.dependencies[dep].content_cache.clone();
        let entry = ShaderDependency {
            path: self.dependencies[dep].path.clone(),
            depended_by: readers,
            content_cache: self.dependencies[dep].content_cache.clone(),
        };
        self.dependencies.set(dep, entry);
        proof {
            let f = *self;
            assert(path_views(f.depends_on@[shader as int]@) =~= path_views(o.depends_on@[shader as int]@).push(
                o.dependencies@[dep as int].path@,
            ));
            assert(dependency_paths(f.dependencies@) =~= dependency_paths(o.dependencies@));
            assert forall|i: int| 0 <= i < f.dependencies@.len() implies (#[trigger] f.dependencies@[i]).depended_by@.no_duplicates() by {
                if i == dep {
                    assert(o.dependencies@[i].depended_by@.no_duplicates());
                }
            }
            assert forall|i: int, jj: int|
                0 <= i < f.dependencies@.len() && 0 <= jj < f.dependencies@[i].depended_by@.len() implies {
                    let s = #[trigger] f.dependencies@[i].depended_by@[jj];
                    &&& s < f.depends_on@.len()
                } by {
                let s = f.dependencies@[i].depended_by@[jj];
                if !(i == dep && s == shader) {
                    assert(o.dependencies@[i].depended_by@[jj] == s);
                    assert(s < o.depends_on@.len());
                }
            }
            let nb = f.dependencies@[dep as int].depended_by@;
            let ob = o.dependencies@[dep as int].depended_by@;
            assert(nb == if ob.contains(shader) {
                ob
            } else {
                ob.push(shader)
            });
            if !ob.contains(shader) {
                assert(nb[ob.len() as int] == shader);
            }
            assert(nb.contains(shader));
            reveal(read_recorded);
            assert forall|i: int, x: usize|
                0 <= i < o.dependencies@.len() && #[trigger] o.dependencies@[i].depended_by@.contains(
                    x,
                ) implies f.dependencies@[i].depended_by@.contains(x) by {
                if i == dep as int && !ob.contains(shader) {
                    let k = choose|k: int| 0 <= k < ob.len() && ob[k] == x;
                    assert(nb[k] == x);
                }
            }
        }
        content
    }

    /// The first build of shader `shader` is done: the list of what it read is not kept (it
    /// is empty again), while the files it read keep listing it.
    pub fn end_first_build(&mut self, shader: usize)
        requires
            old(self).consistent(),
            shader < old(self).depends_on@.len(),
        ensures
            final(self).consistent(),
            final(self).dependencies@ == old(self).dependencies@,
            final(self).depends_on@.len() == old(self).depends_on@.len(),
            final(self).depends_on@[shader as int]@.len() == 0,
            forall|s: int|
                0 <= s < old(self).depends_on@.len() && s != shader ==> #[trigger] final(self).depends_on@[s]
                    == old(self).depends_on@[s],
    {
        self.depends_on.set(shader, Vec::new());
        proof {
            let o = old(self);
            assert forall|i: int, j: int|
                0 <= i < self.dependencies@.len() && 0 <= j < self.dependencies@[i].depended_by@.len() implies {
                    let s = #[trigger] self.dependencies@[i].depended_by@[j];
                    &&& s < self.depends_on@.len()
                } by {
                assert(self.dependencies@[i] == o.dependencies@[i]);
            }
        }
    }

    /// The files at `changed` changed: returns, in increasing order and once each, the shaders
    /// that read any of them (the shaders to build again), and forgets those files, whose
    /// contents are out of date.
    pub fn changed_shaders(&mut self, changed: &Vec<String>) -> (rebuild: Vec<usize>)
        requires
            old(self).consistent(),
        ensures
            increasing(rebuild@),
            forall|s: usize|
                #[trigger] rebuild@.contains(s) <==> reads_one_of(
                    old(self).dependencies@,
                    path_views(changed@),
                    old(self).dependencies@.len() as int,
                    s,
                ),
            final(self).dependencies@ == files_other_than(
                old(self).dependencies@,
                path_views(changed@),
                old(self).dependencies@.len() as int,
            ),
            final(self).depends_on@ == old(self).depends_on@,
            final(self).consistent(),
    {
        let ghost o = self.dependencies@;
        let ghost cv = path_views(changed@);
        let ghost n0 = o.len() as int;
        let mut rebuild: Vec<usize> = Vec::new();
        let mut i: usize = 0;
        let ghost mut p: int = 0;
        proof {
            assert(self.dependencies@ =~= files_other_than(o, cv, 0) + o.subrange(0, n0));
        }
        while i < self.dependencies.len()
            invariant
                n0 == o.len(),
                cv == path_views(changed@),
                0 <= p <= n0,
                i == files_other_than(o, cv, p).len(),
                self.dependencies@.len() == i + (n0 - p),
                self.dependencies@ == files_other_than(o, cv, p) + o.subrange(p, n0),
                self.depends_on@ == old(self).depends_on@,
                increasing(rebuild@),
                forall|s: usize| #[trigger] rebuild@.contains(s) <==> reads_one_of(o, cv, p, s),
            ensures
                p == n0,
                self.dependencies@ == files_other_than(o, cv, n0),
                increasing(rebuild@),
                self.depends_on@ == old(self).depends_on@,
                forall|s: usize| #[trigger] rebuild@.contains(s) <==> reads_one_of(o, cv, n0, s),
            decreases n0 - p,
        {
            proof {
                assert(p < n0);
                assert(self.dependencies@[i as int] == o[p]);
            }
            if contains_path(changed, &self.dependencies[i].path) {
                let m = self.dependencies[i].depended_by.len();
                let mut j: usize = 0;
                while j < m
                    invariant
                        m == o[p].depended_by@.len(),
                        self.dependencies@[i as int] == o[p],
                        i < self.dependencies@.len(),
                        0 <= p < n0,
                        cv.contains(o[p].path@),
                        j <= m,
                        increasing(rebuild@),
                        forall|s: usize|
                            #[trigger] rebuild@.contains(s) <==> reads_one_of(o, cv, p, s) || exists|jj: int|
                                0 <= jj < j && o[p].depended_by@[jj] == s,
                    decreases m - j,
                {
                    let ghost before = rebuild@;
                    insert_key(&mut rebuild, self.dependencies[i].depended_by[j]);
                    proof {
                        assert forall|s: usize| #[trigger] rebuild@.contains(s) <==> reads_one_of(o, cv, p, s) || exists|jj: int|
                            0 <= jj < j + 1 && o[p].depended_by@[jj] == s by {
                            if s == o[p].depended_by@[j as int] {
                                assert(exists|jj: int| 0 <= jj < j + 1 && o[p].depended_by@[jj] == s);
                            }
                            if exists|jj: int| 0 <= jj < j + 1 && o[p].depended_by@[jj] == s {
                                let jj = choose|jj: int| 0 <= jj < j + 1 && o[p].depended_by@[jj] == s;
                                if jj < j {
                                    assert(before.contains(s));
                                }
                            }
                        }
                    }
                    j = j + 1;
                }
                self.dependencies.remove(i);
                proof {
                    assert forall|s: usize| #[trigger] rebuild@.contains(s) <==> reads_one_of(o, cv, p + 1, s) by {
                        if reads_one_of(o, cv, p + 1, s) {
                            let (a, b) = choose|a: int, b: int|
                                0 <= a < p + 1 && 0 <= b < o[a].depended_by@.len() && cv.contains(o[a].path@)
                                    && #[trigger] o[a].depended_by@[b] == s;
                            if a == p {
                                assert(exists|jj: int| 0 <= jj < m && o[p].depended_by@[jj] == s);
                            } else {
                                assert(reads_one_of(o, cv, p, s));
                            }
                        }
                        if exists|jj: int| 0 <= jj < m && o[p].depended_by@[jj] == s {
                            let jj = choose|jj: int| 0 <= jj < m && o[p].depended_by@[jj] == s;
                            assert(o[p].depended_by@[jj] == s);
                            assert(reads_one_of(o, cv, p + 1, s));
                        }
                        if reads_one_of(o, cv, p, s) {
                            let (a, b) = choose|a: int, b: int|
                                0 <= a < p && 0 <= b < o[a].depended_by@.len() && cv.contains(o[a].path@)
                                    && #[trigger] o[a].depended_by@[b] == s;
                            assert(o[a].depended_by@[b] == s);
                        }
                    }
                    assert(self.dependencies@ =~= files_other_than(o, cv, p + 1) + o.subrange(p + 1, n0));
                    p = p + 1;
                }
            } else {
                i = i + 1;
                proof {
                    assert forall|s: usize| #[trigger] rebuild@.contains(s) <==> reads_one_of(o, cv, p + 1, s) by {
                        if reads_one_of(o, cv, p + 1, s) {
                            let (a, b) = choose|a: int, b: int|
                                0 <= a < p + 1 && 0 <= b < o[a].depended_by@.len() && cv.contains(o[a].path@)
                                    && #[trigger] o[a].depended_by@[b] == s;
                            assert(a != p);
                            assert(reads_one_of(o, cv, p, s));
                        }
                        if reads_one_of(o, cv, p, s) {
                            let (a, b) = choose|a: int, b: int|
                                0 <= a < p && 0 <= b < o[a].depended_by@.len() && cv.contains(o[a].path@)
                                    && #[trigger] o[a].depended_by@[b] == s;
                            assert(o[a].depended_by@[b] == s);
                        }
                    }
                    assert(self.dependencies@ =~= files_other_than(o, cv, p + 1) + o.subrange(p + 1, n0));
                    p = p + 1;
                }
            }
        }
        proof {
            assert(o.subrange(n0, n0) =~= Seq::<ShaderDependency>::empty());
            assert(self.dependencies@ =~= files_other_than(o, cv, n0));
            lemma_files_kept_distinct(o, at_paths(cv), n0);
            let f = *self;
            assert forall|k: int| 0 <= k < f.dependencies@.len() implies (#[trigger] f.dependencies@[k]).depended_by@.no_duplicates() by {
                let i = choose|i: int| 0 <= i < n0 && #[trigger] o[i] == files_other_than(o, cv, n0)[k];
                assert(old(self).dependencies@[i].depended_by@.no_duplicates());
            }
            assert forall|k: int, j: int|
                0 <= k < f.dependencies@.len() && 0 <= j < f.dependencies@[k].depended_by@.len() implies {
                    let s = #[trigger] f.dependencies@[k].depended_by@[j];
                    &&& s < f.depends_on@.len()
                } by {
                let i = choose|i: int| 0 <= i < n0 && #[trigger] o[i] == files_other_than(o, cv, n0)[k];
                assert(old(self).dependencies@[i].depended_by@[j] == f.dependencies@[k].depended_by@[j]);
            }
        }
        rebuild
    }

    /// Shader `shader` is about to be built again: each file on its list of files read stops
    /// listing it, the files on that list that no shader reads any more are added to `gc`, the
    /// files to forget once the shaders are built again (see `collect_garbage`), and its list is
    /// emptied. Files that list it but are not on its list keep listing it.
    pub fn forget_shader(&mut self, shader: usize, gc: &mut Vec<String>)
        requires
            old(self).consistent(),
            shader < old(self).depends_on@.len(),
        ensures
            final(self).consistent(),
            final(self).depends_on@.len() == old(self).depends_on@.len(),
            forall|s: int|
                0 <= s < old(self).depends_on@.len() && s != shader ==> #[trigger] final(self).depends_on@[s]
                    == old(self).depends_on@[s],
            final(self).depends_on@[shader as int]@.len() == 0,
            final(self).dependencies@.len() == old(self).dependencies@.len(),
            forall|i: int|
                0 <= i < old(self).dependencies@.len() ==> #[trigger] final(self).dependencies@[i] == (ShaderDependency {
                    depended_by: final(self).dependencies@[i].depended_by,
                    ..old(self).dependencies@[i]
                }) && final(self).dependencies@[i].depended_by@ == if path_views(old(self).depends_on@[shader as int]@).contains(
                    old(self).dependencies@[i].path@,
                ) {
                    without_key(old(self).dependencies@[i].depended_by@, shader)
                } else {
                    old(self).dependencies@[i].depended_by@
                },
            forall|q: Seq<char>|
                #[trigger] path_views(final(gc)@).contains(q) <==> path_views(old(gc)@).contains(q) || (path_views(
                    old(self).depends_on@[shader as int]@,
                ).contains(q) && exists|i: int|
                    0 <= i < old(self).dependencies@.len() && old(self).dependencies@[i].path@ == q && without_key(
                        #[trigger] old(self).dependencies@[i].depended_by@,
                        shader,
                    ).len() == 0),
    {
        let ghost o = *self;
        let ghost og = gc@;
        let mut read: Vec<String> = Vec::new();
        std::mem::swap(&mut read, &mut self.depends_on[shader]);
        let ghost rv = path_views(read@);
        let mut k: usize = 0;
        proof {
            assert(path_views(read@.take(0)) =~= Seq::<Seq<char>>::empty());
        }
        while k < read.len()
            invariant
                read@ == o.depends_on@[shader as int]@,
                rv == path_views(read@),
                shader < o.depends_on@.len(),
                k <= read@.len(),
                self.depends_on@.len() == o.depends_on@.len(),
                forall|s: int| 0 <= s < o.depends_on@.len() && s != shader ==> #[trigger] self.depends_on@[s] == o.depends_on@[s],
                self.depends_on@[shader as int]@.len() == 0,
                dependency_paths(o.dependencies@).no_duplicates(),
                forall|i: int| 0 <= i < o.dependencies@.len() ==> (#[trigger] o.dependencies@[i]).depended_by@.no_duplicates(),
                self.dependencies@.len() == o.dependencies@.len(),
                forall|i: int|
                    0 <= i < o.dependencies@.len() ==> #[trigger] self.dependencies@[i] == (ShaderDependency {
                        depended_by: self.dependencies@[i].depended_by,
                        ..o.dependencies@[i]
                    }) && self.dependencies@[i].depended_by@ == if path_views(read@.take(k as int)).contains(
                        o.dependencies@[i].path@,
                    ) {
                        without_key(o.dependencies@[i].depended_by@, shader)
                    } else {
                        o.dependencies@[i].depended_by@
                    },
                forall|q: Seq<char>|
                    #[trigger] path_views(gc@).contains(q) <==> path_views(og).contains(q) || (path_views(
                        read@.take(k as int),
                    ).contains(q) && exists|i: int|
                        0 <= i < o.dependencies@.len() && o.dependencies@[i].path@ == q && without_key(
                            #[trigger] o.dependencies@[i].depended_by@,
                            shader,
                        ).len() == 0),
            decreases read@.len() - k,
        {
            proof {
                assert(dependency_paths(self.dependencies@) =~= dependency_paths(o.dependencies@)) by {
                    assert forall|i: int| 0 <= i < o.dependencies@.len() implies dependency_paths(self.dependencies@)[i]
                        == dependency_paths(o.dependencies@)[i] by {
                        assert(self.dependencies@[i].path == o.dependencies@[i].path);
                    }
                }
                assert(path_views(read@.take(k + 1)) =~= path_views(read@.take(k as int)).push(read@[k as int]@));
                lemma_push_contains(path_views(read@.take(k as int)), read@[k as int]@);
                lemma_push_contains(path_views(gc@), read@[k as int]@);
            }
            let ghost before_gc = gc@;
            let ghost before_deps = self.dependencies@;
            match self.find(&read[k]) {
                Some(i) => {
                    let ghost oi = o.dependencies@[i as int].depended_by@;
                    proof {
                        lemma_without_key(oi, shader);
                        lemma_without_key(without_key(oi, shader), shader);
                        assert(self.dependencies@[i as int].depended_by@.no_duplicates());
                    }
                    let mut readers: Vec<usize> = Vec::new();
                    std::mem::swap(&mut readers, &mut self.dependencies[i].depended_by);
                    remove_key(&mut readers, shader);
                    let empty = readers.len() == 0;
                    let entry = ShaderDependency {
                        path: self.dependencies[i].path.clone(),
                        depended_by: readers,
                        content_cache: self.dependencies[i].content_cache.clone(),
                    };
                    self.dependencies.set(i, entry);
                    if empty {
                        gc.push(read[k].clone());
                    }
                    proof {
                        lemma_without_key(oi, shader);
                        lemma_without_key(without_key(oi, shader), shader);
                        assert(dependency_paths(o.dependencies@)[i as int] == read@[k as int]@);
                        assert forall|j: int| 0 <= j < o.dependencies@.len() implies #[trigger] self.dependencies@[j] == (ShaderDependency {
                            depended_by: self.dependencies@[j].depended_by,
                            ..o.dependencies@[j]
                        }) && self.dependencies@[j].depended_by@ == if path_views(read@.take(k + 1)).contains(
                            o.dependencies@[j].path@,
                        ) {
                            without_key(o.dependencies@[j].depended_by@, shader)
                        } else {
                            o.dependencies@[j].depended_by@
                        } by {
                            if j != i {
                                assert(self.dependencies@[j] == before_deps[j]);
                                assert(dependency_paths(o.dependencies@)[j] != dependency_paths(o.dependencies@)[i as int]);
                            }
                        }
                        assert forall|q: Seq<char>|
                            #[trigger] path_views(gc@).contains(q) <==> path_views(og).contains(q) || (path_views(
                                read@.take(k + 1),
                            ).contains(q) && exists|j: int|
                                0 <= j < o.dependencies@.len() && o.dependencies@[j].path@ == q && without_key(
                                    #[trigger] o.dependencies@[j].depended_by@,
                                    shader,
                                ).len() == 0) by {
                            if empty {
                                assert(path_views(gc@) =~= path_views(before_gc).push(read@[k as int]@));
                            } else {
                                assert(gc@ == before_gc);
                            }
                            if q == read@[k as int]@ && !empty {
                                if exists|j: int|
                                    0 <= j < o.dependencies@.len() && o.dependencies@[j].path@ == q && without_key(
                                        #[trigger] o.dependencies@[j].depended_by@,
                                        shader,
                                    ).len() == 0 {
                                    let j = choose|j: int|
                                        0 <= j < o.dependencies@.len() && o.dependencies@[j].path@ == q && without_key(
                                            #[trigger] o.dependencies@[j].depended_by@,
                                            shader,
                                        ).len() == 0;
                                    assert(dependency_paths(o.dependencies@)[j] == q);
                                    assert(j == i);
                                }
                            }
                            if empty && q == read@[k as int]@ {
                                assert(path_views(gc@)[before_gc.len() as int] == q);
                            }
                        }
                    }
                },
                None => {
                    proof {
                        assert forall|j: int| 0 <= j < o.dependencies@.len() implies o.dependencies@[j].path@ != read@[k as int]@ by {
                            assert(dependency_paths(self.dependencies@)[j] == o.dependencies@[j].path@);
                        }
                    }
                },
            }
            k = k + 1;
        }
        proof {
            assert(read@.take(k as int) =~= read@);
            let f = *self;
            assert(dependency_paths(f.dependencies@) =~= dependency_paths(o.dependencies@)) by {
                assert forall|i: int| 0 <= i < o.dependencies@.len() implies dependency_paths(f.dependencies@)[i]
                    == dependency_paths(o.dependencies@)[i] by {
                    assert(f.dependencies@[i].path == o.dependencies@[i].path);
                }
            }
            assert forall|i: int| 0 <= i < f.dependencies@.len() implies (#[trigger] f.dependencies@[i]).depended_by@.no_duplicates() by {
                lemma_without_key(o.dependencies@[i].depended_by@, shader);
            }
            assert forall|i: int, j: int|
                0 <= i < f.dependencies@.len() && 0 <= j < f.dependencies@[i].depended_by@.len() implies {
                    let s = #[trigger] f.dependencies@[i].depended_by@[j];
                    &&& s < f.depends_on@.len()
                } by {
                let s = f.dependencies@[i].depended_by@[j];
                lemma_without_key(o.dependencies@[i].depended_by@, shader);
                assert(f.dependencies@[i].depended_by@.contains(s));
                if path_views(o.depends_on@[shader as int]@).contains(o.dependencies@[i].path@) {
                    assert(without_key(o.dependencies@[i].depended_by@, shader).contains(s));
                }
                let jo = choose|jo: int| 0 <= jo < o.dependencies@[i].depended_by@.len() && o.dependencies@[i].depended_by@[jo] == s;
                assert(o.dependencies@[i].depended_by@[jo] == s);
                assert(s < o.depends_on@.len());
            }
        }
    }

    /// Forgets the files among `gc` that no shader reads any more (after the shaders that read
    /// them were built again).
    pub fn collect_garbage(&mut self, gc: &Vec<String>)
        requires
            old(self).consistent(),
        ensures
            final(self).dependencies@ == files_kept(
                old(self).dependencies@,
                unused_at_paths(path_views(gc@)),
                old(self).dependencies@.len() as int,
            ),
            final(self).depends_on@ == old(self).depends_on@,
            final(self).consistent(),
    {
        let ghost o = self.dependencies@;
        let ghost drop = unused_at_paths(path_views(gc@));
        let ghost n0 = o.len() as int;
        let mut i: usize = 0;
        let ghost mut p: int = 0;
        proof {
            assert(self.dependencies@ =~= files_kept(o, drop, 0) + o.subrange(0, n0));
        }
        while i < self.dependencies.len()
            invariant
                n0 == o.len(),
                drop == unused_at_paths(path_views(gc@)),
                0 <= p <= n0,
                i == files_kept(o, drop, p).len(),
                self.dependencies@.len() == i + (n0 - p),
                self.dependencies@ == files_kept(o, drop, p) + o.subrange(p, n0),
                self.depends_on@ == old(self).depends_on@,
            ensures
                self.dependencies@ == files_kept(o, drop, n0),
                self.depends_on@ == old(self).depends_on@,
            decreases n0 - p,
        {
            proof {
                assert(self.dependencies@[i as int] == o[p]);
            }
            if self.dependencies[i].depended_by.len() == 0 && contains_path(gc, &self.dependencies[i].path) {
                self.dependencies.remove(i);
                proof {
                    assert(self.dependencies@ =~= files_kept(o, drop, p + 1) + o.subrange(p + 1, n0));
                    p = p + 1;
                }
            } else {
                i = i + 1;
                proof {
                    assert(self.dependencies@ =~= files_kept(o, drop, p + 1) + o.subrange(p + 1, n0));
                    p = p + 1;
                }
            }
        }
        proof {
            lemma_files_kept_distinct(o, drop, n0);
            let f = *self;
            assert forall|k: int| 0 <= k < f.dependencies@.len() implies (#[trigger] f.dependencies@[k]).depended_by@.no_duplicates() by {
                let i = choose|i: int| 0 <= i < n0 && #[trigger] o[i] == files_kept(o, drop, n0)[k];
                assert(old(self).dependencies@[i].depended_by@.no_duplicates());
            }
            assert forall|k: int, j: int|
                0 <= k < f.dependencies@.len() && 0 <= j < f.dependencies@[k].depended_by@.len() implies {
                    let s = #[trigger] f.dependencies@[k].depended_by@[j];
                    &&& s < f.depends_on@.len()
                } by {
                let i = choose|i: int| 0 <= i < n0 && #[trigger] o[i] == files_kept(o, drop, n0)[k];
                assert(old(self).dependencies@[i].depended_by@[j] == f.dependencies@[k].depended_by@[j]);
            }
        }
    }
}

} // verus!
