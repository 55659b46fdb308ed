use vstd::prelude::*;
use std::sync::Mutex;
use std::time::{Duration, Instant};
use rayon::iter::{IntoParallelIterator, ParallelIterator};
use crate::options::{
    hook_accepts, post_accepts, stats_wf, FileStats, Handlers, Options, OutputOption, BYTES_PER_MB,
};
use crate::ordering::{kept_order, lemma_multiset_map, sort_by_path, sorted_by_path};
use crate::systems::FileSystem;

verus! {

broadcast use vstd::seq_lib::group_to_multiset_ensures;

#[verifier::external_type_specification]
#[verifier::external_body]
pub struct ExInstant(Instant);

/// Relies on `std::time::Instant::now`: reads the monotonic clock.
pub assume_specification[ Instant::now ]() -> Instant;

/// Relies on `std::time::Instant::elapsed`: the time since the instant.
pub assume_specification[ Instant::elapsed ](i: &Instant) -> Duration;

/// Relies on `std::time::Duration::as_secs`: the whole seconds of a duration.
pub assume_specification[ Duration::as_secs ](d: &Duration) -> u64;

/// Relies on rayon's `into_par_iter` over `0..n`, `map` and `collect`: `f` is
/// called on every index, on a pool of threads, and the results come back in
/// index order.
#[verifier::external_body]
fn par_map<R: Send, F: Fn(usize) -> R + Sync + Send>(n: usize, f: F) -> (r: Vec<R>)
    requires
        forall|i: usize| i < n ==> f.requires((i,)),
    ensures
        r@.len() == n,
        forall|i: usize| i < n ==> f.ensures((i,), #[trigger] r@[i as int]),
{
    (0..n).into_par_iter().map(f).collect()
}

#[verifier::external_type_specification]
#[verifier::external_body]
#[verifier::reject_recursive_types(T)]
pub struct ExMutex<T: ?Sized>(Mutex<T>);

/// Relies on `std::sync::Mutex::new`: a lock holding `t`.
pub assume_specification<T>[ Mutex::<T>::new ](t: T) -> Mutex<T>;

/// Relies on `std::sync::Mutex::lock`: `f` runs once on the value held,
/// while the lock is held, and its result replaces that value and is
/// returned. The lock is poisoned, and this panics, only if a holder
/// panicked while holding it.
#[verifier::external_body]
fn update_locked<F: FnOnce(u64) -> u64>(m: &Mutex<u64>, f: F) -> (r: u64)
    requires
        forall|x: u64| f.requires((x,)),
    ensures
        exists|x: u64| f.ensures((x,), r),
{
    let mut guard = m.lock().unwrap();
    *guard = f(*guard);
    *guard
}

/// The state that call `i` of a fan-out starts from: in parallel, `fresh`;
/// one after the other, the state the previous call ended with, or `first`
/// for the first call.
pub open spec fn fed<S, R>(parallel: bool, first: S, fresh: S, r: Seq<(R, S)>, i: int) -> S {
    if parallel {
        fresh
    } else if i == 0 {
        first
    } else {
        r[i - 1].1
    }
}

/// Calls `f` on each index below `n`, in parallel or one after the other in
/// index order, and returns the results in index order. One after the other,
/// each call starts from the state the call before ended with.
fn fan_out<R: Send, S: Copy + Send + Sync, F: Fn(usize, S) -> (R, S) + Sync + Send>(
    n: usize,
    parallel: bool,
    f: F,
    first: S,
    fresh: S,
) -> (r: Vec<(R, S)>)
    requires
        forall|i: usize, s: S| i < n ==> f.requires((i, s)),
    ensures
        r@.len() == n,
        forall|i: usize|
            i < n ==> f.ensures((i, fed(parallel, first, fresh, r@, i as int)), #[trigger] r@[i as int]),
{
    if parallel {
        let g = &f;
        let each = |i: usize| -> (o: (R, S))
            requires
                i < n,
            ensures
                g.ensures((i, fresh), o),
            { g(i, fresh) };
        par_map(n, each)
    } else {
        let mut out: Vec<(R, S)> = Vec::new();
        let mut cur = first;
        let mut i: usize = 0;
        while i < n
            invariant
                i <= n,
                out@.len() == i,
                forall|j: usize, s: S| j < n ==> f.requires((j, s)),
                forall|j: usize|
                    j < i ==> f.ensures((j, fed(false, first, fresh, out@, j as int)), #[trigger] out@[j as int]),
                cur == fed(false, first, fresh, out@, i as int),
            decreases n - i,
        {
            let o = f(i, cur);
            cur = o.1;
            out.push(o);
            assert(forall|j: usize|
                j < i ==> fed(false, first, fresh, out@, j as int) == fed(
                    false,
                    first,
                    fresh,
                    out@.drop_last(),
                    j as int,
                ));
            i = i + 1;
        }
        out
    }
}

/// Where a node stands in the tree, as handed down by its parent.
pub struct FileContext<'a> {
    /// For each ancestor, whether it is the last of its siblings.
    pub parents_last: &'a Vec<bool>,
    pub depth: u32,
    pub index: u32,
    pub total: u32,
}

impl<'a> FileContext<'a> {
    /// The position is among the siblings, and there is one flag per ancestor.
    pub open spec fn wf(&self) -> bool {
        &&& self.index < self.total
        &&& self.parents_last@.len() == self.depth
    }
}

/// What the walk of one path found, as the provider reported it.
pub enum Visit {
    /// `is_valid` said no: the path is left out.
    Skipped,
    /// The path, named `name`, could not be read: the listing of a container
    /// or the size of a leaf failed, or a container lies deeper, or has more
    /// children, than a record's `u32` counters can number.
    Unreadable { name: Seq<char>, is_dir: bool },
    /// A leaf of `size` bytes, named `name`.
    Leaf { name: Seq<char>, size: u64 },
    /// A container named `name`: `children` are its listed paths, `kids[i]`
    /// what the walk of `children[i]` found, and `sizes[i]` the size that
    /// walk returned.
    Container { name: Seq<char>, children: Seq<Seq<char>>, kids: Seq<Visit>, sizes: Seq<u64> },
}

/// A point in the life of a node at which a hook is called.
#[derive(Clone, Copy)]
pub enum Point {
    Start,
    Progress,
    End,
}

/// A lifecycle point reached: the point and the shape of the record handed
/// to its hook, or the shapes of the list handed to `post`. The point is
/// logged whether or not its hook is set.
pub enum Event {
    Node { point: Point, shape: Shape },
    Post { shapes: Seq<Shape> },
}

/// `a + b`, or `u64::MAX` where that does not fit.
pub open spec fn sat_add(a: u64, b: u64) -> u64 {
    if a + b > u64::MAX {
        u64::MAX
    } else {
        (a + b) as u64
    }
}

/// The sum of `s`, added left to right with saturation at `u64::MAX`.
pub open spec fn sat_sum(s: Seq<u64>) -> u64
    decreases s.len(),
{
    if s.len() == 0 {
        0
    } else {
        sat_add(sat_sum(s.drop_last()), s.last())
    }
}

/// The exact sum of `s`.
pub open spec fn seq_sum(s: Seq<u64>) -> nat
    decreases s.len(),
{
    if s.len() == 0 {
        0
    } else {
        seq_sum(s.drop_last()) + s.last() as nat
    }
}

/// Whether a walk produces a node, and so a record where records are asked for.
pub open spec fn counted(v: Visit) -> bool {
    v is Leaf || v is Container
}

/// The size in bytes that the walk of a node returns.
pub open spec fn visit_size(v: Visit) -> u64 {
    match v {
        Visit::Leaf { size, .. } => size,
        Visit::Container { sizes, .. } => sat_sum(sizes),
        _ => 0,
    }
}

/// The parts of a container's visit agree: one kid and one size per child,
/// each size the size of its kid.
pub open spec fn visit_wf(v: Visit) -> bool {
    v matches Visit::Container { children, kids, sizes, .. } ==> {
        &&& kids.len() == children.len()
        &&& sizes.len() == children.len()
        &&& forall|i: int| 0 <= i < kids.len() ==> sizes[i] == visit_size(#[trigger] kids[i])
    }
}

/// The name that a walk read, if it got that far.
pub open spec fn name_of(v: Visit) -> Seq<char> {
    match v {
        Visit::Unreadable { name, .. } => name,
        Visit::Leaf { name, .. } => name,
        Visit::Container { name, .. } => name,
        Visit::Skipped => Seq::empty(),
    }
}

/// Whether a walk found a container.
pub open spec fn is_dir_of(v: Visit) -> bool {
    match v {
        Visit::Unreadable { is_dir, .. } => is_dir,
        Visit::Container { .. } => true,
        _ => false,
    }
}

/// `v` is what a walk of `path`, at depth `depth`, finds in the tree of
/// `sys`, all the way down: the provider's answers decide every part of it.
pub open spec fn visit_agrees<FS: FileSystem>(sys: &FS, path: Seq<char>, depth: u32, v: Visit) -> bool
    decreases v, 1int,
{
    match v {
        Visit::Skipped => !sys.valid(path),
        Visit::Unreadable { name, is_dir } => {
            &&& sys.valid(path)
            &&& is_dir == sys.parent(path)
            &&& name == sys.name(path)
            &&& if is_dir {
                match sys.children(path) {
                    Some(c) => c.len() > u32::MAX || depth == u32::MAX,
                    None => true,
                }
            } else {
                sys.size(path) is None
            }
        },
        Visit::Leaf { name, size } => {
            &&& sys.valid(path)
            &&& !sys.parent(path)
            &&& name == sys.name(path)
            &&& sys.size(path) == Some(size)
        },
        Visit::Container { name, children, kids, sizes } => {
            &&& sys.valid(path)
            &&& sys.parent(path)
            &&& name == sys.name(path)
            &&& sys.children(path) == Some(children)
            &&& children.len() <= u32::MAX
            &&& depth < u32::MAX
            &&& kids.len() == children.len()
            &&& sizes.len() == children.len()
            &&& kids_agree(sys, children, (depth + 1) as u32, kids, sizes, 0)
        },
    }
}

/// The kids from `m` on are the walks of their children at depth `depth`,
/// and each size is the size of its kid.
pub open spec fn kids_agree<FS: FileSystem>(
    sys: &FS,
    children: Seq<Seq<char>>,
    depth: u32,
    kids: Seq<Visit>,
    sizes: Seq<u64>,
    m: int,
) -> bool
    decreases kids, 0int, kids.len() - m,
{
    if m < 0 || m >= kids.len() {
        true
    } else {
        &&& m < sizes.len()
        &&& m < children.len()
        &&& sizes[m] == visit_size(kids[m])
        &&& visit_agrees(sys, children[m], depth, kids[m])
        &&& kids_agree(sys, children, depth, kids, sizes, m + 1)
    }
}

/// Builds `kids_agree` from its parts.
proof fn lemma_kids_agree_intro<FS: FileSystem>(
    sys: &FS,
    children: Seq<Seq<char>>,
    depth: u32,
    kids: Seq<Visit>,
    sizes: Seq<u64>,
    m: int,
)
    requires
        0 <= m <= kids.len(),
        sizes.len() == kids.len(),
        children.len() == kids.len(),
        forall|i: int|
            0 <= i < kids.len() ==> sizes[i] == visit_size(#[trigger] kids[i]) && visit_agrees(
                sys,
                children[i],
                depth,
                kids[i],
            ),
    ensures
        kids_agree(sys, children, depth, kids, sizes, m),
    decreases kids.len() - m,
{
    if m < kids.len() {
        lemma_kids_agree_intro(sys, children, depth, kids, sizes, m + 1);
    }
}

/// The provider's answers fix what a walk finds: two visits that both agree
/// with the tree of `sys` at one path and depth are equal.
pub proof fn lemma_visit_unique<FS: FileSystem>(sys: &FS, path: Seq<char>, depth: u32, a: Visit, b: Visit)
    requires
        visit_agrees(sys, path, depth, a),
        visit_agrees(sys, path, depth, b),
    ensures
        a == b,
    decreases a, 1int,
{
    match (a, b) {
        (
            Visit::Container { name: na, children: ca, kids: ka, sizes: sa },
            Visit::Container { name: nb, children: cb, kids: kb, sizes: sb },
        ) => {
            lemma_kids_unique(sys, ca, (depth + 1) as u32, ka, sa, kb, sb, 0);
            assert(ka =~= kb);
            assert(sa =~= sb);
        },
        _ => {},
    }
}

/// Two runs of kids that agree with one tree are equal from `m` on.
proof fn lemma_kids_unique<FS: FileSystem>(
    sys: &FS,
    children: Seq<Seq<char>>,
    depth: u32,
    ka: Seq<Visit>,
    sa: Seq<u64>,
    kb: Seq<Visit>,
    sb: Seq<u64>,
    m: int,
)
    requires
        0 <= m <= ka.len(),
        ka.len() == kb.len(),
        kids_agree(sys, children, depth, ka, sa, m),
        kids_agree(sys, children, depth, kb, sb, m),
    ensures
        forall|i: int| m <= i < ka.len() ==> ka[i] == kb[i] && sa[i] == sb[i],
    decreases ka, 0int, ka.len() - m,
{
    if m < ka.len() {
        lemma_visit_unique(sys, children[m], depth, ka[m], kb[m]);
        lemma_kids_unique(sys, children, depth, ka, sa, kb, sb, m + 1);
    }
}

/// A record without its time: all that a walk fixes of it.
pub struct Shape {
    pub path: Seq<char>,
    pub name: Seq<char>,
    pub is_dir: bool,
    pub child_count: nat,
    pub has_children: bool,
    pub depth: u32,
    pub index: u32,
    pub total: u32,
    pub first: bool,
    pub last: bool,
    pub parents_last: Seq<bool>,
    pub size_mb: u64,
    pub size_b: u64,
}

/// The shape of a record.
pub open spec fn shape_of(r: FileStats) -> Shape {
    Shape {
        path: r.path@,
        name: r.name@,
        is_dir: r.is_dir,
        child_count: r.child_count as nat,
        has_children: r.has_children,
        depth: r.depth,
        index: r.index,
        total: r.total,
        first: r.first,
        last: r.last,
        parents_last: r.parents_last@,
        size_mb: r.size_mb,
        size_b: r.size_b,
    }
}

/// The shapes of a sequence of records.
pub open spec fn shapes_of(recs: Seq<FileStats>) -> Seq<Shape> {
    recs.map_values(|r: FileStats| shape_of(r))
}

/// The shape of the record of the node at `path`, with ancestor flags
/// `parents`, depth `depth` and index `index` of `total` siblings.
pub open spec fn node_shape(
    path: Seq<char>,
    parents: Seq<bool>,
    depth: u32,
    index: u32,
    total: u32,
    name: Seq<char>,
    is_dir: bool,
    child_count: nat,
    size: u64,
) -> Shape {
    Shape {
        path: path,
        name: name,
        is_dir: is_dir,
        child_count: child_count,
        has_children: child_count > 0,
        depth: depth,
        index: index,
        total: total,
        first: index == 0,
        last: index + 1 == total,
        parents_last: parents,
        size_mb: size / BYTES_PER_MB,
        size_b: size,
    }
}

/// `s` with its size set to `size`.
pub open spec fn with_size(s: Shape, size: u64) -> Shape {
    Shape { size_mb: size / BYTES_PER_MB, size_b: size, ..s }
}

/// The shape of the finished record of a node placed as in `node_shape`
/// whose walk found `v`.
pub open spec fn own_shape(
    path: Seq<char>,
    parents: Seq<bool>,
    depth: u32,
    index: u32,
    total: u32,
    v: Visit,
) -> Shape {
    let child_count = match v {
        Visit::Container { children, .. } => children.len(),
        _ => 0nat,
    };
    node_shape(path, parents, depth, index, total, name_of(v), is_dir_of(v), child_count, visit_size(v))
}

/// The shape of the record handed to the `start` hook: nothing counted yet.
pub open spec fn start_shape(
    path: Seq<char>,
    parents: Seq<bool>,
    depth: u32,
    index: u32,
    total: u32,
    v: Visit,
) -> Shape {
    node_shape(path, parents, depth, index, total, name_of(v), is_dir_of(v), 0, 0)
}

/// The shape of the record handed to the `prog` hook after child `i` of the
/// container `v`, walking the children one after the other: the running
/// total of the first `i + 1` sizes.
pub open spec fn progress_shape(
    path: Seq<char>,
    parents: Seq<bool>,
    depth: u32,
    index: u32,
    total: u32,
    v: Visit,
    i: int,
) -> Shape {
    match v {
        Visit::Container { name, children, sizes, .. } => node_shape(
            path,
            parents,
            depth,
            index,
            total,
            name,
            true,
            children.len(),
            sat_sum(sizes.subrange(0, i + 1)),
        ),
        _ => start_shape(path, parents, depth, index, total, v),
    }
}

/// `rec` is the finished record of the node at `path`, in place `ctx`,
/// whose walk found `v`; only its time is left open.
pub open spec fn describes(rec: FileStats, path: Seq<char>, ctx: FileContext, v: Visit) -> bool {
    shape_of(rec) == own_shape(path, ctx.parents_last@, ctx.depth, ctx.index, ctx.total, v)
}

/// The shapes of the records that the walk of `path` (placed as in
/// `node_shape`) produces when it finds `v`: those of its children's
/// subtrees in child order, then its own. `output` says whether the node
/// makes a record, `all` whether its descendants do.
pub open spec fn subtree_shapes(
    path: Seq<char>,
    parents: Seq<bool>,
    depth: u32,
    index: u32,
    total: u32,
    v: Visit,
    output: bool,
    all: bool,
) -> Seq<Shape>
    decreases v, 1int,
{
    let own = if output && counted(v) {
        seq![own_shape(path, parents, depth, index, total, v)]
    } else {
        Seq::empty()
    };
    match v {
        Visit::Container { children, kids, .. } => kid_shapes(
            children,
            kids,
            parents.push(index + 1 == total),
            (depth + 1) as u32,
            kids.len() as u32,
            all,
            0,
        ) + own,
        _ => own,
    }
}

/// The shapes of the records of the subtrees of the children from `m` on,
/// in child order.
pub open spec fn kid_shapes(
    children: Seq<Seq<char>>,
    kids: Seq<Visit>,
    parents: Seq<bool>,
    depth: u32,
    count: u32,
    all: bool,
    m: int,
) -> Seq<Shape>
    decreases kids, 0int, kids.len() - m,
{
    if m < 0 || m >= kids.len() {
        Seq::empty()
    } else {
        subtree_shapes(children[m], parents, depth, m as u32, count, kids[m], all, all)
            + kid_shapes(children, kids, parents, depth, count, all, m + 1)
    }
}

/// `e` where `on`, else nothing.
pub open spec fn event_if(on: bool, e: Event) -> Seq<Event> {
    if on {
        seq![e]
    } else {
        Seq::empty()
    }
}

/// The lifecycle points, in order, of a walk of `path` (placed as in `node_shape`)
/// that found `v`, when children are walked one after the other: depth
/// first, left to right. `output` says whether the node's own hooks are
/// called, `all` whether its descendants' are.
pub open spec fn hook_events(
    path: Seq<char>,
    parents: Seq<bool>,
    depth: u32,
    index: u32,
    total: u32,
    v: Visit,
    output: bool,
    all: bool,
) -> Seq<Event>
    decreases v, 1int,
{
    let start = event_if(
        output,
        Event::Node {
            point: Point::Start,
            shape: start_shape(path, parents, depth, index, total, v),
        },
    );
    let end = event_if(
        output,
        Event::Node { point: Point::End, shape: own_shape(path, parents, depth, index, total, v) },
    );
    match v {
        Visit::Skipped => Seq::empty(),
        Visit::Unreadable { .. } => start,
        Visit::Leaf { .. } => start + end,
        Visit::Container { kids, .. } => start + kid_events(
            path,
            parents,
            depth,
            index,
            total,
            v,
            kids,
            output,
            all,
            kids.len() as int,
        ) + end,
    }
}

/// The lifecycle points of the walks of the first `n` children of the container
/// `v` at `path`, each followed by the container's progress call.
pub open spec fn kid_events(
    path: Seq<char>,
    parents: Seq<bool>,
    depth: u32,
    index: u32,
    total: u32,
    v: Visit,
    kids: Seq<Visit>,
    output: bool,
    all: bool,
    n: int,
) -> Seq<Event>
    decreases kids, 0int, n,
{
    if n <= 0 || n > kids.len() {
        Seq::empty()
    } else {
        let children = match v {
            Visit::Container { children, .. } => children,
            _ => Seq::empty(),
        };
        kid_events(path, parents, depth, index, total, v, kids, output, all, n - 1) + hook_events(
            children[n - 1],
            parents.push(index + 1 == total),
            (depth + 1) as u32,
            (n - 1) as u32,
            kids.len() as u32,
            kids[n - 1],
            all,
            all,
        ) + event_if(
            output,
            Event::Node {
                point: Point::Progress,
                shape: progress_shape(path, parents, depth, index, total, v, n - 1),
            },
        )
    }
}

/// What a walk of `path` in place `ctx` returns: its size, the records of
/// its subtree (its own last, where it has one), and what it found.
/// `output` says whether the node itself makes a record, `all` whether its
/// descendants do.
pub open spec fn walked(
    path: Seq<char>,
    ctx: FileContext,
    output: bool,
    all: bool,
    size: u64,
    recs: Seq<FileStats>,
    v: Visit,
) -> bool {
    &&& size == visit_size(v)
    &&& visit_wf(v)
    &&& (!counted(v) ==> recs.len() == 0)
    &&& (output && counted(v) ==> recs.len() > 0 && describes(recs.last(), path, ctx, v))
    &&& forall|k: int|
        0 <= k < recs.len() ==> stats_wf(#[trigger] recs[k]) && (recs[k].depth > ctx.depth || (
        output && counted(v) && k == recs.len() - 1))
    &&& (!all ==> recs.len() == (if output && counted(v) {
        1int
    } else {
        0int
    }))
}

/// The concatenation of `s[m]`, `s[m + 1]`, ...
pub open spec fn concat_from(s: Seq<Seq<Shape>>, m: int) -> Seq<Shape>
    decreases s.len() - m,
{
    if m < 0 || m >= s.len() {
        Seq::empty()
    } else {
        s[m] + concat_from(s, m + 1)
    }
}

/// A copy of a list of flags.
fn copy_flags(v: &Vec<bool>) -> (r: Vec<bool>)
    ensures
        r@ == v@,
{
    let mut r: Vec<bool> = Vec::new();
    let mut i: usize = 0;
    while i < v.len()
        invariant
            i <= v@.len(),
            r@ == v@.subrange(0, i as int),
        decreases v@.len() - i,
    {
        r.push(v[i]);
        i = i + 1;
        assert(r@ =~= v@.subrange(0, i as int));
    }
    assert(v@.subrange(0, i as int) =~= v@);
    r
}

/// Stamps a record with its final size and the whole seconds since `start`.
fn update_stats(stats: &mut FileStats, start: &Instant, size: u64)
    ensures
        *final(stats) == (FileStats {
            time_s: final(stats).time_s,
            size_mb: size / BYTES_PER_MB,
            size_b: size,
            ..*old(stats)
        }),
{
    let duration = start.elapsed();
    stats.time_s = duration.as_secs();
    stats.size_mb = size / BYTES_PER_MB;
    stats.size_b = size;
}

/// A copy of a record.
fn copy_stats(s: &FileStats) -> (r: FileStats)
    ensures
        shape_of(r) == shape_of(*s),
        r.time_s == s.time_s,
{
    FileStats {
        path: s.path.clone(),
        name: s.name.clone(),
        is_dir: s.is_dir,
        child_count: s.child_count,
        has_children: s.has_children,
        depth: s.depth,
        index: s.index,
        total: s.total,
        first: s.first,
        last: s.last,
        parents_last: copy_flags(&s.parents_last),
        time_s: s.time_s,
        size_mb: s.size_mb,
        size_b: s.size_b,
    }
}

/// A copy of a list of records.
fn copy_records(v: &Vec<FileStats>) -> (r: Vec<FileStats>)
    ensures
        shapes_of(r@) == shapes_of(v@),
{
    let mut r: Vec<FileStats> = Vec::new();
    let mut i: usize = 0;
    while i < v.len()
        invariant
            i <= v@.len(),
            shapes_of(r@) == shapes_of(v@.subrange(0, i as int)),
        decreases v@.len() - i,
    {
        let ghost before = r@;
        r.push(copy_stats(&v[i]));
        i = i + 1;
        assert(shapes_of(r@) =~= shapes_of(before).push(shape_of(v@[i - 1])));
        assert(shapes_of(v@.subrange(0, i as int)) =~= shapes_of(v@.subrange(0, i - 1)).push(
            shape_of(v@[i - 1]),
        ));
    }
    assert(v@.subrange(0, i as int) =~= v@);
    r
}

/// The hook set for `point`, if any.
pub open spec fn hook_at<H, P>(handlers: &Handlers<H, P>, point: Point) -> Option<H> {
    match point {
        Point::Start => handlers.start,
        Point::Progress => handlers.prog,
        Point::End => handlers.end,
    }
}

/// Where the hook of a logged point is set, it was called with a record of
/// the logged shape (at the start, one whose time is still zero) and
/// returned; where `post` is set, it was called with a list of the logged
/// shapes and returned.
pub open spec fn called<T, H: Fn(FileStats, &T), P: Fn(Vec<FileStats>, &T)>(
    handlers: &Handlers<H, P>,
    data: &T,
    e: Event,
) -> bool {
    match e {
        Event::Node { point, shape } => match hook_at(handlers, point) {
            Some(h) => exists|s: FileStats|
                #[trigger] h.ensures((s, data), ()) && shape_of(s) == shape && (point is Start
                    ==> s.time_s == 0),
            None => true,
        },
        Event::Post { shapes } => match handlers.post {
            Some(h) => exists|l: Vec<FileStats>|
                #[trigger] h.ensures((l, data), ()) && shapes_of(l@) == shapes,
            None => true,
        },
    }
}

/// Every point of `log` was met by its hook call, as `called` says.
pub open spec fn hooks_called<T, H: Fn(FileStats, &T), P: Fn(Vec<FileStats>, &T)>(
    handlers: &Handlers<H, P>,
    data: &T,
    log: Seq<Event>,
) -> bool {
    forall|i: int| 0 <= i < log.len() ==> called(handlers, data, #[trigger] log[i])
}

/// Joining two logs whose points were met keeps them met.
proof fn lemma_hooks_called_add<T, H: Fn(FileStats, &T), P: Fn(Vec<FileStats>, &T)>(
    handlers: &Handlers<H, P>,
    data: &T,
    a: Seq<Event>,
    b: Seq<Event>,
)
    requires
        hooks_called(handlers, data, a),
        hooks_called(handlers, data, b),
    ensures
        hooks_called(handlers, data, a + b),
{
    assert forall|i: int| 0 <= i < (a + b).len() implies called(
        handlers,
        data,
        #[trigger] (a + b)[i],
    ) by {
        if i < a.len() {
            assert((a + b)[i] == a[i]);
        } else {
            assert((a + b)[i] == b[i - a.len()]);
        }
    }
}

/// Adding a met point to a log whose points were met keeps them met.
proof fn lemma_hooks_called_push<T, H: Fn(FileStats, &T), P: Fn(Vec<FileStats>, &T)>(
    handlers: &Handlers<H, P>,
    data: &T,
    a: Seq<Event>,
    e: Event,
)
    requires
        hooks_called(handlers, data, a),
        called(handlers, data, e),
    ensures
        hooks_called(handlers, data, a.push(e)),
{
    assert(hooks_called(handlers, data, seq![e]));
    assert(a.push(e) =~= a + seq![e]);
    lemma_hooks_called_add(handlers, data, a, seq![e]);
}

/// One after the other, each child's walk keeps the log's points met, so
/// the log after `n` children has its points met.
proof fn lemma_hooks_called_chain<T, H: Fn(FileStats, &T), P: Fn(Vec<FileStats>, &T)>(
    handlers: &Handlers<H, P>,
    data: &T,
    first: Carry,
    fresh: Carry,
    res: Seq<ChildResult>,
    n: int,
)
    requires
        0 <= n <= res.len(),
        hooks_called(handlers, data, first.1@),
        forall|i: int|
            0 <= i < res.len() ==> (hooks_called(
                handlers,
                data,
                fed(false, first, fresh, res, i).1@,
            ) ==> hooks_called(handlers, data, (#[trigger] res[i]).1.1@)),
    ensures
        hooks_called(handlers, data, fed(false, first, fresh, res, n).1@),
    decreases n,
{
    if n > 0 {
        lemma_hooks_called_chain(handlers, data, first, fresh, res, n - 1);
        assert(hooks_called(handlers, data, res[n - 1].1.1@));
    }
}

/// Calls the hook of `point`, if it is set, with `stats`, and logs the point.
fn fire<T, H: Fn(FileStats, &T), P: Fn(Vec<FileStats>, &T)>(
    handlers: &Handlers<H, P>,
    point: Point,
    stats: FileStats,
    data: &T,
    log: Ghost<Seq<Event>>,
) -> (r: Ghost<Seq<Event>>)
    requires
        hook_accepts(handlers.start, data),
        hook_accepts(handlers.prog, data),
        hook_accepts(handlers.end, data),
        point is Start ==> stats.time_s == 0,
    ensures
        r@ == log@.push(Event::Node { point: point, shape: shape_of(stats) }),
        called(handlers, data, Event::Node { point: point, shape: shape_of(stats) }),
{
    let ghost shape = shape_of(stats);
    let ghost sv = stats;
    let hook = match point {
        Point::Start => &handlers.start,
        Point::Progress => &handlers.prog,
        Point::End => &handlers.end,
    };
    match hook {
        Some(h) => {
            h(stats, data);
            assert(hook_at(handlers, point) == Some(*h));
            assert(h.ensures((sv, data), ()));
        },
        None => {},
    }
    Ghost(log@.push(Event::Node { point: point, shape: shape }))
}

/// Calls the `post` hook, if it is set, with `list`, and logs the call.
fn fire_post<T, H: Fn(FileStats, &T), P: Fn(Vec<FileStats>, &T)>(
    handlers: &Handlers<H, P>,
    list: Vec<FileStats>,
    data: &T,
    log: Ghost<Seq<Event>>,
) -> (r: Ghost<Seq<Event>>)
    requires
        post_accepts(handlers.post, data),
    ensures
        r@ == log@.push(Event::Post { shapes: shapes_of(list@) }),
        called(handlers, data, Event::Post { shapes: shapes_of(list@) }),
{
    let ghost shapes = shapes_of(list@);
    let ghost lv = list;
    match &handlers.post {
        Some(h) => {
            h(list, data);
            assert(h.ensures((lv, data), ()));
        },
        None => {},
    }
    Ghost(log@.push(Event::Post { shapes: shapes }))
}

/// The running total of sizes and the hook log that one child's walk
/// hands to the next.
pub type Carry = (u64, Ghost<Seq<Event>>);

/// What the walk of one child hands back to its parent: its size, records
/// and visit, and the carry it ended with.
pub type ChildResult = ((u64, Vec<FileStats>, Ghost<Visit>), Carry);

/// The records of a child's walk are well formed and lie below `depth`, and
/// there are none where descendants make no records.
pub open spec fn child_ok(o: ChildResult, depth: u32, all: bool) -> bool {
    &&& forall|q: int|
        0 <= q < o.0.1@.len() ==> stats_wf(#[trigger] o.0.1@[q]) && o.0.1@[q].depth > depth
    &&& (!all ==> o.0.1@.len() == 0)
}

/// What a parent at `depth` needs of the walk of a child: its records as
/// above, and its size and visit in agreement.
pub open spec fn child_walked(o: ChildResult, depth: u32, all: bool) -> bool {
    &&& child_ok(o, depth, all)
    &&& o.0.0 == visit_size(o.0.2@)
}

/// The sizes of the children's walks.
pub open spec fn child_sizes(res: Seq<ChildResult>) -> Seq<u64> {
    res.map_values(|o: ChildResult| o.0.0)
}

/// Adds up the sizes of the children's walks, with saturation, and joins
/// their records in child order.
fn gather(
    results: Vec<ChildResult>,
    depth: u32,
    all: bool,
    shapes: Ghost<Seq<Seq<Shape>>>,
) -> (r: (u64, Vec<FileStats>))
    requires
        forall|i: int| 0 <= i < results@.len() ==> child_ok(#[trigger] results@[i], depth, all),
        shapes@.len() == results@.len(),
        forall|i: int| 0 <= i < results@.len() ==> shapes_of((#[trigger] results@[i]).0.1@) == shapes@[i],
    ensures
        r.0 == sat_sum(child_sizes(results@)),
        shapes_of(r.1@) == concat_from(shapes@, 0),
        forall|q: int| 0 <= q < r.1@.len() ==> stats_wf(#[trigger] r.1@[q]) && r.1@[q].depth > depth,
        !all ==> r.1@.len() == 0,
{
    let ghost res_v = results@;
    let ghost sizes = child_sizes(res_v);
    let n = results.len();
    let mut sum: u64 = 0;
    let mut k: usize = 0;
    while k < n
        invariant
            k <= n,
            n == res_v.len(),
            results@ == res_v,
            sizes == child_sizes(res_v),
            sum == sat_sum(sizes.subrange(0, k as int)),
        decreases n - k,
    {
        assert(sizes.subrange(0, k + 1).drop_last() =~= sizes.subrange(0, k as int));
        sum = sum.saturating_add(results[k].0.0);
        k = k + 1;
    }
    assert(sizes.subrange(0, n as int) =~= sizes);
    let mut results = results;
    let mut recs: Vec<FileStats> = Vec::new();
    let mut m: usize = n;
    assert(shapes_of(recs@) =~= concat_from(shapes@, n as int));
    while m > 0
        invariant
            m <= n,
            n == res_v.len(),
            results@ == res_v.subrange(0, m as int),
            forall|i: int| 0 <= i < res_v.len() ==> child_ok(#[trigger] res_v[i], depth, all),
            forall|q: int|
                0 <= q < recs@.len() ==> stats_wf(#[trigger] recs@[q]) && recs@[q].depth > depth,
            !all ==> recs@.len() == 0,
            shapes@.len() == n,
            forall|i: int| 0 <= i < n ==> shapes_of((#[trigger] res_v[i]).0.1@) == shapes@[i],
            shapes_of(recs@) == concat_from(shapes@, m as int),
        decreases m,
    {
        let o = results.pop().unwrap();
        m = m - 1;
        assert(o == res_v[m as int]);
        assert(results@ =~= res_v.subrange(0, m as int));
        let ghost prev = recs@;
        let ghost orecs = o.0.1@;
        let mut child_recs = o.0.1;
        child_recs.append(&mut recs);
        recs = child_recs;
        assert(recs@ == orecs + prev);
        assert(shapes_of(orecs + prev) =~= shapes_of(orecs) + shapes_of(prev));
        assert forall|q: int| 0 <= q < recs@.len() implies stats_wf(#[trigger] recs@[q])
            && recs@[q].depth > depth by {
            if q < orecs.len() {
                assert(recs@[q] == orecs[q]);
            } else {
                assert(recs@[q] == prev[q - orecs.len()]);
            }
        }
    }
    (sum, recs)
}

/// Joining the shapes of the children's subtrees from `m` on gives
/// `kid_shapes` from `m` on.
proof fn lemma_kid_shapes_concat(
    children: Seq<Seq<char>>,
    kids: Seq<Visit>,
    parents: Seq<bool>,
    depth: u32,
    count: u32,
    all: bool,
    shapes: Seq<Seq<Shape>>,
    m: int,
)
    requires
        0 <= m <= kids.len(),
        shapes.len() == kids.len(),
        forall|i: int|
            0 <= i < kids.len() ==> #[trigger] shapes[i] == subtree_shapes(
                children[i],
                parents,
                depth,
                i as u32,
                count,
                kids[i],
                all,
                all,
            ),
    ensures
        concat_from(shapes, m) == kid_shapes(children, kids, parents, depth, count, all, m),
    decreases kids.len() - m,
{
    if m < kids.len() {
        lemma_kid_shapes_concat(children, kids, parents, depth, count, all, shapes, m + 1);
        assert(shapes[m] == subtree_shapes(children[m], parents, depth, m as u32, count, kids[m], all, all));
    }
}

/// One after the other, each child's walk adds its size to the running
/// total and extends the log of the walk before by its own lifecycle points and
/// its parent's progress call, so after `n` children the carry holds the
/// total of the first `n` sizes and the lifecycle points of the first `n` children.
#[verifier::rlimit(40)]
proof fn lemma_kid_events_chain(
    path: Seq<char>,
    parents: Seq<bool>,
    depth: u32,
    index: u32,
    total: u32,
    name: Seq<char>,
    children: Seq<Seq<char>>,
    kids: Seq<Visit>,
    sizes: Seq<u64>,
    output: bool,
    all: bool,
    first: Carry,
    fresh: Carry,
    res: Seq<ChildResult>,
    n: int,
)
    requires
        0 <= n <= res.len(),
        res.len() == kids.len(),
        children.len() == kids.len(),
        sizes.len() == kids.len(),
        first.0 == 0,
        forall|i: int| 0 <= i < res.len() ==> sizes[i] == (#[trigger] res[i]).0.0,
        forall|i: int|
            0 <= i < res.len() ==> (#[trigger] res[i]).1.0 == sat_add(
                fed(false, first, fresh, res, i).0,
                res[i].0.0,
            ) && res[i].1.1@ == fed(false, first, fresh, res, i).1@ + hook_events(
                children[i],
                parents.push(index + 1 == total),
                (depth + 1) as u32,
                i as u32,
                kids.len() as u32,
                kids[i],
                all,
                all,
            ) + event_if(
                output,
                Event::Node {
                    point: Point::Progress,
                    shape: node_shape(
                        path,
                        parents,
                        depth,
                        index,
                        total,
                        name,
                        true,
                        children.len(),
                        res[i].1.0,
                    ),
                },
            ),
    ensures
        fed(false, first, fresh, res, n).0 == sat_sum(sizes.subrange(0, n)),
        fed(false, first, fresh, res, n).1@ == first.1@ + kid_events(
            path,
            parents,
            depth,
            index,
            total,
            Visit::Container { name, children, kids, sizes },
            kids,
            output,
            all,
            n,
        ),
    decreases n,
{
    let v = Visit::Container { name, children, kids, sizes };
    if n == 0 {
        assert(sizes.subrange(0, 0) =~= Seq::<u64>::empty());
        assert(first.1@ + kid_events(path, parents, depth, index, total, v, kids, output, all, 0)
            =~= first.1@);
    } else {
        lemma_kid_events_chain(
            path,
            parents,
            depth,
            index,
            total,
            name,
            children,
            kids,
            sizes,
            output,
            all,
            first,
            fresh,
            res,
            n - 1,
        );
        assert(sizes.subrange(0, n).drop_last() =~= sizes.subrange(0, n - 1));
        let r = res[n - 1];
        let before = fed(false, first, fresh, res, n - 1);
        let hb = hook_events(
            children[n - 1],
            parents.push(index + 1 == total),
            (depth + 1) as u32,
            (n - 1) as u32,
            kids.len() as u32,
            kids[n - 1],
            all,
            all,
        );
        let pe = event_if(
            output,
            Event::Node {
                point: Point::Progress,
                shape: progress_shape(path, parents, depth, index, total, v, n - 1),
            },
        );
        let prev = kid_events(path, parents, depth, index, total, v, kids, output, all, n - 1);
        assert(r.1.1@ == before.1@ + hb + pe);
        assert(kid_events(path, parents, depth, index, total, v, kids, output, all, n) == prev + hb
            + pe);
        assert(first.1@ + (prev + hb + pe) =~= first.1@ + prev + hb + pe);
    }
}

/// Adds `size` to the running total `current` of a container whose record
/// so far is `stats` and, where the container calls hooks, hands the `prog`
/// hook a copy of `stats` carrying the new total.
fn report_progress<T, H: Fn(FileStats, &T), P: Fn(Vec<FileStats>, &T)>(
    handlers: &Handlers<H, P>,
    data: &T,
    stats: &FileStats,
    start: &Instant,
    output: bool,
    current: u64,
    size: u64,
    log: Ghost<Seq<Event>>,
) -> (r: (u64, Ghost<Seq<Event>>))
    requires
        hook_accepts(handlers.start, data),
        hook_accepts(handlers.prog, data),
        hook_accepts(handlers.end, data),
    ensures
        r.0 == sat_add(current, size),
        r.1@ == log@ + event_if(
            output,
            Event::Node { point: Point::Progress, shape: with_size(shape_of(*stats), r.0) },
        ),
        hooks_called(handlers, data, log@) ==> hooks_called(handlers, data, r.1@),
{
    let running = current.saturating_add(size);
    if output {
        let mut snapshot = copy_stats(stats);
        update_stats(&mut snapshot, start, running);
        assert(shape_of(snapshot) == with_size(shape_of(*stats), running));
        let ghost e = Event::Node { point: Point::Progress, shape: shape_of(snapshot) };
        let l = fire(handlers, Point::Progress, snapshot, data, log);
        proof {
            if hooks_called(handlers, data, log@) {
                lemma_hooks_called_push(handlers, data, log@, e);
            }
        }
        assert(l@ =~= log@ + event_if(
            output,
            Event::Node { point: Point::Progress, shape: with_size(shape_of(*stats), running) },
        ));
        (running, l)
    } else {
        assert(log@ =~= log@ + Seq::<Event>::empty());
        (running, log)
    }
}

/// Walks child `i` of a container at depth `depth` whose record so far is
/// `stats`, then adds the child's size to the running total and, where the
/// container calls hooks, hands the `prog` hook a copy of `stats` carrying
/// that total. In parallel the total is shared between the children;
/// one after the other it is the one in `carry`.
fn visit_child<
    FS: FileSystem,
    T: Sync,
    H: Fn(FileStats, &T) + Sync + Send,
    P: Fn(Vec<FileStats>, &T) + Sync + Send,
>(
    files: &Vec<String>,
    i: usize,
    opts: &Options,
    handlers: &Handlers<H, P>,
    data: &T,
    system: &FS,
    output: bool,
    parents_last: &Vec<bool>,
    depth: u32,
    total: &Mutex<u64>,
    stats: &FileStats,
    start: &Instant,
    carry: Carry,
) -> (o: ChildResult)
    requires
        handlers.accept(data),
        i < files@.len() <= u32::MAX,
        depth < u32::MAX,
        parents_last@.len() == depth + 1,
    ensures
        child_walked(o, depth, opts.output == OutputOption::All),
        visit_agrees(system, files@[i as int]@, (depth + 1) as u32, o.0.2@),
        shapes_of(o.0.1@) == subtree_shapes(
            files@[i as int]@,
            parents_last@,
            (depth + 1) as u32,
            i as u32,
            files@.len() as u32,
            o.0.2@,
            opts.output == OutputOption::All,
            opts.output == OutputOption::All,
        ),
        !opts.multithread ==> o.1.0 == sat_add(carry.0, o.0.0) && o.1.1@ == carry.1@ + hook_events(
            files@[i as int]@,
            parents_last@,
            (depth + 1) as u32,
            i as u32,
            files@.len() as u32,
            o.0.2@,
            opts.output == OutputOption::All,
            opts.output == OutputOption::All,
        ) + event_if(
            output,
            Event::Node { point: Point::Progress, shape: with_size(shape_of(*stats), o.1.0) },
        ),
        !opts.multithread && hooks_called(handlers, data, carry.1@) ==> hooks_called(
            handlers,
            data,
            o.1.1@,
        ),
    decreases u32::MAX - depth, 0int,
{
    let recurse = opts.output == OutputOption::All;
    let context = FileContext {
        parents_last: parents_last,
        depth: depth + 1,
        index: i as u32,
        total: files.len() as u32,
    };
    let (size, recs, visit, child_log) = check_path(
        files[i].as_str(),
        opts,
        handlers,
        data,
        system,
        recurse,
        context,
        carry.1,
    );
    proof {
        assert forall|q: int| 0 <= q < recs@.len() implies stats_wf(#[trigger] recs@[q])
            && recs@[q].depth > depth by {
            if q == recs@.len() - 1 {
                assert(recs@.last() == recs@[q]);
            }
        }
    }
    let running: u64;
    let log: Ghost<Seq<Event>>;
    if opts.multithread {
        // add, read and report as one critical section, so that the totals
        // the `prog` hook sees for this container never go down
        let step = |current: u64| -> (new: u64)
            requires
                hook_accepts(handlers.start, data),
                hook_accepts(handlers.prog, data),
                hook_accepts(handlers.end, data),
            ensures
                new == sat_add(current, size),
                new >= current,
            { report_progress(handlers, data, stats, start, output, current, size, child_log).0 };
        running = update_locked(total, step);
        log = child_log;
    } else {
        let (r, l) = report_progress(handlers, data, stats, start, output, carry.0, size, child_log);
        running = r;
        log = l;
    }
    ((size, recs, visit), (running, log))
}

/// Walks the children `files` of the container at `path`, in place
/// `context`, whose record so far is `stats`: returns the sum of their
/// sizes, the records of their subtrees, what their walks found with their
/// sizes, and `started` extended by the lifecycle points reached.
fn check_children<
    FS: FileSystem,
    T: Sync,
    H: Fn(FileStats, &T) + Sync + Send,
    P: Fn(Vec<FileStats>, &T) + Sync + Send,
>(
    path: &str,
    files: &Vec<String>,
    opts: &Options,
    handlers: &Handlers<H, P>,
    data: &T,
    system: &FS,
    output: bool,
    context: &FileContext,
    stats: &FileStats,
    start: &Instant,
    started: Ghost<Seq<Event>>,
) -> (r: (u64, Vec<FileStats>, Ghost<(Seq<Visit>, Seq<u64>)>, Ghost<Seq<Event>>))
    requires
        handlers.accept(data),
        context.wf(),
        context.depth < u32::MAX,
        files@.len() <= u32::MAX,
        shape_of(*stats) == node_shape(
            path@,
            context.parents_last@,
            context.depth,
            context.index,
            context.total,
            stats.name@,
            true,
            files@.len() as nat,
            0,
        ),
    ensures
        ({
            let all = opts.output == OutputOption::All;
            let children = files@.map_values(|f: String| f@);
            let (kids, sizes) = r.2@;
            &&& kids.len() == files@.len()
            &&& sizes.len() == files@.len()
            &&& forall|i: int| 0 <= i < kids.len() ==> sizes[i] == visit_size(#[trigger] kids[i])
            &&& kids_agree(system, children, (context.depth + 1) as u32, kids, sizes, 0)
            &&& r.0 == sat_sum(sizes)
            &&& forall|q: int|
                0 <= q < r.1@.len() ==> stats_wf(#[trigger] r.1@[q]) && r.1@[q].depth
                    > context.depth
            &&& (!all ==> r.1@.len() == 0)
            &&& shapes_of(r.1@) == kid_shapes(
                children,
                kids,
                context.parents_last@.push(context.index + 1 == context.total),
                (context.depth + 1) as u32,
                files@.len() as u32,
                all,
                0,
            )
            &&& (!opts.multithread ==> r.3@ == started@ + kid_events(
                path@,
                context.parents_last@,
                context.depth,
                context.index,
                context.total,
                Visit::Container { name: stats.name@, children, kids, sizes },
                kids,
                output,
                all,
                files@.len() as int,
            ))
        }),
        !opts.multithread && hooks_called(handlers, data, started@) ==> hooks_called(
            handlers,
            data,
            r.3@,
        ),
    decreases u32::MAX - context.depth, 1int,
{
    let ghost all = opts.output == OutputOption::All;
    let n = files.len();
    let recurse = opts.output == OutputOption::All;
    let mut child_parents_last = copy_flags(context.parents_last);
    child_parents_last.push(context.index == context.total - 1);
    let total = Mutex::new(0u64);
    let walk_child = |i: usize, carry: Carry| -> (o: ChildResult)
        requires
            i < n,
        ensures
            child_walked(o, context.depth, recurse),
            visit_agrees(system, files@[i as int]@, (context.depth + 1) as u32, o.0.2@),
            shapes_of(o.0.1@) == subtree_shapes(
                files@[i as int]@,
                child_parents_last@,
                (context.depth + 1) as u32,
                i as u32,
                n as u32,
                o.0.2@,
                recurse,
                recurse,
            ),
            !opts.multithread ==> o.1.0 == sat_add(carry.0, o.0.0) && o.1.1@ == carry.1@
                + hook_events(
                files@[i as int]@,
                child_parents_last@,
                (context.depth + 1) as u32,
                i as u32,
                n as u32,
                o.0.2@,
                recurse,
                recurse,
            ) + event_if(
                output,
                Event::Node { point: Point::Progress, shape: with_size(shape_of(*stats), o.1.0) },
            ),
            !opts.multithread && hooks_called(handlers, data, carry.1@) ==> hooks_called(
                handlers,
                data,
                o.1.1@,
            ),
        {
            visit_child(
                files,
                i,
                opts,
                handlers,
                data,
                system,
                output,
                &child_parents_last,
                context.depth,
                &total,
                stats,
                start,
                carry,
            )
        };
    let first: Carry = (0, started);
    let fresh: Carry = (0, Ghost(Seq::empty()));
    let results = fan_out(n, opts.multithread, walk_child, first, fresh);
    let ghost res_v = results@;
    let ghost kids = res_v.map_values(|o: ChildResult| o.0.2@);
    let ghost sizes = child_sizes(res_v);
    let ghost children = files@.map_values(|f: String| f@);
    let ghost name = stats.name@;
    proof {
        assert forall|i: int| 0 <= i < n implies {
            &&& child_walked(#[trigger] res_v[i], context.depth, recurse)
            &&& kids[i] == res_v[i].0.2@
            &&& sizes[i] == res_v[i].0.0
            &&& visit_agrees(system, children[i], (context.depth + 1) as u32, kids[i])
            &&& (!opts.multithread ==> res_v[i].1.0 == sat_add(
                fed(false, first, fresh, res_v, i).0,
                res_v[i].0.0,
            ) && res_v[i].1.1@ == fed(false, first, fresh, res_v, i).1@ + hook_events(
                children[i],
                context.parents_last@.push(context.index + 1 == context.total),
                (context.depth + 1) as u32,
                i as u32,
                kids.len() as u32,
                kids[i],
                all,
                all,
            ) + event_if(
                output,
                Event::Node {
                    point: Point::Progress,
                    shape: node_shape(
                        path@,
                        context.parents_last@,
                        context.depth,
                        context.index,
                        context.total,
                        name,
                        true,
                        children.len(),
                        res_v[i].1.0,
                    ),
                },
            ))
        } by {
            assert(walk_child.ensures(
                (i as usize, fed(opts.multithread, first, fresh, res_v, i)),
                res_v[i],
            ));
        }
        assert(child_parents_last@ =~= context.parents_last@.push(context.index + 1 == context.total));
        lemma_kids_agree_intro(system, children, (context.depth + 1) as u32, kids, sizes, 0);
        if !opts.multithread && hooks_called(handlers, data, started@) {
            assert forall|i: int|
                0 <= i < res_v.len() && hooks_called(
                    handlers,
                    data,
                    fed(false, first, fresh, res_v, i).1@,
                ) implies hooks_called(handlers, data, (#[trigger] res_v[i]).1.1@) by {
                assert(walk_child.ensures(
                    (i as usize, fed(opts.multithread, first, fresh, res_v, i)),
                    res_v[i],
                ));
            }
            lemma_hooks_called_chain(handlers, data, first, fresh, res_v, n as int);
        }
        if !opts.multithread {
            lemma_kid_events_chain(
                path@,
                context.parents_last@,
                context.depth,
                context.index,
                context.total,
                name,
                children,
                kids,
                sizes,
                output,
                all,
                first,
                fresh,
                res_v,
                n as int,
            );
        }
    }
    let ghost shapes = Seq::new(n as nat, |i: int| shapes_of(res_v[i].0.1@));
    proof {
        assert forall|i: int| 0 <= i < n implies #[trigger] shapes[i] == subtree_shapes(
            children[i],
            child_parents_last@,
            (context.depth + 1) as u32,
            i as u32,
            n as u32,
            kids[i],
            all,
            all,
        ) by {
            assert(walk_child.ensures(
                (i as usize, fed(opts.multithread, first, fresh, res_v, i)),
                res_v[i],
            ));
        }
        lemma_kid_shapes_concat(
            children,
            kids,
            child_parents_last@,
            (context.depth + 1) as u32,
            n as u32,
            all,
            shapes,
            0,
        );
    }
    let (sum, gathered) = gather(results, context.depth, recurse, Ghost(shapes));
    proof {
        if n == 0 {
            assert(kid_events(
                path@,
                context.parents_last@,
                context.depth,
                context.index,
                context.total,
                Visit::Container { name, children, kids, sizes },
                kids,
                output,
                all,
                0,
            ) =~= Seq::<Event>::empty());
        }
    }
    (sum, gathered, Ghost((kids, sizes)), Ghost(fed(false, first, fresh, res_v, n as int).1@))
}

/// Walks `path`, in place `context`: returns its size, the records of its
/// subtree, what the walk found, and `log` extended by the lifecycle points
/// reached; each point whose hook is set is met by a call of that hook.
/// `output` says whether this node makes a record and calls its hooks; its
/// descendants do where `opts.output` is `All`.
pub fn check_path<
    FS: FileSystem,
    T: Sync,
    H: Fn(FileStats, &T) + Sync + Send,
    P: Fn(Vec<FileStats>, &T) + Sync + Send,
>(
    path: &str,
    opts: &Options,
    handlers: &Handlers<H, P>,
    data: &T,
    system: &FS,
    output: bool,
    context: FileContext,
    log: Ghost<Seq<Event>>,
) -> (r: (u64, Vec<FileStats>, Ghost<Visit>, Ghost<Seq<Event>>))
    requires
        handlers.accept(data),
        context.wf(),
    ensures
        visit_agrees(system, path@, context.depth, r.2@),
        walked(path@, context, output, opts.output == OutputOption::All, r.0, r.1@, r.2@),
        shapes_of(r.1@) == subtree_shapes(
            path@,
            context.parents_last@,
            context.depth,
            context.index,
            context.total,
            r.2@,
            output,
            opts.output == OutputOption::All,
        ),
        !opts.multithread ==> r.3@ == log@ + hook_events(
            path@,
            context.parents_last@,
            context.depth,
            context.index,
            context.total,
            r.2@,
            output,
            opts.output == OutputOption::All,
        ),
        !opts.multithread && hooks_called(handlers, data, log@) ==> hooks_called(
            handlers,
            data,
            r.3@,
        ),
    decreases u32::MAX - context.depth, 2int,
{
    if !system.is_valid(path, opts) {
        return (0, Vec::new(), Ghost(Visit::Skipped), log);
    }
    let is_dir = system.is_parent(path, opts);
    let name = system.get_name(path, opts);
    let ghost name_v = name@;
    let ghost all = opts.output == OutputOption::All;
    let mut stats = FileStats {
        name: name,
        path: path.to_owned(),
        is_dir: is_dir,
        child_count: 0,
        has_children: false,
        depth: context.depth,
        index: context.index,
        total: context.total,
        first: context.index == 0,
        last: context.index == context.total - 1,
        parents_last: copy_flags(context.parents_last),
        time_s: 0,
        size_mb: 0,
        size_b: 0,
    };
    let ghost log0 = log@;
    let ghost first_shape = node_shape(
        path@,
        context.parents_last@,
        context.depth,
        context.index,
        context.total,
        name_v,
        is_dir,
        0,
        0,
    );
    assert(shape_of(stats) == first_shape);
    let mut log = log;
    if output {
        let ghost e = Event::Node { point: Point::Start, shape: shape_of(stats) };
        log = fire(handlers, Point::Start, copy_stats(&stats), data, log);
        proof {
            if hooks_called(handlers, data, log0) {
                lemma_hooks_called_push(handlers, data, log0, e);
            }
        }
    }
    let ghost started = log@;
    assert(started =~= log0 + event_if(
        output,
        Event::Node { point: Point::Start, shape: first_shape },
    ));
    let start = Instant::now();
    let size: u64;
    let mut recs: Vec<FileStats> = Vec::new();
    let ghost visit: Visit;
    if is_dir {
        let listing = system.get_children(path, opts);
        let files = match listing {
            None => {
                return (0, Vec::new(), Ghost(Visit::Unreadable { name: name_v, is_dir: true }), log);
            },
            Some(files) => files,
        };
        if files.len() > u32::MAX as usize || context.depth == u32::MAX {
            return (0, Vec::new(), Ghost(Visit::Unreadable { name: name_v, is_dir: true }), log);
        }
        stats.child_count = files.len();
        stats.has_children = files.len() > 0;
        let (sum, gathered, kids_visit, kid_log) = check_children(
            path,
            &files,
            opts,
            handlers,
            data,
            system,
            output,
            &context,
            &stats,
            &start,
            log,
        );
        size = sum;
        recs = gathered;
        log = kid_log;
        proof {
            visit = Visit::Container {
                name: name_v,
                children: files@.map_values(|f: String| f@),
                kids: kids_visit@.0,
                sizes: kids_visit@.1,
            };
        }
    } else {
        match system.get_size(path, opts) {
            None => {
                return (0, Vec::new(), Ghost(Visit::Unreadable { name: name_v, is_dir: false }), log);
            },
            Some(s) => {
                size = s;
                proof {
                    visit = Visit::Leaf { name: name_v, size: s };
                }
            },
        }
    }
    if output {
        update_stats(&mut stats, &start, size);
        let ghost e = Event::Node { point: Point::End, shape: shape_of(stats) };
        let ghost before_end = log@;
        log = fire(handlers, Point::End, copy_stats(&stats), data, log);
        proof {
            if hooks_called(handlers, data, before_end) {
                lemma_hooks_called_push(handlers, data, before_end, e);
            }
        }
        recs.push(stats);
        proof {
            assert(shapes_of(recs@) =~= shapes_of(recs@.drop_last()).push(shape_of(recs@.last())));
        }
    }
    proof {
        let end = Event::Node {
            point: Point::End,
            shape: own_shape(
                path@,
                context.parents_last@,
                context.depth,
                context.index,
                context.total,
                visit,
            ),
        };
        if !opts.multithread {
            assert(start_shape(
                path@,
                context.parents_last@,
                context.depth,
                context.index,
                context.total,
                visit,
            ) == first_shape);
            if visit is Leaf {
                assert(log@ =~= log0 + (event_if(
                    output,
                    Event::Node { point: Point::Start, shape: first_shape },
                ) + event_if(output, end)));
            } else {
                assert(log@ =~= log0 + (event_if(
                    output,
                    Event::Node { point: Point::Start, shape: first_shape },
                ) + kid_events(
                    path@,
                    context.parents_last@,
                    context.depth,
                    context.index,
                    context.total,
                    visit,
                    visit->kids,
                    output,
                    all,
                    visit->kids.len() as int,
                ) + event_if(output, end)));
            }
        }
    }
    (size, recs, Ghost(visit), log)
}

/// What `run` promises of the records `r` it returns for `path`: sorted by
/// lower-cased path, well formed, with the root's record at depth 0, and,
/// for the visit `v` that agrees with the provider's tree, the records of
/// the walk (as shapes, times aside), sorted stably from the order the walk
/// made them in, with exactly one record in root mode where the root can be
/// read.
pub open spec fn run_result<FS: FileSystem>(
    system: &FS,
    path: Seq<char>,
    opts: Options,
    r: Seq<FileStats>,
    v: Visit,
) -> bool {
    let all = opts.output == OutputOption::All;
    &&& visit_agrees(system, path, 0, v)
    &&& sorted_by_path(r)
    &&& forall|k: int| 0 <= k < r.len() ==> stats_wf(#[trigger] r[k])
    &&& forall|k: int|
        0 <= k < r.len() && (#[trigger] r[k]).depth == 0 ==> {
            &&& r[k].path@ == path
            &&& r[k].index == 0
            &&& r[k].total == 1
        }
    &&& shapes_of(r).to_multiset() == subtree_shapes(
        path,
        Seq::empty(),
        0,
        0,
        1,
        v,
        true,
        all,
    ).to_multiset()
    &&& (!all ==> r.len() == (if counted(v) {
        1int
    } else {
        0int
    }))
    &&& exists|pre: Seq<FileStats>, p: Seq<int>|
        shapes_of(pre) == subtree_shapes(path, Seq::empty(), 0, 0, 1, v, true, all)
            && #[trigger] kept_order(r, pre, p)
}

/// `run`, also returning the log of the lifecycle points it reached (each
/// one whose hook is set met by a call of that hook): with the
/// children walked one after the other, the calls of the walk, depth first
/// and left to right, then the one `post` call with the returned list.
pub fn run_traced<
    T: Sync,
    H: Fn(FileStats, &T) + Sync + Send,
    P: Fn(Vec<FileStats>, &T) + Sync + Send,
    FS: FileSystem,
>(path: &str, opts: Options, handlers: Handlers<H, P>, data: &T, system: &FS) -> (r: (Vec<FileStats>, Ghost<Seq<Event>>))
    requires
        handlers.accept(data),
    ensures
        exists|v: Visit|
            #[trigger] run_result(system, path@, opts, r.0@, v) && (!opts.multithread ==> r.1@
                == hook_events(
                path@,
                Seq::empty(),
                0,
                0,
                1,
                v,
                true,
                opts.output == OutputOption::All,
            ).push(Event::Post { shapes: shapes_of(r.0@) })),
        r.1@.len() > 0 && r.1@.last() == (Event::Post { shapes: shapes_of(r.0@) }),
        called(&handlers, data, r.1@.last()),
        !opts.multithread ==> hooks_called(&handlers, data, r.1@),
{
    let no_flags: Vec<bool> = Vec::new();
    let context = FileContext { parents_last: &no_flags, depth: 0, index: 0, total: 1 };
    let walk = check_path(path, &opts, &handlers, data, system, true, context, Ghost(Seq::empty()));
    let recs = walk.1;
    let ghost before = recs@;
    let ghost v = walk.2@;
    let results = sort_by_path(recs);
    proof {
        assert(no_flags@ =~= Seq::<bool>::empty());
        assert(results@.len() == results@.to_multiset().len());
        assert(before.len() == before.to_multiset().len());
        assert forall|k: int| 0 <= k < results@.len() implies before.contains(
            #[trigger] results@[k],
        ) by {
            assert(results@.to_multiset().count(results@[k]) > 0);
        }
        lemma_multiset_map(results@, before, |x: FileStats| shape_of(x));
        let p = choose|p: Seq<int>| kept_order(results@, before, p);
        assert(kept_order(results@, before, p));
    }
    let copy = copy_records(&results);
    let ghost pe = Event::Post { shapes: shapes_of(copy@) };
    proof {
        assert(hooks_called(&handlers, data, Seq::<Event>::empty()));
    }
    let log = fire_post(&handlers, copy, data, walk.3);
    proof {
        if !opts.multithread {
            lemma_hooks_called_push(&handlers, data, walk.3@, pe);
        }
    }
    proof {
        assert(Seq::<Event>::empty() + hook_events(path@, no_flags@, 0, 0, 1, v, true, opts.output
            == OutputOption::All) =~= hook_events(
            path@,
            no_flags@,
            0,
            0,
            1,
            v,
            true,
            opts.output == OutputOption::All,
        ));
    }
    proof {
        if !opts.multithread {
            assert(log@ == hook_events(
                path@,
                Seq::empty(),
                0,
                0,
                1,
                v,
                true,
                opts.output == OutputOption::All,
            ).push(Event::Post { shapes: shapes_of(results@) }));
        }
    }
    let out = (results, log);
    assert(run_result(system, path@, opts, out.0@, v));
    out
}

/// Walks `path` and returns the records that `opts.output` asks for, sorted
/// by lower-cased path; the `post` hook is then called once with that list.
pub fn run<
    T: Sync,
    H: Fn(FileStats, &T) + Sync + Send,
    P: Fn(Vec<FileStats>, &T) + Sync + Send,
    FS: FileSystem,
>(path: &str, opts: Options, handlers: Handlers<H, P>, data: &T, system: &FS) -> (r: Vec<FileStats>)
    requires
        handlers.accept(data),
    ensures
        exists|v: Visit| #[trigger] run_result(system, path@, opts, r@, v),
{
    let (r, _log) = run_traced(path, opts, handlers, data, system);
    r
}

/// Idempotence: runs over one tree find the same thing, so they return the
/// same records, times and order of equal keys aside, and, walking children
/// one after the other, reach the same lifecycle points.
pub proof fn lemma_runs_agree<FS: FileSystem>(
    system: &FS,
    path: Seq<char>,
    opts: Options,
    a: Seq<FileStats>,
    b: Seq<FileStats>,
    va: Visit,
    vb: Visit,
)
    requires
        run_result(system, path, opts, a, va),
        run_result(system, path, opts, b, vb),
    ensures
        va == vb,
        shapes_of(a).to_multiset() == shapes_of(b).to_multiset(),
        hook_events(path, Seq::empty(), 0, 0, 1, va, true, opts.output == OutputOption::All)
            == hook_events(path, Seq::empty(), 0, 0, 1, vb, true, opts.output == OutputOption::All),
{
    lemma_visit_unique(system, path, 0, va, vb);
}

/// Size conservation: a container's size is the sum of the sizes of the
/// walks of its children, wherever that sum fits in a `u64`.
pub proof fn lemma_size_conservation(v: Visit)
    requires
        visit_wf(v),
        v is Container,
        seq_sum(v->sizes) <= u64::MAX,
    ensures
        visit_size(v) == seq_sum(v->kids.map_values(|k: Visit| visit_size(k))),
{
    let sizes = v->sizes;
    lemma_sat_sum_exact(sizes);
    assert(v->kids.map_values(|k: Visit| visit_size(k)) =~= sizes);
}

/// Saturating addition adds exactly while the sum fits.
pub proof fn lemma_sat_sum_exact(s: Seq<u64>)
    requires
        seq_sum(s) <= u64::MAX,
    ensures
        sat_sum(s) == seq_sum(s),
    decreases s.len(),
{
    if s.len() > 0 {
        lemma_sat_sum_exact(s.drop_last());
    }
}

/// A path that the provider rejects adds nothing to its parent's size,
/// leaves no record and reaches no lifecycle point, so no hook sees it.
pub proof fn lemma_skipped_leaves_nothing(
    path: Seq<char>,
    ctx: FileContext,
    output: bool,
    all: bool,
    size: u64,
    recs: Seq<FileStats>,
)
    requires
        walked(path, ctx, output, all, size, recs, Visit::Skipped),
    ensures
        size == 0,
        recs.len() == 0,
        hook_events(path, ctx.parents_last@, ctx.depth, ctx.index, ctx.total, Visit::Skipped, output, all).len()
            == 0,
{
}

} // verus!
