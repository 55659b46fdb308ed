use fstat::options::{FileStats, Handlers, Options, OutputOption};
use fstat::run;
use fstat::systems::{FileSystem, ListingView, PathView};
use std::collections::HashMap;
use std::sync::Mutex;

enum Entry {
    Dir(Vec<&'static str>),
    File(u64),
    Link,
    Unlistable,
    Unreadable,
}

struct MemFs {
    entries: HashMap<&'static str, Entry>,
}

impl MemFs {
    fn new(entries: Vec<(&'static str, Entry)>) -> MemFs {
        MemFs { entries: entries.into_iter().collect() }
    }
}

// The model functions serve the verifier only; nothing calls them at run time.
impl FileSystem for MemFs {
    fn valid(&self, _path: PathView) -> bool {
        unreachable!()
    }

    fn parent(&self, _path: PathView) -> bool {
        unreachable!()
    }

    fn children(&self, _path: PathView) -> ListingView {
        unreachable!()
    }

    fn size(&self, _path: PathView) -> Option<u64> {
        unreachable!()
    }

    fn name(&self, _path: PathView) -> PathView {
        unreachable!()
    }

    fn is_valid(&self, path: &str, _opts: &Options) -> bool {
        !matches!(self.entries.get(path), Some(Entry::Link) | None)
    }

    fn is_parent(&self, path: &str, _opts: &Options) -> bool {
        matches!(self.entries.get(path), Some(Entry::Dir(_)) | Some(Entry::Unlistable))
    }

    fn get_children(&self, path: &str, _opts: &Options) -> Option<Vec<String>> {
        match self.entries.get(path) {
            Some(Entry::Dir(children)) => Some(children.iter().map(|c| c.to_string()).collect()),
            _ => None,
        }
    }

    fn get_size(&self, path: &str, _opts: &Options) -> Option<u64> {
        match self.entries.get(path) {
            Some(Entry::File(size)) => Some(*size),
            _ => None,
        }
    }

    fn get_name(&self, path: &str, _opts: &Options) -> String {
        path.rsplit('/').next().unwrap_or(path).to_string()
    }
}

type Hook<'a> = &'a (dyn Fn(FileStats, &()) + Sync + Send);
type PostHook<'a> = &'a (dyn Fn(Vec<FileStats>, &()) + Sync + Send);

fn no_hooks<'a>() -> Handlers<Hook<'a>, PostHook<'a>> {
    Handlers { post: None, start: None, prog: None, end: None }
}

fn opts(output: OutputOption, multithread: bool) -> Options {
    Options { verbose: false, output, multithread }
}

fn find<'a>(recs: &'a [FileStats], path: &str) -> &'a FileStats {
    recs.iter().find(|r| r.path == path).expect("record for path")
}

fn three_level() -> MemFs {
    MemFs::new(vec![
        ("/t", Entry::Dir(vec!["/t/a", "/t/b"])),
        ("/t/a", Entry::Dir(vec!["/t/a/x", "/t/a/y"])),
        ("/t/a/x", Entry::File(100)),
        ("/t/a/y", Entry::Dir(vec!["/t/a/y/z"])),
        ("/t/a/y/z", Entry::File(2_000_000)),
        ("/t/b", Entry::File(300)),
    ])
}

fn check_wf(recs: &[FileStats]) {
    for r in recs {
        assert!(r.index < r.total);
        assert_eq!(r.first, r.index == 0);
        assert_eq!(r.last, r.index == r.total - 1);
        assert_eq!(r.parents_last.len() as u32, r.depth);
        assert_eq!(r.size_mb, r.size_b / 1_000_000);
        assert_eq!(r.has_children, r.child_count > 0);
    }
}

#[test]
fn single_file_root() {
    let fs = MemFs::new(vec![("/f", Entry::File(5_000_000))]);
    let recs = run("/f", opts(OutputOption::Root, false), no_hooks(), &(), &fs);
    assert_eq!(recs.len(), 1);
    let r = &recs[0];
    assert_eq!(r.size_b, 5_000_000);
    assert_eq!(r.size_mb, 5);
    assert!(!r.is_dir);
    assert_eq!(r.depth, 0);
    assert!(r.first);
    assert!(r.last);
    assert_eq!(r.index, 0);
    assert_eq!(r.total, 1);
    assert_eq!(r.name, "f");
    assert_eq!(r.path, "/f");
}

#[test]
fn directory_with_two_files_all() {
    let fs = MemFs::new(vec![
        ("/d", Entry::Dir(vec!["/d/one", "/d/two"])),
        ("/d/one", Entry::File(1_500_000)),
        ("/d/two", Entry::File(2_500_000)),
    ]);
    let recs = run("/d", opts(OutputOption::All, false), no_hooks(), &(), &fs);
    assert_eq!(recs.len(), 3);
    let root = find(&recs, "/d");
    assert_eq!(root.size_b, 4_000_000);
    assert_eq!(root.size_mb, 4);
    assert!(root.is_dir);
    assert_eq!(root.child_count, 2);
    assert!(root.has_children);
    let one = find(&recs, "/d/one");
    let two = find(&recs, "/d/two");
    assert_eq!((one.depth, two.depth), (1, 1));
    assert_eq!((one.index, two.index), (0, 1));
    assert_eq!((one.total, two.total), (2, 2));
    assert!(!one.last);
    assert!(two.last);
    assert!(one.first);
    assert!(!two.first);
    assert_eq!(one.parents_last, vec![true]);
    assert_eq!(two.parents_last, vec![true]);
}

#[test]
fn symlink_is_pruned() {
    let fs = MemFs::new(vec![
        ("/d", Entry::Dir(vec!["/d/link", "/d/file"])),
        ("/d/link", Entry::Link),
        ("/d/file", Entry::File(1_000_000)),
    ]);
    let recs = run("/d", opts(OutputOption::All, false), no_hooks(), &(), &fs);
    assert_eq!(recs.len(), 2);
    assert_eq!(find(&recs, "/d").size_b, 1_000_000);
    assert_eq!(find(&recs, "/d/file").size_b, 1_000_000);
    assert!(recs.iter().all(|r| r.path != "/d/link"));
    assert_eq!(recs.iter().filter(|r| r.path == "/d/file").count(), 1);
}

#[test]
fn root_mode_three_levels() {
    let fs = three_level();
    let recs = run("/t", opts(OutputOption::Root, false), no_hooks(), &(), &fs);
    assert_eq!(recs.len(), 1);
    assert_eq!(recs[0].path, "/t");
    assert_eq!(recs[0].size_b, 2_000_400);
    assert_eq!(recs[0].size_mb, 2);
    assert_eq!(recs[0].depth, 0);
}

#[test]
fn sizes_add_up_at_every_level() {
    let fs = three_level();
    let recs = run("/t", opts(OutputOption::All, false), no_hooks(), &(), &fs);
    assert_eq!(recs.len(), 6);
    assert_eq!(find(&recs, "/t/a/y").size_b, 2_000_000);
    assert_eq!(find(&recs, "/t/a").size_b, 2_000_100);
    assert_eq!(
        find(&recs, "/t").size_b,
        find(&recs, "/t/a").size_b + find(&recs, "/t/b").size_b
    );
    let z = find(&recs, "/t/a/y/z");
    assert_eq!(z.depth, 3);
    assert_eq!(z.parents_last, vec![true, false, true]);
    check_wf(&recs);
}

#[test]
fn records_are_well_formed() {
    let fs = three_level();
    for &multithread in &[false, true] {
        let recs = run("/t", opts(OutputOption::All, multithread), no_hooks(), &(), &fs);
        check_wf(&recs);
        for r in &recs {
            assert_eq!(r.parents_last.len(), r.depth as usize);
        }
    }
}

type Shape = ((String, String, bool, usize, bool, u32), (u32, u32, bool, bool, Vec<bool>, u64, u64));

fn structural(r: &FileStats) -> Shape {
    (
        (r.path.clone(), r.name.clone(), r.is_dir, r.child_count, r.has_children, r.depth),
        (r.index, r.total, r.first, r.last, r.parents_last.clone(), r.size_mb, r.size_b),
    )
}

#[test]
fn repeated_runs_agree() {
    let fs = three_level();
    let a = run("/t", opts(OutputOption::All, false), no_hooks(), &(), &fs);
    let b = run("/t", opts(OutputOption::All, false), no_hooks(), &(), &fs);
    let c = run("/t", opts(OutputOption::All, true), no_hooks(), &(), &fs);
    let sa: Vec<_> = a.iter().map(structural).collect();
    let sb: Vec<_> = b.iter().map(structural).collect();
    let sc: Vec<_> = c.iter().map(structural).collect();
    assert_eq!(sa, sb);
    assert_eq!(sa, sc);
}

#[test]
fn invalid_root_gives_nothing() {
    let fs = MemFs::new(vec![("/l", Entry::Link)]);
    let recs = run("/l", opts(OutputOption::All, false), no_hooks(), &(), &fs);
    assert!(recs.is_empty());
}

#[test]
fn listing_and_size_failures_count_zero() {
    let fs = MemFs::new(vec![
        ("/d", Entry::Dir(vec!["/d/locked", "/d/bad", "/d/ok"])),
        ("/d/locked", Entry::Unlistable),
        ("/d/bad", Entry::Unreadable),
        ("/d/ok", Entry::File(42)),
    ]);
    let recs = run("/d", opts(OutputOption::All, false), no_hooks(), &(), &fs);
    assert_eq!(recs.len(), 2);
    let root = find(&recs, "/d");
    assert_eq!(root.size_b, 42);
    assert_eq!(root.child_count, 3);
    let ok = find(&recs, "/d/ok");
    assert_eq!((ok.index, ok.total), (2, 3));
    assert!(ok.last);
}

#[test]
fn unlistable_root_gives_nothing() {
    let fs = MemFs::new(vec![("/d", Entry::Unlistable)]);
    let recs = run("/d", opts(OutputOption::Root, false), no_hooks(), &(), &fs);
    assert!(recs.is_empty());
}

#[test]
fn empty_directory() {
    let fs = MemFs::new(vec![("/e", Entry::Dir(vec![]))]);
    let recs = run("/e", opts(OutputOption::All, true), no_hooks(), &(), &fs);
    assert_eq!(recs.len(), 1);
    assert_eq!(recs[0].size_b, 0);
    assert_eq!(recs[0].child_count, 0);
    assert!(!recs[0].has_children);
    assert!(recs[0].is_dir);
}

#[test]
fn sizes_saturate_at_u64_max() {
    let fs = MemFs::new(vec![
        ("/d", Entry::Dir(vec!["/d/huge", "/d/one"])),
        ("/d/huge", Entry::File(u64::MAX)),
        ("/d/one", Entry::File(1)),
    ]);
    let recs = run("/d", opts(OutputOption::Root, false), no_hooks(), &(), &fs);
    assert_eq!(recs[0].size_b, u64::MAX);
    assert_eq!(recs[0].size_mb, u64::MAX / 1_000_000);
}

#[test]
fn megabytes_truncate() {
    let fs = MemFs::new(vec![("/f", Entry::File(1_999_999))]);
    let recs = run("/f", opts(OutputOption::Root, false), no_hooks(), &(), &fs);
    assert_eq!(recs[0].size_mb, 1);
}

#[test]
fn result_and_post_list_sorted_case_insensitively() {
    let fs = MemFs::new(vec![
        ("/r", Entry::Dir(vec!["/r/b", "/r/C", "/r/a", "/r/B2"])),
        ("/r/b", Entry::File(1)),
        ("/r/C", Entry::File(2)),
        ("/r/a", Entry::File(3)),
        ("/r/B2", Entry::File(4)),
    ]);
    let posted = Mutex::new(Vec::new());
    let post = |list: Vec<FileStats>, _: &()| {
        posted.lock().unwrap().push(list.into_iter().map(|s| s.path).collect::<Vec<_>>())
    };
    let handlers: Handlers<Hook, PostHook> = Handlers { post: Some(&post), start: None, prog: None, end: None };
    let recs = run("/r", opts(OutputOption::All, true), handlers, &(), &fs);
    let paths: Vec<&str> = recs.iter().map(|r| r.path.as_str()).collect();
    assert_eq!(paths, vec!["/r", "/r/a", "/r/b", "/r/B2", "/r/C"]);
    let posted = posted.into_inner().unwrap();
    assert_eq!(posted.len(), 1);
    assert_eq!(posted[0], vec!["/r", "/r/a", "/r/b", "/r/B2", "/r/C"]);
}

fn events_of(fs: &MemFs) -> Vec<String> {
    let events = Mutex::new(Vec::new());
    let start = |s: FileStats, _: &()| events.lock().unwrap().push(format!("start {}", s.path));
    let prog = |s: FileStats, _: &()| {
        events.lock().unwrap().push(format!("prog {} {}", s.path, s.size_b))
    };
    let end = |s: FileStats, _: &()| {
        events.lock().unwrap().push(format!("end {} {}", s.path, s.size_b))
    };
    let handlers: Handlers<Hook, PostHook> =
        Handlers { post: None, start: Some(&start), prog: Some(&prog), end: Some(&end) };
    run("/t", opts(OutputOption::All, false), handlers, &(), fs);
    events.into_inner().unwrap()
}

#[test]
fn sequential_hooks_fire_depth_first() {
    let fs = three_level();
    let events = events_of(&fs);
    let expected: Vec<String> = vec![
        "start /t",
        "start /t/a",
        "start /t/a/x",
        "end /t/a/x 100",
        "prog /t/a 100",
        "start /t/a/y",
        "start /t/a/y/z",
        "end /t/a/y/z 2000000",
        "prog /t/a/y 2000000",
        "end /t/a/y 2000000",
        "prog /t/a 2000100",
        "end /t/a 2000100",
        "prog /t 2000100",
        "start /t/b",
        "end /t/b 300",
        "prog /t 2000400",
        "end /t 2000400",
    ]
    .into_iter()
    .map(String::from)
    .collect();
    assert_eq!(events, expected);
    assert_eq!(events_of(&fs), expected);
}

#[test]
fn start_hook_sees_empty_stats() {
    let fs = three_level();
    let seen = Mutex::new(Vec::new());
    let start = |s: FileStats, _: &()| seen.lock().unwrap().push((s.size_b, s.time_s, s.child_count));
    let handlers: Handlers<Hook, PostHook> = Handlers { post: None, start: Some(&start), prog: None, end: None };
    run("/t", opts(OutputOption::All, true), handlers, &(), &fs);
    let seen = seen.into_inner().unwrap();
    assert_eq!(seen.len(), 6);
    assert!(seen.iter().all(|&(size, time, count)| size == 0 && time == 0 && count == 0));
}

#[test]
fn parallel_progress_covers_every_child() {
    let fs = three_level();
    let snaps = Mutex::new(Vec::new());
    let prog = |s: FileStats, _: &()| snaps.lock().unwrap().push((s.path, s.size_b));
    let handlers: Handlers<Hook, PostHook> = Handlers { post: None, start: None, prog: Some(&prog), end: None };
    run("/t", opts(OutputOption::All, true), handlers, &(), &fs);
    let snaps = snaps.into_inner().unwrap();
    let of_root: Vec<u64> = snaps.iter().filter(|(p, _)| p == "/t").map(|(_, s)| *s).collect();
    assert_eq!(of_root.len(), 2);
    assert_eq!(*of_root.iter().max().unwrap(), 2_000_400);
}

#[test]
fn root_mode_fires_hooks_for_root_only() {
    let fs = three_level();
    let events = Mutex::new(Vec::new());
    let end = |s: FileStats, _: &()| events.lock().unwrap().push(s.path);
    let handlers: Handlers<Hook, PostHook> = Handlers { post: None, start: None, prog: None, end: Some(&end) };
    run("/t", opts(OutputOption::Root, false), handlers, &(), &fs);
    assert_eq!(events.into_inner().unwrap(), vec!["/t".to_string()]);
}

#[test]
fn hook_data_is_handed_through() {
    let fs = MemFs::new(vec![("/f", Entry::File(7))]);
    let got = Mutex::new(Vec::new());
    let end = |s: FileStats, d: &u32| got.lock().unwrap().push((s.size_b, *d));
    let handlers: Handlers<
        &(dyn Fn(FileStats, &u32) + Sync + Send),
        &(dyn Fn(Vec<FileStats>, &u32) + Sync + Send),
    > =
        Handlers { post: None, start: None, prog: None, end: Some(&end) };
    run("/f", opts(OutputOption::Root, false), handlers, &99u32, &fs);
    assert_eq!(got.into_inner().unwrap(), vec![(7, 99)]);
}

#[test]
fn post_runs_once_after_other_hooks() {
    let fs = three_level();
    let events = Mutex::new(Vec::new());
    let end = |s: FileStats, _: &()| events.lock().unwrap().push(format!("end {}", s.path));
    let post = |list: Vec<FileStats>, _: &()| {
        events.lock().unwrap().push(format!("post {}", list.len()))
    };
    let handlers: Handlers<Hook, PostHook> =
        Handlers { post: Some(&post), start: None, prog: None, end: Some(&end) };
    run("/t", opts(OutputOption::All, true), handlers, &(), &fs);
    let events = events.into_inner().unwrap();
    assert_eq!(events.len(), 7);
    assert_eq!(events.last().unwrap(), "post 6");
    assert_eq!(events.iter().filter(|e| e.starts_with("post")).count(), 1);
}

#[test]
fn post_runs_on_empty_result() {
    let fs = MemFs::new(vec![("/l", Entry::Link)]);
    let calls = Mutex::new(Vec::new());
    let post = |list: Vec<FileStats>, _: &()| calls.lock().unwrap().push(list.len());
    let handlers: Handlers<Hook, PostHook> =
        Handlers { post: Some(&post), start: None, prog: None, end: None };
    let recs = run("/l", opts(OutputOption::All, false), handlers, &(), &fs);
    assert!(recs.is_empty());
    assert_eq!(calls.into_inner().unwrap(), vec![0]);
}

#[test]
fn sequential_progress_totals_rise() {
    let fs = MemFs::new(vec![
        ("/d", Entry::Dir(vec!["/d/a", "/d/b", "/d/c"])),
        ("/d/a", Entry::File(u64::MAX - 5)),
        ("/d/b", Entry::File(3)),
        ("/d/c", Entry::File(10)),
    ]);
    let snaps = Mutex::new(Vec::new());
    let prog = |s: FileStats, _: &()| snaps.lock().unwrap().push(s.size_b);
    let handlers: Handlers<Hook, PostHook> =
        Handlers { post: None, start: None, prog: Some(&prog), end: None };
    run("/d", opts(OutputOption::Root, false), handlers, &(), &fs);
    assert_eq!(snaps.into_inner().unwrap(), vec![u64::MAX - 5, u64::MAX - 2, u64::MAX]);
}
