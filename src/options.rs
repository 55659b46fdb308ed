use vstd::prelude::*;
use crate::ordering::lowercase_chars;

verus! {

/// Settings of one run.
pub struct Options {
    /// Whether the front end should log what it does.
    pub verbose: bool,
    /// Which nodes produce a record.
    pub output: OutputOption,
    /// Whether the children of a container are walked in parallel.
    pub multithread: bool,
}

/// Which nodes produce a record: only the root, or every node that is walked.
#[derive(Clone, Copy, Debug, PartialEq, Eq, Structural)]
pub enum OutputOption {
    Root,
    All,
}

/// The hooks called during a run; an unset hook does nothing.
///
/// `start`, `prog` and `end` receive a copy of one node's record; `post` is
/// called once, after all of them, with the final, sorted list of records.
pub struct Handlers<H, P> {
    pub post: Option<P>,
    pub start: Option<H>,
    pub prog: Option<H>,
    pub end: Option<H>,
}

/// The record of one walked path.
#[derive(Clone, Debug)]
pub struct FileStats {
    pub path: String,
    pub name: String,
    pub is_dir: bool,
    pub child_count: usize,
    pub has_children: bool,
    pub depth: u32,
    pub index: u32,
    pub total: u32,
    pub first: bool,
    pub last: bool,
    pub parents_last: Vec<bool>,
    pub time_s: u64,
    pub size_mb: u64,
    pub size_b: u64,
}

/// Bytes in one reported megabyte.
pub const BYTES_PER_MB: u64 = 1_000_000;

/// A hook that is set accepts every record together with `data`.
pub open spec fn hook_accepts<T, H: Fn(FileStats, &T)>(hook: Option<H>, data: &T) -> bool {
    hook matches Some(h) ==> forall|s: FileStats| #[trigger] h.requires((s, data))
}

/// A `post` hook that is set accepts every list of records together with `data`.
pub open spec fn post_accepts<T, P: Fn(Vec<FileStats>, &T)>(hook: Option<P>, data: &T) -> bool {
    hook matches Some(h) ==> forall|s: Vec<FileStats>| #[trigger] h.requires((s, data))
}

impl<H, P> Handlers<H, P> {
    /// Every hook that is set can be called with any record, or list of
    /// records, and `data`.
    pub open spec fn accept<T>(&self, data: &T) -> bool where
        H: Fn(FileStats, &T),
        P: Fn(Vec<FileStats>, &T),
     {
        &&& post_accepts(self.post, data)
        &&& hook_accepts(self.start, data)
        &&& hook_accepts(self.prog, data)
        &&& hook_accepts(self.end, data)
    }
}

/// The relations that hold inside every finished record.
pub open spec fn stats_wf(s: FileStats) -> bool {
    &&& s.index < s.total
    &&& s.first == (s.index == 0)
    &&& s.last == (s.index + 1 == s.total)
    &&& s.parents_last@.len() == s.depth
    &&& s.has_children == (s.child_count > 0)
    &&& (!s.is_dir ==> s.child_count == 0)
    &&& s.size_mb == s.size_b / BYTES_PER_MB
}

/// The option name `root`.
pub open spec fn root_word() -> Seq<char> {
    seq!['r', 'o', 'o', 't']
}

/// The option name `all`.
pub open spec fn all_word() -> Seq<char> {
    seq!['a', 'l', 'l']
}

/// The output option that a lower-case name stands for, if any.
pub open spec fn option_named(name: Seq<char>) -> Option<OutputOption> {
    if name == root_word() {
        Some(OutputOption::Root)
    } else if name == all_word() {
        Some(OutputOption::All)
    } else {
        None
    }
}

impl OutputOption {
    /// Reads an option name that is already in lower case.
    pub fn from_lowercase(name: &Vec<char>) -> (r: Result<OutputOption, &'static str>)
        ensures
            match option_named(name@) {
                Some(o) => r == Ok::<OutputOption, &'static str>(o),
                None => r == Err::<OutputOption, &'static str>("no match"),
            },
    {
        if name.len() == 4 && name[0] == 'r' && name[1] == 'o' && name[2] == 'o' && name[3]
            == 't' {
            assert(name@ =~= root_word());
            Ok(OutputOption::Root)
        } else if name.len() == 3 && name[0] == 'a' && name[1] == 'l' && name[2] == 'l' {
            assert(name@ =~= all_word());
            Ok(OutputOption::All)
        } else {
            assert(name@ != root_word() && name@ != all_word()) by {
                if name@ == root_word() {
                    assert(name@[0] == 'r' && name@[3] == 't');
                }
                if name@ == all_word() {
                    assert(name@[0] == 'a' && name@[2] == 'l');
                }
            }
            Err("no match")
        }
    }

    /// Reads an option name in any case: `root` or `all`.
    pub fn parse(s: &str) -> (r: Result<OutputOption, &'static str>)
        ensures
            match option_named(crate::ordering::lower_of(s@)) {
                Some(o) => r == Ok::<OutputOption, &'static str>(o),
                None => r == Err::<OutputOption, &'static str>("no match"),
            },
    {
        let lowered = lowercase_chars(s);
        OutputOption::from_lowercase(&lowered)
    }
}

impl std::str::FromStr for OutputOption {
    type Err = &'static str;

    fn from_str(s: &str) -> (r: Result<Self, Self::Err>)
        ensures
            match option_named(crate::ordering::lower_of(s@)) {
                Some(o) => r == Ok::<OutputOption, &'static str>(o),
                None => r == Err::<OutputOption, &'static str>("no match"),
            },
    {
        OutputOption::parse(s)
    }
}

} // verus!
