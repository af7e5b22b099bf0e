//! Where the socket or pipe of the router is looked for.

use vstd::prelude::*;

verus! {

/// The system that the program runs on.
#[derive(Clone, Copy, Debug, PartialEq, Eq, Structural)]
pub enum Target {
    /// Android.
    Android,
    /// macOS.
    MacOs,
    /// Any other Unix.
    OtherUnix,
    /// Windows.
    Windows,
}

/// Where a relative path may start.
#[derive(Clone, Copy, Debug, PartialEq, Eq)]
pub enum Prefix {
    /// In the directory that an environment variable names, if it is set.
    EnvVar(&'static str),
    /// In a directory.
    Dir(&'static str),
}

/// What a [`Prefix`] stands for.
pub enum PrefixModel {
    /// In the directory that an environment variable names, if it is set.
    EnvVar(Seq<char>),
    /// In a directory.
    Dir(Seq<char>),
}

impl Prefix {
    /// What the prefix stands for.
    pub open spec fn view(&self) -> PrefixModel {
        match self {
            Prefix::EnvVar(name) => PrefixModel::EnvVar(name@),
            Prefix::Dir(path) => PrefixModel::Dir(path@),
        }
    }
}

/// Where a relative path is looked for, in this order.
pub open spec fn candidates(target: Target) -> Seq<PrefixModel> {
    match target {
        Target::Android => seq![
            PrefixModel::EnvVar("XDG_RUNTIME_DIR"@),
            PrefixModel::EnvVar("TMPDIR"@),
            PrefixModel::EnvVar("HOME"@),
        ],
        Target::MacOs => seq![
            PrefixModel::EnvVar("XDG_RUNTIME_DIR"@),
            PrefixModel::EnvVar("TMPDIR"@),
            PrefixModel::Dir("/var/run"@),
        ],
        Target::OtherUnix => seq![
            PrefixModel::EnvVar("XDG_RUNTIME_DIR"@),
            PrefixModel::EnvVar("TMPDIR"@),
            PrefixModel::Dir("/run"@),
            PrefixModel::Dir("/var/run"@),
        ],
        Target::Windows => Seq::empty(),
    }
}

/// Where a relative path starts that was found nowhere.
pub open spec fn default_dir(target: Target) -> Seq<char> {
    match target {
        Target::Android => "/data/local/tmp"@,
        Target::MacOs => "/tmp"@,
        Target::OtherUnix => "/tmp"@,
        Target::Windows => r"\\.\pipe"@,
    }
}

/// What to do next to find the full path.
#[derive(Clone, Copy, Debug, PartialEq, Eq)]
pub enum PathStep {
    /// Take the path as it is.
    Unchanged,
    /// Take the path under this prefix, if [`is_taken`] says so.
    Try(Prefix),
    /// Take the path in this directory.
    Fallback(&'static str),
}

/// The step is what to do next after the first `tried` candidates were tried without
/// success.
pub open spec fn is_next_step(target: Target, is_absolute: bool, tried: int, r: PathStep) -> bool {
    if is_absolute {
        r is Unchanged
    } else if tried < candidates(target).len() {
        r matches PathStep::Try(prefix) && prefix@ == candidates(target)[tried]
    } else {
        r matches PathStep::Fallback(dir) && dir@ == default_dir(target)
    }
}

/// Decides what to do next to find the full path, after the first `tried` candidates were
/// tried without success.
pub fn full_path(target: Target, is_absolute: bool, tried: usize) -> (r: PathStep)
    ensures
        is_next_step(target, is_absolute, tried as int, r),
{
    if is_absolute {
        return PathStep::Unchanged;
    }
    match target {
        Target::Android => match tried {
            0 => PathStep::Try(Prefix::EnvVar("XDG_RUNTIME_DIR")),
            1 => PathStep::Try(Prefix::EnvVar("TMPDIR")),
            2 => PathStep::Try(Prefix::EnvVar("HOME")),
            _ => PathStep::Fallback("/data/local/tmp"),
        },
        Target::MacOs => match tried {
            0 => PathStep::Try(Prefix::EnvVar("XDG_RUNTIME_DIR")),
            1 => PathStep::Try(Prefix::EnvVar("TMPDIR")),
            2 => PathStep::Try(Prefix::Dir("/var/run")),
            _ => PathStep::Fallback("/tmp"),
        },
        Target::OtherUnix => match tried {
            0 => PathStep::Try(Prefix::EnvVar("XDG_RUNTIME_DIR")),
            1 => PathStep::Try(Prefix::EnvVar("TMPDIR")),
            2 => PathStep::Try(Prefix::Dir("/run")),
            3 => PathStep::Try(Prefix::Dir("/var/run")),
            _ => PathStep::Fallback("/tmp"),
        },
        Target::Windows => PathStep::Fallback(r"\\.\pipe"),
    }
}

/// Whether the path under a prefix is the one to take: there has to be such a file, and the
/// directory that the prefix stands for has to be absolute. A relative one, which only an
/// environment variable can name, is passed over.
pub fn is_taken(dir_is_absolute: bool, exists: bool) -> (r: bool)
    ensures
        r == (dir_is_absolute && exists),
{
    dir_is_absolute && exists
}

/// A path that is absolute on Unix.
pub open spec fn starts_at_root(path: Seq<char>) -> bool {
    path.len() > 0 && path[0] == '/'
}

/// Every directory that is looked through or fallen back on is absolute: on Unix it starts
/// at the root, on Windows it is the one of named pipes.
pub proof fn law_directories_are_absolute(target: Target)
    ensures
        target != Target::Windows ==> starts_at_root(default_dir(target)),
        target == Target::Windows ==> default_dir(target).len() > 1 && default_dir(target)[0]
            == '\\' && default_dir(target)[1] == '\\',
        forall|i: int|
            0 <= i < candidates(target).len() ==> (#[trigger] candidates(target)[i] matches
                PrefixModel::Dir(dir) ==> starts_at_root(dir)),
{
    reveal_strlit("/run");
    reveal_strlit("/var/run");
    reveal_strlit("/tmp");
    reveal_strlit("/data/local/tmp");
    reveal_strlit(r"\\.\pipe");
    assert(starts_at_root("/run"@) && starts_at_root("/var/run"@));
    assert(starts_at_root("/tmp"@) && starts_at_root("/data/local/tmp"@));
}

/// On Unix the search ends with an absolute path, whatever the path and the environment
/// are. `dir` is the directory that a prefix stands for, which is absolute where the path
/// under it is taken; `full` is the path that the step leads to, which is `path` itself or
/// starts with a directory.
pub proof fn law_full_path_is_absolute(
    target: Target,
    path: Seq<char>,
    tried: int,
    step: PathStep,
    dir: Seq<char>,
    full: Seq<char>,
)
    requires
        target != Target::Windows,
        0 <= tried,
        is_next_step(target, starts_at_root(path), tried, step),
        match step {
            PathStep::Unchanged => full == path,
            PathStep::Try(_) => starts_at_root(dir) && dir.is_prefix_of(full),
            PathStep::Fallback(d) => d@.is_prefix_of(full),
        },
    ensures
        starts_at_root(full),
{
    law_directories_are_absolute(target);
    match step {
        PathStep::Unchanged => {},
        PathStep::Try(_) => {
            assert(full[0] == full.subrange(0, dir.len() as int)[0]);
        },
        PathStep::Fallback(d) => {
            assert(full[0] == full.subrange(0, d@.len() as int)[0]);
        },
    }
}

/// The candidates are tried one after another, each once, and only a relative path is looked
/// for at all.
pub proof fn law_candidates_are_tried_in_turn(
    target: Target,
    is_absolute: bool,
    tried: int,
    step: PathStep,
)
    requires
        0 <= tried,
        is_next_step(target, is_absolute, tried, step),
    ensures
        is_absolute <==> step is Unchanged,
        !is_absolute && tried < candidates(target).len() ==> step is Try && step->Try_0@
            == candidates(target)[tried],
        !is_absolute && tried >= candidates(target).len() ==> step is Fallback && step->Fallback_0@
            == default_dir(target),
{
}

/// Every system but Windows looks first where the environment says that run-time files and
/// then where it says that temporary files are; only Android looks in the home directory, and
/// it alone looks in no fixed directory.
pub proof fn law_environment_comes_first(target: Target)
    ensures
        target == Target::Windows <==> candidates(target).len() == 0,
        target != Target::Windows ==> candidates(target).len() >= 3 && candidates(target)[0]
            == PrefixModel::EnvVar("XDG_RUNTIME_DIR"@) && candidates(target)[1]
            == PrefixModel::EnvVar("TMPDIR"@),
        target == Target::Android ==> candidates(target).subrange(2, candidates(target).len() as int)
            == seq![PrefixModel::EnvVar("HOME"@)],
        target == Target::MacOs ==> candidates(target).subrange(2, candidates(target).len() as int)
            == seq![PrefixModel::Dir("/var/run"@)],
        target == Target::OtherUnix ==> candidates(target).subrange(
            2,
            candidates(target).len() as int,
        ) == seq![PrefixModel::Dir("/run"@), PrefixModel::Dir("/var/run"@)],
{
    let c = candidates(target);
    match target {
        Target::Android => {
            assert(c.subrange(2, 3) =~= seq![PrefixModel::EnvVar("HOME"@)]);
        },
        Target::MacOs => {
            assert(c.subrange(2, 3) =~= seq![PrefixModel::Dir("/var/run"@)]);
        },
        Target::OtherUnix => {
            assert(c.subrange(2, 4) =~= seq![
                PrefixModel::Dir("/run"@),
                PrefixModel::Dir("/var/run"@),
            ]);
        },
        Target::Windows => {},
    }
}

/// A prefix stands for the variable or the directory that it names.
pub proof fn law_prefix_stands_for_its_name(name: &'static str)
    ensures
        Prefix::EnvVar(name)@ == PrefixModel::EnvVar(name@),
        Prefix::Dir(name)@ == PrefixModel::Dir(name@),
{
}

} // verus!
