use vstd::prelude::*;

verus! {

/// The two kinds of sources that the index is built from.
#[derive(Clone, Copy, Debug, PartialEq, Eq, Structural)]
pub enum SourceIndexKind {
    File,
    Git,
}

/// The sub-directory, below the index's persist path, that holds the
/// index of one kind of source.
pub open spec fn kind_subdir(kind: SourceIndexKind) -> Seq<char> {
    match kind {
        SourceIndexKind::File => seq!['f', 'i', 'l', 'e'],
        SourceIndexKind::Git => seq!['g', 'i', 't'],
    }
}

/// The kinds of sources that an index run covers, in the order they run:
/// files unless the config turns them off, then git history when the config
/// turns it on. `file_enabled` and `git_enabled` are the config's `enabled`
/// settings of the two sources, `None` where the config has no table for one.
pub open spec fn planned_sources(file_enabled: Option<bool>, git_enabled: Option<bool>) -> Seq<
    SourceIndexKind,
> {
    let files = match file_enabled {
        Some(b) => b,
        None => true,
    };
    let git = match git_enabled {
        Some(b) => b,
        None => false,
    };
    (if files {
        seq![SourceIndexKind::File]
    } else {
        Seq::empty()
    }) + (if git {
        seq![SourceIndexKind::Git]
    } else {
        Seq::empty()
    })
}

/// The kinds of sources that an index run covers, in the order they run.
pub fn sources_to_index(file_enabled: Option<bool>, git_enabled: Option<bool>) -> (v: Vec<
    SourceIndexKind,
>)
    ensures
        v@ == planned_sources(file_enabled, git_enabled),
{
    let mut v: Vec<SourceIndexKind> = Vec::new();
    let files = match file_enabled {
        Some(b) => b,
        None => true,
    };
    if files {
        v.push(SourceIndexKind::File);
    }
    let git = match git_enabled {
        Some(b) => b,
        None => false,
    };
    if git {
        v.push(SourceIndexKind::Git);
    }
    v
}

/// What an index run does next.
pub enum IndexRunStep {
    /// Index this kind of source.
    Run(SourceIndexKind),
    /// Every planned source is indexed; the run succeeds.
    Finished,
    /// The run stops with the error of the workflow that failed.
    Failed(String),
}

/// The next step of an index run over the planned sources `plan`, once the
/// first `done` of them ran and the last of those gave `last` (`Ok` before
/// the first). A failed workflow ends the run with its error, and no later
/// source runs; otherwise the sources run in the order planned.
pub fn index_run_next(plan: &Vec<SourceIndexKind>, done: usize, last: Result<(), String>) -> (s:
    IndexRunStep)
    ensures
        match last {
            Err(e) => s == IndexRunStep::Failed(e),
            Ok(_) => if done < plan.len() {
                s == IndexRunStep::Run(plan@[done as int])
            } else {
                s == IndexRunStep::Finished
            },
        },
{
    match last {
        Err(e) => IndexRunStep::Failed(e),
        Ok(_) => if done < plan.len() {
            IndexRunStep::Run(plan[done])
        } else {
            IndexRunStep::Finished
        },
    }
}

/// Which sources an index run covers: files exactly when the config does
/// not turn them off, whatever it says of git; git history exactly when the
/// config turns it on; each at most once, and files first.
pub proof fn law_planned_sources(file_enabled: Option<bool>, git_enabled: Option<bool>)
    ensures
        planned_sources(file_enabled, git_enabled).contains(SourceIndexKind::File) <==> file_enabled
            != Some(false),
        planned_sources(file_enabled, git_enabled).contains(SourceIndexKind::Git) <==> git_enabled
            == Some(true),
        planned_sources(file_enabled, git_enabled).no_duplicates(),
        planned_sources(file_enabled, git_enabled).contains(SourceIndexKind::File) ==> planned_sources(
            file_enabled,
            git_enabled,
        )[0] == SourceIndexKind::File,
        forall|i: int|
            0 <= i < planned_sources(file_enabled, git_enabled).len() ==> (#[trigger] planned_sources(
                file_enabled,
                git_enabled,
            )[i] == SourceIndexKind::File || planned_sources(file_enabled, git_enabled)[i]
                == SourceIndexKind::Git),
{
    let p = planned_sources(file_enabled, git_enabled);
    let f = seq![SourceIndexKind::File];
    let g = seq![SourceIndexKind::Git];
    let e = Seq::<SourceIndexKind>::empty();
    if file_enabled != Some(false) {
        if git_enabled == Some(true) {
            assert(p =~= seq![SourceIndexKind::File, SourceIndexKind::Git]);
            assert(p[1] == SourceIndexKind::Git);
        } else {
            assert(p =~= f);
        }
        assert(p[0] == SourceIndexKind::File);
    } else {
        if git_enabled == Some(true) {
            assert(p =~= g);
            assert(p[0] == SourceIndexKind::Git);
        } else {
            assert(p =~= e);
        }
    }
}

/// Files are kept under `file`, git history under `git`: two different
/// sub-directories.
pub proof fn law_subdirs()
    ensures
        kind_subdir(SourceIndexKind::File) == "file"@,
        kind_subdir(SourceIndexKind::Git) == "git"@,
        kind_subdir(SourceIndexKind::File) != kind_subdir(SourceIndexKind::Git),
{
    reveal_strlit("file");
    reveal_strlit("git");
    assert(kind_subdir(SourceIndexKind::File) =~= "file"@);
    assert(kind_subdir(SourceIndexKind::Git) =~= "git"@);
}

impl SourceIndexKind {
    /// Name of the sub-directory that holds this kind's index.
    pub fn subdir(&self) -> (dir: &'static str)
        ensures
            dir@ == kind_subdir(*self),
    {
        match self {
            SourceIndexKind::File => {
                let s = "file";
                proof {
                    reveal_strlit("file");
                }
                s
            },
            SourceIndexKind::Git => {
                let s = "git";
                proof {
                    reveal_strlit("git");
                }
                s
            },
        }
    }
}

} // verus!
