//! The effective configuration: command-line flags merged with the
//! configuration file, preview templates resolved field by field, and the
//! file's entries turned into expanded-ready values.

use vstd::prelude::*;
use vstd::string::*;

use crate::args::{Args, Command};
use crate::error::TmsError;
use crate::file_config::{FileConfig, FileEntry, FileEntryKind, FilePreviewCommands};
use crate::utils::{envsubst, envsubst_err_var, envsubst_spec, EnvMap};

verus! {

/// A resolved preview pair: a template for a running session and one for
/// a session that is not running, either of which may be absent.
#[derive(Debug, Clone, PartialEq)]
pub struct PreviewCommands {
    pub running: Option<String>,
    pub not_running: Option<String>,
}

/// An environment-substituted working directory.
#[derive(Debug, Clone, PartialEq)]
pub struct Workdir(String);

impl View for Workdir {
    type V = Seq<char>;

    closed spec fn view(&self) -> Seq<char> {
        self.0@
    }
}

impl Workdir {
    /// Substitute `value` against `env`. Fails exactly when a referenced
    /// variable is unbound, naming the first such variable.
    pub fn new(value: &str, env: &EnvMap) -> (r: Result<Workdir, TmsError>)
        ensures
            r matches Ok(w) ==> envsubst_spec(value@, env@) == Some(w@),
            r is Ok <==> envsubst_spec(value@, env@) is Some,
            r matches Err(e) ==> e matches TmsError::EnvSubst { var } && var@ == envsubst_err_var(
                value@,
                env@,
            ),
    {
        match envsubst(value, env) {
            Ok(s) => Ok(Workdir(s)),
            Err(e) => Err(e),
        }
    }

    /// The directory as text.
    pub fn as_ref(&self) -> (r: &str)
        ensures
            r@ == self@,
    {
        self.0.as_str()
    }

    /// A value-equal copy.
    pub fn duplicate(&self) -> (r: Workdir)
        ensures
            r == *self,
    {
        Workdir(self.0.clone())
    }
}

/// One expanded-ready configuration entry.
#[derive(Debug, PartialEq)]
pub enum Entry {
    Dir(EntryDir),
    Plain(EntryPlain),
}

/// An entry that expands to one candidate per subdirectory of its root.
#[derive(Debug, PartialEq)]
pub struct EntryDir {
    pub name: String,
    pub workdir: Workdir,
    pub excludes: Option<Vec<String>>,
    pub preview_cmd: Option<PreviewCommands>,
}

/// An entry that is itself one candidate.
#[derive(Debug, PartialEq)]
pub struct EntryPlain {
    pub name: String,
    pub workdir: Workdir,
    pub preview_cmd: Option<PreviewCommands>,
}

/// The effective configuration after merging flags and file.
#[derive(Debug)]
pub struct Config {
    pub config_path: String,
    pub command: Option<Command>,
    pub hide_banner: bool,
    pub verbose: bool,
    pub sort: bool,
    pub preview_commands: Option<PreviewCommands>,
    pub preview_width: u32,
    pub default_dir: Workdir,
    pub dry_run: bool,
}

/// The configuration together with its entries.
#[derive(Debug)]
pub struct ConfigWithEntries(Config, Vec<Entry>);

impl ConfigWithEntries {
    /// The configuration half.
    pub closed spec fn cfg(&self) -> Config {
        self.0
    }

    /// The entries half.
    pub closed spec fn entries_seq(&self) -> Seq<Entry> {
        self.1@
    }

    /// Borrow both halves.
    pub fn as_ref(&self) -> (r: (&Config, &Vec<Entry>))
        ensures
            *r.0 == self.cfg(),
            r.1@ == self.entries_seq(),
    {
        (&self.0, &self.1)
    }

    /// Take both halves.
    pub fn value(self) -> (r: (Config, Vec<Entry>))
        ensures
            r.0 == self.cfg(),
            r.1@ == self.entries_seq(),
    {
        (self.0, self.1)
    }
}

/// A preview pair reduced to its two template fields.
pub open spec fn preview_pair(o: Option<PreviewCommands>) -> Option<(Option<String>, Option<
    String,
>)> {
    match o {
        Some(pc) => Some((pc.running, pc.not_running)),
        None => None,
    }
}

/// What the caller-level merge yields: a caller override wins over the
/// file's pair, field by field; nothing set anywhere means no preview.
pub open spec fn global_preview(
    preview: Option<String>,
    preview_no_session: Option<String>,
    file_pc: Option<FilePreviewCommands>,
) -> Option<(Option<String>, Option<String>)> {
    if preview is None && preview_no_session is None && file_pc is None {
        None
    } else {
        Some(
            (
                if preview is Some {
                    preview
                } else {
                    match file_pc {
                        Some(f) => Some(f.running),
                        None => None,
                    }
                },
                if preview_no_session is Some {
                    preview_no_session
                } else {
                    match file_pc {
                        Some(f) => f.not_running,
                        None => None,
                    }
                },
            ),
        )
    }
}

/// What the entry-level merge yields: for each field independently, a
/// caller override keeps the merged global value, else the entry's own
/// value wins, else the global value stands.
pub open spec fn entry_preview(
    global: Option<PreviewCommands>,
    entry_pc: Option<FilePreviewCommands>,
    caller_running: bool,
    caller_not_running: bool,
) -> Option<(Option<String>, Option<String>)> {
    if global is None && entry_pc is None {
        None
    } else {
        let g_run = match global {
            Some(g) => g.running,
            None => None,
        };
        let g_norun = match global {
            Some(g) => g.not_running,
            None => None,
        };
        let e_run = match entry_pc {
            Some(e) => Some(e.running),
            None => None,
        };
        let e_norun = match entry_pc {
            Some(e) => e.not_running,
            None => None,
        };
        Some(
            (
                if !caller_running && e_run is Some {
                    e_run
                } else {
                    g_run
                },
                if !caller_not_running && e_norun is Some {
                    e_norun
                } else {
                    g_norun
                },
            ),
        )
    }
}

/// Merge the two caller overrides with the file's preview pair.
pub fn resolve_global_preview(
    preview: &Option<String>,
    preview_no_session: &Option<String>,
    file_pc: Option<FilePreviewCommands>,
) -> (r: Option<PreviewCommands>)
    ensures
        preview_pair(r) == global_preview(*preview, *preview_no_session, file_pc),
{
    if preview.is_none() && preview_no_session.is_none() && file_pc.is_none() {
        return None;
    }
    let (f_run, f_norun) = match file_pc {
        Some(f) => (Some(f.running), f.not_running),
        None => (None, None),
    };
    let running = match preview {
        Some(p) => Some(p.clone()),
        None => f_run,
    };
    let not_running = match preview_no_session {
        Some(p) => Some(p.clone()),
        None => f_norun,
    };
    Some(PreviewCommands { running, not_running })
}

/// Merge an entry's preview pair over the global one, honouring which
/// fields the caller supplied.
pub fn resolve_entry_preview(
    global: &Option<PreviewCommands>,
    entry_pc: Option<FilePreviewCommands>,
    caller_running: bool,
    caller_not_running: bool,
) -> (r: Option<PreviewCommands>)
    ensures
        preview_pair(r) == entry_preview(*global, entry_pc, caller_running, caller_not_running),
{
    if global.is_none() && entry_pc.is_none() {
        return None;
    }
    let (g_run, g_norun) = match global {
        Some(g) => {
            let gr = match &g.running {
                Some(s) => Some(s.clone()),
                None => None,
            };
            let gn = match &g.not_running {
                Some(s) => Some(s.clone()),
                None => None,
            };
            (gr, gn)
        },
        None => (None, None),
    };
    let (e_run, e_norun) = match entry_pc {
        Some(e) => (Some(e.running), e.not_running),
        None => (None, None),
    };
    let running = if !caller_running && e_run.is_some() {
        e_run
    } else {
        g_run
    };
    let not_running = if !caller_not_running && e_norun.is_some() {
        e_norun
    } else {
        g_norun
    };
    Some(PreviewCommands { running, not_running })
}

/// An entry converts cleanly: `excludes` only on a `Dir` entry, and a
/// substitutable working directory.
pub open spec fn conv_entry_ok(fe: FileEntry, env: Seq<(Seq<char>, Seq<char>)>) -> bool {
    &&& !(fe.kind is Plain && fe.excludes is Some)
    &&& envsubst_spec(fe.workdir@, env) is Some
}

/// The index of the first entry that does not convert, or -1.
pub open spec fn first_bad_entry(fes: Seq<FileEntry>, env: Seq<(Seq<char>, Seq<char>)>) -> int
    decreases fes.len(),
{
    if fes.len() == 0 {
        -1
    } else if !conv_entry_ok(fes[0], env) {
        0
    } else if first_bad_entry(fes.drop_first(), env) < 0 {
        -1
    } else {
        1 + first_bad_entry(fes.drop_first(), env)
    }
}

proof fn lemma_no_bad_entry(fes: Seq<FileEntry>, env: Seq<(Seq<char>, Seq<char>)>)
    requires
        forall|j: int| 0 <= j < fes.len() ==> conv_entry_ok(#[trigger] fes[j], env),
    ensures
        first_bad_entry(fes, env) == -1,
    decreases fes.len(),
{
    if fes.len() > 0 {
        assert forall|j: int| 0 <= j < fes.drop_first().len() implies conv_entry_ok(
            #[trigger] fes.drop_first()[j],
            env,
        ) by {
            assert(fes.drop_first()[j] == fes[j + 1]);
        }
        lemma_no_bad_entry(fes.drop_first(), env);
    }
}

proof fn lemma_first_bad_entry(fes: Seq<FileEntry>, env: Seq<(Seq<char>, Seq<char>)>, i: int)
    requires
        0 <= i < fes.len(),
        !conv_entry_ok(fes[i], env),
        forall|j: int| 0 <= j < i ==> conv_entry_ok(#[trigger] fes[j], env),
    ensures
        first_bad_entry(fes, env) == i,
    decreases i,
{
    if i == 0 {
    } else {
        assert forall|j: int| 0 <= j < i - 1 implies conv_entry_ok(
            #[trigger] fes.drop_first()[j],
            env,
        ) by {
            assert(fes.drop_first()[j] == fes[j + 1]);
        }
        assert(fes.drop_first()[i - 1] == fes[i]);
        lemma_first_bad_entry(fes.drop_first(), env, i - 1);
    }
}

/// The converted entry keeps the file entry's fields, with the working
/// directory substituted and the preview pair resolved.
pub open spec fn entry_matches(
    e: Entry,
    fe: FileEntry,
    global: Option<PreviewCommands>,
    caller_running: bool,
    caller_not_running: bool,
    env: Seq<(Seq<char>, Seq<char>)>,
) -> bool {
    match fe.kind {
        FileEntryKind::Dir => e matches Entry::Dir(d) && {
            &&& d.name == fe.name
            &&& envsubst_spec(fe.workdir@, env) == Some(d.workdir@)
            &&& d.excludes == fe.excludes
            &&& preview_pair(d.preview_cmd) == entry_preview(
                global,
                fe.preview_cmd,
                caller_running,
                caller_not_running,
            )
        },
        FileEntryKind::Plain => e matches Entry::Plain(p) && {
            &&& p.name == fe.name
            &&& envsubst_spec(fe.workdir@, env) == Some(p.workdir@)
            &&& preview_pair(p.preview_cmd) == entry_preview(
                global,
                fe.preview_cmd,
                caller_running,
                caller_not_running,
            )
        },
    }
}

impl Config {
    /// Merge the command line with the configuration file. Succeeds
    /// exactly when every entry is well-formed (`excludes` only on `Dir`)
    /// and every working directory, the default one included,
    /// substitutes; the first failure wins.
    pub fn construct(args: Args, file_config: FileConfig, env: &EnvMap) -> (r: Result<
        ConfigWithEntries,
        TmsError,
    >)
        ensures
            r is Ok <==> ((forall|i: int|
                0 <= i < file_config.entries@.len() ==> conv_entry_ok(
                    #[trigger] file_config.entries@[i],
                    env@,
                )) && envsubst_spec(file_config.default_dir@, env@) is Some),
            r matches Ok(cwe) ==> {
                let c = cwe.cfg();
                &&& c.config_path == args.config
                &&& c.command == args.command
                &&& c.hide_banner == (args.no_banner || file_config.no_banner)
                &&& c.verbose == (args.verbose || file_config.verbose)
                &&& c.sort == (args.sort || file_config.sort)
                &&& c.preview_width == file_config.preview_width
                &&& c.dry_run == args.dry_run
                &&& envsubst_spec(file_config.default_dir@, env@) == Some(c.default_dir@)
                &&& preview_pair(c.preview_commands) == global_preview(
                    args.preview,
                    args.preview_no_session,
                    file_config.preview_cmd,
                )
                &&& cwe.entries_seq().len() == file_config.entries@.len()
                &&& (forall|i: int|
                    0 <= i < file_config.entries@.len() ==> entry_matches(
                        #[trigger] cwe.entries_seq()[i],
                        file_config.entries@[i],
                        c.preview_commands,
                        args.preview is Some,
                        args.preview_no_session is Some,
                        env@,
                    ))
            },
            r matches Err(e) ==> {
                let fes = file_config.entries@;
                let b = first_bad_entry(fes, env@);
                if b >= 0 {
                    if fes[b].kind is Plain && fes[b].excludes is Some {
                        e matches TmsError::Config { entry } && entry == fes[b].name
                    } else {
                        e matches TmsError::EnvSubst { var } && var@ == envsubst_err_var(
                            fes[b].workdir@,
                            env@,
                        )
                    }
                } else {
                    e matches TmsError::EnvSubst { var } && var@ == envsubst_err_var(
                        file_config.default_dir@,
                        env@,
                    )
                }
            },
    {
        let caller_running = args.preview.is_some();
        let caller_not_running = args.preview_no_session.is_some();
        let preview_commands = resolve_global_preview(
            &args.preview,
            &args.preview_no_session,
            file_config.preview_cmd,
        );
        let ghost fev = file_config.entries@;
        let mut fes = file_config.entries;
        let mut entries: Vec<Entry> = Vec::new();
        let mut done: usize = 0;
        let n_total: usize = fes.len();
        proof {
            assert(fev.len() == n_total);
        }
        while fes.len() > 0
            invariant
                fev == file_config.entries@,
                fev.len() <= usize::MAX,
                done + fes@.len() == fev.len(),
                fes@ =~= fev.skip(done as int),
                entries@.len() == done,
                forall|j: int| 0 <= j < done ==> conv_entry_ok(#[trigger] fev[j], env@),
                forall|j: int|
                    0 <= j < done ==> entry_matches(
                        #[trigger] entries@[j],
                        fev[j],
                        preview_commands,
                        caller_running,
                        caller_not_running,
                        env@,
                    ),
                preview_pair(preview_commands) == global_preview(
                    args.preview,
                    args.preview_no_session,
                    file_config.preview_cmd,
                ),
                caller_running == args.preview is Some,
                caller_not_running == args.preview_no_session is Some,
            decreases fes@.len(),
        {
            let ele = fes.remove(0);
            proof {
                assert(ele == fev[done as int]);
                assert(fes@ =~= fev.skip(done + 1));
            }
            let resolved = resolve_entry_preview(
                &preview_commands,
                ele.preview_cmd,
                caller_running,
                caller_not_running,
            );
            let converted: Entry = match ele.kind {
                FileEntryKind::Dir => {
                    match Workdir::new(ele.workdir.as_str(), env) {
                        Ok(w) => Entry::Dir(
                            EntryDir {
                                name: ele.name,
                                workdir: w,
                                excludes: ele.excludes,
                                preview_cmd: resolved,
                            },
                        ),
                        Err(e) => {
                            proof {
                                lemma_first_bad_entry(fev, env@, done as int);
                            }
                            return Err(e);
                        },
                    }
                },
                FileEntryKind::Plain => {
                    if ele.excludes.is_some() {
                        proof {
                            lemma_first_bad_entry(fev, env@, done as int);
                        }
                        return Err(TmsError::Config { entry: ele.name });
                    }
                    match Workdir::new(ele.workdir.as_str(), env) {
                        Ok(w) => Entry::Plain(
                            EntryPlain { name: ele.name, workdir: w, preview_cmd: resolved },
                        ),
                        Err(e) => {
                            proof {
                                lemma_first_bad_entry(fev, env@, done as int);
                            }
                            return Err(e);
                        },
                    }
                },
            };
            entries.push(converted);
            done += 1;
        }
        proof {
            assert(fev.skip(fev.len() as int).len() == 0);
        }
        let default_dir = match Workdir::new(file_config.default_dir.as_str(), env) {
            Ok(w) => w,
            Err(e) => {
                proof {
                    lemma_no_bad_entry(fev, env@);
                }
                return Err(e);
            },
        };
        Ok(
            ConfigWithEntries(
                Config {
                    preview_commands,
                    config_path: args.config,
                    command: args.command,
                    hide_banner: args.no_banner || file_config.no_banner,
                    verbose: args.verbose || file_config.verbose,
                    sort: args.sort || file_config.sort,
                    preview_width: file_config.preview_width,
                    dry_run: args.dry_run,
                    default_dir,
                },
                entries,
            ),
        )
    }
}

} // verus!
