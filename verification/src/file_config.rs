//! The configuration file's shape, as loaded by the caller and handed in
//! as plain values.

use vstd::prelude::*;
use vstd::string::*;

verus! {

/// The whole configuration file.
#[derive(Debug)]
pub struct FileConfig {
    pub no_banner: bool,
    pub verbose: bool,
    pub sort: bool,
    pub preview_cmd: Option<FilePreviewCommands>,
    pub preview_width: u32,
    pub default_dir: String,
    pub entries: Vec<FileEntry>,
}

/// A preview pair as the file writes it: a running template, and
/// optionally one for sessions that are not running.
#[derive(Debug, Clone)]
pub struct FilePreviewCommands {
    pub running: String,
    pub not_running: Option<String>,
}

/// One configuration entry as the file writes it.
#[derive(Debug)]
pub struct FileEntry {
    pub kind: FileEntryKind,
    pub name: String,
    pub workdir: String,
    pub excludes: Option<Vec<String>>,
    pub preview_cmd: Option<FilePreviewCommands>,
}

/// Whether an entry names a directory of projects or a single session.
#[derive(Debug, Clone, Copy, PartialEq, Eq, Structural)]
pub enum FileEntryKind {
    Dir,
    Plain,
}

/// The value a missing boolean field falls back to when absent.
pub fn default_bool_false() -> (r: bool)
    ensures
        r == false,
{
    false
}

/// The value the `sort` field falls back to when absent.
pub fn default_bool_true() -> (r: bool)
    ensures
        r == true,
{
    true
}

/// The preview-pane width a file without one gets.
pub fn default_preview_width() -> (r: u32)
    ensures
        r == 40,
{
    40
}

impl Default for FileConfig {
    /// The example configuration: every field filled with a placeholder
    /// a reader can start from.
    fn default() -> (r: FileConfig)
        ensures
            r.no_banner == true,
            r.verbose == false,
            r.sort == true,
            r.preview_width == 30,
            r.default_dir@ == "/"@,
            r.preview_cmd matches Some(p) && (p.running@
                == "tmux capture-pane -pe -t $(tmux list-panes -F '#{pane_id}' -s -t '{{name}}' -f '#{window_active}')"@
                && (p.not_running matches Some(n) && n@ == "ls -la"@)),
            r.entries@.len() == 2,
            r.entries@[0].kind is Plain,
            r.entries@[0].name@ == "My session"@,
            r.entries@[0].workdir@ == "/"@,
            r.entries@[0].excludes is None,
            r.entries@[0].preview_cmd matches Some(p) && (p.running@ == "ls -la"@
                && (p.not_running matches Some(n) && n@ == "ls -la"@)),
            r.entries@[1].kind is Dir,
            r.entries@[1].name@ == "My Projects Dir - {{name}} {{workdir}}"@,
            r.entries@[1].workdir@ == "/home/youruser"@,
            r.entries@[1].excludes matches Some(x) && (x@.len() == 1 && x@[0]@ == "somedir"@),
            r.entries@[1].preview_cmd is None,
    {
        let mut entries: Vec<FileEntry> = Vec::new();
        entries.push(
            FileEntry {
                name: String::from_str("My session"),
                workdir: String::from_str("/"),
                kind: FileEntryKind::Plain,
                preview_cmd: Some(
                    FilePreviewCommands {
                        running: String::from_str("ls -la"),
                        not_running: Some(String::from_str("ls -la")),
                    },
                ),
                excludes: None,
            },
        );
        let mut somedir: Vec<String> = Vec::new();
        somedir.push(String::from_str("somedir"));
        entries.push(
            FileEntry {
                name: String::from_str("My Projects Dir - {{name}} {{workdir}}"),
                workdir: String::from_str("/home/youruser"),
                kind: FileEntryKind::Dir,
                preview_cmd: None,
                excludes: Some(somedir),
            },
        );
        FileConfig {
            default_dir: String::from_str("/"),
            no_banner: true,
            verbose: false,
            sort: true,
            preview_cmd: Some(
                FilePreviewCommands {
                    running: String::from_str(
                        "tmux capture-pane -pe -t $(tmux list-panes -F '#{pane_id}' -s -t '{{name}}' -f '#{window_active}')",
                    ),
                    not_running: Some(String::from_str("ls -la")),
                },
            ),
            preview_width: 30,
            entries,
        }
    }
}

} // verus!
