use tmux_sessionizer::args::Args;
use tmux_sessionizer::config::{Config, Entry, EntryDir, EntryPlain, Workdir};
use tmux_sessionizer::error::TmsError;
use tmux_sessionizer::file_config::{FileConfig, FileEntry, FileEntryKind};
use tmux_sessionizer::prompt_item::{DirChild, DirListing, DirListings, IntoPromptItems};
use tmux_sessionizer::tmux::{Sessions, SessionStats, TmuxOp};
use tmux_sessionizer::utils::EnvMap;

fn wd(s: &str) -> Workdir {
    Workdir::new(s, &EnvMap::new()).unwrap()
}

fn test_config(sort: bool) -> Config {
    Config {
        config_path: String::new(),
        command: None,
        hide_banner: true,
        verbose: false,
        sort,
        preview_commands: None,
        preview_width: 40,
        default_dir: wd("/default"),
        dry_run: false,
    }
}

fn plain(name: &str, dir: &str) -> Entry {
    Entry::Plain(EntryPlain {
        name: name.to_owned(),
        workdir: wd(dir),
        preview_cmd: None,
    })
}

#[test]
fn matched_session_appears_once_with_its_stats() {
    let entries = vec![plain("work", "/w"), plain("other", "/o")];
    let mut sessions = Sessions::new();
    sessions.insert(
        "work".to_owned(),
        SessionStats {
            window_count: 4,
            attached: false,
        },
    );

    let items = entries
        .into_prompt_items(&test_config(false), sessions, &DirListings::new(), &EnvMap::new())
        .unwrap();

    let named_work: Vec<_> = items.iter().filter(|i| i.name == "work").collect();
    assert_eq!(named_work.len(), 1);
    assert_eq!(
        named_work[0].stats,
        Some(SessionStats {
            window_count: 4,
            attached: false
        })
    );
    assert_eq!(items.len(), 2);
}

#[test]
fn orphan_session_is_synthesized_at_the_default_dir() {
    let entries = vec![plain("work", "/w")];
    let mut sessions = Sessions::new();
    sessions.insert(
        "stray".to_owned(),
        SessionStats {
            window_count: 2,
            attached: false,
        },
    );

    let items = entries
        .into_prompt_items(&test_config(false), sessions, &DirListings::new(), &EnvMap::new())
        .unwrap();

    let orphans: Vec<_> = items.iter().filter(|i| i.name == "stray").collect();
    assert_eq!(orphans.len(), 1);
    assert_eq!(orphans[0].workdir, wd("/default"));
    assert_eq!(
        orphans[0].stats,
        Some(SessionStats {
            window_count: 2,
            attached: false
        })
    );
}

#[test]
fn directory_entry_expands_to_unexcluded_children() {
    let entries = vec![Entry::Dir(EntryDir {
        name: "proj".to_owned(),
        workdir: wd("/root/projects"),
        excludes: Some(vec!["node_modules".to_owned()]),
        preview_cmd: None,
    })];
    let mut listings = DirListings::new();
    listings.push(DirListing {
        root: "/root/projects".to_owned(),
        children: vec![
            DirChild {
                path: Some("/root/projects/a".to_owned()),
                is_dir: true,
            },
            DirChild {
                path: Some("/root/projects/b".to_owned()),
                is_dir: true,
            },
            DirChild {
                path: Some("/root/projects/node_modules".to_owned()),
                is_dir: true,
            },
        ],
    });

    let items = entries
        .into_prompt_items(&test_config(false), Sessions::new(), &listings, &EnvMap::new())
        .unwrap();

    assert_eq!(items.len(), 2);
    assert_eq!(items[0].name, "proj - a");
    assert_eq!(items[0].workdir, wd("/root/projects/a"));
    assert_eq!(items[1].name, "proj - b");
}

#[test]
fn non_directory_children_are_skipped() {
    let entries = vec![Entry::Dir(EntryDir {
        name: "p".to_owned(),
        workdir: wd("/r"),
        excludes: None,
        preview_cmd: None,
    })];
    let mut listings = DirListings::new();
    listings.push(DirListing {
        root: "/r".to_owned(),
        children: vec![
            DirChild {
                path: Some("/r/readme.txt".to_owned()),
                is_dir: false,
            },
            DirChild {
                path: Some("/r/code".to_owned()),
                is_dir: true,
            },
        ],
    });

    let items = entries
        .into_prompt_items(&test_config(false), Sessions::new(), &listings, &EnvMap::new())
        .unwrap();

    assert_eq!(items.len(), 1);
    assert_eq!(items[0].name, "p - code");
}

#[test]
fn unlisted_root_is_an_io_error() {
    let entries = vec![Entry::Dir(EntryDir {
        name: "p".to_owned(),
        workdir: wd("/missing"),
        excludes: None,
        preview_cmd: None,
    })];

    let err = entries
        .into_prompt_items(&test_config(false), Sessions::new(), &DirListings::new(), &EnvMap::new())
        .unwrap_err();
    assert_eq!(
        err,
        TmsError::Io {
            path: "/missing".to_owned()
        }
    );
}

#[test]
fn unrepresentable_child_path_is_a_path_error() {
    let entries = vec![Entry::Dir(EntryDir {
        name: "p".to_owned(),
        workdir: wd("/r"),
        excludes: None,
        preview_cmd: None,
    })];
    let mut listings = DirListings::new();
    listings.push(DirListing {
        root: "/r".to_owned(),
        children: vec![DirChild {
            path: None,
            is_dir: true,
        }],
    });

    let err = entries
        .into_prompt_items(&test_config(false), Sessions::new(), &listings, &EnvMap::new())
        .unwrap_err();
    assert_eq!(err, TmsError::Path);
}

#[test]
fn end_to_end_plain_entry_sorted_then_planned() {
    // A single plain entry, no live sessions, sort enabled: the ranked
    // output is that one candidate without stats, and with the
    // multiplexer down and the caller outside, the plan is one blocking
    // create.
    let (mut args, mut file) = (Args::default(), FileConfig::default());
    args.sort = true;
    file.preview_cmd = None;
    file.entries = vec![FileEntry {
        kind: FileEntryKind::Plain,
        name: "proj".to_owned(),
        workdir: "/tmp/proj".to_owned(),
        excludes: None,
        preview_cmd: None,
    }];

    let (config, entries) = Config::construct(args, file, &EnvMap::new())
        .unwrap()
        .value();
    assert!(config.sort);

    let items = entries
        .into_prompt_items(&config, Sessions::new(), &DirListings::new(), &EnvMap::new())
        .unwrap();

    assert_eq!(items.len(), 1);
    assert_eq!(items[0].name, "proj");
    assert_eq!(items[0].stats, None);

    let plan = tmux_sessionizer::tmux::switch_plan(
        items[0].name.as_str(),
        items[0].workdir.as_ref(),
        false,
        false,
        false,
        false,
    );
    assert_eq!(
        plan,
        vec![TmuxOp::NewSession {
            name: "proj".to_owned(),
            cwd: "/tmp/proj".to_owned(),
            detached: false,
        }]
    );
}
