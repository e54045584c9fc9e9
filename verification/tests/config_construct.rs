use tmux_sessionizer::args::{Args, Command};
use tmux_sessionizer::config::{Config, Entry, EntryDir, EntryPlain, PreviewCommands, Workdir};
use tmux_sessionizer::error::TmsError;
use tmux_sessionizer::file_config::{FileConfig, FileEntry, FileEntryKind, FilePreviewCommands};
use tmux_sessionizer::utils::EnvMap;

fn setup() -> (Args, FileConfig) {
    (Args::default(), FileConfig::default())
}

fn wd(s: &str) -> Workdir {
    Workdir::new(s, &EnvMap::new()).unwrap()
}

#[test]
fn entries() {
    let (args, mut file) = setup();
    file.preview_cmd = None;
    file.entries = vec![
        FileEntry {
            kind: FileEntryKind::Plain,
            name: "plain name".to_owned(),
            workdir: "/home/test/".to_owned(),
            excludes: None,
            preview_cmd: None,
        },
        FileEntry {
            kind: FileEntryKind::Dir,
            name: "plain name".to_owned(),
            workdir: "/home/test/".to_owned(),
            excludes: Some(vec!["dir1".to_owned()]),
            preview_cmd: None,
        },
    ];

    let result = Config::construct(args, file, &EnvMap::new()).unwrap().value();

    assert_eq!(
        result.1[0],
        Entry::Plain(EntryPlain {
            name: "plain name".to_owned(),
            workdir: wd("/home/test/"),
            preview_cmd: None,
        })
    );
    assert_eq!(
        result.1[1],
        Entry::Dir(EntryDir {
            name: "plain name".to_owned(),
            workdir: wd("/home/test/"),
            preview_cmd: None,
            excludes: Some(vec!["dir1".to_owned()]),
        })
    );
}

#[test]
fn default_dir() {
    let (args, mut file) = setup();
    file.default_dir = "some def dir".to_owned();

    let result = Config::construct(args, file, &EnvMap::new()).unwrap().value();

    assert_eq!(result.0.default_dir, wd("some def dir"));
}

#[test]
fn preview_width() {
    let (args, mut file) = setup();
    file.preview_width = 99;

    let result = Config::construct(args, file, &EnvMap::new()).unwrap().value();

    assert_eq!(result.0.preview_width, 99);
}

#[test]
fn dry_run() {
    let (mut args, file) = setup();
    args.dry_run = true;

    let result = Config::construct(args, file, &EnvMap::new()).unwrap().value();

    assert!(result.0.dry_run);
}

#[test]
fn correct_config_path() {
    let path = "/home/test/some/path/file.toml".to_owned();
    let (mut args, file) = setup();
    args.config = path.clone();

    let result = Config::construct(args, file, &EnvMap::new()).unwrap().value();

    assert_eq!(result.0.config_path, path);
}

#[test]
fn correct_command() {
    let (mut args, file) = setup();
    args.command = Some(Command::Switch {
        name: "test".to_owned(),
        grouped: true,
    });

    let result = Config::construct(args, file, &EnvMap::new()).unwrap().value();

    assert_eq!(
        result.0.command,
        Some(Command::Switch {
            name: "test".to_owned(),
            grouped: true,
        })
    );
}

#[test]
fn no_banner_merges_either_source() {
    for (arg_val, file_val, expected) in [
        (true, false, true),
        (false, true, true),
        (false, false, false),
        (true, true, true),
    ] {
        let (mut args, mut file) = setup();
        args.no_banner = arg_val;
        file.no_banner = file_val;

        let result = Config::construct(args, file, &EnvMap::new()).unwrap().value();
        assert_eq!(result.0.hide_banner, expected);
    }
}

#[test]
fn verbose_merges_either_source() {
    for (arg_val, file_val, expected) in [
        (true, false, true),
        (false, true, true),
        (false, false, false),
        (true, true, true),
    ] {
        let (mut args, mut file) = setup();
        args.verbose = arg_val;
        file.verbose = file_val;

        let result = Config::construct(args, file, &EnvMap::new()).unwrap().value();
        assert_eq!(result.0.verbose, expected);
    }
}

#[test]
fn sort_merges_either_source() {
    for (arg_val, file_val, expected) in [
        (true, false, true),
        (false, true, true),
        (false, false, false),
        (true, true, true),
    ] {
        let (mut args, mut file) = setup();
        args.sort = arg_val;
        file.sort = file_val;

        let result = Config::construct(args, file, &EnvMap::new()).unwrap().value();
        assert_eq!(result.0.sort, expected);
    }
}

#[test]
fn preview_commands_only_args() {
    let (mut args, file) = setup();
    args.preview = Some("preview".to_owned());
    args.preview_no_session = Some("no sess".to_owned());

    let result = Config::construct(args, file, &EnvMap::new()).unwrap().value();

    assert_eq!(
        result.0.preview_commands,
        Some(PreviewCommands {
            running: Some("preview".to_owned()),
            not_running: Some("no sess".to_owned()),
        })
    )
}

#[test]
fn preview_commands_only_file() {
    let (args, mut file) = setup();
    file.preview_cmd = Some(FilePreviewCommands {
        running: "preview".to_owned(),
        not_running: Some("no sess".to_owned()),
    });

    let result = Config::construct(args, file, &EnvMap::new()).unwrap().value();

    assert_eq!(
        result.0.preview_commands,
        Some(PreviewCommands {
            running: Some("preview".to_owned()),
            not_running: Some("no sess".to_owned()),
        })
    )
}

#[test]
fn preview_commands_only_args_precedence() {
    let (mut args, mut file) = setup();
    args.preview = Some("preview".to_owned());
    args.preview_no_session = Some("no sess".to_owned());

    file.preview_cmd = Some(FilePreviewCommands {
        running: "preview file".to_owned(),
        not_running: Some("no sess file".to_owned()),
    });

    let result = Config::construct(args, file, &EnvMap::new()).unwrap().value();

    assert_eq!(
        result.0.preview_commands,
        Some(PreviewCommands {
            running: Some("preview".to_owned()),
            not_running: Some("no sess".to_owned()),
        })
    )
}

#[test]
fn entry_preview_field_level_precedence() {
    // Global {running: "G", not_running: "g"}, entry {running: "E"},
    // caller override {not_running: "C"}: resolved {running: "E",
    // not_running: "C"}.
    let (mut args, mut file) = setup();
    args.preview_no_session = Some("C".to_owned());
    file.preview_cmd = Some(FilePreviewCommands {
        running: "G".to_owned(),
        not_running: Some("g".to_owned()),
    });
    file.entries = vec![FileEntry {
        kind: FileEntryKind::Plain,
        name: "p".to_owned(),
        workdir: "/tmp".to_owned(),
        excludes: None,
        preview_cmd: Some(FilePreviewCommands {
            running: "E".to_owned(),
            not_running: None,
        }),
    }];

    let result = Config::construct(args, file, &EnvMap::new()).unwrap().value();

    match &result.1[0] {
        Entry::Plain(p) => assert_eq!(
            p.preview_cmd,
            Some(PreviewCommands {
                running: Some("E".to_owned()),
                not_running: Some("C".to_owned()),
            })
        ),
        _ => panic!("expected a plain entry"),
    }
}

#[test]
fn excludes_on_plain_entry_is_a_config_error() {
    let (args, mut file) = setup();
    file.entries = vec![FileEntry {
        kind: FileEntryKind::Plain,
        name: "bad one".to_owned(),
        workdir: "/tmp".to_owned(),
        excludes: Some(vec!["x".to_owned()]),
        preview_cmd: None,
    }];

    let err = Config::construct(args, file, &EnvMap::new()).unwrap_err();
    assert_eq!(
        err,
        TmsError::Config {
            entry: "bad one".to_owned()
        }
    );
}

#[test]
fn unset_variable_is_an_envsubst_error() {
    let (args, mut file) = setup();
    file.entries = vec![FileEntry {
        kind: FileEntryKind::Plain,
        name: "p".to_owned(),
        workdir: "$NO_SUCH_VARIABLE_SET/x".to_owned(),
        excludes: None,
        preview_cmd: None,
    }];

    let err = Config::construct(args, file, &EnvMap::new()).unwrap_err();
    assert_eq!(
        err,
        TmsError::EnvSubst {
            var: "NO_SUCH_VARIABLE_SET".to_owned()
        }
    );
}
