use tmux_sessionizer::file_config::{
    default_bool_false, default_bool_true, default_preview_width, FileConfig, FileEntryKind,
};

#[test]
fn fallback_values_for_missing_fields() {
    assert!(!default_bool_false());
    assert!(default_bool_true());
    assert_eq!(default_preview_width(), 40);
}

#[test]
fn example_configuration_shape() {
    let file = FileConfig::default();
    assert!(file.no_banner);
    assert!(!file.verbose);
    assert!(file.sort);
    assert_eq!(file.preview_width, 30);
    assert_eq!(file.default_dir, "/");
    assert_eq!(file.entries.len(), 2);
    assert!(matches!(file.entries[0].kind, FileEntryKind::Plain));
    assert_eq!(file.entries[0].name, "My session");
    assert!(matches!(file.entries[1].kind, FileEntryKind::Dir));
    assert_eq!(
        file.entries[1].excludes,
        Some(vec!["somedir".to_owned()])
    );
    let pc = file.preview_cmd.unwrap();
    assert_eq!(pc.not_running, Some("ls -la".to_owned()));
    assert!(pc.running.contains("tmux capture-pane"));
}
