use tmux_sessionizer::config::{PreviewCommands, Workdir};
use tmux_sessionizer::prompt::gen_header;
use tmux_sessionizer::prompt_item::PromptItem;
use tmux_sessionizer::tmux::SessionStats;
use tmux_sessionizer::utils::EnvMap;

fn wd(s: &str) -> Workdir {
    Workdir::new(s, &EnvMap::new()).unwrap()
}

#[test]
fn text_row_matches_the_display_format() {
    let item = PromptItem {
        name: "proj".to_owned(),
        workdir: wd("/tmp/proj"),
        stats: Some(SessionStats {
            window_count: 3,
            attached: true,
        }),
        preview_cmd: None,
    };
    let tail = format!("{} window(s)", 3);
    let expected = format!("{:<3} {:<40} {:<60} {}", "(*)", "proj", "/tmp/proj", tail);
    assert_eq!(item.text(), expected);
}

#[test]
fn text_row_without_stats_leaves_mark_and_count_empty() {
    let item = PromptItem {
        name: "idle".to_owned(),
        workdir: wd("/w"),
        stats: None,
        preview_cmd: None,
    };
    let expected = format!("{:<3} {:<40} {:<60} {}", "", "idle", "/w", "");
    assert_eq!(item.text(), expected);
}

#[test]
fn output_is_name_and_directory() {
    let item = PromptItem {
        name: "proj".to_owned(),
        workdir: wd("/tmp/proj"),
        stats: None,
        preview_cmd: None,
    };
    assert_eq!(item.output(), "proj /tmp/proj");
}

#[test]
fn preview_substitutes_both_placeholders() {
    let item = PromptItem {
        name: "proj".to_owned(),
        workdir: wd("/tmp/proj"),
        stats: Some(SessionStats {
            window_count: 1,
            attached: false,
        }),
        preview_cmd: Some(PreviewCommands {
            running: Some("show {{name}} at {{workdir}}".to_owned()),
            not_running: Some("ls {{workdir}}".to_owned()),
        }),
    };
    assert_eq!(
        item.preview_command(),
        Some("show proj at /tmp/proj".to_owned())
    );
}

#[test]
fn preview_uses_the_not_running_template_without_stats() {
    let item = PromptItem {
        name: "proj".to_owned(),
        workdir: wd("/tmp/proj"),
        stats: None,
        preview_cmd: Some(PreviewCommands {
            running: Some("cap {{name}}".to_owned()),
            not_running: Some("ls {{workdir}}".to_owned()),
        }),
    };
    assert_eq!(item.preview_command(), Some("ls /tmp/proj".to_owned()));
}

#[test]
fn preview_is_empty_when_the_applicable_template_is_absent() {
    let item = PromptItem {
        name: "proj".to_owned(),
        workdir: wd("/w"),
        stats: None,
        preview_cmd: Some(PreviewCommands {
            running: Some("cap".to_owned()),
            not_running: None,
        }),
    };
    assert_eq!(item.preview_command(), None);
}

#[test]
fn header_is_the_banner_and_the_column_row() {
    let row = format!(
        "{:^3} {:^40} {:^60} {}",
        "*", "Name", "Working Directory", "Window Count"
    );
    let hidden = gen_header(&true);
    assert_eq!(hidden, row);
    let shown = gen_header(&false);
    assert!(shown.ends_with(&row));
    assert!(shown.len() > row.len());
    assert!(shown.contains("$$"));
}
