use tmux_sessionizer::config::Workdir;
use tmux_sessionizer::prompt_item::{find_attached, sorted_items, PromptItem};
use tmux_sessionizer::tmux::SessionStats;
use tmux_sessionizer::utils::EnvMap;

fn wd(s: &str) -> Workdir {
    Workdir::new(s, &EnvMap::new()).unwrap()
}

fn item(name: &str, stats: Option<SessionStats>) -> PromptItem {
    PromptItem {
        name: name.to_owned(),
        workdir: wd("/x"),
        stats,
        preview_cmd: None,
    }
}

#[test]
fn ranking_is_total_over_the_three_groups() {
    // One attached, one unattached with stats, one without stats: every
    // input order ranks them attached, with-stats, without.
    let attached = item(
        "att",
        Some(SessionStats {
            window_count: 1,
            attached: true,
        }),
    );
    let running = item(
        "run",
        Some(SessionStats {
            window_count: 5,
            attached: false,
        }),
    );
    let idle = item("idle", None);

    let orders: Vec<Vec<PromptItem>> = vec![
        vec![attached.clone(), running.clone(), idle.clone()],
        vec![attached.clone(), idle.clone(), running.clone()],
        vec![running.clone(), attached.clone(), idle.clone()],
        vec![running.clone(), idle.clone(), attached.clone()],
        vec![idle.clone(), attached.clone(), running.clone()],
        vec![idle.clone(), running.clone(), attached.clone()],
    ];
    for input in orders {
        let sorted = sorted_items(input);
        let names: Vec<&str> = sorted.iter().map(|i| i.name.as_str()).collect();
        assert_eq!(names, vec!["att", "run", "idle"]);
    }
}

#[test]
fn more_windows_sort_first() {
    let two = item(
        "two",
        Some(SessionStats {
            window_count: 2,
            attached: false,
        }),
    );
    let nine = item(
        "nine",
        Some(SessionStats {
            window_count: 9,
            attached: false,
        }),
    );
    let sorted = sorted_items(vec![two, nine]);
    assert_eq!(sorted[0].name, "nine");
    assert_eq!(sorted[1].name, "two");
}

#[test]
fn equal_window_counts_tie_break_case_insensitively() {
    // "Zeta" against "alpha": by raw code points "Zeta" would come
    // first; case-insensitively "alpha" does.
    let zeta = item(
        "Zeta",
        Some(SessionStats {
            window_count: 3,
            attached: false,
        }),
    );
    let alpha = item(
        "alpha",
        Some(SessionStats {
            window_count: 3,
            attached: false,
        }),
    );
    let sorted = sorted_items(vec![zeta, alpha]);
    assert_eq!(sorted[0].name, "alpha");
    assert_eq!(sorted[1].name, "Zeta");
}

#[test]
fn stat_less_candidates_sort_by_name() {
    let b = item("Bravo", None);
    let a = item("alpha", None);
    let c = item("Charlie", None);
    let sorted = sorted_items(vec![c, b, a]);
    let names: Vec<&str> = sorted.iter().map(|i| i.name.as_str()).collect();
    assert_eq!(names, vec!["alpha", "Bravo", "Charlie"]);
}

#[test]
fn find_attached_picks_the_first_attached_candidate() {
    let items = vec![
        item("a", None),
        item(
            "b",
            Some(SessionStats {
                window_count: 1,
                attached: true,
            }),
        ),
        item(
            "c",
            Some(SessionStats {
                window_count: 1,
                attached: true,
            }),
        ),
    ];
    assert_eq!(find_attached(&items), Some(1));
    assert_eq!(find_attached(&vec![item("a", None)]), None);
}
