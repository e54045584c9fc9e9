use tmux_sessionizer::tmux::{switch_plan, TmuxOp};

fn new_session(detached: bool) -> TmuxOp {
    TmuxOp::NewSession {
        name: "s".to_owned(),
        cwd: "/w".to_owned(),
        detached,
    }
}

#[test]
fn cold_start_outside_tmux_is_one_blocking_create() {
    let plan = switch_plan("s", "/w", false, false, false, false);
    assert_eq!(plan, vec![new_session(false)]);
}

#[test]
fn missing_session_is_created_detached_then_attached() {
    let plan = switch_plan("s", "/w", true, false, false, false);
    assert_eq!(
        plan,
        vec![
            new_session(true),
            TmuxOp::Attach {
                name: "s".to_owned()
            },
        ]
    );
}

#[test]
fn existing_session_from_outside_is_just_attached() {
    let plan = switch_plan("s", "/w", true, false, true, false);
    assert_eq!(
        plan,
        vec![TmuxOp::Attach {
            name: "s".to_owned()
        }]
    );
}

#[test]
fn inside_tmux_switches_instead_of_attaching() {
    let plan = switch_plan("s", "/w", true, true, true, false);
    assert_eq!(
        plan,
        vec![TmuxOp::SwitchClient {
            name: "s".to_owned()
        }]
    );
}

#[test]
fn grouped_adds_a_grouped_session_before_reaching_it() {
    let plan = switch_plan("s", "/w", true, true, true, true);
    assert_eq!(
        plan,
        vec![
            TmuxOp::NewGroupedSession {
                name: "s".to_owned()
            },
            TmuxOp::SwitchClient {
                name: "s".to_owned()
            },
        ]
    );
}

#[test]
fn missing_session_inside_tmux_creates_groups_and_switches() {
    let plan = switch_plan("s", "/w", true, true, false, true);
    assert_eq!(
        plan,
        vec![
            new_session(true),
            TmuxOp::NewGroupedSession {
                name: "s".to_owned()
            },
            TmuxOp::SwitchClient {
                name: "s".to_owned()
            },
        ]
    );
}
