use tmux_sessionizer::error::TmsError;
use tmux_sessionizer::utils::{envsubst, EnvMap};

fn env_with(pairs: &[(&str, &str)]) -> EnvMap {
    let mut env = EnvMap::new();
    for (k, v) in pairs {
        env.push((*k).to_owned(), (*v).to_owned());
    }
    env
}

#[test]
fn substitutes_a_variable_segment() {
    let env = env_with(&[("HOME", "/home/u")]);
    assert_eq!(envsubst("$HOME/code", &env).unwrap(), "/home/u/code");
}

#[test]
fn substitutes_tilde_with_home() {
    let env = env_with(&[("HOME", "/home/u")]);
    assert_eq!(envsubst("~/code", &env).unwrap(), "/home/u/code");
}

#[test]
fn plain_path_passes_through() {
    let env = EnvMap::new();
    assert_eq!(envsubst("/a/b/c", &env).unwrap(), "/a/b/c");
    assert_eq!(envsubst("", &env).unwrap(), "");
}

#[test]
fn tilde_inside_a_segment_is_not_substituted() {
    let env = env_with(&[("HOME", "/home/u")]);
    assert_eq!(envsubst("/a/x~y", &env).unwrap(), "/a/x~y");
}

#[test]
fn unset_variable_names_the_variable() {
    let env = EnvMap::new();
    let err = envsubst("/a/$MISSING_ONE/b", &env).unwrap_err();
    assert_eq!(
        err,
        TmsError::EnvSubst {
            var: "MISSING_ONE".to_owned()
        }
    );
}

#[test]
fn unset_home_for_tilde_names_home() {
    let env = EnvMap::new();
    let err = envsubst("~/code", &env).unwrap_err();
    assert_eq!(
        err,
        TmsError::EnvSubst {
            var: "HOME".to_owned()
        }
    );
}
