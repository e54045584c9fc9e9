//! Environment-variable substitution over path strings. The process
//! environment itself is read at the boundary and handed in as data, so the
//! substitution rules here are checked for every environment.

use vstd::prelude::*;
use vstd::string::*;

use crate::error::TmsError;
use crate::strutil::{join_seq, join_with, split_all, split_seq, str_eq_str};

verus! {

/// A snapshot of environment variables, looked up by name; the first
/// binding of a name wins.
pub struct EnvMap {
    vars: Vec<(String, String)>,
}

impl View for EnvMap {
    type V = Seq<(Seq<char>, Seq<char>)>;

    closed spec fn view(&self) -> Seq<(Seq<char>, Seq<char>)> {
        Seq::new(self.vars@.len(), |i: int| (self.vars@[i].0@, self.vars@[i].1@))
    }
}

/// The value bound to `name`, if any.
pub open spec fn env_lookup(env: Seq<(Seq<char>, Seq<char>)>, name: Seq<char>) -> Option<Seq<char>>
    decreases env.len(),
{
    if env.len() == 0 {
        None
    } else if env[0].0 == name {
        Some(env[0].1)
    } else {
        env_lookup(env.drop_first(), name)
    }
}

impl EnvMap {
    /// An empty environment.
    pub fn new() -> (r: EnvMap)
        ensures
            r@ == Seq::<(Seq<char>, Seq<char>)>::empty(),
    {
        let r = EnvMap { vars: Vec::new() };
        proof {
            assert(r@ =~= Seq::<(Seq<char>, Seq<char>)>::empty());
        }
        r
    }

    /// Add one binding at the end.
    pub fn push(&mut self, name: String, value: String)
        ensures
            final(self)@ == old(self)@.push((name@, value@)),
    {
        let ghost before = self@;
        self.vars.push((name, value));
        proof {
            assert(self@ =~= before.push((name@, value@)));
        }
    }

    /// Look a name up, yielding its value exactly when the name is bound.
    pub fn lookup(&self, name: &str) -> (r: Option<String>)
        ensures
            r matches Some(v) ==> env_lookup(self@, name@) == Some(v@),
            r is None ==> env_lookup(self@, name@) is None,
    {
        let mut i: usize = 0;
        proof {
            assert(self@.skip(0) =~= self@);
        }
        while i < self.vars.len()
            invariant
                i <= self.vars.len(),
                env_lookup(self@, name@) == env_lookup(self@.skip(i as int), name@),
            decreases self.vars.len() - i,
        {
            proof {
                assert(self@.skip(i as int).drop_first() =~= self@.skip(i + 1));
            }
            if str_eq_str(self.vars[i].0.as_str(), name) {
                return Some(self.vars[i].1.clone());
            }
            i += 1;
        }
        proof {
            assert(self@.skip(self.vars@.len() as int).len() == 0);
        }
        None
    }
}

/// The name `HOME`.
pub open spec fn home_name() -> Seq<char> {
    seq!['H', 'O', 'M', 'E']
}

/// What one path segment substitutes to: the value of the variable it
/// names after `$`, the home directory for `~`, otherwise itself.
pub open spec fn subst_word(w: Seq<char>, env: Seq<(Seq<char>, Seq<char>)>) -> Option<Seq<char>> {
    if w.len() > 0 && w[0] == '$' {
        env_lookup(env, w.drop_first())
    } else if w == seq!['~'] {
        env_lookup(env, home_name())
    } else {
        Some(w)
    }
}

/// The variable a failing segment referred to.
pub open spec fn word_var(w: Seq<char>) -> Seq<char> {
    if w.len() > 0 && w[0] == '$' {
        w.drop_first()
    } else {
        home_name()
    }
}

/// All segments substituted, or nothing when any segment fails.
pub open spec fn subst_parts(parts: Seq<Seq<char>>, env: Seq<(Seq<char>, Seq<char>)>) -> Option<
    Seq<Seq<char>>,
>
    decreases parts.len(),
{
    if parts.len() == 0 {
        Some(Seq::empty())
    } else {
        match (subst_parts(parts.drop_last(), env), subst_word(parts.last(), env)) {
            (Some(ws), Some(w)) => Some(ws.push(w)),
            _ => None,
        }
    }
}

/// What `envsubst` yields: the path split on `/`, each segment
/// substituted, the segments joined back with `/`.
pub open spec fn envsubst_spec(s: Seq<char>, env: Seq<(Seq<char>, Seq<char>)>) -> Option<Seq<char>> {
    match subst_parts(split_seq(s, seq!['/']), env) {
        Some(ws) => Some(join_seq(ws, seq!['/'])),
        None => None,
    }
}

/// The index of the first segment that fails to substitute, or -1.
pub open spec fn first_bad_word(parts: Seq<Seq<char>>, env: Seq<(Seq<char>, Seq<char>)>) -> int
    decreases parts.len(),
{
    if parts.len() == 0 {
        -1
    } else if subst_word(parts[0], env) is None {
        0
    } else if first_bad_word(parts.drop_first(), env) < 0 {
        -1
    } else {
        1 + first_bad_word(parts.drop_first(), env)
    }
}

/// A substitutable segment list has no failing segment.
proof fn lemma_subst_parts_some(parts: Seq<Seq<char>>, env: Seq<(Seq<char>, Seq<char>)>)
    requires
        subst_parts(parts, env) is Some,
    ensures
        forall|j: int| 0 <= j < parts.len() ==> subst_word(parts[j], env) is Some,
    decreases parts.len(),
{
    if parts.len() > 0 {
        lemma_subst_parts_some(parts.drop_last(), env);
        assert forall|j: int| 0 <= j < parts.len() implies subst_word(parts[j], env) is Some by {
            if j < parts.len() - 1 {
                assert(parts.drop_last()[j] == parts[j]);
            }
        }
    }
}

/// The first failing segment is what `first_bad_word` names.
proof fn lemma_first_bad_word(parts: Seq<Seq<char>>, env: Seq<(Seq<char>, Seq<char>)>, i: int)
    requires
        0 <= i < parts.len(),
        subst_word(parts[i], env) is None,
        forall|j: int| 0 <= j < i ==> subst_word(parts[j], env) is Some,
    ensures
        first_bad_word(parts, env) == i,
    decreases i,
{
    if i == 0 {
    } else {
        assert forall|j: int| 0 <= j < i - 1 implies subst_word(
            parts.drop_first()[j],
            env,
        ) is Some by {
            assert(parts.drop_first()[j] == parts[j + 1]);
        }
        assert(parts.drop_first()[i - 1] == parts[i]);
        lemma_first_bad_word(parts.drop_first(), env, i - 1);
    }
}

/// The variable a failing substitution reports: the one of the first
/// failing segment.
pub open spec fn envsubst_err_var(s: Seq<char>, env: Seq<(Seq<char>, Seq<char>)>) -> Seq<char> {
    let parts = split_seq(s, seq!['/']);
    word_var(parts[first_bad_word(parts, env)])
}

/// Substitute `$VAR` and `~` segments of a path against `env`. Succeeds
/// exactly when every referenced variable is bound; a failure names the
/// first variable that is not.
pub fn envsubst(input: &str, env: &EnvMap) -> (r: Result<String, TmsError>)
    ensures
        r matches Ok(out) ==> envsubst_spec(input@, env@) == Some(out@),
        r is Ok <==> envsubst_spec(input@, env@) is Some,
        r matches Err(e) ==> {
            let parts = split_seq(input@, seq!['/']);
            let i = first_bad_word(parts, env@);
            &&& 0 <= i < parts.len()
            &&& e matches TmsError::EnvSubst { var } && var@ == word_var(parts[i])
        },
{
    proof {
        reveal_strlit("/");
        assert("/"@ =~= seq!['/']);
    }
    let parts = split_all(input, "/");
    let ghost pdv = parts.deep_view();
    let mut out_parts: Vec<String> = Vec::new();
    let mut i: usize = 0;
    while i < parts.len()
        invariant
            i <= parts.len(),
            pdv == parts.deep_view(),
            pdv == split_seq(input@, seq!['/']),
            subst_parts(pdv.take(i as int), env@) == Some(out_parts.deep_view()),
            forall|j: int| 0 <= j < i ==> subst_word(pdv[j], env@) is Some,
        decreases parts.len() - i,
    {
        let w: &str = parts[i].as_str();
        let wl: usize = w.unicode_len();
        let ghost before = out_parts.deep_view();
        proof {
            assert(pdv[i as int] == w@);
            assert(pdv.take(i + 1).drop_last() =~= pdv.take(i as int));
            assert(pdv.take(i + 1).last() == pdv[i as int]);
        }
        if wl > 0 && w.get_char(0) == '$' {
            let var_name = w.substring_char(1, wl);
            proof {
                assert(var_name@ =~= w@.drop_first());
            }
            match env.lookup(var_name) {
                Some(v) => {
                    out_parts.push(v);
                },
                None => {
                    proof {
                        assert(subst_word(pdv[i as int], env@) is None);
                        lemma_first_bad_word(pdv, env@, i as int);
                        if subst_parts(pdv, env@) is Some {
                            lemma_subst_parts_some(pdv, env@);
                        }
                    }
                    return Err(TmsError::EnvSubst { var: String::from_str(var_name) });
                },
            }
        } else if wl == 1 && w.get_char(0) == '~' {
            proof {
                reveal_strlit("HOME");
                assert(w@ =~= seq!['~']);
                assert("HOME"@ =~= home_name());
            }
            match env.lookup("HOME") {
                Some(v) => {
                    out_parts.push(v);
                },
                None => {
                    proof {
                        assert(subst_word(pdv[i as int], env@) is None);
                        lemma_first_bad_word(pdv, env@, i as int);
                        if subst_parts(pdv, env@) is Some {
                            lemma_subst_parts_some(pdv, env@);
                        }
                    }
                    return Err(TmsError::EnvSubst { var: String::from_str("HOME") });
                },
            }
        } else {
            proof {
                if w@.len() > 0 && w@[0] == '$' {
                    assert(false);
                }
                if w@ == seq!['~'] {
                    assert(w@.len() == 1 && w@[0] == '~');
                    assert(false);
                }
                assert(subst_word(pdv[i as int], env@) == Some(w@));
            }
            out_parts.push(parts[i].clone());
        }
        proof {
            assert(out_parts.deep_view() =~= before.push(out_parts@.last()@));
        }
        i += 1;
    }
    proof {
        assert(pdv.take(parts.len() as int) =~= pdv);
    }
    let joined = join_with(&out_parts, "/");
    Ok(joined)
}

} // verus!
