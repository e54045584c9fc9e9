//! Live-session state: parsing the multiplexer's session listing into
//! per-session stats, and planning the operations that reach a chosen
//! session. Running the operations is the caller's business; deciding them
//! is verified here.

use vstd::prelude::*;
use vstd::string::*;

use crate::error::TmsError;
use crate::strutil::{
    all_digits, contains_seq, contains_sub, dec_val, first_occur, lemma_first_occur, parse_u8_str,
    split_all, split_once_str, split_seq, str_eq_str,
};

verus! {

/// What one live session looks like: how many windows it holds and
/// whether a client is attached to it.
#[derive(Debug, Clone, Copy, PartialEq, Eq, Structural)]
pub struct SessionStats {
    pub window_count: u8,
    pub attached: bool,
}

/// The live sessions, keyed by name. Names are unique; insertion keeps the
/// stats of the latest insert for a name.
#[derive(Debug)]
pub struct Sessions {
    items: Vec<(String, SessionStats)>,
}

impl View for Sessions {
    type V = Seq<(Seq<char>, SessionStats)>;

    closed spec fn view(&self) -> Seq<(Seq<char>, SessionStats)> {
        Seq::new(self.items@.len(), |i: int| (self.items@[i].0@, self.items@[i].1))
    }
}

/// The stats bound to `n`, scanning from the front.
pub open spec fn sess_lookup(v: Seq<(Seq<char>, SessionStats)>, n: Seq<char>) -> Option<
    SessionStats,
>
    decreases v.len(),
{
    if v.len() == 0 {
        None
    } else if v[0].0 == n {
        Some(v[0].1)
    } else {
        sess_lookup(v.drop_first(), n)
    }
}

/// `n` names one of the sessions.
pub open spec fn sess_has(v: Seq<(Seq<char>, SessionStats)>, n: Seq<char>) -> bool {
    sess_lookup(v, n) is Some
}

/// No two sessions share a name.
pub open spec fn names_unique(v: Seq<(Seq<char>, SessionStats)>) -> bool {
    forall|i: int, j: int| 0 <= i < j < v.len() ==> v[i].0 != v[j].0
}

/// A name is bound exactly when some entry carries it.
pub proof fn lemma_sess_lookup_exists(v: Seq<(Seq<char>, SessionStats)>, n: Seq<char>)
    ensures
        sess_has(v, n) <==> exists|i: int| 0 <= i < v.len() && v[i].0 == n,
    decreases v.len(),
{
    if v.len() > 0 {
        lemma_sess_lookup_exists(v.drop_first(), n);
        if v[0].0 == n {
        } else if sess_has(v.drop_first(), n) {
            let i = choose|i: int| 0 <= i < v.drop_first().len() && v.drop_first()[i].0 == n;
            assert(v[i + 1].0 == n);
        } else {
            assert forall|i: int| 0 <= i < v.len() implies v[i].0 != n by {
                if i > 0 {
                    assert(v.drop_first()[i - 1] == v[i]);
                }
            }
        }
    }
}

/// Looking a name up after appending a binding: an already-bound name
/// keeps its old stats, a fresh one gets the new binding.
proof fn lemma_sess_lookup_push(
    v: Seq<(Seq<char>, SessionStats)>,
    p: (Seq<char>, SessionStats),
    n: Seq<char>,
)
    ensures
        sess_lookup(v.push(p), n) == if sess_has(v, n) {
            sess_lookup(v, n)
        } else if p.0 == n {
            Some(p.1)
        } else {
            None::<SessionStats>
        },
    decreases v.len(),
{
    if v.len() == 0 {
        assert(v.push(p)[0] == p);
        assert(v.push(p).drop_first() =~= Seq::<(Seq<char>, SessionStats)>::empty());
        assert(sess_lookup(Seq::<(Seq<char>, SessionStats)>::empty(), n) is None);
    } else {
        assert(v.push(p)[0] == v[0]);
        assert(v.push(p).drop_first() =~= v.drop_first().push(p));
        lemma_sess_lookup_push(v.drop_first(), p, n);
        assert(sess_lookup(v.push(p), n) == if v[0].0 == n {
            Some(v[0].1)
        } else {
            sess_lookup(v.drop_first().push(p), n)
        });
        assert(sess_lookup(v, n) == if v[0].0 == n {
            Some(v[0].1)
        } else {
            sess_lookup(v.drop_first(), n)
        });
    }
}

impl Sessions {
    /// No sessions.
    pub fn new() -> (r: Sessions)
        ensures
            r@ == Seq::<(Seq<char>, SessionStats)>::empty(),
            names_unique(r@),
    {
        let r = Sessions { items: Vec::new() };
        proof {
            assert(r@ =~= Seq::<(Seq<char>, SessionStats)>::empty());
        }
        r
    }

    /// The underlying list of name/stats pairs.
    pub fn value(self) -> (r: Vec<(String, SessionStats)>)
        ensures
            r@.len() == self@.len(),
            forall|i: int|
                0 <= i < r@.len() ==> (#[trigger] r@[i].0@, r@[i].1) == self@[i],
    {
        self.items
    }

    /// A borrowed look at the name/stats pairs.
    pub fn value_ref(&self) -> (r: &Vec<(String, SessionStats)>)
        ensures
            r@.len() == self@.len(),
            forall|i: int|
                0 <= i < r@.len() ==> (#[trigger] r@[i].0@, r@[i].1) == self@[i],
    {
        &self.items
    }

    /// A mutable look at the name/stats pairs.
    pub fn value_ref_mut(&mut self) -> (r: &mut Vec<(String, SessionStats)>)
        ensures
            r@.len() == old(self)@.len(),
            forall|i: int|
                0 <= i < r@.len() ==> (#[trigger] r@[i].0@, r@[i].1) == old(self)@[i],
    {
        &mut self.items
    }

    /// Bind `name` to `stats`, replacing any earlier binding of the name.
    pub fn insert(&mut self, name: String, stats: SessionStats)
        requires
            names_unique(old(self)@),
        ensures
            names_unique(final(self)@),
            forall|n: Seq<char>|
                #[trigger] sess_lookup(final(self)@, n) == if n == name@ {
                    Some(stats)
                } else {
                    sess_lookup(old(self)@, n)
                },
            sess_has(old(self)@, name@) ==> final(self)@.len() == old(self)@.len(),
            !sess_has(old(self)@, name@) ==> final(self)@.len() == old(self)@.len() + 1,
    {
        let ghost orig = self@;
        let mut i: usize = 0;
        while i < self.items.len()
            invariant
                i <= self.items.len(),
                orig == self@,
                orig == old(self)@,
                names_unique(orig),
                forall|k: int| 0 <= k < i ==> orig[k].0 != name@,
            decreases self.items.len() - i,
        {
            if str_eq_str(self.items[i].0.as_str(), name.as_str()) {
                let _ = self.items.remove(i);
                self.items.insert(i, (name, stats));
                proof {
                    assert(self@ =~= orig.update(i as int, (name@, stats)));
                    let upd = orig.update(i as int, (name@, stats));
                    assert(names_unique(upd)) by {
                        lemma_sess_lookup_update(orig, i as int, name@, stats, name@);
                    }
                    assert forall|n: Seq<char>|
                        #[trigger] sess_lookup(upd, n) == if n == name@ {
                            Some(stats)
                        } else {
                            sess_lookup(orig, n)
                        } by {
                        lemma_sess_lookup_update(orig, i as int, name@, stats, n);
                    }
                    assert(orig[i as int].0 == name@);
                    lemma_sess_lookup_exists(orig, name@);
                    assert(sess_has(orig, name@));
                }
                return ;
            }
            i += 1;
        }
        let ghost orig2 = self@;
        self.items.push((name, stats));
        proof {
            assert(self@ =~= orig2.push((name@, stats)));
            assert forall|n: Seq<char>|
                #[trigger] sess_lookup(self@, n) == if n == name@ {
                    Some(stats)
                } else {
                    sess_lookup(orig2, n)
                } by {
                lemma_sess_lookup_push(orig2, (name@, stats), n);
                lemma_sess_lookup_exists(orig2, n);
                if sess_has(orig2, n) {
                    let k = choose|k: int| 0 <= k < orig2.len() && orig2[k].0 == n;
                    assert(orig2[k].0 != name@);
                }
            }
            lemma_sess_lookup_exists(orig2, name@);
            assert forall|i2: int, j2: int| 0 <= i2 < j2 < self@.len() implies self@[i2].0
                != self@[j2].0 by {
                if j2 < self@.len() - 1 {
                    assert(orig2[i2].0 != orig2[j2].0);
                } else {
                    assert(orig2[i2].0 != name@);
                }
            }
        }
    }

    /// The stats bound to `name`, if the session is live.
    pub fn get_stats(&self, name: &str) -> (r: Option<SessionStats>)
        ensures
            r == sess_lookup(self@, name@),
    {
        let mut i: usize = 0;
        proof {
            assert(self@.skip(0) =~= self@);
        }
        while i < self.items.len()
            invariant
                i <= self.items.len(),
                sess_lookup(self@, name@) == sess_lookup(self@.skip(i as int), name@),
            decreases self.items.len() - i,
        {
            proof {
                assert(self@.skip(i as int).drop_first() =~= self@.skip(i + 1));
            }
            if str_eq_str(self.items[i].0.as_str(), name) {
                return Some(self.items[i].1);
            }
            i += 1;
        }
        proof {
            assert(self@.skip(self.items@.len() as int).len() == 0);
        }
        None
    }
}

/// The separator between a session's name and the rest of its line.
pub open spec fn sep_cs() -> Seq<char> {
    seq![':', ' ']
}

/// The word whose presence marks an attached session.
pub open spec fn attached_cs() -> Seq<char> {
    seq!['a', 't', 't', 'a', 'c', 'h', 'e', 'd']
}

/// The listing's lines: the text split on newlines, without the empty
/// segment a trailing newline leaves.
pub open spec fn lines_spec(s: Seq<char>) -> Seq<Seq<char>> {
    let ps = split_seq(s, seq!['\n']);
    if ps.len() > 0 && ps.last().len() == 0 {
        ps.drop_last()
    } else {
        ps
    }
}

/// A line conforms to the wire format: a `": "` separator, then a decimal
/// window count that fits in a byte before the first space.
pub open spec fn line_ok(l: Seq<char>) -> bool {
    let i = first_occur(l, sep_cs());
    0 <= i && i + 2 <= l.len() && {
        let rest = l.subrange(i + 2, l.len() as int);
        let j = first_occur(rest, seq![' ']);
        0 <= j && j + 1 <= rest.len() && {
            let cnt = rest.subrange(0, j);
            cnt.len() > 0 && all_digits(cnt) && dec_val(cnt) <= 255
        }
    }
}

/// The session name on a line: what stands before the first `": "`.
pub open spec fn line_name(l: Seq<char>) -> Seq<char> {
    l.subrange(0, first_occur(l, sep_cs()))
}

/// The stats on a line: the window count before the first space after the
/// separator, and attachment exactly when `attached` occurs afterwards.
pub open spec fn line_stats(l: Seq<char>) -> SessionStats {
    let i = first_occur(l, sep_cs());
    let rest = l.subrange(i + 2, l.len() as int);
    let j = first_occur(rest, seq![' ']);
    let cnt = rest.subrange(0, j);
    let after = rest.subrange(j + 1, rest.len() as int);
    SessionStats { window_count: dec_val(cnt) as u8, attached: contains_seq(after, attached_cs()) }
}

/// Each line reduced to its name and stats.
pub open spec fn line_pairs(ls: Seq<Seq<char>>) -> Seq<(Seq<char>, SessionStats)> {
    Seq::new(ls.len(), |i: int| (line_name(ls[i]), line_stats(ls[i])))
}

/// The stats of the last pair bound to `n`, if any: a later line
/// overwrites an earlier one of the same name.
pub open spec fn pairs_lookup(ps: Seq<(Seq<char>, SessionStats)>, n: Seq<char>) -> Option<
    SessionStats,
>
    decreases ps.len(),
{
    if ps.len() == 0 {
        None
    } else if ps.last().0 == n {
        Some(ps.last().1)
    } else {
        pairs_lookup(ps.drop_last(), n)
    }
}

/// The index of the first malformed line, or -1.
pub open spec fn first_bad_line(ls: Seq<Seq<char>>) -> int
    decreases ls.len(),
{
    if ls.len() == 0 {
        -1
    } else if !line_ok(ls[0]) {
        0
    } else if first_bad_line(ls.drop_first()) < 0 {
        -1
    } else {
        1 + first_bad_line(ls.drop_first())
    }
}

/// No two lines name the same session.
pub open spec fn distinct_line_names(ls: Seq<Seq<char>>) -> bool {
    forall|i: int, j: int| 0 <= i < j < ls.len() ==> line_name(ls[i]) != line_name(ls[j])
}

proof fn lemma_first_bad_line(ls: Seq<Seq<char>>, k: int)
    requires
        0 <= k < ls.len(),
        !line_ok(ls[k]),
        forall|t: int| 0 <= t < k ==> line_ok(ls[t]),
    ensures
        first_bad_line(ls) == k,
    decreases k,
{
    if k == 0 {
    } else {
        assert forall|t: int| 0 <= t < k - 1 implies line_ok(ls.drop_first()[t]) by {
            assert(ls.drop_first()[t] == ls[t + 1]);
        }
        assert(ls.drop_first()[k - 1] == ls[k]);
        lemma_first_bad_line(ls.drop_first(), k - 1);
    }
}

/// A name is bound exactly when some pair carries it.
proof fn lemma_pairs_lookup_exists(ps: Seq<(Seq<char>, SessionStats)>, n: Seq<char>)
    ensures
        pairs_lookup(ps, n) is Some <==> exists|i: int| 0 <= i < ps.len() && ps[i].0 == n,
    decreases ps.len(),
{
    if ps.len() > 0 {
        lemma_pairs_lookup_exists(ps.drop_last(), n);
        if ps.last().0 == n {
            assert(ps[ps.len() - 1].0 == n);
        } else if pairs_lookup(ps.drop_last(), n) is Some {
            let i = choose|i: int| 0 <= i < ps.drop_last().len() && ps.drop_last()[i].0 == n;
            assert(ps[i].0 == n);
        } else {
            assert forall|i: int| 0 <= i < ps.len() implies ps[i].0 != n by {
                if i < ps.len() - 1 {
                    assert(ps.drop_last()[i] == ps[i]);
                }
            }
        }
    }
}

/// The listing's lines, in order.
pub fn lines_of(text: &str) -> (r: Vec<String>)
    ensures
        r.deep_view() == lines_spec(text@),
{
    proof {
        reveal_strlit("\n");
        assert("\n"@ =~= seq!['\n']);
    }
    let mut parts = split_all(text, "\n");
    let ghost pdv = parts.deep_view();
    proof {
        assert(pdv.last() == parts@[parts@.len() - 1]@);
    }
    if parts[parts.len() - 1].as_str().unicode_len() == 0 {
        parts.pop();
        proof {
            assert(parts.deep_view() =~= pdv.drop_last());
        }
    }
    parts
}

/// Parse one listing line into its session name and stats. Fails exactly
/// on a line that does not conform to the wire format.
pub fn parse_line(line: &str) -> (r: Result<(String, SessionStats), TmsError>)
    ensures
        r is Ok <==> line_ok(line@),
        r matches Ok(p) ==> p.0@ == line_name(line@) && p.1 == line_stats(line@),
        r matches Err(e) ==> e matches TmsError::Parse { line: l } && l@ == line@,
{
    proof {
        reveal_strlit(": ");
        assert(": "@ =~= sep_cs());
        reveal_strlit(" ");
        assert(" "@ =~= seq![' ']);
        reveal_strlit("attached");
        assert("attached"@ =~= attached_cs());
        lemma_first_occur(line@, sep_cs());
    }
    match split_once_str(line, ": ") {
        None => Err(TmsError::Parse { line: String::from_str(line) }),
        Some((name, rest)) => {
            proof {
                lemma_first_occur(rest@, seq![' ']);
            }
            match split_once_str(rest, " ") {
                None => Err(TmsError::Parse { line: String::from_str(line) }),
                Some((cnt, after)) => match parse_u8_str(cnt) {
                    None => Err(TmsError::Parse { line: String::from_str(line) }),
                    Some(wc) => {
                        let attached = contains_sub(after, "attached");
                        Ok((String::from_str(name), SessionStats { window_count: wc, attached }))
                    },
                },
            }
        },
    }
}

/// Parse the whole session listing. All-or-nothing: one malformed line
/// fails the run, naming the first such line. On success every listed
/// session is present exactly once, a later line of a repeated name
/// overwriting an earlier one; with pairwise-distinct names the mapping
/// holds exactly one record per input line.
pub fn parse_sessions(text: &str) -> (r: Result<Sessions, TmsError>)
    ensures
        r is Ok <==> (forall|k: int|
            0 <= k < lines_spec(text@).len() ==> line_ok(#[trigger] lines_spec(text@)[k])),
        r matches Ok(s) ==> {
            let ls = lines_spec(text@);
            &&& names_unique(s@)
            &&& (forall|n: Seq<char>|
                #[trigger] sess_lookup(s@, n) == pairs_lookup(line_pairs(ls), n))
            &&& s@.len() <= ls.len()
            &&& (distinct_line_names(ls) ==> s@.len() == ls.len())
        },
        r matches Err(e) ==> {
            let ls = lines_spec(text@);
            let k = first_bad_line(ls);
            &&& 0 <= k < ls.len()
            &&& e matches TmsError::Parse { line: l } && l@ == ls[k]
        },
{
    let lines = lines_of(text);
    let ghost ls = lines.deep_view();
    let ghost pv = line_pairs(ls);
    let mut pairs: Vec<(String, SessionStats)> = Vec::new();
    let mut k: usize = 0;
    while k < lines.len()
        invariant
            k <= lines.len(),
            ls == lines.deep_view(),
            ls == lines_spec(text@),
            pv == line_pairs(ls),
            pairs@.len() == k,
            forall|t: int| 0 <= t < k ==> line_ok(#[trigger] ls[t]),
            forall|t: int|
                0 <= t < k ==> (#[trigger] pairs@[t].0@, pairs@[t].1) == pv[t],
        decreases lines.len() - k,
    {
        proof {
            assert(ls[k as int] == lines@[k as int]@);
        }
        match parse_line(lines[k].as_str()) {
            Ok(p) => {
                pairs.push(p);
            },
            Err(e) => {
                proof {
                    lemma_first_bad_line(ls, k as int);
                }
                return Err(e);
            },
        }
        k += 1;
    }
    let mut s = Sessions::new();
    let mut k2: usize = 0;
    proof {
        assert(pv.take(0).len() == 0);
    }
    while k2 < pairs.len()
        invariant
            k2 <= pairs.len(),
            pairs@.len() == pv.len(),
            pv == line_pairs(ls),
            ls == lines_spec(text@),
            forall|t: int|
                0 <= t < pairs@.len() ==> (#[trigger] pairs@[t].0@, pairs@[t].1) == pv[t],
            names_unique(s@),
            forall|n: Seq<char>|
                #[trigger] sess_lookup(s@, n) == pairs_lookup(pv.take(k2 as int), n),
            s@.len() <= k2,
            distinct_line_names(ls) ==> s@.len() == k2,
        decreases pairs@.len() - k2,
    {
        let name = pairs[k2].0.clone();
        let stats = pairs[k2].1;
        proof {
            assert((name@, stats) == pv[k2 as int]);
            assert(pv.take(k2 + 1).drop_last() =~= pv.take(k2 as int));
            assert(pv.take(k2 + 1).last() == pv[k2 as int]);
            if distinct_line_names(ls) {
                lemma_pairs_lookup_exists(pv.take(k2 as int), name@);
                if sess_has(s@, name@) {
                    let i = choose|i: int|
                        0 <= i < pv.take(k2 as int).len() && (#[trigger] pv.take(k2 as int)[i]).0
                            == name@;
                    assert(pv[i].0 == name@);
                    assert(line_name(ls[i]) == line_name(ls[k2 as int]));
                    assert(false);
                }
            }
        }
        s.insert(name, stats);
        k2 += 1;
    }
    proof {
        assert(pv.take(pv.len() as int) =~= pv);
    }
    Ok(s)
}

/// Looking a name up after replacing the stats at the unique index bound
/// to it.
proof fn lemma_sess_lookup_update(
    v: Seq<(Seq<char>, SessionStats)>,
    i: int,
    name: Seq<char>,
    stats: SessionStats,
    n: Seq<char>,
)
    requires
        names_unique(v),
        0 <= i < v.len(),
        v[i].0 == name,
    ensures
        names_unique(v.update(i, (name, stats))),
        sess_lookup(v.update(i, (name, stats)), n) == if n == name {
            Some(stats)
        } else {
            sess_lookup(v, n)
        },
    decreases v.len(),
{
    let upd = v.update(i, (name, stats));
    assert forall|a: int, b: int| 0 <= a < b < upd.len() implies upd[a].0 != upd[b].0 by {
        assert(v[a].0 != v[b].0);
    }
    if i == 0 {
        assert(upd[0] == (name, stats));
        assert(upd.drop_first() =~= v.drop_first());
        if n != name {
            assert(v[0].0 == name);
        }
    } else {
        assert(upd[0] == v[0]);
        assert(upd.drop_first() =~= v.drop_first().update(i - 1, (name, stats)));
        assert(v.drop_first()[i - 1] == v[i]);
        assert forall|a: int, b: int|
            0 <= a < b < v.drop_first().len() implies v.drop_first()[a].0
            != v.drop_first()[b].0 by {
            assert(v[a + 1].0 != v[b + 1].0);
        }
        lemma_sess_lookup_update(v.drop_first(), i - 1, name, stats, n);
        if v[0].0 == n {
            assert(v[0].0 != name);
        }
    }
}

} // verus!

verus! {

/// A multiplexer operation the controller can issue.
#[derive(Debug, Clone, PartialEq)]
pub enum TmuxOp {
    /// Create a session at a working directory, detached or taking over
    /// the caller's terminal.
    NewSession { name: String, cwd: String, detached: bool },
    /// Create a secondary session sharing the named session's windows.
    NewGroupedSession { name: String },
    /// Attach the caller's terminal to the named session.
    Attach { name: String },
    /// Switch the caller's current client to the named session.
    SwitchClient { name: String },
    /// Kill the named session.
    KillSession { name: String },
}

/// The mathematical shape of a `TmuxOp`.
pub enum TmuxOpModel {
    NewSession { name: Seq<char>, cwd: Seq<char>, detached: bool },
    NewGroupedSession { name: Seq<char> },
    Attach { name: Seq<char> },
    SwitchClient { name: Seq<char> },
    KillSession { name: Seq<char> },
}

impl View for TmuxOp {
    type V = TmuxOpModel;

    open spec fn view(&self) -> TmuxOpModel {
        match self {
            TmuxOp::NewSession { name, cwd, detached } => TmuxOpModel::NewSession {
                name: name@,
                cwd: cwd@,
                detached: *detached,
            },
            TmuxOp::NewGroupedSession { name } => TmuxOpModel::NewGroupedSession { name: name@ },
            TmuxOp::Attach { name } => TmuxOpModel::Attach { name: name@ },
            TmuxOp::SwitchClient { name } => TmuxOpModel::SwitchClient { name: name@ },
            TmuxOp::KillSession { name } => TmuxOpModel::KillSession { name: name@ },
        }
    }
}

impl DeepView for TmuxOp {
    type V = TmuxOpModel;

    open spec fn deep_view(&self) -> TmuxOpModel {
        self.view()
    }
}

/// The operations that reach the chosen session from the observed state:
/// with no multiplexer running and the caller outside any session, one
/// blocking create; otherwise create it detached if it is missing, add a
/// grouped session when asked to, then attach from outside or switch from
/// inside.
pub open spec fn switch_plan_spec(
    name: Seq<char>,
    cwd: Seq<char>,
    tmux_running: bool,
    inside_tmux: bool,
    has_session: bool,
    grouped: bool,
) -> Seq<TmuxOpModel> {
    if !tmux_running && !inside_tmux {
        seq![TmuxOpModel::NewSession { name, cwd, detached: false }]
    } else {
        (if !has_session {
            seq![TmuxOpModel::NewSession { name, cwd, detached: true }]
        } else {
            Seq::empty()
        }) + (if grouped {
            seq![TmuxOpModel::NewGroupedSession { name }]
        } else {
            Seq::empty()
        }) + seq![
            if !inside_tmux {
                TmuxOpModel::Attach { name }
            } else {
                TmuxOpModel::SwitchClient { name }
            },
        ]
    }
}

/// Decide the operation sequence that reaches the session `name` rooted
/// at `cwd`, given what was observed of the multiplexer. Issuing the
/// operations, in order, is the caller's task.
pub fn switch_plan(
    name: &str,
    cwd: &str,
    tmux_running: bool,
    inside_tmux: bool,
    has_session: bool,
    grouped: bool,
) -> (r: Vec<TmuxOp>)
    ensures
        r.deep_view() == switch_plan_spec(
            name@,
            cwd@,
            tmux_running,
            inside_tmux,
            has_session,
            grouped,
        ),
{
    let mut ops: Vec<TmuxOp> = Vec::new();
    if !tmux_running && !inside_tmux {
        ops.push(TmuxOp::NewSession {
            name: String::from_str(name),
            cwd: String::from_str(cwd),
            detached: false,
        });
        proof {
            assert(ops.deep_view() =~= switch_plan_spec(
                name@,
                cwd@,
                tmux_running,
                inside_tmux,
                has_session,
                grouped,
            ));
        }
        return ops;
    }
    if !has_session {
        ops.push(TmuxOp::NewSession {
            name: String::from_str(name),
            cwd: String::from_str(cwd),
            detached: true,
        });
    }
    if grouped {
        ops.push(TmuxOp::NewGroupedSession { name: String::from_str(name) });
    }
    if !inside_tmux {
        ops.push(TmuxOp::Attach { name: String::from_str(name) });
    } else {
        ops.push(TmuxOp::SwitchClient { name: String::from_str(name) });
    }
    proof {
        assert(ops.deep_view() =~= switch_plan_spec(
            name@,
            cwd@,
            tmux_running,
            inside_tmux,
            has_session,
            grouped,
        ));
    }
    ops
}

} // verus!
