//! Selection candidates: how configuration entries expand into them, how
//! live sessions are reconciled with them, the order they are presented
//! in, and the text each one shows.

use vstd::prelude::*;
use vstd::multiset::Multiset;
use vstd::string::*;

use crate::config::{Config, Entry, EntryDir, EntryPlain, PreviewCommands, Workdir};
use crate::error::TmsError;
use crate::strutil::{
    dec_rep, lemma_lex_le_total, lemma_lex_le_trans, lex_le, lex_le_str, lower_of, lowercase,
    pad_to, replace_all, replace_seq, spaces, split_all, split_seq, str_eq_str, u8_to_dec,
};
use crate::tmux::{names_unique, sess_has, sess_lookup, SessionStats, Sessions};
use crate::utils::{envsubst_err_var, envsubst_spec, EnvMap};

verus! {

/// One selectable candidate: a name to select by, the directory its
/// session roots at, live stats when the session is running, and the
/// preview pair resolved for it.
#[derive(Debug, Clone, PartialEq)]
pub struct PromptItem {
    pub name: String,
    pub workdir: Workdir,
    pub stats: Option<SessionStats>,
    pub preview_cmd: Option<PreviewCommands>,
}

/// The mathematical shape of a candidate.
pub struct ItemModel {
    pub name: Seq<char>,
    pub workdir: Seq<char>,
    pub stats: Option<SessionStats>,
    pub preview: Option<(Option<Seq<char>>, Option<Seq<char>>)>,
}

/// A preview pair reduced to the views of its two templates.
pub open spec fn pc_model(o: Option<PreviewCommands>) -> Option<(Option<Seq<char>>, Option<
    Seq<char>,
>)> {
    match o {
        Some(pc) => Some(
            (
                match pc.running {
                    Some(s) => Some(s@),
                    None => None,
                },
                match pc.not_running {
                    Some(s) => Some(s@),
                    None => None,
                },
            ),
        ),
        None => None,
    }
}

impl View for PromptItem {
    type V = ItemModel;

    open spec fn view(&self) -> ItemModel {
        ItemModel {
            name: self.name@,
            workdir: self.workdir@,
            stats: self.stats,
            preview: pc_model(self.preview_cmd),
        }
    }
}

impl DeepView for PromptItem {
    type V = ItemModel;

    open spec fn deep_view(&self) -> ItemModel {
        self.view()
    }
}

impl PromptItem {
    /// A candidate with no stats and no preview.
    pub fn new(name: String, workdir: Workdir) -> (r: PromptItem)
        ensures
            r@ == (ItemModel { name: name@, workdir: workdir@, stats: None, preview: None }),
    {
        PromptItem { name, workdir, preview_cmd: None, stats: None }
    }

    /// Attach the live stats recorded under this candidate's name, if the
    /// session is running; an unmatched candidate is left as it is.
    pub fn populate_session_data(&mut self, sessions: &Sessions)
        ensures
            final(self).name == old(self).name,
            final(self).workdir == old(self).workdir,
            final(self).preview_cmd == old(self).preview_cmd,
            final(self).stats == match sess_lookup(sessions@, old(self).name@) {
                Some(s) => Some(s),
                None => old(self).stats,
            },
    {
        match sessions.get_stats(self.name.as_str()) {
            Some(s) => {
                self.stats = Some(s);
            },
            None => {},
        }
    }

    /// The candidate standing for a live session no entry covers.
    pub fn from_active_session(workdir: Workdir, name: String, stats: &SessionStats) -> (r:
        PromptItem)
        ensures
            r@ == (ItemModel {
                name: name@,
                workdir: workdir@,
                stats: Some(*stats),
                preview: None,
            }),
    {
        PromptItem { workdir, name, stats: Some(*stats), preview_cmd: None }
    }

    /// Give the candidate its resolved preview pair.
    pub fn set_preview(&mut self, preview_cmd: Option<PreviewCommands>)
        ensures
            final(self).name == old(self).name,
            final(self).workdir == old(self).workdir,
            final(self).stats == old(self).stats,
            final(self).preview_cmd == preview_cmd,
    {
        self.preview_cmd = preview_cmd;
    }

    /// The preview command to run for this candidate, its placeholders
    /// filled in; nothing when the applicable template is absent.
    pub fn preview_command(&self) -> (r: Option<String>)
        ensures
            r is Some <==> chosen_template(self@) is Some,
            r matches Some(cmd) ==> cmd@ == rendered(
                chosen_template(self@)->0,
                self@.name,
                self@.workdir,
            ),
    {
        proof {
            reveal_strlit("{{workdir}}");
            reveal_strlit("{{name}}");
            assert("{{workdir}}"@ =~= workdir_pat());
            assert("{{name}}"@ =~= name_pat());
        }
        let tpl: &Option<String> = match &self.preview_cmd {
            Some(pc) => {
                if self.stats.is_some() {
                    &pc.running
                } else {
                    &pc.not_running
                }
            },
            None => &None,
        };
        match tpl {
            Some(t) => {
                let step = replace_all(t.as_str(), "{{workdir}}", self.workdir.as_ref());
                let done = replace_all(step.as_str(), "{{name}}", self.name.as_str());
                Some(done)
            },
            None => None,
        }
    }

    /// The row the selector shows: an attachment mark, the name, the
    /// working directory, each padded to its column, then the window
    /// count for a running session.
    pub fn text(&self) -> (r: String)
        ensures
            r@ == text_row(self@),
    {
        proof {
            reveal_strlit("(*)");
            reveal_strlit("");
            reveal_strlit(" ");
            reveal_strlit(" window(s)");
            assert("(*)"@ =~= star_cs());
            assert(""@ =~= Seq::<char>::empty());
            assert(" "@ =~= seq![' ']);
            assert(" window(s)"@ =~= windows_cs());
        }
        let star: &str = match &self.stats {
            Some(s) => {
                if s.attached {
                    "(*)"
                } else {
                    ""
                }
            },
            None => "",
        };
        let mut out = pad_to(star, 3);
        out.append(" ");
        let padded_name = pad_to(self.name.as_str(), 40);
        out.append(padded_name.as_str());
        out.append(" ");
        let padded_wd = pad_to(self.workdir.as_ref(), 60);
        out.append(padded_wd.as_str());
        out.append(" ");
        match &self.stats {
            Some(s) => {
                let cnt = u8_to_dec(s.window_count);
                out.append(cnt.as_str());
                out.append(" window(s)");
            },
            None => {},
        }
        out
    }

    /// What selecting the candidate prints: its name and directory.
    pub fn output(&self) -> (r: String)
        ensures
            r@ == self@.name + seq![' '] + self@.workdir,
    {
        proof {
            reveal_strlit(" ");
            assert(" "@ =~= seq![' ']);
        }
        let mut out = self.name.clone();
        out.append(" ");
        out.append(self.workdir.as_ref());
        out
    }
}

/// The placeholder a template writes for the working directory.
pub open spec fn workdir_pat() -> Seq<char> {
    seq!['{', '{', 'w', 'o', 'r', 'k', 'd', 'i', 'r', '}', '}']
}

/// The placeholder a template writes for the session name.
pub open spec fn name_pat() -> Seq<char> {
    seq!['{', '{', 'n', 'a', 'm', 'e', '}', '}']
}

/// A template with both placeholders substituted, the directory first.
pub open spec fn rendered(tpl: Seq<char>, name: Seq<char>, workdir: Seq<char>) -> Seq<char> {
    replace_seq(replace_seq(tpl, workdir_pat(), workdir), name_pat(), name)
}

/// The template that applies: the running one when the session is live,
/// else the not-running one.
pub open spec fn chosen_template(m: ItemModel) -> Option<Seq<char>> {
    match m.preview {
        Some(p) => if m.stats is Some {
            p.0
        } else {
            p.1
        },
        None => None,
    }
}

/// The attachment mark.
pub open spec fn star_cs() -> Seq<char> {
    seq!['(', '*', ')']
}

/// The word after the window count.
pub open spec fn windows_cs() -> Seq<char> {
    seq![' ', 'w', 'i', 'n', 'd', 'o', 'w', '(', 's', ')']
}

/// A text padded on the right to a column of `w` characters.
pub open spec fn padded(s: Seq<char>, w: int) -> Seq<char> {
    s + spaces(w - s.len())
}

/// One child of a directory root, as the boundary lists it: its path as
/// text when it can be rendered as such, and whether it is a directory.
#[derive(Debug, Clone)]
pub struct DirChild {
    pub path: Option<String>,
    pub is_dir: bool,
}

/// The children of one directory root.
#[derive(Debug, Clone)]
pub struct DirListing {
    pub root: String,
    pub children: Vec<DirChild>,
}

/// The listing of every root that could be read, looked up by root path.
/// A root with no listing counts as unreadable.
pub struct DirListings {
    items: Vec<DirListing>,
}

impl View for DirListings {
    type V = Seq<(Seq<char>, Seq<DirChild>)>;

    closed spec fn view(&self) -> Seq<(Seq<char>, Seq<DirChild>)> {
        Seq::new(self.items@.len(), |i: int| (self.items@[i].root@, self.items@[i].children@))
    }
}

/// The children recorded for `root`, if it was readable.
pub open spec fn listing_lookup(ls: Seq<(Seq<char>, Seq<DirChild>)>, root: Seq<char>) -> Option<
    Seq<DirChild>,
>
    decreases ls.len(),
{
    if ls.len() == 0 {
        None
    } else if ls[0].0 == root {
        Some(ls[0].1)
    } else {
        listing_lookup(ls.drop_first(), root)
    }
}

impl DirListings {
    /// No listings.
    pub fn new() -> (r: DirListings)
        ensures
            r@ == Seq::<(Seq<char>, Seq<DirChild>)>::empty(),
    {
        let r = DirListings { items: Vec::new() };
        proof {
            assert(r@ =~= Seq::<(Seq<char>, Seq<DirChild>)>::empty());
        }
        r
    }

    /// Record one root's listing.
    pub fn push(&mut self, listing: DirListing)
        ensures
            final(self)@ == old(self)@.push((listing.root@, listing.children@)),
    {
        let ghost before = self@;
        self.items.push(listing);
        proof {
            assert(self@ =~= before.push((self.items@.last().root@, self.items@.last().children@)));
        }
    }

    /// The children of `root`, exactly when a listing was recorded for it.
    pub fn find(&self, root: &str) -> (r: Option<&Vec<DirChild>>)
        ensures
            r matches Some(cs) ==> listing_lookup(self@, root@) == Some(cs@),
            r is None ==> listing_lookup(self@, root@) is None,
    {
        let mut i: usize = 0;
        proof {
            assert(self@.skip(0) =~= self@);
        }
        while i < self.items.len()
            invariant
                i <= self.items.len(),
                listing_lookup(self@, root@) == listing_lookup(self@.skip(i as int), root@),
            decreases self.items.len() - i,
        {
            proof {
                assert(self@.skip(i as int).drop_first() =~= self@.skip(i + 1));
            }
            if str_eq_str(self.items[i].root.as_str(), root) {
                return Some(&self.items[i].children);
            }
            i += 1;
        }
        proof {
            assert(self@.skip(self.items@.len() as int).len() == 0);
        }
        None
    }
}

/// The base name of a child path: its last `/`-separated segment.
pub open spec fn child_name(p: Seq<char>) -> Seq<char> {
    split_seq(p, seq!['/']).last()
}

/// The base name stands in the entry's exclusion list.
pub open spec fn name_excluded(excludes: Option<Vec<String>>, n: Seq<char>) -> bool {
    match excludes {
        Some(xs) => exists|i: int| 0 <= i < xs@.len() && #[trigger] xs@[i]@ == n,
        None => false,
    }
}

/// The child becomes a candidate: a directory, with a representable path,
/// whose base name is not excluded.
pub open spec fn child_kept(e: EntryDir, c: DirChild, env: Seq<(Seq<char>, Seq<char>)>) -> bool {
    c.is_dir && (c.path matches Some(p) && !name_excluded(e.excludes, child_name(p@)))
}

/// The child does not abort expansion: anything skipped, or a kept child
/// whose path substitutes.
pub open spec fn child_ok(e: EntryDir, c: DirChild, env: Seq<(Seq<char>, Seq<char>)>) -> bool {
    !c.is_dir || (c.path matches Some(p) && (name_excluded(e.excludes, child_name(p@))
        || envsubst_spec(p@, env) is Some))
}

/// The candidate a kept child becomes: named `<label> - <base name>`,
/// rooted at the substituted child path, with the entry's preview pair
/// and the live stats recorded under the combined name.
pub open spec fn dir_child_item(
    e: EntryDir,
    c: DirChild,
    sess: Seq<(Seq<char>, SessionStats)>,
    env: Seq<(Seq<char>, Seq<char>)>,
) -> ItemModel {
    let p = c.path->0@;
    let nm = e.name@ + seq![' ', '-', ' '] + child_name(p);
    ItemModel {
        name: nm,
        workdir: envsubst_spec(p, env)->0,
        stats: sess_lookup(sess, nm),
        preview: pc_model(e.preview_cmd),
    }
}

/// The candidates a directory entry's children expand to, in listing
/// order.
pub open spec fn expand_children(
    e: EntryDir,
    cs: Seq<DirChild>,
    sess: Seq<(Seq<char>, SessionStats)>,
    env: Seq<(Seq<char>, Seq<char>)>,
) -> Seq<ItemModel>
    decreases cs.len(),
{
    if cs.len() == 0 {
        Seq::empty()
    } else {
        expand_children(e, cs.drop_last(), sess, env) + (if child_kept(e, cs.last(), env)
            && envsubst_spec(cs.last().path->0@, env) is Some {
            seq![dir_child_item(e, cs.last(), sess, env)]
        } else {
            Seq::empty()
        })
    }
}

/// The index of the first child that aborts expansion, or -1.
pub open spec fn first_bad_child(
    e: EntryDir,
    cs: Seq<DirChild>,
    env: Seq<(Seq<char>, Seq<char>)>,
) -> int
    decreases cs.len(),
{
    if cs.len() == 0 {
        -1
    } else if !child_ok(e, cs[0], env) {
        0
    } else if first_bad_child(e, cs.drop_first(), env) < 0 {
        -1
    } else {
        1 + first_bad_child(e, cs.drop_first(), env)
    }
}

proof fn lemma_first_bad_child(
    e: EntryDir,
    cs: Seq<DirChild>,
    env: Seq<(Seq<char>, Seq<char>)>,
    i: int,
)
    requires
        0 <= i < cs.len(),
        !child_ok(e, cs[i], env),
        forall|j: int| 0 <= j < i ==> child_ok(e, #[trigger] cs[j], env),
    ensures
        first_bad_child(e, cs, env) == i,
    decreases i,
{
    if i == 0 {
    } else {
        assert forall|j: int| 0 <= j < i - 1 implies child_ok(
            e,
            #[trigger] cs.drop_first()[j],
            env,
        ) by {
            assert(cs.drop_first()[j] == cs[j + 1]);
        }
        assert(cs.drop_first()[i - 1] == cs[i]);
        lemma_first_bad_child(e, cs.drop_first(), env, i - 1);
    }
}

/// The error a failing child raises: an unrepresentable path, or the
/// first unbound variable of its path.
pub open spec fn child_err(
    e: EntryDir,
    c: DirChild,
    env: Seq<(Seq<char>, Seq<char>)>,
    err: TmsError,
) -> bool {
    if c.path is None {
        err is Path
    } else {
        err matches TmsError::EnvSubst { var } && var@ == envsubst_err_var(c.path->0@, env)
    }
}

/// The candidate a plain entry is.
pub open spec fn plain_item(e: EntryPlain, sess: Seq<(Seq<char>, SessionStats)>) -> ItemModel {
    ItemModel {
        name: e.name@,
        workdir: e.workdir@,
        stats: sess_lookup(sess, e.name@),
        preview: pc_model(e.preview_cmd),
    }
}

/// An entry expands cleanly: a plain entry always, a directory entry when
/// its root was listed and no child aborts.
pub open spec fn entry_ok(
    e: Entry,
    listings: Seq<(Seq<char>, Seq<DirChild>)>,
    env: Seq<(Seq<char>, Seq<char>)>,
) -> bool {
    match e {
        Entry::Plain(_) => true,
        Entry::Dir(d) => listing_lookup(listings, d.workdir@) matches Some(cs) && (forall|k: int|
            0 <= k < cs.len() ==> child_ok(d, #[trigger] cs[k], env)),
    }
}

/// The candidates one entry expands to.
pub open spec fn entry_items(
    e: Entry,
    sess: Seq<(Seq<char>, SessionStats)>,
    listings: Seq<(Seq<char>, Seq<DirChild>)>,
    env: Seq<(Seq<char>, Seq<char>)>,
) -> Seq<ItemModel> {
    match e {
        Entry::Plain(p) => seq![plain_item(p, sess)],
        Entry::Dir(d) => expand_children(d, listing_lookup(listings, d.workdir@)->0, sess, env),
    }
}

/// The error a failing entry raises: an unlisted root, or its first
/// failing child's error.
pub open spec fn entry_err(
    e: Entry,
    listings: Seq<(Seq<char>, Seq<DirChild>)>,
    env: Seq<(Seq<char>, Seq<char>)>,
    err: TmsError,
) -> bool {
    match e {
        Entry::Plain(_) => false,
        Entry::Dir(d) => match listing_lookup(listings, d.workdir@) {
            None => err matches TmsError::Io { path } && path@ == d.workdir@,
            Some(cs) => {
                let b = first_bad_child(d, cs, env);
                0 <= b < cs.len() && child_err(d, cs[b], env, err)
            },
        },
    }
}

/// Whether any of the first `upto` candidates carries `name`.
fn name_in_prefix(v: &Vec<PromptItem>, upto: usize, name: &str) -> (r: bool)
    requires
        upto <= v@.len(),
    ensures
        r == in_items(v.deep_view().take(upto as int), name@),
{
    let ghost dv = v.deep_view().take(upto as int);
    let mut i: usize = 0;
    while i < upto
        invariant
            i <= upto,
            upto <= v@.len(),
            dv == v.deep_view().take(upto as int),
            forall|k: int| 0 <= k < i ==> #[trigger] dv[k].name != name@,
        decreases upto - i,
    {
        proof {
            assert(dv[i as int] == v@[i as int]@);
        }
        if str_eq_str(v[i].name.as_str(), name) {
            proof {
                assert(dv[i as int].name == name@);
            }
            return true;
        }
        i += 1;
    }
    false
}

/// Some candidate carries `n`.
pub open spec fn in_items(items: Seq<ItemModel>, n: Seq<char>) -> bool {
    exists|i: int| 0 <= i < items.len() && #[trigger] items[i].name == n
}

impl EntryPlain {
    /// Expand this entry to its one candidate, with live stats attached.
    pub fn into_prompt_items(self, sessions: &Sessions, out: &mut Vec<PromptItem>) -> (r: Result<
        (),
        TmsError,
    >)
        ensures
            r is Ok,
            final(out).deep_view() == old(out).deep_view().push(plain_item(self, sessions@)),
    {
        let ghost before = out.deep_view();
        let mut item = PromptItem::new(self.name, self.workdir);
        item.populate_session_data(sessions);
        item.set_preview(self.preview_cmd);
        out.push(item);
        proof {
            assert(out.deep_view() =~= before.push(plain_item(self, sessions@)));
        }
        Ok(())
    }
}

impl SessionStats {
    /// Synthesize the candidate for a session no entry covers.
    pub fn into_prompt_items(
        self,
        name: String,
        workdir: Workdir,
        out: &mut Vec<PromptItem>,
    ) -> (r: Result<(), TmsError>)
        ensures
            r is Ok,
            final(out).deep_view() == old(out).deep_view().push(
                ItemModel { name: name@, workdir: workdir@, stats: Some(self), preview: None },
            ),
    {
        let ghost before = out.deep_view();
        let item = PromptItem::from_active_session(workdir, name, &self);
        out.push(item);
        proof {
            assert(out.deep_view() =~= before.push(out@.last()@));
        }
        Ok(())
    }
}

impl EntryDir {
    /// Expand this entry: one candidate per directory child of its root
    /// that is not excluded, named `<label> - <child>`. Fails when the
    /// root was not listed, a child path cannot be rendered as text, or a
    /// child path does not substitute; the first failure wins.
    pub fn into_prompt_items(
        self,
        sessions: &Sessions,
        listings: &DirListings,
        env: &EnvMap,
        out: &mut Vec<PromptItem>,
    ) -> (r: Result<(), TmsError>)
        ensures
            r is Ok <==> entry_ok(Entry::Dir(self), listings@, env@),
            r is Ok ==> final(out).deep_view() == old(out).deep_view() + expand_children(
                self,
                listing_lookup(listings@, self.workdir@)->0,
                sessions@,
                env@,
            ),
            r matches Err(e) ==> entry_err(Entry::Dir(self), listings@, env@, e),
    {
        proof {
            reveal_strlit("/");
            assert("/"@ =~= seq!['/']);
            reveal_strlit(" - ");
            assert(" - "@ =~= seq![' ', '-', ' ']);
        }
        let cs: &Vec<DirChild> = match listings.find(self.workdir.as_ref()) {
            Some(cs) => cs,
            None => {
                return Err(TmsError::Io { path: String::from_str(self.workdir.as_ref()) });
            },
        };
        let ghost csv = cs@;
        let ghost before = out.deep_view();
        let mut k: usize = 0;
        while k < cs.len()
            invariant
                k <= cs@.len(),
                csv == cs@,
                csv == listing_lookup(listings@, self.workdir@)->0,
                listing_lookup(listings@, self.workdir@) is Some,
                forall|t: int| 0 <= t < k ==> child_ok(self, #[trigger] csv[t], env@),
                out.deep_view() == before + expand_children(
                    self,
                    csv.take(k as int),
                    sessions@,
                    env@,
                ),
            decreases cs@.len() - k,
        {
            proof {
                reveal_strlit("/");
                assert("/"@ =~= seq!['/']);
                reveal_strlit(" - ");
                assert(" - "@ =~= seq![' ', '-', ' ']);
                assert(csv.take(k + 1).drop_last() =~= csv.take(k as int));
                assert(csv.take(k + 1).last() == csv[k as int]);
            }
            if !cs[k].is_dir {
                k += 1;
                continue ;
            }
            let p: &String = match &cs[k].path {
                Some(p) => p,
                None => {
                    proof {
                        assert(!child_ok(self, csv[k as int], env@));
                        lemma_first_bad_child(self, csv, env@, k as int);
                        assert(child_err(self, csv[k as int], env@, TmsError::Path));
                    }
                    return Err(TmsError::Path);
                },
            };
            let segs = split_all(p.as_str(), "/");
            let base: &str = segs[segs.len() - 1].as_str();
            proof {
                assert(segs.deep_view().last() == segs@[segs@.len() - 1]@);
                assert(base@ == child_name(p@));
            }
            if name_excluded_exec(&self.excludes, base) {
                k += 1;
                continue ;
            }
            match Workdir::new(p.as_str(), env) {
                Err(e) => {
                    proof {
                        assert(!child_ok(self, csv[k as int], env@));
                        lemma_first_bad_child(self, csv, env@, k as int);
                    }
                    return Err(e);
                },
                Ok(w) => {
                    let mut nm = self.name.clone();
                    nm.append(" - ");
                    nm.append(base);
                    let mut item = PromptItem::new(nm, w);
                    item.set_preview(duplicate_preview(&self.preview_cmd));
                    item.populate_session_data(sessions);
                    let ghost mid = out.deep_view();
                    out.push(item);
                    proof {
                        assert(out@.last()@ == dir_child_item(self, csv[k as int], sessions@, env@));
                        assert(out.deep_view() =~= mid.push(out@.last()@));
                        assert(out.deep_view() =~= before + expand_children(
                            self,
                            csv.take(k + 1),
                            sessions@,
                            env@,
                        ));
                    }
                },
            }
            k += 1;
        }
        proof {
            assert(csv.take(csv.len() as int) =~= csv);
        }
        Ok(())
    }
}

/// Whether some element of the list holds the characters of `n`.
fn list_contains_str(xs: &Vec<String>, n: &str) -> (r: bool)
    ensures
        r == (exists|i: int| 0 <= i < xs@.len() && #[trigger] xs@[i]@ == n@),
{
    let mut i: usize = 0;
    while i < xs.len()
        invariant
            i <= xs@.len(),
            forall|k: int| 0 <= k < i ==> #[trigger] xs@[k]@ != n@,
        decreases xs@.len() - i,
    {
        if str_eq_str(xs[i].as_str(), n) {
            proof {
                assert(xs@[i as int]@ == n@);
            }
            return true;
        }
        i += 1;
    }
    false
}

/// Whether `n` stands in the exclusion list.
fn name_excluded_exec(excludes: &Option<Vec<String>>, n: &str) -> (r: bool)
    ensures
        r == name_excluded(*excludes, n@),
{
    match excludes {
        None => false,
        Some(xs) => list_contains_str(xs, n),
    }
}

/// A value-equal copy of a resolved preview pair.
fn duplicate_preview(o: &Option<PreviewCommands>) -> (r: Option<PreviewCommands>)
    ensures
        r == *o,
{
    match o {
        None => None,
        Some(pc) => {
            let running = match &pc.running {
                Some(s) => Some(s.clone()),
                None => None,
            };
            let not_running = match &pc.not_running {
                Some(s) => Some(s.clone()),
                None => None,
            };
            let d = PreviewCommands { running, not_running };
            proof {
                assert(o->0 == d);
            }
            Some(d)
        },
    }
}

impl Entry {
    /// Expand one entry into its candidates.
    pub fn into_prompt_items(
        self,
        sessions: &Sessions,
        listings: &DirListings,
        env: &EnvMap,
        out: &mut Vec<PromptItem>,
    ) -> (r: Result<(), TmsError>)
        ensures
            r is Ok <==> entry_ok(self, listings@, env@),
            r is Ok ==> final(out).deep_view() == old(out).deep_view() + entry_items(
                self,
                sessions@,
                listings@,
                env@,
            ),
            r matches Err(e) ==> entry_err(self, listings@, env@, e),
    {
        let ghost before = out.deep_view();
        match self {
            Entry::Dir(e) => e.into_prompt_items(sessions, listings, env, out),
            Entry::Plain(e) => {
                let r = e.into_prompt_items(sessions, out);
                proof {
                    assert(out.deep_view() =~= before + seq![plain_item(e, sessions@)]);
                }
                r
            },
        }
    }
}

/// The selector row for a candidate.
pub open spec fn text_row(m: ItemModel) -> Seq<char> {
    let star = if m.stats matches Some(s) && s.attached {
        star_cs()
    } else {
        Seq::<char>::empty()
    };
    let tail = match m.stats {
        Some(s) => dec_rep(s.window_count as int) + windows_cs(),
        None => Seq::<char>::empty(),
    };
    padded(star, 3) + seq![' '] + padded(m.name, 40) + seq![' '] + padded(m.workdir, 60) + seq![' ']
        + tail
}

} // verus!

verus! {

/// All candidates the entries expand to, in configuration order.
pub open spec fn expand_entries(
    es: Seq<Entry>,
    sess: Seq<(Seq<char>, SessionStats)>,
    listings: Seq<(Seq<char>, Seq<DirChild>)>,
    env: Seq<(Seq<char>, Seq<char>)>,
) -> Seq<ItemModel>
    decreases es.len(),
{
    if es.len() == 0 {
        Seq::empty()
    } else {
        expand_entries(es.drop_last(), sess, listings, env) + entry_items(
            es.last(),
            sess,
            listings,
            env,
        )
    }
}

/// Every entry expands cleanly.
pub open spec fn all_entries_ok(
    es: Seq<Entry>,
    listings: Seq<(Seq<char>, Seq<DirChild>)>,
    env: Seq<(Seq<char>, Seq<char>)>,
) -> bool {
    forall|i: int| 0 <= i < es.len() ==> entry_ok(#[trigger] es[i], listings, env)
}

/// The candidates synthesized for sessions no expanded candidate names:
/// one per such session, at the default directory, with no preview.
pub open spec fn orphan_items(
    sess: Seq<(Seq<char>, SessionStats)>,
    expanded: Seq<ItemModel>,
    dd: Seq<char>,
) -> Seq<ItemModel>
    decreases sess.len(),
{
    if sess.len() == 0 {
        Seq::empty()
    } else {
        orphan_items(sess.drop_last(), expanded, dd) + (if in_items(expanded, sess.last().0) {
            Seq::empty()
        } else {
            seq![
                ItemModel {
                    name: sess.last().0,
                    workdir: dd,
                    stats: Some(sess.last().1),
                    preview: None,
                },
            ]
        })
    }
}

/// The reconciled candidate list, before any ranking: the expanded
/// candidates in configuration order, then the orphan sessions.
pub open spec fn reconciled(
    es: Seq<Entry>,
    sess: Seq<(Seq<char>, SessionStats)>,
    listings: Seq<(Seq<char>, Seq<DirChild>)>,
    env: Seq<(Seq<char>, Seq<char>)>,
    dd: Seq<char>,
) -> Seq<ItemModel> {
    expand_entries(es, sess, listings, env) + orphan_items(
        sess,
        expand_entries(es, sess, listings, env),
        dd,
    )
}

/// A candidate whose session a client is attached to.
pub open spec fn attached_of(m: ItemModel) -> bool {
    m.stats matches Some(s) && s.attached
}

/// The coarse rank: attached sessions first, then running ones, then the
/// rest.
pub open spec fn rank_grp(m: ItemModel) -> int {
    if attached_of(m) {
        0
    } else if m.stats is Some {
        1
    } else {
        2
    }
}

/// The presentation order: by coarse rank; within running candidates by
/// window count, more windows first; remaining ties by case-insensitive
/// name, ascending.
pub open spec fn rank_le(a: ItemModel, b: ItemModel) -> bool {
    if rank_grp(a) != rank_grp(b) {
        rank_grp(a) < rank_grp(b)
    } else if rank_grp(a) != 2 && a.stats->0.window_count != b.stats->0.window_count {
        a.stats->0.window_count > b.stats->0.window_count
    } else {
        lex_le(lower_of(a.name), lower_of(b.name))
    }
}

/// Ranking totality: any two candidates are comparable.
pub proof fn lemma_rank_le_total(a: ItemModel, b: ItemModel)
    ensures
        rank_le(a, b) || rank_le(b, a),
{
    lemma_lex_le_total(lower_of(a.name), lower_of(b.name));
}

/// Ranking transitivity.
pub proof fn lemma_rank_le_trans(a: ItemModel, b: ItemModel, c: ItemModel)
    requires
        rank_le(a, b),
        rank_le(b, c),
    ensures
        rank_le(a, c),
{
    if rank_grp(a) == rank_grp(b) && rank_grp(b) == rank_grp(c) && rank_grp(a) != 2 {
        let wa = a.stats->0.window_count;
        let wb = b.stats->0.window_count;
        let wc = c.stats->0.window_count;
        if wa == wb && wb == wc {
            lemma_lex_le_trans(lower_of(a.name), lower_of(b.name), lower_of(c.name));
        }
    } else if rank_grp(a) == rank_grp(b) && rank_grp(b) == rank_grp(c) {
        lemma_lex_le_trans(lower_of(a.name), lower_of(b.name), lower_of(c.name));
    }
}

/// Rank strictness: a candidate of an earlier group — attached before
/// merely running, running before stat-less — sorts strictly first.
pub proof fn lemma_rank_groups(a: ItemModel, b: ItemModel)
    ensures
        rank_grp(a) < rank_grp(b) ==> rank_le(a, b) && !rank_le(b, a),
{
}

/// Rank tie-break: between two running candidates of one attachment
/// state and equal window count, the order is the case-insensitive name
/// order.
pub proof fn lemma_rank_tie_break(a: ItemModel, b: ItemModel)
    requires
        a.stats is Some,
        b.stats is Some,
        attached_of(a) == attached_of(b),
        a.stats->0.window_count == b.stats->0.window_count,
    ensures
        rank_le(a, b) == lex_le(lower_of(a.name), lower_of(b.name)),
{
}

/// The list is in presentation order.
pub open spec fn rank_sorted(s: Seq<ItemModel>) -> bool {
    forall|i: int, j: int| 0 <= i < j < s.len() ==> rank_le(#[trigger] s[i], #[trigger] s[j])
}

/// Compare two candidates in the presentation order.
fn rank_le_items(a: &PromptItem, b: &PromptItem) -> (r: bool)
    ensures
        r == rank_le(a@, b@),
{
    let ga: u8 = match &a.stats {
        Some(s) => if s.attached {
            0
        } else {
            1
        },
        None => 2,
    };
    let gb: u8 = match &b.stats {
        Some(s) => if s.attached {
            0
        } else {
            1
        },
        None => 2,
    };
    proof {
        assert(ga == rank_grp(a@));
        assert(gb == rank_grp(b@));
    }
    if ga != gb {
        return ga < gb;
    }
    if ga != 2 {
        let wa = match &a.stats {
            Some(s) => s.window_count,
            None => 0,
        };
        let wb = match &b.stats {
            Some(s) => s.window_count,
            None => 0,
        };
        if wa != wb {
            return wa > wb;
        }
    }
    let la = lowercase(a.name.as_str());
    let lb = lowercase(b.name.as_str());
    lex_le_str(la.as_str(), lb.as_str())
}

/// Order the candidates by the presentation order. The result holds the
/// same candidates.
pub fn sorted_items(v: Vec<PromptItem>) -> (r: Vec<PromptItem>)
    ensures
        r.deep_view().to_multiset() == v.deep_view().to_multiset(),
        rank_sorted(r.deep_view()),
{
    broadcast use vstd::multiset::group_multiset_axioms;
    broadcast use vstd::seq_lib::group_to_multiset_ensures;

    let mut rest = v;
    let mut out: Vec<PromptItem> = Vec::new();
    let ghost total = rest.deep_view().to_multiset();
    proof {
        assert(out.deep_view() =~= Seq::<ItemModel>::empty());
        assert(out.deep_view().to_multiset().add(rest.deep_view().to_multiset()) =~= total);
    }
    while rest.len() > 0
        invariant
            rank_sorted(out.deep_view()),
            out.deep_view().to_multiset().add(rest.deep_view().to_multiset()) == total,
            total == v.deep_view().to_multiset(),
        decreases rest@.len(),
    {
        let ghost rest0 = rest.deep_view();
        let x = rest.remove(0);
        proof {
            broadcast use vstd::multiset::group_multiset_axioms;
            broadcast use vstd::seq_lib::group_to_multiset_ensures;

            assert(rest.deep_view() =~= rest0.remove(0));
            vstd::seq_lib::to_multiset_remove(rest0, 0);
            assert(x@ == rest0[0]);
            assert(rest0.contains(x@)) by {
                assert(rest0[0] == x@);
            }
            assert(rest0.to_multiset().count(x@) > 0);
        }
        let ghost odv = out.deep_view();
        let mut j: usize = 0;
        while j < out.len() && rank_le_items(&out[j], &x)
            invariant
                odv == out.deep_view(),
                j <= odv.len(),
                forall|k: int| 0 <= k < j ==> rank_le(#[trigger] odv[k], x@),
            decreases odv.len() - j,
        {
            j += 1;
        }
        out.insert(j, x);
        proof {
            broadcast use vstd::multiset::group_multiset_axioms;
            broadcast use vstd::seq_lib::group_to_multiset_ensures;

            assert(out.deep_view() =~= odv.insert(j as int, x@));
            vstd::seq_lib::to_multiset_insert(odv, j as int, x@);
            let ndv = odv.insert(j as int, x@);
            assert forall|i1: int, i2: int| 0 <= i1 < i2 < ndv.len() implies rank_le(
                #[trigger] ndv[i1],
                #[trigger] ndv[i2],
            ) by {
                if (j as int) < odv.len() {
                    lemma_rank_le_total(odv[j as int], x@);
                }
                if i1 == j && i2 > j {
                    assert(ndv[i1] == x@);
                    assert(ndv[i2] == odv[i2 - 1]);
                    assert(rank_le(x@, odv[j as int]));
                    if i2 - 1 > j {
                        assert(rank_le(odv[j as int], odv[i2 - 1]));
                        lemma_rank_le_trans(x@, odv[j as int], odv[i2 - 1]);
                    }
                } else if i1 < j && i2 == j {
                    assert(ndv[i1] == odv[i1]);
                    assert(ndv[i2] == x@);
                } else if i1 < j && i2 > j {
                    assert(ndv[i1] == odv[i1]);
                    assert(ndv[i2] == odv[i2 - 1]);
                } else if i1 > j && i2 > j {
                    assert(ndv[i1] == odv[i1 - 1]);
                    assert(ndv[i2] == odv[i2 - 1]);
                }
            }
            assert(out.deep_view().to_multiset().add(rest.deep_view().to_multiset()) =~= total);
        }
    }
    proof {
        assert(rest.deep_view() =~= Seq::<ItemModel>::empty());
        assert(rest.deep_view().to_multiset() =~= Multiset::<ItemModel>::empty());
        assert(out.deep_view().to_multiset() =~= total);
    }
    out
}

/// The first candidate whose session a client is attached to.
pub fn find_attached(items: &Vec<PromptItem>) -> (r: Option<usize>)
    ensures
        r matches Some(i) ==> i < items@.len() && attached_of(items.deep_view()[i as int]) && (
        forall|j: int| 0 <= j < i ==> !attached_of(#[trigger] items.deep_view()[j])),
        r is None ==> forall|j: int|
            0 <= j < items@.len() ==> !attached_of(#[trigger] items.deep_view()[j]),
{
    let mut i: usize = 0;
    while i < items.len()
        invariant
            i <= items@.len(),
            forall|j: int| 0 <= j < i ==> !attached_of(#[trigger] items.deep_view()[j]),
        decreases items@.len() - i,
    {
        let is_attached = match &items[i].stats {
            Some(s) => s.attached,
            None => false,
        };
        proof {
            assert(items.deep_view()[i as int] == items@[i as int]@);
        }
        if is_attached {
            return Some(i);
        }
        i += 1;
    }
    None
}

/// Reconcile the expanded entries with the live sessions: attach stats,
/// synthesize orphans at the default directory, and rank the list when
/// the configuration asks for it. Fails exactly when some entry fails to
/// expand, with the first failing entry's error.
pub fn reconcile_items(
    entries: Vec<Entry>,
    config: &Config,
    sessions: Sessions,
    listings: &DirListings,
    env: &EnvMap,
) -> (r: Result<Vec<PromptItem>, TmsError>)
    ensures
        r is Ok <==> all_entries_ok(entries@, listings@, env@),
        r matches Ok(items) ==> {
            let base = reconciled(entries@, sessions@, listings@, env@, config.default_dir@);
            &&& (!config.sort ==> items.deep_view() == base)
            &&& (config.sort ==> items.deep_view().to_multiset() == base.to_multiset()
                && rank_sorted(items.deep_view()))
        },
        r matches Err(e) ==> exists|i: int|
            0 <= i < entries@.len() && !entry_ok(#[trigger] entries@[i], listings@, env@) && (
            forall|j: int| 0 <= j < i ==> entry_ok(#[trigger] entries@[j], listings@, env@))
                && entry_err(entries@[i], listings@, env@, e),
{
    let ghost ev = entries@;
    let mut es = entries;
    let mut res: Vec<PromptItem> = Vec::new();
    let mut done: usize = 0;
    let n_total: usize = es.len();
    proof {
        assert(ev.len() == n_total);
        assert(ev.take(0) =~= Seq::<Entry>::empty());
        assert(res.deep_view() =~= Seq::<ItemModel>::empty());
    }
    while es.len() > 0
        invariant
            ev == entries@,
            ev.len() <= usize::MAX,
            done + es@.len() == ev.len(),
            es@ =~= ev.skip(done as int),
            forall|j: int| 0 <= j < done ==> entry_ok(#[trigger] ev[j], listings@, env@),
            res.deep_view() == expand_entries(ev.take(done as int), sessions@, listings@, env@),
        decreases es@.len(),
    {
        let e = es.remove(0);
        proof {
            assert(e == ev[done as int]);
            assert(es@ =~= ev.skip(done + 1));
            assert(ev.take(done + 1).drop_last() =~= ev.take(done as int));
            assert(ev.take(done + 1).last() == ev[done as int]);
        }
        match e.into_prompt_items(&sessions, listings, env, &mut res) {
            Ok(()) => {},
            Err(err) => {
                return Err(err);
            },
        }
        done += 1;
    }
    proof {
        assert(ev.take(ev.len() as int) =~= ev);
    }
    let ghost expanded = expand_entries(ev, sessions@, listings@, env@);
    let n_exp: usize = res.len();
    let ghost sv = sessions@;
    let sess_vec = sessions.value();
    let mut k: usize = 0;
    proof {
        assert(sv.take(0) =~= Seq::<(Seq<char>, SessionStats)>::empty());
        assert(res.deep_view().take(n_exp as int) =~= expanded);
        assert(res.deep_view() =~= expanded + orphan_items(sv.take(0), expanded, config.default_dir@));
    }
    while k < sess_vec.len()
        invariant
            k <= sess_vec@.len(),
            sess_vec@.len() == sv.len(),
            forall|i: int|
                0 <= i < sv.len() ==> (#[trigger] sess_vec@[i].0@, sess_vec@[i].1) == sv[i],
            n_exp == expanded.len(),
            n_exp <= res@.len(),
            res.deep_view().take(n_exp as int) == expanded,
            res.deep_view() == expanded + orphan_items(
                sv.take(k as int),
                expanded,
                config.default_dir@,
            ),
        decreases sess_vec@.len() - k,
    {
        proof {
            assert(sv.take(k + 1).drop_last() =~= sv.take(k as int));
            assert(sv.take(k + 1).last() == sv[k as int]);
        }
        let nm = sess_vec[k].0.clone();
        proof {
            assert(nm@ == sv[k as int].0);
        }
        if !name_in_prefix(&res, n_exp, nm.as_str()) {
            let st = sess_vec[k].1;
            let wd = config.default_dir.duplicate();
            let ghost mid = res.deep_view();
            match st.into_prompt_items(nm, wd, &mut res) {
                Ok(()) => {},
                Err(_) => {},
            }
            proof {
                assert(res.deep_view().take(n_exp as int) =~= mid.take(n_exp as int));
                assert(res.deep_view() =~= expanded + orphan_items(
                    sv.take(k + 1),
                    expanded,
                    config.default_dir@,
                ));
            }
        }
        k += 1;
    }
    proof {
        assert(sv.take(sv.len() as int) =~= sv);
    }
    if config.sort {
        let items = sorted_items(res);
        Ok(items)
    } else {
        Ok(res)
    }
}

/// Turning a value into the full ranked candidate list.
pub trait IntoPromptItems {
    /// Expand, reconcile and rank.
    fn into_prompt_items(
        self,
        config: &Config,
        sessions: Sessions,
        listings: &DirListings,
        env: &EnvMap,
    ) -> Result<Vec<PromptItem>, TmsError>;
}

impl IntoPromptItems for Vec<Entry> {
    fn into_prompt_items(
        self,
        config: &Config,
        sessions: Sessions,
        listings: &DirListings,
        env: &EnvMap,
    ) -> Result<Vec<PromptItem>, TmsError> {
        reconcile_items(self, config, sessions, listings, env)
    }
}

} // verus!

verus! {

/// How many candidates carry `n`.
pub open spec fn count_name(items: Seq<ItemModel>, n: Seq<char>) -> int
    decreases items.len(),
{
    if items.len() == 0 {
        0
    } else {
        count_name(items.drop_last(), n) + if items.last().name == n {
            1int
        } else {
            0
        }
    }
}

/// No two candidates share a name.
pub open spec fn items_names_unique(items: Seq<ItemModel>) -> bool {
    forall|i: int, j: int| 0 <= i < j < items.len() ==> items[i].name != items[j].name
}

proof fn lemma_count_name_single(m: ItemModel, n: Seq<char>)
    ensures
        count_name(seq![m], n) == if m.name == n {
            1int
        } else {
            0
        },
{
    assert(count_name(Seq::<ItemModel>::empty(), n) == 0);
    assert(seq![m].drop_last() =~= Seq::<ItemModel>::empty());
    assert(seq![m].last() == m);
}

proof fn lemma_count_name_concat(a: Seq<ItemModel>, b: Seq<ItemModel>, n: Seq<char>)
    ensures
        count_name(a + b, n) == count_name(a, n) + count_name(b, n),
    decreases b.len(),
{
    if b.len() == 0 {
        assert(a + b =~= a);
    } else {
        assert((a + b).drop_last() =~= a + b.drop_last());
        assert((a + b).last() == b.last());
        lemma_count_name_concat(a, b.drop_last(), n);
    }
}

/// A name is carried exactly when its count is positive.
proof fn lemma_count_name_zero(items: Seq<ItemModel>, n: Seq<char>)
    ensures
        count_name(items, n) >= 0,
        (count_name(items, n) == 0) <==> !in_items(items, n),
    decreases items.len(),
{
    if items.len() > 0 {
        lemma_count_name_zero(items.drop_last(), n);
        if items.last().name == n {
            assert(items[items.len() - 1].name == n);
        } else if in_items(items.drop_last(), n) {
            let i = choose|i: int|
                0 <= i < items.drop_last().len() && #[trigger] items.drop_last()[i].name == n;
            assert(items[i].name == n);
        } else if in_items(items, n) {
            let i = choose|i: int| 0 <= i < items.len() && #[trigger] items[i].name == n;
            assert(i < items.len() - 1);
            assert(items.drop_last()[i].name == n);
        }
    }
}

/// Among uniquely named candidates a carried name is carried once.
proof fn lemma_count_name_unique(items: Seq<ItemModel>, n: Seq<char>)
    requires
        items_names_unique(items),
        in_items(items, n),
    ensures
        count_name(items, n) == 1,
    decreases items.len(),
{
    let rest = items.drop_last();
    assert(items.len() > 0);
    assert forall|i: int, j: int| 0 <= i < j < rest.len() implies rest[i].name != rest[j].name by {
        assert(rest[i] == items[i]);
        assert(rest[j] == items[j]);
    }
    if items.last().name == n {
        assert(!in_items(rest, n)) by {
            if in_items(rest, n) {
                let i = choose|i: int| 0 <= i < rest.len() && #[trigger] rest[i].name == n;
                assert(items[i].name == items[items.len() - 1].name);
            }
        }
        lemma_count_name_zero(rest, n);
    } else {
        assert(in_items(rest, n)) by {
            let i = choose|i: int| 0 <= i < items.len() && #[trigger] items[i].name == n;
            assert(i < items.len() - 1);
            assert(rest[i].name == n);
        }
        lemma_count_name_unique(rest, n);
    }
}

/// Every expanded candidate carries the stats recorded under its name.
proof fn lemma_expand_children_stats(
    e: EntryDir,
    cs: Seq<DirChild>,
    sess: Seq<(Seq<char>, SessionStats)>,
    env: Seq<(Seq<char>, Seq<char>)>,
)
    ensures
        forall|i: int|
            0 <= i < expand_children(e, cs, sess, env).len() ==> (#[trigger] expand_children(
                e,
                cs,
                sess,
                env,
            )[i]).stats == sess_lookup(sess, expand_children(e, cs, sess, env)[i].name),
    decreases cs.len(),
{
    if cs.len() > 0 {
        lemma_expand_children_stats(e, cs.drop_last(), sess, env);
    }
}

proof fn lemma_expand_entries_stats(
    es: Seq<Entry>,
    sess: Seq<(Seq<char>, SessionStats)>,
    listings: Seq<(Seq<char>, Seq<DirChild>)>,
    env: Seq<(Seq<char>, Seq<char>)>,
)
    ensures
        forall|i: int|
            0 <= i < expand_entries(es, sess, listings, env).len() ==> (#[trigger] expand_entries(
                es,
                sess,
                listings,
                env,
            )[i]).stats == sess_lookup(sess, expand_entries(es, sess, listings, env)[i].name),
    decreases es.len(),
{
    if es.len() > 0 {
        lemma_expand_entries_stats(es.drop_last(), sess, listings, env);
        match es.last() {
            Entry::Plain(_) => {},
            Entry::Dir(d) => {
                lemma_expand_children_stats(
                    d,
                    listing_lookup(listings, d.workdir@)->0,
                    sess,
                    env,
                );
            },
        }
    }
}

/// With unique names, looking up the name at an index yields that
/// index's stats.
proof fn lemma_sess_lookup_at(v: Seq<(Seq<char>, SessionStats)>, i: int, n: Seq<char>)
    requires
        names_unique(v),
        0 <= i < v.len(),
        v[i].0 == n,
    ensures
        sess_lookup(v, n) == Some(v[i].1),
    decreases v.len(),
{
    if i == 0 {
    } else {
        assert(v[0].0 != n);
        assert forall|a: int, b: int|
            0 <= a < b < v.drop_first().len() implies v.drop_first()[a].0
            != v.drop_first()[b].0 by {
            assert(v[a + 1].0 != v[b + 1].0);
        }
        assert(v.drop_first()[i - 1] == v[i]);
        lemma_sess_lookup_at(v.drop_first(), i - 1, n);
    }
}

/// Dropping the last session does not change the lookup of other names.
proof fn lemma_sess_lookup_drop_last(v: Seq<(Seq<char>, SessionStats)>, n: Seq<char>)
    requires
        v.len() > 0,
        v.last().0 != n,
    ensures
        sess_lookup(v, n) == sess_lookup(v.drop_last(), n),
    decreases v.len(),
{
    if v.len() == 1 {
        assert(v.drop_last().len() == 0);
    } else {
        assert(v.drop_last()[0] == v[0]);
        if v[0].0 == n {
        } else {
            assert(v.drop_first().last() == v.last());
            assert(v.drop_first().drop_last() =~= v.drop_last().drop_first());
            lemma_sess_lookup_drop_last(v.drop_first(), n);
        }
    }
}

/// A name some expanded candidate carries is carried by no orphan.
proof fn lemma_orphans_skip(
    sess: Seq<(Seq<char>, SessionStats)>,
    expanded: Seq<ItemModel>,
    dd: Seq<char>,
    n: Seq<char>,
)
    requires
        in_items(expanded, n),
    ensures
        count_name(orphan_items(sess, expanded, dd), n) == 0,
    decreases sess.len(),
{
    lemma_count_name_zero(orphan_items(sess, expanded, dd), n);
    if sess.len() > 0 {
        lemma_orphans_skip(sess.drop_last(), expanded, dd, n);
        let tail = if in_items(expanded, sess.last().0) {
            Seq::<ItemModel>::empty()
        } else {
            seq![
                ItemModel {
                    name: sess.last().0,
                    workdir: dd,
                    stats: Some(sess.last().1),
                    preview: None,
                },
            ]
        };
        lemma_count_name_concat(orphan_items(sess.drop_last(), expanded, dd), tail, n);
        if !in_items(expanded, sess.last().0) {
            assert(sess.last().0 != n);
            lemma_count_name_single(tail[0], n);
            assert(count_name(tail, n) == 0);
        }
    }
}

/// A session name no expanded candidate carries yields exactly one
/// orphan, at the default directory, with that session's stats.
proof fn lemma_orphan_count(
    sess: Seq<(Seq<char>, SessionStats)>,
    expanded: Seq<ItemModel>,
    dd: Seq<char>,
    n: Seq<char>,
)
    requires
        names_unique(sess),
        !in_items(expanded, n),
    ensures
        count_name(orphan_items(sess, expanded, dd), n) == if sess_has(sess, n) {
            1int
        } else {
            0
        },
        forall|i: int|
            0 <= i < orphan_items(sess, expanded, dd).len() && (#[trigger] orphan_items(
                sess,
                expanded,
                dd,
            )[i]).name == n ==> orphan_items(sess, expanded, dd)[i].workdir == dd && orphan_items(
                sess,
                expanded,
                dd,
            )[i].stats == Some(sess_lookup(sess, n)->0),
    decreases sess.len(),
{
    let o = orphan_items(sess, expanded, dd);
    if sess.len() == 0 {
    } else {
        let rest = sess.drop_last();
        assert forall|a: int, b: int| 0 <= a < b < rest.len() implies rest[a].0 != rest[b].0 by {
            assert(sess[a].0 != sess[b].0);
        }
        lemma_orphan_count(rest, expanded, dd, n);
        let tail = if in_items(expanded, sess.last().0) {
            Seq::<ItemModel>::empty()
        } else {
            seq![
                ItemModel {
                    name: sess.last().0,
                    workdir: dd,
                    stats: Some(sess.last().1),
                    preview: None,
                },
            ]
        };
        lemma_count_name_concat(orphan_items(rest, expanded, dd), tail, n);
        if sess.last().0 == n {
            assert(!sess_has(rest, n)) by {
                crate::tmux::lemma_sess_lookup_exists(rest, n);
                if sess_has(rest, n) {
                    let i = choose|i: int| 0 <= i < rest.len() && (#[trigger] rest[i]).0 == n;
                    assert(sess[i].0 == sess[sess.len() - 1].0);
                }
            }
            crate::tmux::lemma_sess_lookup_exists(sess, n);
            assert(sess[sess.len() - 1].0 == n);
            assert(sess_has(sess, n));
            lemma_sess_lookup_at(sess, sess.len() - 1, n);
            lemma_count_name_single(tail[0], n);
            assert(count_name(tail, n) == 1);
        } else {
            assert(count_name(tail, n) == 0) by {
                if !in_items(expanded, sess.last().0) {
                    lemma_count_name_single(tail[0], n);
                }
            }
            lemma_sess_lookup_drop_last(sess, n);
        }
        assert forall|i: int| 0 <= i < o.len() && (#[trigger] o[i]).name == n implies o[i].workdir
            == dd && o[i].stats == Some(sess_lookup(sess, n)->0) by {
            let ro = orphan_items(rest, expanded, dd);
            assert(o =~= ro + tail);
            if i < ro.len() {
                assert(o[i] == ro[i]);
                if sess.last().0 == n {
                    lemma_count_name_zero(ro, n);
                    assert(!sess_has(rest, n)) by {
                        crate::tmux::lemma_sess_lookup_exists(rest, n);
                        if sess_has(rest, n) {
                            let t = choose|t: int|
                                0 <= t < rest.len() && (#[trigger] rest[t]).0 == n;
                            assert(sess[t].0 == sess[sess.len() - 1].0);
                        }
                    }
                    assert(in_items(ro, n)) by {
                        assert(ro[i].name == n);
                    }
                } else {
                    lemma_sess_lookup_drop_last(sess, n);
                }
            } else {
                assert(o[i] == tail[i - ro.len()]);
                assert(tail.len() > 0 && tail[0].name == n);
                assert(!in_items(expanded, sess.last().0));
                assert(sess.last().0 == n);
                lemma_sess_lookup_at(sess, sess.len() - 1, n);
            }
        }
    }
}

/// Reconciler dedup: a name both an expanded candidate and a live
/// session carry appears exactly once in the reconciled list, with the
/// live session's stats.
pub proof fn lemma_reconcile_dedup(
    es: Seq<Entry>,
    sess: Seq<(Seq<char>, SessionStats)>,
    listings: Seq<(Seq<char>, Seq<DirChild>)>,
    env: Seq<(Seq<char>, Seq<char>)>,
    dd: Seq<char>,
    n: Seq<char>,
)
    requires
        items_names_unique(expand_entries(es, sess, listings, env)),
        names_unique(sess),
        in_items(expand_entries(es, sess, listings, env), n),
        sess_has(sess, n),
    ensures
        count_name(reconciled(es, sess, listings, env, dd), n) == 1,
        forall|i: int|
            0 <= i < reconciled(es, sess, listings, env, dd).len() && (#[trigger] reconciled(
                es,
                sess,
                listings,
                env,
                dd,
            )[i]).name == n ==> reconciled(es, sess, listings, env, dd)[i].stats == sess_lookup(
                sess,
                n,
            ),
{
    let expanded = expand_entries(es, sess, listings, env);
    let orph = orphan_items(sess, expanded, dd);
    let out = reconciled(es, sess, listings, env, dd);
    lemma_count_name_unique(expanded, n);
    lemma_orphans_skip(sess, expanded, dd, n);
    lemma_count_name_concat(expanded, orph, n);
    lemma_expand_entries_stats(es, sess, listings, env);
    lemma_count_name_zero(orph, n);
    assert forall|i: int| 0 <= i < out.len() && (#[trigger] out[i]).name == n implies out[i].stats
        == sess_lookup(sess, n) by {
        if i < expanded.len() {
            assert(out[i] == expanded[i]);
        } else {
            assert(out[i] == orph[i - expanded.len()]);
            assert(in_items(orph, n)) by {
                assert(orph[i - expanded.len()].name == n);
            }
        }
    }
}

/// Orphan synthesis: a live session name no expanded candidate carries
/// appears exactly once in the reconciled list, at the default working
/// directory, with the session's stats.
pub proof fn lemma_orphan_synthesis(
    es: Seq<Entry>,
    sess: Seq<(Seq<char>, SessionStats)>,
    listings: Seq<(Seq<char>, Seq<DirChild>)>,
    env: Seq<(Seq<char>, Seq<char>)>,
    dd: Seq<char>,
    n: Seq<char>,
)
    requires
        names_unique(sess),
        sess_has(sess, n),
        !in_items(expand_entries(es, sess, listings, env), n),
    ensures
        count_name(reconciled(es, sess, listings, env, dd), n) == 1,
        forall|i: int|
            0 <= i < reconciled(es, sess, listings, env, dd).len() && (#[trigger] reconciled(
                es,
                sess,
                listings,
                env,
                dd,
            )[i]).name == n ==> reconciled(es, sess, listings, env, dd)[i].workdir == dd
                && reconciled(es, sess, listings, env, dd)[i].stats == Some(
                sess_lookup(sess, n)->0,
            ),
{
    let expanded = expand_entries(es, sess, listings, env);
    let orph = orphan_items(sess, expanded, dd);
    let out = reconciled(es, sess, listings, env, dd);
    lemma_count_name_zero(expanded, n);
    lemma_orphan_count(sess, expanded, dd, n);
    lemma_count_name_concat(expanded, orph, n);
    assert forall|i: int| 0 <= i < out.len() && (#[trigger] out[i]).name == n implies out[i].workdir
        == dd && out[i].stats == Some(sess_lookup(sess, n)->0) by {
        if i < expanded.len() {
            assert(out[i] == expanded[i]);
            assert(in_items(expanded, n)) by {
                assert(expanded[i].name == n);
            }
        } else {
            assert(out[i] == orph[i - expanded.len()]);
        }
    }
}

} // verus!
