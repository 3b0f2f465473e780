//! The named-group entity and its membership operations.
//!
//! A group owns a name, an ordered list of local paths and an ordered list of
//! `(host, path)` remote endpoints.  Members are added and removed here;
//! nothing in this module touches the filesystem.

use crate::matching::{is_prefix, str_is_prefix};
use crate::strutil::{find_from, find_sub, occurs_at};
use vstd::prelude::*;

verus! {

/// A named group of file locations whose contents are kept identical.
pub struct Sync {
    pub name: String,
    pub locals: Vec<String>,
    pub remotes: Vec<(String, String)>,
}

/// Mathematical content of a [`Sync`]: its name and the two ordered member
/// lists.
#[verifier::ext_equal]
pub struct GroupModel {
    pub name: Seq<char>,
    pub locals: Seq<Seq<char>>,
    pub remotes: Seq<(Seq<char>, Seq<char>)>,
}

impl View for Sync {
    type V = GroupModel;

    open spec fn view(&self) -> GroupModel {
        GroupModel {
            name: self.name@,
            locals: self.locals.deep_view(),
            remotes: self.remotes.deep_view(),
        }
    }
}

/// The models of a sequence of groups, in order.
pub open spec fn models_of(gs: Seq<Sync>) -> Seq<GroupModel> {
    gs.map_values(|g: Sync| g@)
}

/// A member string is a remote reference when it contains a colon.
pub open spec fn has_colon(f: Seq<char>) -> bool {
    find_from(f, seq![':'], 0) >= 0
}

/// The `(host, path)` pair read from a remote reference, split at the first
/// colon.
pub open spec fn split_colon(f: Seq<char>) -> (Seq<char>, Seq<char>) {
    let p = find_from(f, seq![':'], 0);
    (f.subrange(0, p), f.subrange(p + 1, f.len() as int))
}

/// The user-facing form of a remote member: `host:path`.
pub open spec fn remote_str(r: (Seq<char>, Seq<char>)) -> Seq<char> {
    r.0 + seq![':'] + r.1
}

/// The locals appended by one add operation: the inputs without a colon, in
/// order.
pub open spec fn added_locals(fs: Seq<Seq<char>>) -> Seq<Seq<char>>
    decreases fs.len(),
{
    if fs.len() == 0 {
        Seq::empty()
    } else if has_colon(fs.last()) {
        added_locals(fs.drop_last())
    } else {
        added_locals(fs.drop_last()).push(fs.last())
    }
}

/// The remotes appended by one add operation: the inputs with a colon, in
/// order, each split at its first colon.
pub open spec fn added_remotes(fs: Seq<Seq<char>>) -> Seq<(Seq<char>, Seq<char>)>
    decreases fs.len(),
{
    if fs.len() == 0 {
        Seq::empty()
    } else if has_colon(fs.last()) {
        added_remotes(fs.drop_last()).push(split_colon(fs.last()))
    } else {
        added_remotes(fs.drop_last())
    }
}

/// `s` without every element equal to `x`, order otherwise kept.
pub open spec fn drop_matching<A>(s: Seq<A>, x: A) -> Seq<A>
    decreases s.len(),
{
    if s.len() == 0 {
        s
    } else if s.last() == x {
        drop_matching(s.drop_last(), x)
    } else {
        drop_matching(s.drop_last(), x).push(s.last())
    }
}

/// Dropping the elements equal to an absent value changes nothing.
pub proof fn lemma_drop_matching_absent<A>(s: Seq<A>, x: A)
    requires
        !s.contains(x),
    ensures
        drop_matching(s, x) == s,
    decreases s.len(),
{
    if s.len() > 0 {
        assert(s.last() != x) by {
            assert(s[s.len() - 1] == s.last());
        }
        assert(!s.drop_last().contains(x)) by {
            if s.drop_last().contains(x) {
                let i = choose|i: int| 0 <= i < s.drop_last().len() && s.drop_last()[i] == x;
                assert(s[i] == x);
            }
        }
        lemma_drop_matching_absent(s.drop_last(), x);
        assert(s.drop_last().push(s.last()) =~= s);
    }
}

/// Removing a member reference that the group does not hold reports no
/// removal and leaves the group exactly as it was.
pub proof fn lemma_remove_nonexistent(g: GroupModel, f: Seq<char>)
    requires
        has_colon(f) ==> !g.remotes.contains(split_colon(f)),
        !has_colon(f) ==> !g.locals.contains(f),
    ensures
        remove_one(g, f).0 == g,
        remove_one(g, f).1.0 == false,
{
    if has_colon(f) {
        lemma_drop_matching_absent(g.remotes, split_colon(f));
        assert(remove_one(g, f).0 =~~= g);
    } else {
        lemma_drop_matching_absent(g.locals, f);
        assert(remove_one(g, f).0 =~~= g);
    }
}

/// Effect of removing one member reference `f` from a group: on a colon
/// reference every remote equal to its `(host, path)` pair is dropped, else
/// every local equal to the literal string is dropped.  The report says
/// whether anything was removed and whether the reference was remote.
pub open spec fn remove_one(g: GroupModel, f: Seq<char>) -> (GroupModel, (bool, bool)) {
    if has_colon(f) {
        let conv = split_colon(f);
        (
            GroupModel { remotes: drop_matching(g.remotes, conv), ..g },
            (g.remotes.contains(conv), true),
        )
    } else {
        (
            GroupModel { locals: drop_matching(g.locals, f), ..g },
            (g.locals.contains(f), false),
        )
    }
}

/// Effect of removing a list of member references, first to last.
pub open spec fn remove_all(g: GroupModel, fs: Seq<Seq<char>>) -> (GroupModel, Seq<(bool, bool)>)
    decreases fs.len(),
{
    if fs.len() == 0 {
        (g, Seq::empty())
    } else {
        let (g1, rs) = remove_all(g, fs.drop_last());
        let (g2, res) = remove_one(g1, fs.last());
        (g2, rs.push(res))
    }
}

/// Does some member of the group fall under the query?  A `host:path` query
/// matches a remote whose host is equal and whose path starts with the query
/// path; a plain query matches a local that starts with it.
pub open spec fn group_matches_path(g: GroupModel, q: Seq<char>) -> bool {
    if has_colon(q) {
        let qs = split_colon(q);
        exists|i: int|
            0 <= i < g.remotes.len() && g.remotes[i].0 == qs.0 && is_prefix(qs.1, g.remotes[i].1)
    } else {
        exists|i: int| 0 <= i < g.locals.len() && is_prefix(q, g.locals[i])
    }
}

/// The group members that fall under a query, as displayed: either the
/// matching local paths or the matching remotes in `host:path` form.
pub enum MatchingResult {
    Remote(Vec<String>),
    Local(Vec<String>),
}

/// The local paths among `ls` that start with the query, in order.
pub open spec fn locals_under(ls: Seq<Seq<char>>, q: Seq<char>) -> Seq<Seq<char>>
    decreases ls.len(),
{
    if ls.len() == 0 {
        Seq::empty()
    } else if is_prefix(q, ls.last()) {
        locals_under(ls.drop_last(), q).push(ls.last())
    } else {
        locals_under(ls.drop_last(), q)
    }
}

/// The remotes among `rs` whose host equals the query host and whose path
/// starts with the query path, in order, formatted as `host:path`.
pub open spec fn remotes_under(rs: Seq<(Seq<char>, Seq<char>)>, qs: (Seq<char>, Seq<char>)) -> Seq<
    Seq<char>,
>
    decreases rs.len(),
{
    if rs.len() == 0 {
        Seq::empty()
    } else if rs.last().0 == qs.0 && is_prefix(qs.1, rs.last().1) {
        remotes_under(rs.drop_last(), qs).push(remote_str(rs.last()))
    } else {
        remotes_under(rs.drop_last(), qs)
    }
}

/// Position of the first colon of a member reference, when it has one.
fn colon_pos(f: &str) -> (r: Option<usize>)
    ensures
        match r {
            Some(p) => has_colon(f@) && p as int == find_from(f@, seq![':'], 0) && occurs_at(
                f@,
                seq![':'],
                p as int,
            ),
            None => !has_colon(f@),
        },
{
    proof {
        reveal_strlit(":");
        assert(":"@ =~= seq![':']);
    }
    find_sub(f, ":", 0)
}

/// Splits a member reference at its first colon, at position `p`, into owned
/// host and path strings.
fn split_at_colon(f: &str, p: usize) -> (r: (String, String))
    requires
        p as int == find_from(f@, seq![':'], 0),
        occurs_at(f@, seq![':'], p as int),
    ensures
        (r.0@, r.1@) == split_colon(f@),
{
    let fl = f.unicode_len();
    let host = String::from_str(f.substring_char(0, p));
    let path = String::from_str(f.substring_char(p + 1, fl));
    (host, path)
}

/// Linear search for a string equal to `x`.
fn vec_contains_str(v: &Vec<String>, x: &String) -> (r: bool)
    ensures
        r == v.deep_view().contains(x@),
{
    let mut i: usize = 0;
    while i < v.len()
        invariant
            i <= v@.len(),
            forall|j: int| 0 <= j < i ==> v.deep_view()[j] != x@,
        decreases v@.len() - i,
    {
        let e = &v[i];
        if *e == *x {
            proof {
                assert(v.deep_view()[i as int] == x@);
            }
            return true;
        }
        i += 1;
    }
    proof {
        assert(!v.deep_view().contains(x@));
    }
    false
}

/// Linear search for a `(host, path)` pair equal to `x`.
fn vec_contains_pair(v: &Vec<(String, String)>, x: &(String, String)) -> (r: bool)
    ensures
        r == v.deep_view().contains(x.deep_view()),
{
    let mut i: usize = 0;
    while i < v.len()
        invariant
            i <= v@.len(),
            forall|j: int| 0 <= j < i ==> v.deep_view()[j] != x.deep_view(),
        decreases v@.len() - i,
    {
        let e = &v[i];
        if e.0 == x.0 && e.1 == x.1 {
            proof {
                assert(v.deep_view()[i as int] == x.deep_view());
            }
            return true;
        }
        i += 1;
    }
    proof {
        assert(!v.deep_view().contains(x.deep_view()));
    }
    false
}

/// Keeps, in order, the strings not equal to `x`.
fn retain_ne_str(v: &mut Vec<String>, x: &String)
    ensures
        final(v).deep_view() == drop_matching(old(v).deep_view(), x@),
{
    let ghost vd = v.deep_view();
    let mut out: Vec<String> = Vec::new();
    let mut i: usize = 0;
    while i < v.len()
        invariant
            i <= v@.len(),
            v.deep_view() == vd,
            vd.len() == v@.len(),
            out.deep_view() == drop_matching(vd.take(i as int), x@),
        decreases v@.len() - i,
    {
        proof {
            assert(vd.take(i + 1).drop_last() =~= vd.take(i as int));
            assert(vd.take(i + 1).last() == vd[i as int]);
        }
        let e = &v[i];
        proof {
            assert(vd[i as int] == e@);
        }
        if !(*e == *x) {
            let ghost pre_deep = out.deep_view();
            let ghost pre_vec = out@;
            out.push(e.clone());
            proof {
                assert(out@ == pre_vec.push(out@[pre_vec.len() as int]));
                assert forall|j: int| 0 <= j < pre_vec.len() implies #[trigger] out.deep_view()[j]
                    == pre_deep[j] by {
                    assert(out@[j] == pre_vec[j]);
                }
                assert(out.deep_view() =~~= pre_deep.push(vd[i as int]));
            }
        }
        i += 1;
    }
    proof {
        assert(vd.take(vd.len() as int) =~= vd);
    }
    *v = out;
}

/// Keeps, in order, the pairs not equal to `x`.
fn retain_ne_pair(v: &mut Vec<(String, String)>, x: &(String, String))
    ensures
        final(v).deep_view() == drop_matching(old(v).deep_view(), x.deep_view()),
{
    let ghost vd = v.deep_view();
    let mut out: Vec<(String, String)> = Vec::new();
    let mut i: usize = 0;
    while i < v.len()
        invariant
            i <= v@.len(),
            v.deep_view() == vd,
            vd.len() == v@.len(),
            out.deep_view() == drop_matching(vd.take(i as int), x.deep_view()),
        decreases v@.len() - i,
    {
        proof {
            assert(vd.take(i + 1).drop_last() =~= vd.take(i as int));
            assert(vd.take(i + 1).last() == vd[i as int]);
        }
        let e = &v[i];
        proof {
            assert(vd[i as int] == e.deep_view());
        }
        if !(e.0 == x.0 && e.1 == x.1) {
            let ghost pre_deep = out.deep_view();
            let ghost pre_vec = out@;
            out.push((e.0.clone(), e.1.clone()));
            proof {
                assert(out@ == pre_vec.push(out@[pre_vec.len() as int]));
                assert forall|j: int| 0 <= j < pre_vec.len() implies #[trigger] out.deep_view()[j]
                    == pre_deep[j] by {
                    assert(out@[j] == pre_vec[j]);
                }
                assert(out.deep_view() =~~= pre_deep.push(vd[i as int]));
            }
        } else {
            proof {
                assert(vd[i as int] == x.deep_view());
            }
        }
        i += 1;
    }
    proof {
        assert(vd.take(vd.len() as int) =~= vd);
    }
    *v = out;
}

/// Formats a remote member as `host:path`.
pub fn remote_to_path(dist_path: &(String, String)) -> (r: String)
    ensures
        r@ == remote_str(dist_path.deep_view()),
{
    proof {
        reveal_strlit(":");
    }
    let mut out = String::new();
    out.append(dist_path.0.as_str());
    out.append(":");
    out.append(dist_path.1.as_str());
    out
}

impl Sync {
    /// Creates an empty group with the given name.
    pub fn new(name: String) -> (r: Sync)
        ensures
            r@.name == name@,
            r@.locals =~= Seq::<Seq<char>>::empty(),
            r@.remotes =~= Seq::<(Seq<char>, Seq<char>)>::empty(),
    {
        Sync { name, locals: Vec::new(), remotes: Vec::new() }
    }

    /// True iff this group's name starts with the query string.
    pub fn name_matches(&self, name: &String) -> (r: bool)
        ensures
            r == is_prefix(name@, self@.name),
    {
        str_is_prefix(name.as_str(), self.name.as_str())
    }

    /// Appends each input to the group: colon references are split at the
    /// first colon and appended to the remotes, the rest are appended to the
    /// locals verbatim.  The result says for each input, in order, whether it
    /// was treated as remote.  Callers resolve relative local paths before
    /// the call; no existence check or deduplication is made here.
    pub fn add_files(&mut self, files: &Vec<String>) -> (r: Vec<bool>)
        ensures
            final(self)@.name == old(self)@.name,
            final(self)@.locals == old(self)@.locals + added_locals(files.deep_view()),
            final(self)@.remotes == old(self)@.remotes + added_remotes(files.deep_view()),
            r@.len() == files@.len(),
            forall|i: int| 0 <= i < files@.len() ==> r@[i] == has_colon(files.deep_view()[i]),
    {
        let ghost fs = files.deep_view();
        let mut out: Vec<bool> = Vec::new();
        let mut k: usize = 0;
        while k < files.len()
            invariant
                k <= files@.len(),
                fs == files.deep_view(),
                fs.len() == files@.len(),
                self@.name == old(self)@.name,
                self@.locals == old(self)@.locals + added_locals(fs.take(k as int)),
                self@.remotes == old(self)@.remotes + added_remotes(fs.take(k as int)),
                out@.len() == k,
                forall|i: int| 0 <= i < k ==> out@[i] == has_colon(fs[i]),
            decreases files@.len() - k,
        {
            let f = &files[k];
            proof {
                assert(fs[k as int] == f@);
                assert(fs.take(k + 1).drop_last() =~= fs.take(k as int));
                assert(fs.take(k + 1).last() == fs[k as int]);
            }
            match colon_pos(f.as_str()) {
                Some(p) => {
                    let conv = split_at_colon(f.as_str(), p);
                    let ghost cm = split_colon(fs[k as int]);
                    let ghost pre_deep = self.remotes.deep_view();
                    let ghost pre_vec = self.remotes@;
                    proof {
                        assert(conv.deep_view() == cm);
                    }
                    self.remotes.push(conv);
                    out.push(true);
                    proof {
                        assert(self.remotes@ == pre_vec.push(conv));
                        assert forall|i: int| 0 <= i < pre_vec.len() implies #[trigger] self
                            .remotes
                            .deep_view()[i] == pre_deep[i] by {
                            assert(self.remotes@[i] == pre_vec[i]);
                        }
                        assert(self.remotes.deep_view() =~~= pre_deep.push(cm));
                        assert(added_remotes(fs.take(k + 1)) =~~= added_remotes(
                            fs.take(k as int),
                        ).push(cm));
                        assert(added_locals(fs.take(k + 1)) =~~= added_locals(fs.take(k as int)));
                        assert(self@.remotes =~~= old(self)@.remotes + added_remotes(
                            fs.take(k + 1),
                        ));
                    }
                }
                None => {
                    let ghost pre_deep = self.locals.deep_view();
                    let ghost pre_vec = self.locals@;
                    self.locals.push(f.clone());
                    out.push(false);
                    proof {
                        assert(self.locals@ == pre_vec.push(self.locals@[pre_vec.len() as int]));
                        assert forall|i: int| 0 <= i < pre_vec.len() implies #[trigger] self
                            .locals
                            .deep_view()[i] == pre_deep[i] by {
                            assert(self.locals@[i] == pre_vec[i]);
                        }
                        assert(self.locals.deep_view() =~~= pre_deep.push(fs[k as int]));
                        assert(added_locals(fs.take(k + 1)) =~~= added_locals(
                            fs.take(k as int),
                        ).push(fs[k as int]));
                        assert(added_remotes(fs.take(k + 1)) =~~= added_remotes(fs.take(k as int)));
                        assert(self@.locals =~~= old(self)@.locals + added_locals(fs.take(k + 1)));
                    }
                }
            }
            k += 1;
        }
        proof {
            assert(fs.take(fs.len() as int) =~= fs);
        }
        out
    }

    /// Removes each input from the group on exact match: a colon reference is
    /// split and removed from the remotes, the rest are removed from the
    /// locals.  The result says for each input, in order, whether a removal
    /// happened and whether the reference was remote.
    pub fn remove_files(&mut self, files: &Vec<String>) -> (r: Vec<(bool, bool)>)
        ensures
            final(self)@ == remove_all(old(self)@, files.deep_view()).0,
            r@ == remove_all(old(self)@, files.deep_view()).1,
    {
        let ghost fs = files.deep_view();
        let mut out: Vec<(bool, bool)> = Vec::new();
        let mut k: usize = 0;
        while k < files.len()
            invariant
                k <= files@.len(),
                fs == files.deep_view(),
                fs.len() == files@.len(),
                self@ == remove_all(old(self)@, fs.take(k as int)).0,
                out@ == remove_all(old(self)@, fs.take(k as int)).1,
            decreases files@.len() - k,
        {
            let f = &files[k];
            proof {
                assert(fs[k as int] == f@);
                assert(fs.take(k + 1).drop_last() =~= fs.take(k as int));
                assert(fs.take(k + 1).last() == fs[k as int]);
            }
            let ghost g1 = remove_all(old(self)@, fs.take(k as int)).0;
            match colon_pos(f.as_str()) {
                Some(p) => {
                    let conv = split_at_colon(f.as_str(), p);
                    proof {
                        assert(conv.deep_view() == split_colon(fs[k as int]));
                    }
                    let removed = vec_contains_pair(&self.remotes, &conv);
                    retain_ne_pair(&mut self.remotes, &conv);
                    out.push((removed, true));
                    proof {
                        assert(self@ =~~= remove_one(g1, fs[k as int]).0);
                        assert(self@ =~~= remove_all(old(self)@, fs.take(k + 1)).0);
                    }
                }
                None => {
                    let removed = vec_contains_str(&self.locals, f);
                    retain_ne_str(&mut self.locals, f);
                    out.push((removed, false));
                    proof {
                        assert(self@ =~~= remove_one(g1, fs[k as int]).0);
                        assert(self@ =~~= remove_all(old(self)@, fs.take(k + 1)).0);
                    }
                }
            }
            k += 1;
        }
        proof {
            assert(fs.take(fs.len() as int) =~= fs);
        }
        out
    }

    /// True iff some member of this group falls under the query: for a
    /// `host:path` query a remote with that exact host whose path starts with
    /// the query path, otherwise a local that starts with the query.
    pub fn has_file_inside(&self, path: &str) -> (r: bool)
        ensures
            r == group_matches_path(self@, path@),
    {
        match colon_pos(path) {
            Some(p) => {
                let qs = split_at_colon(path, p);
                let ghost qm = split_colon(path@);
                let mut i: usize = 0;
                while i < self.remotes.len()
                    invariant
                        i <= self.remotes@.len(),
                        has_colon(path@),
                        qm == split_colon(path@),
                        (qs.0@, qs.1@) == qm,
                        forall|j: int|
                            0 <= j < i ==> !((#[trigger] self@.remotes[j]).0 == qm.0 && is_prefix(
                                qm.1,
                                self@.remotes[j].1,
                            )),
                    decreases self.remotes@.len() - i,
                {
                    let e = &self.remotes[i];
                    if e.0 == qs.0 && str_is_prefix(qs.1.as_str(), e.1.as_str()) {
                        proof {
                            assert(self@.remotes[i as int].0 == qm.0 && is_prefix(
                                qm.1,
                                self@.remotes[i as int].1,
                            ));
                        }
                        return true;
                    }
                    i += 1;
                }
                false
            }
            None => {
                let mut i: usize = 0;
                while i < self.locals.len()
                    invariant
                        i <= self.locals@.len(),
                        !has_colon(path@),
                        forall|j: int|
                            0 <= j < i ==> !is_prefix(path@, #[trigger] self@.locals[j]),
                    decreases self.locals@.len() - i,
                {
                    let e = &self.locals[i];
                    if str_is_prefix(path, e.as_str()) {
                        proof {
                            assert(is_prefix(path@, self@.locals[i as int]));
                        }
                        return true;
                    }
                    i += 1;
                }
                false
            }
        }
    }

    /// The members of this group that fall under the query, in order: the
    /// matching remotes formatted as `host:path` for a colon query, otherwise
    /// the matching local paths.
    pub fn matching_files(&self, path: &str) -> (r: MatchingResult)
        ensures
            has_colon(path@) ==> (r matches MatchingResult::Remote(v) && v.deep_view()
                == remotes_under(self@.remotes, split_colon(path@))),
            !has_colon(path@) ==> (r matches MatchingResult::Local(v) && v.deep_view()
                == locals_under(self@.locals, path@)),
    {
        match colon_pos(path) {
            Some(p) => {
                let qs = split_at_colon(path, p);
                let ghost qm = split_colon(path@);
                let ghost rd = self.remotes.deep_view();
                let mut acc: Vec<String> = Vec::new();
                let mut i: usize = 0;
                while i < self.remotes.len()
                    invariant
                        i <= self.remotes@.len(),
                        rd == self.remotes.deep_view(),
                        rd.len() == self.remotes@.len(),
                        (qs.0@, qs.1@) == qm,
                        acc.deep_view() == remotes_under(rd.take(i as int), qm),
                    decreases self.remotes@.len() - i,
                {
                    proof {
                        assert(rd.take(i + 1).drop_last() =~= rd.take(i as int));
                        assert(rd.take(i + 1).last() == rd[i as int]);
                    }
                    let e = &self.remotes[i];
                    proof {
                        assert(rd[i as int] == e.deep_view());
                    }
                    if e.0 == qs.0 && str_is_prefix(qs.1.as_str(), e.1.as_str()) {
                        let s = remote_to_path(e);
                        let ghost pre_deep = acc.deep_view();
                        let ghost pre_vec = acc@;
                        acc.push(s);
                        proof {
                            assert(acc@ == pre_vec.push(acc@[pre_vec.len() as int]));
                            assert forall|j: int|
                                0 <= j < pre_vec.len() implies #[trigger] acc.deep_view()[j]
                                == pre_deep[j] by {
                                assert(acc@[j] == pre_vec[j]);
                            }
                            assert(acc.deep_view() =~~= pre_deep.push(remote_str(rd[i as int])));
                        }
                    }
                    i += 1;
                }
                proof {
                    assert(rd.take(rd.len() as int) =~= rd);
                }
                MatchingResult::Remote(acc)
            }
            None => {
                let ghost ld = self.locals.deep_view();
                let mut acc: Vec<String> = Vec::new();
                let mut i: usize = 0;
                while i < self.locals.len()
                    invariant
                        i <= self.locals@.len(),
                        ld == self.locals.deep_view(),
                        ld.len() == self.locals@.len(),
                        !has_colon(path@),
                        acc.deep_view() == locals_under(ld.take(i as int), path@),
                    decreases self.locals@.len() - i,
                {
                    proof {
                        assert(ld.take(i + 1).drop_last() =~= ld.take(i as int));
                        assert(ld.take(i + 1).last() == ld[i as int]);
                    }
                    let e = &self.locals[i];
                    proof {
                        assert(ld[i as int] == e@);
                    }
                    if str_is_prefix(path, e.as_str()) {
                        let ghost pre_deep = acc.deep_view();
                        let ghost pre_vec = acc@;
                        acc.push(e.clone());
                        proof {
                            assert(acc@ == pre_vec.push(acc@[pre_vec.len() as int]));
                            assert forall|j: int|
                                0 <= j < pre_vec.len() implies #[trigger] acc.deep_view()[j]
                                == pre_deep[j] by {
                                assert(acc@[j] == pre_vec[j]);
                            }
                            assert(acc.deep_view() =~~= pre_deep.push(ld[i as int]));
                        }
                    }
                    i += 1;
                }
                proof {
                    assert(ld.take(ld.len() as int) =~= ld);
                }
                MatchingResult::Local(acc)
            }
        }
    }
}

} // verus!
