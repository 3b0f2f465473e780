//! The persisted form of the whole collection and its parser.
//!
//! The store is one flat record: every group contributes a record-separator
//! token, its name, a field-separator token and its members joined by
//! newlines, locals first and remotes as `host:path`.  Parsing splits at the
//! separator tokens and classifies each member by its first colon, exactly
//! as adding members does; leading content without a field separator is
//! ignored.  For well-formed groups parsing inverts serialization.

use crate::engine::candidate_paths;
use crate::store::{
    added_locals, added_remotes, has_colon, models_of, remote_str, split_colon, GroupModel, Sync,
};
use crate::strutil::{
    find_from, find_sub, join_with, lemma_find_from_found, lemma_find_from_none,
    lemma_find_from_props, lemma_join_with_push, lemma_occurs_in_prefix, lemma_split_join,
    lemma_token_clean_no_occurrence, lemma_token_clean_single, occurs_at, split_by, token_clean,
};
use vstd::prelude::*;

verus! {

/// The record-separator token that precedes every group record.
pub open spec fn sep_chars() -> Seq<char> {
    seq!['$', 'R', 'U', 'S', 'E', 'P', '$']
}

/// The field-separator token between a group's name and its members.
pub open spec fn fsep_chars() -> Seq<char> {
    seq!['$', 'F', 'I', 'L', 'E', 'S', '$']
}

/// The member delimiter within one record.
pub open spec fn nl_chars() -> Seq<char> {
    seq!['\n']
}

/// `s` holds the character `c` nowhere.
pub open spec fn no_char(s: Seq<char>, c: char) -> bool {
    forall|i: int| 0 <= i < s.len() ==> s[i] != c
}

/// One group's record after the record separator: name, field separator,
/// members joined by newlines.
pub open spec fn record_body(g: GroupModel) -> Seq<char> {
    g.name + fsep_chars() + join_with(candidate_paths(g), nl_chars())
}

/// The whole persisted record: each group's record, preceded by the record
/// separator, concatenated in order.
pub open spec fn serialize_groups(gs: Seq<GroupModel>) -> Seq<char>
    decreases gs.len(),
{
    if gs.len() == 0 {
        Seq::empty()
    } else {
        sep_chars() + record_body(gs.first()) + serialize_groups(gs.drop_first())
    }
}

/// A local member that survives the persisted form: non-empty, no newline
/// (the member delimiter) and no colon (the remote marker).
pub open spec fn wf_local(l: Seq<char>) -> bool {
    l.len() > 0 && no_char(l, '\n') && no_char(l, ':')
}

/// A remote member that survives the persisted form: the host carries no
/// colon and neither part carries a newline.
pub open spec fn wf_remote(r: (Seq<char>, Seq<char>)) -> bool {
    no_char(r.0, ':') && no_char(r.0, '\n') && no_char(r.1, '\n')
}

/// A group the persisted form can carry faithfully: the name does not
/// disturb the field-separator scan, the whole record does not disturb the
/// record-separator scan, and every member is well formed.
pub open spec fn wf_group(g: GroupModel) -> bool {
    &&& token_clean(g.name, fsep_chars())
    &&& token_clean(record_body(g), sep_chars())
    &&& forall|i: int| 0 <= i < g.locals.len() ==> wf_local(#[trigger] g.locals[i])
    &&& forall|i: int| 0 <= i < g.remotes.len() ==> wf_remote(#[trigger] g.remotes[i])
}

/// The group read from one record fragment that holds a field separator:
/// the name before the first field separator, then the members split at
/// newlines and classified by their first colon; an empty member string
/// means no members.
pub open spec fn parse_record(frag: Seq<char>) -> GroupModel {
    let p = find_from(frag, fsep_chars(), 0);
    let name = frag.subrange(0, p);
    let mstr = frag.subrange(p + fsep_chars().len() as int, frag.len() as int);
    let ms = if mstr.len() == 0 {
        Seq::<Seq<char>>::empty()
    } else {
        split_by(mstr, nl_chars())
    };
    GroupModel { name, locals: added_locals(ms), remotes: added_remotes(ms) }
}

/// The groups read from the record fragments, in order; a fragment without
/// a field separator is ignored.
pub open spec fn parse_fragments(frags: Seq<Seq<char>>) -> Seq<GroupModel>
    decreases frags.len(),
{
    if frags.len() == 0 {
        Seq::empty()
    } else {
        let rest = parse_fragments(frags.drop_first());
        if find_from(frags.first(), fsep_chars(), 0) >= 0 {
            seq![parse_record(frags.first())] + rest
        } else {
            rest
        }
    }
}

/// The collection read from a persisted record.
pub open spec fn parse_groups(s: Seq<char>) -> Seq<GroupModel> {
    parse_fragments(split_by(s, sep_chars()))
}

/// The record-separator token.
fn sep_str() -> (r: &'static str)
    ensures
        r@ == sep_chars(),
{
    proof {
        reveal_strlit("$RUSEP$");
        assert("$RUSEP$"@ =~= sep_chars());
    }
    "$RUSEP$"
}

/// The field-separator token.
fn fsep_str() -> (r: &'static str)
    ensures
        r@ == fsep_chars(),
{
    proof {
        reveal_strlit("$FILES$");
        assert("$FILES$"@ =~= fsep_chars());
    }
    "$FILES$"
}

/// The member delimiter.
fn nl_str() -> (r: &'static str)
    ensures
        r@ == nl_chars(),
{
    proof {
        reveal_strlit("\n");
        assert("\n"@ =~= nl_chars());
    }
    "\n"
}

/// A single-character pattern occurs exactly where that character stands.
proof fn lemma_single_char_occurs(s: Seq<char>, c: char, i: int)
    ensures
        occurs_at(s, seq![c], i) <==> (0 <= i < s.len() && s[i] == c),
{
    if 0 <= i < s.len() {
        if s[i] == c {
            assert(s.subrange(i, i + 1) =~= seq![c]);
        }
        if occurs_at(s, seq![c], i) {
            assert(s.subrange(i, i + 1)[0] == s[i]);
        }
    }
}

/// A string without a colon is no remote reference.
proof fn lemma_no_colon(s: Seq<char>)
    requires
        no_char(s, ':'),
    ensures
        !has_colon(s),
{
    assert forall|i: int| !occurs_at(s, seq![':'], i) by {
        lemma_single_char_occurs(s, ':', i);
    }
    lemma_find_from_none(s, seq![':'], 0);
}

/// Formatting a remote whose host is colon-free, then splitting at the
/// first colon, recovers the pair.
proof fn lemma_remote_split(r: (Seq<char>, Seq<char>))
    requires
        no_char(r.0, ':'),
    ensures
        has_colon(remote_str(r)),
        split_colon(remote_str(r)) == r,
{
    let s = remote_str(r);
    let h = r.0.len() as int;
    assert(s[h] == ':');
    lemma_single_char_occurs(s, ':', h);
    assert forall|j: int| 0 <= j < h implies !occurs_at(s, seq![':'], j) by {
        assert(s[j] == r.0[j]);
        lemma_single_char_occurs(s, ':', j);
    }
    lemma_find_from_found(s, seq![':'], 0, h);
    assert(s.subrange(0, h) =~= r.0);
    assert(s.subrange(h + 1, s.len() as int) =~= r.1);
    assert(split_colon(s) == (r.0, r.1));
}

/// Classifying the member strings of well-formed locals and remotes, in
/// order, recovers exactly the locals and the remotes.
proof fn lemma_classify_members(
    ms: Seq<Seq<char>>,
    ls: Seq<Seq<char>>,
    rs: Seq<(Seq<char>, Seq<char>)>,
)
    requires
        ms.len() == ls.len() + rs.len(),
        forall|i: int| 0 <= i < ls.len() ==> ms[i] == #[trigger] ls[i] && wf_local(ls[i]),
        forall|i: int|
            0 <= i < rs.len() ==> ms[ls.len() + i] == remote_str(#[trigger] rs[i]) && wf_remote(
                rs[i],
            ),
    ensures
        added_locals(ms) == ls,
        added_remotes(ms) == rs,
    decreases ms.len(),
{
    if rs.len() > 0 {
        assert(ms.last() == remote_str(rs.last())) by {
            assert(ms[ls.len() + (rs.len() - 1)] == remote_str(rs[rs.len() - 1]));
        }
        assert(wf_remote(rs.last()));
        lemma_remote_split(rs.last());
        assert forall|i: int|
            0 <= i < rs.drop_last().len() implies ms.drop_last()[i + ls.len()] == remote_str(
            #[trigger] rs.drop_last()[i],
        ) && wf_remote(rs.drop_last()[i]) by {
            assert(rs.drop_last()[i] == rs[i]);
            assert(ms.drop_last()[ls.len() + i] == ms[ls.len() + i]);
        }
        assert forall|i: int| 0 <= i < ls.len() implies ms.drop_last()[i] == #[trigger] ls[i]
            && wf_local(ls[i]) by {
            assert(ms.drop_last()[i] == ms[i]);
        }
        lemma_classify_members(ms.drop_last(), ls, rs.drop_last());
        assert(added_remotes(ms) =~= rs.drop_last().push(rs.last()));
        assert(rs.drop_last().push(rs.last()) =~= rs);
    } else if ls.len() > 0 {
        assert(ms.last() == ls.last()) by {
            assert(ms[ls.len() - 1] == ls[ls.len() - 1]);
        }
        assert(wf_local(ls.last()));
        lemma_no_colon(ls.last());
        assert forall|i: int|
            0 <= i < ls.drop_last().len() implies ms.drop_last()[i] == #[trigger] ls.drop_last()[i]
            && wf_local(ls.drop_last()[i]) by {
            assert(ls.drop_last()[i] == ls[i]);
            assert(ms.drop_last()[i] == ms[i]);
        }
        lemma_classify_members(ms.drop_last(), ls.drop_last(), rs);
        assert(added_locals(ms) =~= ls.drop_last().push(ls.last()));
        assert(ls.drop_last().push(ls.last()) =~= ls);
    } else {
        assert(ms =~= Seq::<Seq<char>>::empty());
        assert(added_locals(ms) =~= ls);
        assert(added_remotes(ms) =~= rs);
    }
}

/// The joined member list of a well-formed group with at least one member
/// is non-empty.
proof fn lemma_join_members_nonempty(parts: Seq<Seq<char>>, sep: Seq<char>)
    requires
        parts.len() >= 1,
    ensures
        join_with(parts, sep).len() >= parts[0].len(),
{
    if parts.len() > 1 {
        assert(join_with(parts, sep) == parts[0] + sep + join_with(parts.drop_first(), sep));
    }
}

/// Parsing the record of a well-formed group recovers the group.
proof fn lemma_parse_record_body(g: GroupModel)
    requires
        wf_group(g),
    ensures
        find_from(record_body(g), fsep_chars(), 0) == g.name.len(),
        parse_record(record_body(g)) == g,
{
    let body = record_body(g);
    let n = g.name.len() as int;
    let cands = candidate_paths(g);
    let joined = join_with(cands, nl_chars());
    // the field separator stands right after the name, and nowhere earlier
    assert(body.subrange(n, n + 7) =~= fsep_chars());
    assert(occurs_at(body, fsep_chars(), n));
    assert forall|j: int| 0 <= j < n implies !occurs_at(body, fsep_chars(), j) by {
        if occurs_at(body, fsep_chars(), j) {
            assert(body =~= (g.name + fsep_chars()) + joined);
            lemma_occurs_in_prefix(g.name + fsep_chars(), joined, fsep_chars(), j);
        }
    }
    lemma_find_from_found(body, fsep_chars(), 0, n);
    assert(body.subrange(0, n) =~= g.name);
    let mstr = body.subrange(n + 7, body.len() as int);
    assert(mstr =~= joined);
    if cands.len() == 0 {
        assert(g.locals.len() == 0 && g.remotes.len() == 0);
        assert(joined.len() == 0);
        assert(added_locals(Seq::<Seq<char>>::empty()) == Seq::<Seq<char>>::empty());
        assert(added_remotes(Seq::<Seq<char>>::empty()) == Seq::<(Seq<char>, Seq<char>)>::empty());
        assert(g.locals =~= Seq::<Seq<char>>::empty());
        assert(g.remotes =~= Seq::<(Seq<char>, Seq<char>)>::empty());
        assert(parse_record(body) =~~= g);
    } else {
        // each member string is non-empty and newline-free
        assert forall|k: int| 0 <= k < cands.len() implies token_clean(#[trigger] cands[k], nl_chars())
            && cands[k].len() > 0 by {
            if k < g.locals.len() {
                assert(cands[k] == g.locals[k]);
                assert(wf_local(g.locals[k]));
                lemma_token_clean_single(cands[k], '\n');
            } else {
                let r = g.remotes[k - g.locals.len()];
                assert(cands[k] == remote_str(r));
                assert(wf_remote(r));
                assert forall|i: int| 0 <= i < cands[k].len() implies cands[k][i] != '\n' by {
                    if i < r.0.len() {
                        assert(cands[k][i] == r.0[i]);
                    } else if i == r.0.len() {
                        assert(cands[k][i] == ':');
                    } else {
                        assert(cands[k][i] == r.1[i - r.0.len() - 1]);
                    }
                }
                lemma_token_clean_single(cands[k], '\n');
                assert(cands[k].len() == r.0.len() + 1 + r.1.len());
            }
        }
        lemma_join_members_nonempty(cands, nl_chars());
        assert(joined.len() > 0);
        lemma_split_join(cands, nl_chars());
        assert(split_by(mstr, nl_chars()) == cands);
        assert forall|i: int| 0 <= i < g.locals.len() implies cands[i] == #[trigger] g.locals[i]
            && wf_local(g.locals[i]) by {}
        assert forall|i: int|
            0 <= i < g.remotes.len() implies cands[g.locals.len() + i] == remote_str(
            #[trigger] g.remotes[i],
        ) && wf_remote(g.remotes[i]) by {}
        lemma_classify_members(cands, g.locals, g.remotes);
        assert(parse_record(body) =~~= g);
    }
}

/// The record bodies of the groups, in order.
pub open spec fn record_bodies(gs: Seq<GroupModel>) -> Seq<Seq<char>> {
    Seq::new(gs.len(), |i: int| record_body(gs[i]))
}

/// The persisted record is the record separator, then the record bodies
/// joined by the record separator.
proof fn lemma_serialize_as_join(gs: Seq<GroupModel>)
    requires
        gs.len() >= 1,
    ensures
        serialize_groups(gs) =~= sep_chars() + join_with(record_bodies(gs), sep_chars()),
    decreases gs.len(),
{
    let rb = record_bodies(gs);
    if gs.len() == 1 {
        assert(serialize_groups(gs.drop_first()) == Seq::<char>::empty());
        assert(rb.len() == 1);
        assert(join_with(rb, sep_chars()) == rb[0]);
        assert(rb[0] == record_body(gs[0]));
        assert(serialize_groups(gs) =~= sep_chars() + record_body(gs.first())
            + Seq::<char>::empty());
    } else {
        lemma_serialize_as_join(gs.drop_first());
        assert(rb.drop_first() =~= record_bodies(gs.drop_first()));
        assert(join_with(rb, sep_chars()) == rb[0] + sep_chars() + join_with(
            rb.drop_first(),
            sep_chars(),
        ));
        assert(rb[0] == record_body(gs.first()));
    }
}

/// Parsing the record bodies of well-formed groups, in order, recovers the
/// groups.
proof fn lemma_parse_records(gs: Seq<GroupModel>)
    requires
        forall|i: int| 0 <= i < gs.len() ==> wf_group(#[trigger] gs[i]),
    ensures
        parse_fragments(record_bodies(gs)) == gs,
    decreases gs.len(),
{
    let rb = record_bodies(gs);
    if gs.len() == 0 {
        assert(rb =~= Seq::<Seq<char>>::empty());
        assert(parse_fragments(rb) =~= gs);
    } else {
        assert(wf_group(gs[0]));
        lemma_parse_record_body(gs[0]);
        assert(rb.first() == record_body(gs[0]));
        assert(find_from(rb.first(), fsep_chars(), 0) >= 0);
        assert(rb.drop_first() =~= record_bodies(gs.drop_first()));
        assert forall|i: int| 0 <= i < gs.drop_first().len() implies wf_group(
            #[trigger] gs.drop_first()[i],
        ) by {
            assert(gs.drop_first()[i] == gs[i + 1]);
        }
        lemma_parse_records(gs.drop_first());
        assert(parse_fragments(rb) == seq![gs[0]] + gs.drop_first());
        assert(seq![gs[0]] + gs.drop_first() =~= gs);
    }
}

/// Round trip: the collection read back from the persisted form of any
/// well-formed collection is the collection itself, group for group, with
/// names and member lists in the same order.
pub proof fn lemma_save_load_roundtrip(gs: Seq<GroupModel>)
    requires
        forall|i: int| 0 <= i < gs.len() ==> wf_group(#[trigger] gs[i]),
    ensures
        parse_groups(serialize_groups(gs)) == gs,
{
    if gs.len() == 0 {
        let empty = Seq::<char>::empty();
        assert(serialize_groups(gs) == empty);
        assert(find_from(empty, sep_chars(), 0) == -1);
        assert(split_by(empty, sep_chars()) =~= seq![empty]);
        assert(find_from(empty, fsep_chars(), 0) == -1);
        assert(seq![empty].drop_first() =~= Seq::<Seq<char>>::empty());
        assert(parse_fragments(Seq::<Seq<char>>::empty()) == Seq::<GroupModel>::empty());
        assert(parse_fragments(seq![empty]) =~= Seq::<GroupModel>::empty());
        assert(parse_groups(serialize_groups(gs)) =~= gs);
    } else {
        let rb = record_bodies(gs);
        let joined = join_with(rb, sep_chars());
        let s = serialize_groups(gs);
        lemma_serialize_as_join(gs);
        assert(s == sep_chars() + joined);
        assert(s.subrange(0, 7) =~= sep_chars());
        assert(occurs_at(s, sep_chars(), 0));
        lemma_find_from_found(s, sep_chars(), 0, 0);
        assert(s.subrange(0, 0) =~= Seq::<char>::empty());
        assert(s.subrange(7, s.len() as int) =~= joined);
        assert(split_by(s, sep_chars()) =~= seq![Seq::<char>::empty()] + split_by(
            joined,
            sep_chars(),
        ));
        assert forall|k: int| 0 <= k < rb.len() implies token_clean(#[trigger] rb[k], sep_chars()) by {
            assert(rb[k] == record_body(gs[k]));
            assert(wf_group(gs[k]));
        }
        lemma_split_join(rb, sep_chars());
        assert(split_by(joined, sep_chars()) == rb);
        assert(find_from(Seq::<char>::empty(), fsep_chars(), 0) == -1);
        assert((seq![Seq::<char>::empty()] + rb).first() == Seq::<char>::empty());
        assert((seq![Seq::<char>::empty()] + rb).drop_first() =~= rb);
        lemma_parse_records(gs);
        assert(parse_fragments(seq![Seq::<char>::empty()] + rb) == parse_fragments(rb));
        assert(parse_groups(s) == gs);
    }
}

/// Serializing one more group on the right.
proof fn lemma_serialize_push(gs: Seq<GroupModel>, g: GroupModel)
    ensures
        serialize_groups(gs.push(g)) =~= serialize_groups(gs) + sep_chars() + record_body(g),
    decreases gs.len(),
{
    let whole = gs.push(g);
    if gs.len() == 0 {
        assert(whole.first() == g);
        assert(whole.drop_first() =~= Seq::<GroupModel>::empty());
        assert(serialize_groups(whole.drop_first()) == Seq::<char>::empty());
    } else {
        assert(whole.first() == gs.first());
        assert(whole.drop_first() =~= gs.drop_first().push(g));
        lemma_serialize_push(gs.drop_first(), g);
    }
}

/// Splits a member string at every newline, in order.
fn split_lines(s: &str) -> (r: Vec<String>)
    ensures
        r.deep_view() == split_by(s@, nl_chars()),
{
    let nl = nl_str();
    let mut parts: Vec<String> = Vec::new();
    let mut rest: &str = s;
    loop
        invariant_except_break
            split_by(s@, nl_chars()) == parts.deep_view() + split_by(rest@, nl_chars()),
        invariant
            nl@ == nl_chars(),
        ensures
            parts.deep_view() == split_by(s@, nl_chars()),
        decreases rest@.len(),
    {
        let ghost pre_split = split_by(rest@, nl_chars());
        match find_sub(rest, nl, 0) {
            Some(p) => {
                let rl = rest.unicode_len();
                let frag = String::from_str(rest.substring_char(0, p));
                let tail = rest.substring_char(p + 1, rl);
                proof {
                    assert(pre_split =~= seq![rest@.subrange(0, p as int)] + split_by(
                        tail@,
                        nl_chars(),
                    ));
                }
                let ghost pre_deep = parts.deep_view();
                let ghost pre_vec = parts@;
                parts.push(frag);
                proof {
                    assert(parts@ == pre_vec.push(parts@[pre_vec.len() as int]));
                    assert forall|j: int| 0 <= j < pre_vec.len() implies #[trigger] parts
                        .deep_view()[j] == pre_deep[j] by {
                        assert(parts@[j] == pre_vec[j]);
                    }
                    assert(parts.deep_view() =~~= pre_deep.push(rest@.subrange(0, p as int)));
                    assert(parts.deep_view() + split_by(tail@, nl_chars()) =~~= pre_deep
                        + pre_split);
                }
                rest = tail;
            }
            None => {
                proof {
                    lemma_find_from_props(rest@, nl_chars(), 0);
                    assert(pre_split =~= seq![rest@]);
                }
                let frag = String::from_str(rest);
                let ghost pre_deep = parts.deep_view();
                let ghost pre_vec = parts@;
                parts.push(frag);
                proof {
                    assert(parts@ == pre_vec.push(parts@[pre_vec.len() as int]));
                    assert forall|j: int| 0 <= j < pre_vec.len() implies #[trigger] parts
                        .deep_view()[j] == pre_deep[j] by {
                        assert(parts@[j] == pre_vec[j]);
                    }
                    assert(parts.deep_view() =~~= pre_deep.push(rest@));
                    assert(parts.deep_view() =~~= pre_deep + pre_split);
                }
                break ;
            }
        }
    }
    parts
}

/// Reads one record fragment: a fragment with a field separator becomes a
/// group, one without is ignored.
fn parse_fragment(frag: &str) -> (r: Option<Sync>)
    ensures
        find_from(frag@, fsep_chars(), 0) >= 0 ==> (r matches Some(g) && g@ == parse_record(frag@)),
        find_from(frag@, fsep_chars(), 0) < 0 ==> r is None,
{
    let fsep = fsep_str();
    match find_sub(frag, fsep, 0) {
        Some(p) => {
            let fl = frag.unicode_len();
            let fsl = fsep.unicode_len();
            let name = String::from_str(frag.substring_char(0, p));
            let mstr = frag.substring_char(p + fsl, fl);
            let mut g = Sync::new(name);
            if mstr.unicode_len() > 0 {
                let members = split_lines(mstr);
                let ghost msv = members.deep_view();
                g.add_files(&members);
                proof {
                    assert(g@.locals =~= Seq::<Seq<char>>::empty() + added_locals(msv));
                    assert(g@.locals =~= added_locals(msv));
                    assert(g@.remotes =~= Seq::<(Seq<char>, Seq<char>)>::empty() + added_remotes(
                        msv,
                    ));
                    assert(g@.remotes =~= added_remotes(msv));
                    assert(g@ =~~= parse_record(frag@));
                }
            } else {
                proof {
                    assert(mstr@.len() == 0);
                    assert(g@ =~~= parse_record(frag@));
                }
            }
            Some(g)
        }
        None => {
            proof {
                lemma_find_from_props(frag@, fsep_chars(), 0);
            }
            None
        }
    }
}

impl Sync {
    /// Reads the whole collection back from a persisted record.  Leading
    /// content before the first record separator is ignored unless it itself
    /// holds a field separator.
    pub fn load_all(s: &str) -> (r: Vec<Sync>)
        ensures
            models_of(r@) == parse_groups(s@),
    {
        let sep = sep_str();
        let mut out: Vec<Sync> = Vec::new();
        let mut rest: &str = s;
        loop
            invariant_except_break
                parse_groups(s@) == models_of(out@) + parse_fragments(
                    split_by(rest@, sep_chars()),
                ),
            invariant
                sep@ == sep_chars(),
            ensures
                models_of(out@) == parse_groups(s@),
            decreases rest@.len(),
        {
            let ghost pre_split = split_by(rest@, sep_chars());
            match find_sub(rest, sep, 0) {
                Some(p) => {
                    let rl = rest.unicode_len();
                    let sl = sep.unicode_len();
                    let frag = rest.substring_char(0, p);
                    let tail = rest.substring_char(p + sl, rl);
                    proof {
                        assert(pre_split =~= seq![frag@] + split_by(tail@, sep_chars()));
                        assert(pre_split.first() == frag@);
                        assert(pre_split.drop_first() =~= split_by(tail@, sep_chars()));
                    }
                    match parse_fragment(frag) {
                        Some(g) => {
                            let ghost pre_vec = out@;
                            let ghost gm = g@;
                            out.push(g);
                            proof {
                                assert(out@ == pre_vec.push(out@[pre_vec.len() as int]));
                                assert(models_of(out@) =~~= models_of(pre_vec).push(gm));
                                assert(parse_fragments(pre_split) =~~= seq![gm] + parse_fragments(
                                    split_by(tail@, sep_chars()),
                                ));
                                assert(models_of(pre_vec) + parse_fragments(pre_split)
                                    =~~= models_of(out@) + parse_fragments(
                                    split_by(tail@, sep_chars()),
                                ));
                            }
                        }
                        None => {
                            proof {
                                assert(parse_fragments(pre_split) =~~= parse_fragments(
                                    split_by(tail@, sep_chars()),
                                ));
                            }
                        }
                    }
                    rest = tail;
                }
                None => {
                    proof {
                        lemma_find_from_props(rest@, sep_chars(), 0);
                        assert(pre_split =~= seq![rest@]);
                        assert(pre_split.first() == rest@);
                        assert(pre_split.drop_first() =~= Seq::<Seq<char>>::empty());
                        assert(parse_fragments(Seq::<Seq<char>>::empty()) == Seq::<
                            GroupModel,
                        >::empty());
                    }
                    match parse_fragment(rest) {
                        Some(g) => {
                            let ghost pre_vec = out@;
                            let ghost gm = g@;
                            out.push(g);
                            proof {
                                assert(out@ == pre_vec.push(out@[pre_vec.len() as int]));
                                assert(models_of(out@) =~~= models_of(pre_vec).push(gm));
                                assert(parse_fragments(pre_split) =~~= seq![gm]);
                                assert(models_of(out@) =~~= models_of(pre_vec) + parse_fragments(
                                    pre_split,
                                ));
                            }
                        }
                        None => {
                            proof {
                                assert(parse_fragments(pre_split) =~~= Seq::<GroupModel>::empty());
                                assert(models_of(out@) =~~= models_of(out@) + parse_fragments(
                                    pre_split,
                                ));
                            }
                        }
                    }
                    break ;
                }
            }
        }
        out
    }

    /// The persisted form of the whole collection, ready to be written out
    /// as the new store file.
    pub fn save_all(syncs: &Vec<Sync>) -> (r: String)
        ensures
            r@ == serialize_groups(models_of(syncs@)),
    {
        let ghost ms = models_of(syncs@);
        let mut s = String::new();
        let mut k: usize = 0;
        while k < syncs.len()
            invariant
                k <= syncs@.len(),
                ms == models_of(syncs@),
                ms.len() == syncs@.len(),
                s@ == serialize_groups(ms.take(k as int)),
            decreases syncs@.len() - k,
        {
            let g = &syncs[k];
            proof {
                assert(ms[k as int] == g@);
                assert(ms.take(k + 1) =~= ms.take(k as int).push(ms[k as int]));
                lemma_serialize_push(ms.take(k as int), ms[k as int]);
            }
            s.append(sep_str());
            s.append(g.name.as_str());
            s.append(fsep_str());
            let cands = g.candidates();
            let ghost cs = cands.deep_view();
            let ghost base = serialize_groups(ms.take(k as int)) + sep_chars() + g@.name
                + fsep_chars();
            proof {
                assert(cs == candidate_paths(ms[k as int]));
                assert(join_with(cs.take(0), nl_chars()) == Seq::<char>::empty());
                assert(s@ =~= base + join_with(cs.take(0), nl_chars()));
            }
            let mut j: usize = 0;
            while j < cands.len()
                invariant
                    j <= cands@.len(),
                    cs == cands.deep_view(),
                    cs.len() == cands@.len(),
                    s@ == base + join_with(cs.take(j as int), nl_chars()),
                decreases cands@.len() - j,
            {
                if j > 0 {
                    s.append(nl_str());
                }
                s.append(cands[j].as_str());
                proof {
                    assert(cands@[j as int]@ == cs[j as int]);
                    assert(cs.take(j + 1) =~= cs.take(j as int).push(cs[j as int]));
                    lemma_join_with_push(cs.take(j as int), nl_chars(), cs[j as int]);
                    if j == 0 {
                        assert(cs.take(0 as int).len() == 0);
                        assert(s@ =~= base + join_with(cs.take(j + 1), nl_chars()));
                    } else {
                        assert(s@ =~= base + join_with(cs.take(j + 1), nl_chars()));
                    }
                }
                j += 1;
            }
            proof {
                assert(cs.take(cs.len() as int) =~= cs);
                assert(s@ =~= serialize_groups(ms.take(k + 1)));
            }
            k += 1;
        }
        proof {
            assert(ms.take(ms.len() as int) =~= ms);
        }
        s
    }
}

} // verus!

