//! The persisted representation of the role set: one role per line, each
//! line terminated by a newline, roles in stored (sorted) order.
//!
//! Reading tolerates surrounding whitespace and blank lines; writing always
//! produces the canonical form. [`lemma_store_round_trip_exact`] proves that
//! a role set written and read back comes back identical.

use crate::names::lemma_canonical;
use crate::names::normalized_set;
use crate::names::NameSet;
use crate::text::is_space;
use crate::text::lemma_trim_clean_identity;
use crate::text::lines_of;
use crate::text::split_lines;
use crate::text::split_lines_rec;
use crate::text::trim_spec;
use vstd::prelude::*;
use vstd::string::StringExecFns;

verus! {

broadcast use vstd::set::group_set_axioms;

/// A valid role name: non-empty, with no whitespace anywhere. Roles are
/// trimmed on ingestion, so every stored role satisfies this.
pub open spec fn role_like(s: Seq<char>) -> bool {
    s.len() > 0 && forall|i: int| 0 <= i < s.len() ==> !is_space(#[trigger] s[i])
}

/// The persisted form of a sequence of roles: each followed by a newline.
pub open spec fn encode_spec(lines: Seq<Seq<char>>) -> Seq<char>
    decreases lines.len(),
{
    if lines.len() == 0 {
        Seq::<char>::empty()
    } else {
        encode_spec(lines.drop_last()) + lines.last() + seq!['\n']
    }
}

/// What loading makes of a persisted body: split into lines, trim each,
/// drop blank lines, deduplicate.
pub open spec fn decode_set(text: Seq<char>) -> Set<Seq<char>> {
    normalized_set(split_lines(text))
}

/// Renders a role set in its persisted form.
pub fn encode_roles(roles: &NameSet) -> (r: String)
    requires
        roles.wf(),
    ensures
        r@ == encode_spec(roles.seq()),
{
    let items = roles.as_vec();
    let mut out = String::new();
    let n = items.len();
    let mut i: usize = 0;
    proof {
        assert(roles.seq().take(0) =~= Seq::<Seq<char>>::empty());
    }
    while i < n
        invariant
            0 <= i <= n,
            out@ == encode_spec(roles.seq().take(i as int)),
        decreases n - i,
    {
        out.append(items[i].as_str());
        out.append("\n");
        proof {
            reveal_strlit("\n");
            assert("\n"@ =~= seq!['\n']);
            assert(roles.seq().take(i as int + 1).drop_last() =~= roles.seq().take(i as int));
            assert(roles.seq().take(i as int + 1).last() == roles.seq()[i as int]);
            assert(items.deep_view()[i as int] == roles.seq()[i as int]);
        }
        i = i + 1;
    }
    proof {
        assert(roles.seq().take(n as int) =~= roles.seq());
    }
    out
}

/// Parses a persisted body into a role set.
pub fn decode_roles(text: &str) -> (r: NameSet)
    ensures
        r.wf(),
        r.set() == decode_set(text@),
{
    let lines = lines_of(text);
    NameSet::from_items(&lines)
}

/// Peels the first role off the persisted form.
proof fn lemma_encode_front(lines: Seq<Seq<char>>)
    requires
        lines.len() > 0,
    ensures
        encode_spec(lines) == lines.first() + seq!['\n'] + encode_spec(lines.drop_first()),
    decreases lines.len(),
{
    if lines.len() == 1 {
        assert(lines.drop_last() =~= Seq::<Seq<char>>::empty());
        assert(lines.drop_first() =~= Seq::<Seq<char>>::empty());
        assert(encode_spec(lines) =~= lines.first() + seq!['\n'] + encode_spec(
            lines.drop_first(),
        ));
    } else {
        let dl = lines.drop_last();
        lemma_encode_front(dl);
        assert(dl.drop_first() =~= lines.drop_first().drop_last());
        assert(lines.drop_first().last() == lines.last());
        assert(encode_spec(lines) == (dl.first() + seq!['\n'] + encode_spec(dl.drop_first()))
            + lines.last() + seq!['\n']);
        assert(encode_spec(lines.drop_first()) == encode_spec(lines.drop_first().drop_last())
            + lines.last() + seq!['\n']);
        assert(lines.first() + seq!['\n'] + encode_spec(lines.drop_first()) =~= (dl.first()
            + seq!['\n'] + encode_spec(dl.drop_first())) + lines.last() + seq!['\n']);
    }
}

/// Splitting a newline-free line followed by a newline emits that line.
proof fn lemma_split_line(l: Seq<char>, rest: Seq<char>, cur: Seq<char>)
    requires
        forall|i: int| 0 <= i < l.len() ==> #[trigger] l[i] != '\n',
    ensures
        split_lines_rec(l + seq!['\n'] + rest, cur) == seq![cur + l] + split_lines_rec(
            rest,
            Seq::<char>::empty(),
        ),
    decreases l.len(),
{
    let s = l + seq!['\n'] + rest;
    if l.len() == 0 {
        assert(s[0] == '\n');
        assert(s.drop_first() =~= rest);
        assert(cur + l =~= cur);
    } else {
        assert(s[0] == l[0]);
        assert(s[0] != '\n');
        assert(s.drop_first() =~= l.drop_first() + seq!['\n'] + rest);
        lemma_split_line(l.drop_first(), rest, cur.push(l[0]));
        assert(cur.push(l[0]) + l.drop_first() =~= cur + l);
    }
}

/// Splitting the persisted form of newline-free roles yields those roles,
/// plus the empty segment after the final newline.
proof fn lemma_split_encode(lines: Seq<Seq<char>>)
    requires
        forall|i: int, j: int|
            0 <= i < lines.len() && 0 <= j < lines[i].len() ==> #[trigger] lines[i][j] != '\n',
    ensures
        split_lines(encode_spec(lines)) == lines.push(Seq::<char>::empty()),
    decreases lines.len(),
{
    if lines.len() == 0 {
        assert(encode_spec(lines) =~= Seq::<char>::empty());
        assert(split_lines(encode_spec(lines)) =~= lines.push(Seq::<char>::empty()));
    } else {
        lemma_encode_front(lines);
        lemma_split_line(lines.first(), encode_spec(lines.drop_first()), Seq::<char>::empty());
        assert forall|i: int, j: int|
            0 <= i < lines.drop_first().len() && 0 <= j < lines.drop_first()[i].len() implies (
        #[trigger] lines.drop_first()[i][j]) != '\n' by {
            assert(lines.drop_first()[i] == lines[i + 1]);
        }
        lemma_split_encode(lines.drop_first());
        assert(Seq::<char>::empty() + lines.first() =~= lines.first());
        assert(seq![lines.first()] + lines.drop_first().push(Seq::<char>::empty()) =~= lines.push(
            Seq::<char>::empty(),
        ));
    }
}

/// A trailing blank line adds nothing to the decoded set.
proof fn lemma_normalized_push_empty(lines: Seq<Seq<char>>)
    ensures
        normalized_set(lines.push(Seq::<char>::empty())) == normalized_set(lines),
{
    let p = lines.push(Seq::<char>::empty());
    assert(p.last() =~= Seq::<char>::empty());
    assert(trim_spec(p.last()).len() == 0);
    assert(p.drop_last() =~= lines);
}

/// Role-like lines decode to exactly their membership: trimming and blank
/// dropping leave them untouched.
proof fn lemma_normalized_clean(lines: Seq<Seq<char>>)
    requires
        forall|i: int| 0 <= i < lines.len() ==> role_like(#[trigger] lines[i]),
    ensures
        normalized_set(lines) == lines.to_set(),
    decreases lines.len(),
{
    if lines.len() == 0 {
        assert(normalized_set(lines) =~= lines.to_set());
    } else {
        let dl = lines.drop_last();
        assert forall|i: int| 0 <= i < dl.len() implies role_like(#[trigger] dl[i]) by {
            assert(dl[i] == lines[i]);
        }
        lemma_normalized_clean(dl);
        lemma_trim_clean_identity(lines.last());
        assert(lines =~= dl.push(lines.last()));
        dl.lemma_push_to_set_commute(lines.last());
        assert(normalized_set(lines) =~= lines.to_set());
    }
}

/// Round trip at the level of the persisted text: decoding the encoding of a
/// well-formed role set yields exactly its membership.
pub proof fn lemma_store_round_trip(roles: &NameSet)
    requires
        roles.wf(),
        forall|i: int| 0 <= i < roles.seq().len() ==> role_like(#[trigger] roles.seq()[i]),
    ensures
        decode_set(encode_spec(roles.seq())) == roles.set(),
{
    let s = roles.seq();
    assert forall|i: int, j: int| 0 <= i < s.len() && 0 <= j < s[i].len() implies (
    #[trigger] s[i][j]) != '\n' by {
        assert(role_like(s[i]));
        assert(!is_space(s[i][j]));
    }
    lemma_split_encode(s);
    lemma_normalized_push_empty(s);
    lemma_normalized_clean(s);
}

/// Round trip: loading a saved role set gives back the very same set, order
/// included. `saved` is the set that was written; `loaded` is any well-formed
/// set holding what [`decode_roles`] recovers from [`encode_roles`]' output.
pub proof fn lemma_store_round_trip_exact(saved: &NameSet, loaded: &NameSet)
    requires
        saved.wf(),
        forall|i: int| 0 <= i < saved.seq().len() ==> role_like(#[trigger] saved.seq()[i]),
        loaded.wf(),
        loaded.set() == decode_set(encode_spec(saved.seq())),
    ensures
        loaded.seq() == saved.seq(),
{
    lemma_store_round_trip(saved);
    lemma_canonical(loaded, saved);
}

} // verus!
