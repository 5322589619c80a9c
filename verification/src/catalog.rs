//! The remote role catalog, as the library sees it.
//!
//! The catalog serves one text body per role: one tool name per line. The
//! fetch itself is I/O and stays with the caller; the library receives each
//! role's [`FetchOutcome`] and turns the successful bodies into a single
//! deduplicated tool set. A failed fetch only skips that role: it never
//! aborts resolution of the others.

use crate::names::NameSet;
use crate::text::lines_of;
use crate::text::split_lines;
use crate::text::trim;
use crate::text::trim_spec;
use vstd::prelude::*;
use vstd::string::StrSliceExecFns;
use vstd::string::StringExecFns;

verus! {

broadcast use vstd::set::group_set_axioms;

/// The base URL under which the catalog serves one file per role.
pub open spec fn repo_url() -> Seq<char> {
    "https://raw.githubusercontent.com/jakubGodula/cyber-toolkit/main/roles/"@
}

/// The catalog URL of one role's tool list.
pub fn role_url(role: &str) -> (r: String)
    ensures
        r@ == repo_url() + role@,
{
    let mut out = String::from_str(
        "https://raw.githubusercontent.com/jakubGodula/cyber-toolkit/main/roles/",
    );
    out.append(role);
    out
}

/// An entry of a repository directory listing as the catalog API reports it:
/// the entry's name and its kind (file or directory).
pub struct GitHubContentItem {
    pub name: String,
    pub item_type: String,
}

/// `s` without a single trailing comma.
pub open spec fn strip_comma(s: Seq<char>) -> Seq<char> {
    if s.len() > 0 && s.last() == ',' {
        s.drop_last()
    } else {
        s
    }
}

/// `s` without one layer of matching surrounding quotes.
pub open spec fn strip_quotes(s: Seq<char>) -> Seq<char> {
    if s.len() >= 2 && s[0] == s.last() && (s[0] == '"' || s[0] == '\'') {
        s.subrange(1, s.len() - 1)
    } else {
        s
    }
}

/// Normalization of one catalog line into a tool name: trim surrounding
/// whitespace, drop a single trailing comma, trim again, and peel one layer
/// of matching quotes. An empty result means the line holds no tool.
pub open spec fn tool_normal(line: Seq<char>) -> Seq<char> {
    strip_quotes(trim_spec(strip_comma(trim_spec(line))))
}

/// The tool set named by a sequence of catalog lines.
pub open spec fn tool_set(lines: Seq<Seq<char>>) -> Set<Seq<char>>
    decreases lines.len(),
{
    if lines.len() == 0 {
        Set::<Seq<char>>::empty()
    } else {
        let rest = tool_set(lines.drop_last());
        let t = tool_normal(lines.last());
        if t.len() > 0 {
            rest.insert(t)
        } else {
            rest
        }
    }
}

/// Normalizes one catalog line into a tool name, empty if the line is blank.
pub fn normalize_tool_line(line: &str) -> (r: String)
    ensures
        r@ == tool_normal(line@),
{
    let t1 = trim(line);
    let n1 = t1.as_str().unicode_len();
    let t2 = if n1 > 0 && t1.as_str().get_char(n1 - 1) == ',' {
        proof {
            assert(t1@.subrange(0, n1 - 1) =~= t1@.drop_last());
        }
        String::from_str(t1.as_str().substring_char(0, n1 - 1))
    } else {
        t1
    };
    let t3 = trim(t2.as_str());
    let n3 = t3.as_str().unicode_len();
    if n3 >= 2 {
        let c0 = t3.as_str().get_char(0);
        let cl = t3.as_str().get_char(n3 - 1);
        if c0 == cl && (c0 == '"' || c0 == '\'') {
            return String::from_str(t3.as_str().substring_char(1, n3 - 1));
        }
    }
    t3
}

/// Parses one catalog body: the tool set named by its lines.
pub fn parse_tool_lines(text: &str) -> (r: NameSet)
    ensures
        r.wf(),
        r.set() == tool_set(split_lines(text@)),
{
    let lines = lines_of(text);
    let mut r = NameSet::empty();
    let n = lines.len();
    let mut i: usize = 0;
    proof {
        let dv = lines.deep_view();
        assert(dv.take(0) =~= Seq::<Seq<char>>::empty());
        assert(r.set() =~= tool_set(dv.take(0)));
    }
    while i < n
        invariant
            0 <= i <= n,
            n == lines.deep_view().len(),
            r.wf(),
            r.set() == tool_set(lines.deep_view().take(i as int)),
        decreases n - i,
    {
        let t = normalize_tool_line(lines[i].as_str());
        proof {
            let dv = lines.deep_view();
            assert(dv.take(i as int + 1).drop_last() =~= dv.take(i as int));
            assert(dv.take(i as int + 1).last() == dv[i as int]);
            assert(t@ == tool_normal(dv[i as int]));
        }
        if !t.as_str().is_empty() {
            r.insert(t);
        }
        i = i + 1;
    }
    proof {
        assert(lines.deep_view().take(n as int) =~= lines.deep_view());
    }
    r
}

/// What one role's catalog fetch came to. The fetch itself happens outside
/// the library; resolution consumes these outcomes.
pub enum FetchOutcome {
    /// The catalog served this role's tool list body.
    Fetched(String),
    /// Network error or non-success status: the role is skipped.
    Failed,
}

/// The union of the tool sets of all successfully fetched bodies.
pub open spec fn resolved_set(outcomes: Seq<FetchOutcome>) -> Set<Seq<char>>
    decreases outcomes.len(),
{
    if outcomes.len() == 0 {
        Set::<Seq<char>>::empty()
    } else {
        let rest = resolved_set(outcomes.drop_last());
        match outcomes.last() {
            FetchOutcome::Fetched(body) => rest.union(tool_set(split_lines(body@))),
            FetchOutcome::Failed => rest,
        }
    }
}

/// Resolves a sequence of per-role fetch outcomes into one deduplicated tool
/// set. An empty outcome sequence yields the empty set; failed fetches are
/// skipped without affecting the rest.
pub fn resolve_outcomes(outcomes: &Vec<FetchOutcome>) -> (r: NameSet)
    ensures
        r.wf(),
        r.set() == resolved_set(outcomes@),
{
    let mut r = NameSet::empty();
    let n = outcomes.len();
    let mut i: usize = 0;
    proof {
        assert(outcomes@.take(0) =~= Seq::<FetchOutcome>::empty());
        assert(r.set() =~= resolved_set(outcomes@.take(0)));
    }
    while i < n
        invariant
            0 <= i <= n,
            n == outcomes@.len(),
            r.wf(),
            r.set() == resolved_set(outcomes@.take(i as int)),
        decreases n - i,
    {
        proof {
            assert(outcomes@.take(i as int + 1).drop_last() =~= outcomes@.take(i as int));
            assert(outcomes@.take(i as int + 1).last() == outcomes@[i as int]);
        }
        match &outcomes[i] {
            FetchOutcome::Fetched(body) => {
                let tools = parse_tool_lines(body.as_str());
                let merged = r.union(&tools);
                r = merged;
            },
            FetchOutcome::Failed => {},
        }
        i = i + 1;
    }
    proof {
        assert(outcomes@.take(n as int) =~= outcomes@);
    }
    r
}

/// Resolution only grows as outcomes are appended.
proof fn lemma_resolved_drop_last_subset(outcomes: Seq<FetchOutcome>)
    requires
        outcomes.len() > 0,
    ensures
        resolved_set(outcomes.drop_last()).subset_of(resolved_set(outcomes)),
{
}

/// Every successfully fetched role's tools end up in the resolved union: no
/// tool of a fetched role is dropped by resolution.
pub proof fn lemma_resolved_contains(outcomes: Seq<FetchOutcome>, i: int)
    requires
        0 <= i < outcomes.len(),
        outcomes[i] is Fetched,
    ensures
        tool_set(split_lines(outcomes[i]->0@)).subset_of(resolved_set(outcomes)),
    decreases outcomes.len(),
{
    if i == outcomes.len() - 1 {
        assert(outcomes.last() == outcomes[i]);
    } else {
        assert(outcomes.drop_last()[i] == outcomes[i]);
        lemma_resolved_contains(outcomes.drop_last(), i);
        lemma_resolved_drop_last_subset(outcomes);
    }
}

} // verus!
