//! Applying a package-manager verb to a tool set, resiliently.
//!
//! One verb application is a two-stage state machine: a single bulk
//! invocation covering every tool, and, only if that fails, one invocation
//! per tool, each recorded as succeeded or failed. The library builds the
//! command strings (every tool name shell-quoted) and tracks the outcome
//! bookkeeping; actually running a command is the caller's job, who hands
//! the exit status back to [`BatchState::advance`].
//!
//! Whatever the exit statuses, the final [`OperationResult`] covers the
//! input tools exactly: see [`lemma_partition_complete`].

use crate::names::NameSet;
use vstd::multiset::Multiset;
use vstd::prelude::*;
use vstd::string::StringExecFns;

verus! {

broadcast use
    vstd::set::group_set_axioms,
    vstd::seq_lib::group_to_multiset_ensures,
    vstd::multiset::group_multiset_axioms;

/// The two package-manager operations the reconciler issues.
#[derive(Clone, Copy, Debug)]
pub enum Verb {
    /// Install the named tools, or bring already-present ones up to date.
    Install,
    /// Remove the named tools.
    Uninstall,
}

/// The argument block passed to the package manager for each verb.
pub open spec fn verb_flags(v: Verb) -> Seq<char> {
    match v {
        Verb::Install => "-Syu --noconfirm --needed"@,
        Verb::Uninstall => "-Runs --noconfirm"@,
    }
}

impl Verb {
    /// The argument block for this verb.
    pub fn flag_args(&self) -> (r: &'static str)
        ensures
            r@ == verb_flags(*self),
    {
        match self {
            Verb::Install => "-Syu --noconfirm --needed",
            Verb::Uninstall => "-Runs --noconfirm",
        }
    }
}

/// The shell-argument token `shlex` encodes a name into.
pub uninterp spec fn quote_of(s: Seq<char>) -> Seq<char>;

/// Whether a name holds a nul character, the one input quoting refuses.
pub open spec fn has_nul(s: Seq<char>) -> bool {
    exists|i: int| 0 <= i < s.len() && s[i] == '\0'
}

/// Relies on shlex::try_quote: the returned token is a function of the input
/// alone, and quoting fails exactly when the input holds a nul byte.
#[verifier::external_body]
fn quote_name(s: &str) -> (r: Option<String>)
    ensures
        r is Some <==> !has_nul(s@),
        r matches Some(q) ==> q@ == quote_of(s@),
{
    match shlex::try_quote(s) {
        Ok(q) => Some(q.into_owned()),
        Err(_) => None,
    }
}

/// The space-separated quoted tool tokens appended to a command. A name the
/// quoter refuses contributes nothing.
pub open spec fn quoted_words(tools: Seq<Seq<char>>) -> Seq<char>
    decreases tools.len(),
{
    if tools.len() == 0 {
        Seq::<char>::empty()
    } else {
        quoted_words(tools.drop_last()) + (if has_nul(tools.last()) {
            Seq::<char>::empty()
        } else {
            seq![' '] + quote_of(tools.last())
        })
    }
}

/// The full shell command applying `v` to `tools` in one invocation, each
/// tool name quoted so that it stays a single argument whatever it holds.
pub open spec fn command_spec(v: Verb, tools: Seq<Seq<char>>) -> Seq<char> {
    "pacman "@ + verb_flags(v) + quoted_words(tools)
}

/// Builds the command applying `verb` to every tool in `tools` at once.
fn build_command(verb: Verb, tools: &Vec<String>) -> (r: String)
    ensures
        r@ == command_spec(verb, tools.deep_view()),
{
    let mut out = String::from_str("pacman ");
    out.append(verb.flag_args());
    let ghost dv = tools.deep_view();
    let n = tools.len();
    let mut i: usize = 0;
    proof {
        assert(quoted_words(dv.take(0)) =~= Seq::<char>::empty());
        assert(out@ =~= "pacman "@ + verb_flags(verb) + quoted_words(dv.take(0)));
    }
    while i < n
        invariant
            0 <= i <= n,
            n == dv.len(),
            out@ == "pacman "@ + verb_flags(verb) + quoted_words(dv.take(i as int)),
        decreases n - i,
    {
        let ghost prev = out@;
        proof {
            assert(dv.take(i as int + 1).drop_last() =~= dv.take(i as int));
            assert(dv.take(i as int + 1).last() == dv[i as int]);
        }
        match quote_name(tools[i].as_str()) {
            Some(q) => {
                out.append(" ");
                out.append(q.as_str());
                proof {
                    reveal_strlit(" ");
                    assert(" "@ =~= seq![' ']);
                    assert(out@ =~= "pacman "@ + verb_flags(verb) + quoted_words(
                        dv.take(i as int + 1),
                    ));
                }
            },
            None => {
                proof {
                    assert(quoted_words(dv.take(i as int + 1)) =~= quoted_words(
                        dv.take(i as int),
                    ));
                }
            },
        }
        i = i + 1;
    }
    proof {
        assert(dv.take(n as int) =~= dv);
    }
    out
}

/// Builds the command applying `verb` to `tool` alone, or nothing if the
/// name cannot be quoted.
fn build_single_command(verb: Verb, tool: &String) -> (r: Option<String>)
    ensures
        r is Some <==> !has_nul(tool@),
        r matches Some(c) ==> c@ == command_spec(verb, seq![tool@]),
{
    match quote_name(tool.as_str()) {
        Some(q) => {
            let mut out = String::from_str("pacman ");
            out.append(verb.flag_args());
            out.append(" ");
            out.append(q.as_str());
            proof {
                reveal_strlit(" ");
                assert(" "@ =~= seq![' ']);
                assert(seq![tool@].drop_last() =~= Seq::<Seq<char>>::empty());
                assert(seq![tool@].last() == tool@);
                assert(!has_nul(tool@));
                assert(quoted_words(Seq::<Seq<char>>::empty()) =~= Seq::<char>::empty());
                assert(quoted_words(seq![tool@]) =~= seq![' '] + quote_of(tool@));
                assert(out@ =~= command_spec(verb, seq![tool@]));
            }
            Some(out)
        },
        None => None,
    }
}

/// The outcome of applying one verb to a tool list: which tools succeeded
/// and which failed. Every input tool lands on exactly one side.
#[derive(Debug)]
pub struct OperationResult {
    pub succeeded: Vec<String>,
    pub failed: Vec<String>,
}

/// `succ` and `fail` together hold exactly the elements of `tools`: no tool
/// dropped, none counted twice.
pub open spec fn is_partition_of(
    succ: Seq<Seq<char>>,
    fail: Seq<Seq<char>>,
    tools: Seq<Seq<char>>,
) -> bool {
    succ.to_multiset().add(fail.to_multiset()) == tools.to_multiset()
}

/// One verb application working through its tool list.
pub enum BatchState {
    /// The bulk invocation covering every tool is pending.
    Bulk { verb: Verb, tools: NameSet },
    /// The bulk invocation failed. Tools before `index` have been retried
    /// one by one and recorded; the invocation for the tool at `index` is
    /// pending.
    Fallback {
        verb: Verb,
        tools: NameSet,
        index: usize,
        succeeded: Vec<String>,
        failed: Vec<String>,
    },
    /// Every outcome is known.
    Done { result: OperationResult },
}

impl BatchState {
    /// The verb being applied.
    pub open spec fn verb_spec(&self) -> Verb {
        match self {
            BatchState::Bulk { verb, .. } => *verb,
            BatchState::Fallback { verb, .. } => *verb,
            BatchState::Done { .. } => vstd::pervasive::arbitrary(),
        }
    }

    /// The tool list still being worked through; empty once done.
    pub open spec fn tools_spec(&self) -> Seq<Seq<char>> {
        match self {
            BatchState::Bulk { tools, .. } => tools.seq(),
            BatchState::Fallback { tools, .. } => tools.seq(),
            BatchState::Done { .. } => Seq::<Seq<char>>::empty(),
        }
    }

    /// How many tools have an individually recorded outcome.
    pub open spec fn progress(&self) -> int {
        match self {
            BatchState::Bulk { .. } => 0,
            BatchState::Fallback { index, .. } => *index as int,
            BatchState::Done { .. } => 0,
        }
    }

    /// The tools recorded as succeeded so far.
    pub open spec fn succeeded_view(&self) -> Seq<Seq<char>> {
        match self {
            BatchState::Bulk { .. } => Seq::<Seq<char>>::empty(),
            BatchState::Fallback { succeeded, .. } => succeeded.deep_view(),
            BatchState::Done { result } => result.succeeded.deep_view(),
        }
    }

    /// The tools recorded as failed so far.
    pub open spec fn failed_view(&self) -> Seq<Seq<char>> {
        match self {
            BatchState::Bulk { .. } => Seq::<Seq<char>>::empty(),
            BatchState::Fallback { failed, .. } => failed.deep_view(),
            BatchState::Done { result } => result.failed.deep_view(),
        }
    }

    /// The final result, once done.
    pub open spec fn done_result(&self) -> OperationResult {
        match self {
            BatchState::Done { result } => *result,
            _ => vstd::pervasive::arbitrary(),
        }
    }

    /// Internal bookkeeping invariant: the recorded outcomes partition the
    /// tools already processed.
    pub open spec fn wf(&self) -> bool {
        match self {
            BatchState::Bulk { tools, .. } => tools.wf() && tools.seq().len() > 0,
            BatchState::Fallback { tools, index, succeeded, failed, .. } => {
                &&& tools.wf()
                &&& (*index as int) < tools.seq().len()
                &&& is_partition_of(
                    succeeded.deep_view(),
                    failed.deep_view(),
                    tools.seq().take(*index as int),
                )
            },
            BatchState::Done { .. } => true,
        }
    }

    /// The machine's guarantee with respect to the tool list it was started
    /// on: while running it works through exactly that list, and once done
    /// its result partitions it.
    pub open spec fn for_tools(&self, tools: Seq<Seq<char>>) -> bool {
        &&& self.wf()
        &&& if self is Done {
            is_partition_of(self.succeeded_view(), self.failed_view(), tools)
        } else {
            self.tools_spec() == tools
        }
    }

    /// Starts applying `verb` to `tools`. An empty tool list finishes at
    /// once with an empty result: no command is to be run at all.
    pub fn start(verb: Verb, tools: NameSet) -> (r: BatchState)
        requires
            tools.wf(),
        ensures
            r.for_tools(tools.seq()),
            tools.seq().len() == 0 <==> r is Done,
            tools.set().is_empty() <==> r is Done,
            r is Done ==> r.succeeded_view() == Seq::<Seq<char>>::empty() && r.failed_view()
                == Seq::<Seq<char>>::empty(),
            r is Bulk ==> r.verb_spec() == verb && r.tools_spec() == tools.seq(),
    {
        if tools.is_empty() {
            let result = OperationResult { succeeded: Vec::new(), failed: Vec::new() };
            proof {
                lemma_empty_partition(tools.seq());
                assert(result.succeeded.deep_view() =~= Seq::<Seq<char>>::empty());
                assert(result.failed.deep_view() =~= Seq::<Seq<char>>::empty());
            }
            BatchState::Done { result }
        } else {
            BatchState::Bulk { verb, tools }
        }
    }

    /// Whether every outcome is known.
    pub fn finished(&self) -> (r: bool)
        ensures
            r == (self is Done),
    {
        match self {
            BatchState::Done { .. } => true,
            _ => false,
        }
    }

    /// The command the caller must run next: the bulk command, or the
    /// pending tool's individual command. `None` once done, and for an
    /// individual tool the quoter refuses — the caller advances with a
    /// failed exit in that case, as no command can be run safely.
    pub fn pending_command(&self) -> (r: Option<String>)
        requires
            self.wf(),
        ensures
            self is Done ==> r is None,
            self is Bulk ==> (r matches Some(c) && c@ == command_spec(
                self.verb_spec(),
                self.tools_spec(),
            )),
            self is Fallback ==> {
                &&& (r is Some <==> !has_nul(self.tools_spec()[self.progress()]))
                &&& (r matches Some(c) ==> c@ == command_spec(
                    self.verb_spec(),
                    seq![self.tools_spec()[self.progress()]],
                ))
            },
    {
        match self {
            BatchState::Bulk { verb, tools } => Some(build_command(*verb, tools.as_vec())),
            BatchState::Fallback { verb, tools, index, .. } => {
                let items = tools.as_vec();
                build_single_command(*verb, &items[*index])
            },
            BatchState::Done { .. } => None,
        }
    }

    /// Feeds back the exit status of the command last issued. After a
    /// successful bulk invocation every tool is recorded as succeeded; after
    /// a failed one the per-tool stage begins. In the per-tool stage the
    /// pending tool is recorded according to `exit_ok` and the machine moves
    /// on, finishing after the last tool.
    pub fn advance(self, exit_ok: bool) -> (r: BatchState)
        requires
            self.wf(),
            !(self is Done),
        ensures
            forall|ts: Seq<Seq<char>>| #[trigger]
                self.for_tools(ts) ==> r.for_tools(ts),
            self is Bulk && exit_ok ==> r is Done && r.succeeded_view() == self.tools_spec()
                && r.failed_view() == Seq::<Seq<char>>::empty(),
            self is Bulk && !exit_ok ==> r is Fallback && r.verb_spec() == self.verb_spec()
                && r.tools_spec() == self.tools_spec() && r.progress() == 0
                && r.succeeded_view() == Seq::<Seq<char>>::empty() && r.failed_view()
                == Seq::<Seq<char>>::empty(),
            self is Fallback && exit_ok ==> r.succeeded_view() == self.succeeded_view().push(
                self.tools_spec()[self.progress()],
            ) && r.failed_view() == self.failed_view(),
            self is Fallback && !exit_ok ==> r.failed_view() == self.failed_view().push(
                self.tools_spec()[self.progress()],
            ) && r.succeeded_view() == self.succeeded_view(),
            self is Fallback ==> (r is Done <==> self.progress() + 1 == self.tools_spec().len()),
            self is Fallback && !(r is Done) ==> r is Fallback && r.verb_spec()
                == self.verb_spec() && r.tools_spec() == self.tools_spec() && r.progress()
                == self.progress() + 1,
    {
        match self {
            BatchState::Bulk { verb, tools } => {
                if exit_ok {
                    let succeeded = tools.to_vec();
                    let result = OperationResult { succeeded, failed: Vec::new() };
                    proof {
                        lemma_all_one_side_partition(tools.seq());
                        assert(result.failed.deep_view() =~= Seq::<Seq<char>>::empty());
                    }
                    BatchState::Done { result }
                } else {
                    let r = BatchState::Fallback {
                        verb,
                        tools,
                        index: 0,
                        succeeded: Vec::new(),
                        failed: Vec::new(),
                    };
                    proof {
                        assert(r.succeeded_view() =~= Seq::<Seq<char>>::empty());
                        assert(r.failed_view() =~= Seq::<Seq<char>>::empty());
                        lemma_empty_partition(r.tools_spec().take(0));
                        assert(r.tools_spec().take(0) =~= Seq::<Seq<char>>::empty());
                    }
                    r
                }
            },
            BatchState::Fallback { verb, tools, index, mut succeeded, mut failed } => {
                let ghost t = tools.seq();
                let ghost prev_s = succeeded.deep_view();
                let ghost prev_f = failed.deep_view();
                let n = tools.len();
                let items = tools.as_vec();
                let x = items[index].clone();
                proof {
                    assert(x@ == t[index as int]);
                }
                if exit_ok {
                    succeeded.push(x);
                    proof {
                        assert(succeeded.deep_view() =~= prev_s.push(t[index as int]));
                    }
                } else {
                    failed.push(x);
                    proof {
                        assert(failed.deep_view() =~= prev_f.push(t[index as int]));
                    }
                }
                proof {
                    assert(t.take(index as int + 1) =~= t.take(index as int).push(
                        t[index as int],
                    ));
                    lemma_partition_push(
                        prev_s,
                        prev_f,
                        t.take(index as int),
                        t[index as int],
                        exit_ok,
                    );
                }
                if index + 1 == n {
                    proof {
                        assert(t.take(index as int + 1) =~= t);
                    }
                    BatchState::Done { result: OperationResult { succeeded, failed } }
                } else {
                    BatchState::Fallback { verb, tools, index: index + 1, succeeded, failed }
                }
            },
            BatchState::Done { result } => BatchState::Done { result },
        }
    }

    /// The final result, if every outcome is known.
    pub fn into_result(self) -> (r: Option<OperationResult>)
        ensures
            r is Some <==> self is Done,
            self is Done ==> r == Some(self.done_result()),
    {
        match self {
            BatchState::Done { result } => Some(result),
            _ => None,
        }
    }
}

/// The empty split partitions the empty tool list.
proof fn lemma_empty_partition(tools: Seq<Seq<char>>)
    requires
        tools.len() == 0,
    ensures
        is_partition_of(Seq::<Seq<char>>::empty(), Seq::<Seq<char>>::empty(), tools),
{
    let e = Seq::<Seq<char>>::empty();
    assert(e.to_multiset() =~= Multiset::<Seq<char>>::empty()) by {
        assert forall|x: Seq<char>| e.to_multiset().count(x) == 0 by {
            assert(!e.contains(x));
        }
    }
    assert(tools =~= e);
    assert(e.to_multiset().add(e.to_multiset()) =~= e.to_multiset());
}

/// The whole list on one side, nothing on the other, partitions the list.
proof fn lemma_all_one_side_partition(tools: Seq<Seq<char>>)
    ensures
        is_partition_of(tools, Seq::<Seq<char>>::empty(), tools),
{
    let e = Seq::<Seq<char>>::empty();
    assert(e.to_multiset() =~= Multiset::<Seq<char>>::empty()) by {
        assert forall|x: Seq<char>| e.to_multiset().count(x) == 0 by {
            assert(!e.contains(x));
        }
    }
    assert(tools.to_multiset().add(e.to_multiset()) =~= tools.to_multiset());
}

/// Recording one more tool on either side extends the partition by it.
proof fn lemma_partition_push(
    succ: Seq<Seq<char>>,
    fail: Seq<Seq<char>>,
    tools: Seq<Seq<char>>,
    x: Seq<char>,
    to_succ: bool,
)
    requires
        is_partition_of(succ, fail, tools),
    ensures
        to_succ ==> is_partition_of(succ.push(x), fail, tools.push(x)),
        !to_succ ==> is_partition_of(succ, fail.push(x), tools.push(x)),
{
    if to_succ {
        assert(succ.push(x).to_multiset().add(fail.to_multiset()) =~= tools.push(
            x,
        ).to_multiset());
    } else {
        assert(succ.to_multiset().add(fail.push(x).to_multiset()) =~= tools.push(
            x,
        ).to_multiset());
    }
}

/// Partial-result completeness: however the invocations exit, the result
/// covers its input exactly — succeeded and failed together are the input
/// tools, each exactly once, and no tool is on both sides.
pub proof fn lemma_partition_complete(
    succ: Seq<Seq<char>>,
    fail: Seq<Seq<char>>,
    tools: Seq<Seq<char>>,
)
    requires
        is_partition_of(succ, fail, tools),
        tools.no_duplicates(),
    ensures
        succ.to_set().union(fail.to_set()) == tools.to_set(),
        succ.to_set().disjoint(fail.to_set()),
        succ.no_duplicates(),
        fail.no_duplicates(),
{
    tools.lemma_multiset_has_no_duplicates();
    let ms = succ.to_multiset();
    let mf = fail.to_multiset();
    let mt = tools.to_multiset();
    assert forall|x: Seq<char>| ms.contains(x) implies mt.count(x) == 1 by {
        assert(ms.count(x) + mf.count(x) == mt.count(x));
    }
    assert forall|x: Seq<char>| mf.contains(x) implies mt.count(x) == 1 by {
        assert(ms.count(x) + mf.count(x) == mt.count(x));
    }
    assert forall|x: Seq<char>| ms.contains(x) implies ms.count(x) == 1 by {
        assert(ms.count(x) + mf.count(x) == mt.count(x));
    }
    assert forall|x: Seq<char>| mf.contains(x) implies mf.count(x) == 1 by {
        assert(ms.count(x) + mf.count(x) == mt.count(x));
    }
    succ.lemma_multiset_has_no_duplicates_conv();
    fail.lemma_multiset_has_no_duplicates_conv();
    assert(succ.to_set().union(fail.to_set()) =~= tools.to_set()) by {
        assert forall|x: Seq<char>| tools.contains(x) implies succ.contains(x) || fail.contains(
            x,
        ) by {
            assert(ms.count(x) + mf.count(x) == mt.count(x));
        }
        assert forall|x: Seq<char>| succ.contains(x) || fail.contains(x) implies tools.contains(
            x,
        ) by {
            assert(ms.count(x) + mf.count(x) == mt.count(x));
        }
    }
    assert forall|x: Seq<char>| succ.to_set().contains(x) implies !fail.to_set().contains(x) by {
        if fail.contains(x) && succ.contains(x) {
            assert(ms.count(x) + mf.count(x) == mt.count(x));
            assert(mt.count(x) >= 2);
        }
    }
}

} // verus!
