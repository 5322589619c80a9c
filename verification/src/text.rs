//! Text normalization primitives: whitespace trimming and line splitting.
//!
//! Role names and tool names arrive as raw text (command-line arguments,
//! catalog bodies, the persisted role file). Ingestion trims surrounding
//! whitespace and splits bodies into lines; both operations are specified
//! here and implemented against those specifications.

use vstd::prelude::*;
use vstd::string::StrSliceExecFns;
use vstd::string::StringExecFns;

verus! {

/// The whitespace characters that ingestion strips from the ends of a name.
pub open spec fn is_space(c: char) -> bool {
    c == ' ' || c == '\t' || c == '\r' || c == '\n'
}

/// `s` without its leading whitespace.
pub open spec fn trim_start_spec(s: Seq<char>) -> Seq<char>
    decreases s.len(),
{
    if s.len() > 0 && is_space(s[0]) {
        trim_start_spec(s.drop_first())
    } else {
        s
    }
}

/// `s` without its trailing whitespace.
pub open spec fn trim_end_spec(s: Seq<char>) -> Seq<char>
    decreases s.len(),
{
    if s.len() > 0 && is_space(s.last()) {
        trim_end_spec(s.drop_last())
    } else {
        s
    }
}

/// `s` without surrounding whitespace.
pub open spec fn trim_spec(s: Seq<char>) -> Seq<char> {
    trim_end_spec(trim_start_spec(s))
}

/// `trim_start_spec` drops exactly the leading run of whitespace.
proof fn lemma_trim_start_skip(s: Seq<char>, i: int)
    requires
        0 <= i <= s.len(),
        forall|j: int| 0 <= j < i ==> is_space(#[trigger] s[j]),
        i < s.len() ==> !is_space(s[i]),
    ensures
        trim_start_spec(s) == s.skip(i),
    decreases i,
{
    if i == 0 {
        assert(trim_start_spec(s) =~= s.skip(0));
    } else {
        assert(is_space(s[0]));
        lemma_trim_start_skip(s.drop_first(), i - 1);
        assert(s.drop_first().skip(i - 1) =~= s.skip(i));
    }
}

/// `trim_end_spec` drops exactly the trailing run of whitespace.
proof fn lemma_trim_end_take(s: Seq<char>, i: int)
    requires
        0 <= i <= s.len(),
        forall|j: int| i <= j < s.len() ==> is_space(#[trigger] s[j]),
        i > 0 ==> !is_space(s[i - 1]),
    ensures
        trim_end_spec(s) == s.take(i),
    decreases s.len(),
{
    if i == s.len() {
        assert(trim_end_spec(s) =~= s.take(i));
    } else {
        assert(is_space(s.last()));
        lemma_trim_end_take(s.drop_last(), i);
        assert(s.drop_last().take(i) =~= s.take(i));
    }
}

/// Trimming a name that already starts and ends with non-whitespace leaves it
/// unchanged.
pub proof fn lemma_trim_clean_identity(s: Seq<char>)
    requires
        s.len() > 0,
        !is_space(s[0]),
        !is_space(s.last()),
    ensures
        trim_spec(s) == s,
{
}

/// Executable test for [`is_space`].
fn is_space_char(c: char) -> (r: bool)
    ensures
        r == is_space(c),
{
    c == ' ' || c == '\t' || c == '\r' || c == '\n'
}

/// `s` with surrounding whitespace removed.
pub fn trim(s: &str) -> (r: String)
    ensures
        r@ == trim_spec(s@),
{
    let len = s.unicode_len();
    let mut start: usize = 0;
    while start < len && is_space_char(s.get_char(start))
        invariant
            0 <= start <= len,
            len == s@.len(),
            forall|j: int| 0 <= j < start ==> is_space(#[trigger] s@[j]),
        decreases len - start,
    {
        start = start + 1;
    }
    proof {
        lemma_trim_start_skip(s@, start as int);
    }
    if start == len {
        proof {
            assert(s@.skip(start as int) =~= Seq::<char>::empty());
        }
        return String::new();
    }
    let mut end: usize = len;
    while end > start + 1 && is_space_char(s.get_char(end - 1))
        invariant
            start < end <= len,
            len == s@.len(),
            forall|j: int| end <= j < len ==> is_space(#[trigger] s@[j]),
        decreases end,
    {
        end = end - 1;
    }
    proof {
        let tail = s@.skip(start as int);
        assert forall|j: int| (end - start) <= j < tail.len() implies is_space(
            #[trigger] tail[j],
        ) by {
            assert(tail[j] == s@[j + start]);
        }
        assert(tail[end - start - 1] == s@[end - 1]);
        lemma_trim_end_take(tail, end - start);
        assert(tail.take(end - start) =~= s@.subrange(start as int, end as int));
    }
    let sub = s.substring_char(start, end);
    String::from_str(sub)
}

/// The lines of `s`, split on `'\n'`, accumulated left to right. `cur` holds
/// the characters of the line being read.
pub open spec fn split_lines_rec(s: Seq<char>, cur: Seq<char>) -> Seq<Seq<char>>
    decreases s.len(),
{
    if s.len() == 0 {
        seq![cur]
    } else if s[0] == '\n' {
        seq![cur] + split_lines_rec(s.drop_first(), Seq::empty())
    } else {
        split_lines_rec(s.drop_first(), cur.push(s[0]))
    }
}

/// The lines of `s`, split on `'\n'`. A terminator-free final segment counts
/// as a line, so a body ending in `'\n'` yields a trailing empty line.
pub open spec fn split_lines(s: Seq<char>) -> Seq<Seq<char>> {
    split_lines_rec(s, Seq::<char>::empty())
}

/// The lines of `s`, as owned strings.
pub fn lines_of(s: &str) -> (r: Vec<String>)
    ensures
        r.deep_view() == split_lines(s@),
{
    let len = s.unicode_len();
    let mut out: Vec<String> = Vec::new();
    let mut start: usize = 0;
    let mut i: usize = 0;
    proof {
        assert(s@.skip(0) =~= s@);
        assert(s@.subrange(0, 0) =~= Seq::<char>::empty());
        assert(out.deep_view() =~= Seq::<Seq<char>>::empty());
    }
    while i < len
        invariant
            0 <= start <= i <= len,
            len == s@.len(),
            split_lines(s@) == out.deep_view() + split_lines_rec(
                s@.skip(i as int),
                s@.subrange(start as int, i as int),
            ),
        decreases len - i,
    {
        let ghost prev = out.deep_view();
        let ghost cur = s@.subrange(start as int, i as int);
        let c = s.get_char(i);
        proof {
            assert(s@.skip(i as int)[0] == s@[i as int]);
            assert(s@.skip(i as int).drop_first() =~= s@.skip(i as int + 1));
        }
        if c == '\n' {
            let line = s.substring_char(start, i);
            out.push(String::from_str(line));
            proof {
                assert(out.deep_view() =~= prev.push(cur));
                assert(prev + (seq![cur] + split_lines_rec(
                    s@.skip(i as int + 1),
                    Seq::<char>::empty(),
                )) =~= prev.push(cur) + split_lines_rec(
                    s@.skip(i as int + 1),
                    Seq::<char>::empty(),
                ));
                assert(s@.subrange(i as int + 1, i as int + 1) =~= Seq::<char>::empty());
            }
            start = i + 1;
        } else {
            proof {
                assert(cur.push(s@[i as int]) =~= s@.subrange(start as int, i as int + 1));
            }
        }
        i = i + 1;
    }
    proof {
        assert(s@.skip(len as int) =~= Seq::<char>::empty());
    }
    let ghost prev = out.deep_view();
    let last = s.substring_char(start, len);
    out.push(String::from_str(last));
    proof {
        assert(out.deep_view() =~= prev.push(s@.subrange(start as int, len as int)));
        assert(prev + seq![s@.subrange(start as int, len as int)] =~= prev.push(
            s@.subrange(start as int, len as int),
        ));
    }
    out
}

} // verus!
