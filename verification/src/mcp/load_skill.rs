//! `load_skill`: locate a laboratory's `SKILL.md`, read it, and check what came
//! back before it is registered and injected.

use vstd::prelude::*;

use crate::mcp::common::{is_internal, is_invalid_params, joined, laboratory_id, laboratory_id_of, McpServer, ToolError};
use crate::text::{chars_of, same_text, trim_end_newlines};

verus! {

/// The `load_skill` tool's parameters.
pub struct LoadSkillRequest {
    /// The laboratory id (from `list_skills`) that contains the skill.
    pub laboratory_id: String,
    /// The skill folder path within the laboratory (from `list_skills`), e.g.
    /// `/skills/greeting`. Its `SKILL.md` is read and loaded.
    pub path: String,
}

/// `s` with each `'` written as `'\''`: close the quote, an escaped quote,
/// reopen the quote.
pub open spec fn quote_escaped(s: Seq<char>) -> Seq<char>
    decreases s.len(),
{
    if s.len() == 0 {
        Seq::empty()
    } else {
        quote_escaped(s.drop_last()) + if s.last() == '\'' {
            seq!['\'', '\\', '\'', '\'']
        } else {
            seq![s.last()]
        }
    }
}

/// `s` as one single-quoted bash word.
pub open spec fn single_quoted(s: Seq<char>) -> Seq<char> {
    seq!['\''] + quote_escaped(s) + seq!['\'']
}

/// What bash makes of the word `w` when `w` is made only of single-quoted runs
/// and backslash-escaped characters (`in_quote`: whether a single quote is
/// open at the start of `w`). Inside single quotes every character stands for
/// itself until the closing `'`; outside, `\` escapes the next character and
/// `'` opens a quote. Any other character outside quotes, a trailing `\` or an
/// unclosed quote gives `None`: such words are not of this form.
pub open spec fn bash_word_value(w: Seq<char>, in_quote: bool) -> Option<Seq<char>>
    decreases w.len(),
{
    if w.len() == 0 {
        if in_quote {
            None
        } else {
            Some(Seq::empty())
        }
    } else if in_quote {
        if w[0] == '\'' {
            bash_word_value(w.drop_first(), false)
        } else {
            match bash_word_value(w.drop_first(), true) {
                Some(rest) => Some(seq![w[0]] + rest),
                None => None,
            }
        }
    } else if w[0] == '\'' {
        bash_word_value(w.drop_first(), true)
    } else if w[0] == '\\' && w.len() >= 2 {
        match bash_word_value(w.skip(2), false) {
            Some(rest) => Some(seq![w[1]] + rest),
            None => None,
        }
    } else {
        None
    }
}

proof fn lemma_quote_escaped_append(a: Seq<char>, b: Seq<char>)
    ensures
        quote_escaped(a + b) == quote_escaped(a) + quote_escaped(b),
    decreases b.len(),
{
    if b.len() == 0 {
        assert(a + b =~= a);
        assert(quote_escaped(a) + quote_escaped(b) =~= quote_escaped(a));
    } else {
        assert((a + b).drop_last() =~= a + b.drop_last());
        lemma_quote_escaped_append(a, b.drop_last());
        let e = if b.last() == '\'' {
            seq!['\'', '\\', '\'', '\'']
        } else {
            seq![b.last()]
        };
        assert(quote_escaped(a) + quote_escaped(b.drop_last()) + e =~= quote_escaped(a) + (
        quote_escaped(b.drop_last()) + e));
    }
}

/// Inside an open quote, the escaped text of `s` stands for `s` itself, and the
/// quote is open again after it.
#[verifier::spinoff_prover]
#[verifier::rlimit(40)]
proof fn lemma_escaped_in_quote(s: Seq<char>, t: Seq<char>)
    ensures
        bash_word_value(quote_escaped(s) + t, true) == match bash_word_value(t, true) {
            Some(r) => Some(s + r),
            None => None::<Seq<char>>,
        },
    decreases s.len(),
{
    if s.len() == 0 {
        assert(quote_escaped(s) + t =~= t);
        match bash_word_value(t, true) {
            Some(r) => {
                assert(s + r =~= r);
            },
            None => {},
        }
    } else {
        let c = s[0];
        let rest = s.drop_first();
        assert(s =~= seq![c] + rest);
        lemma_quote_escaped_append(seq![c], rest);
        assert(seq![c].drop_last() =~= Seq::<char>::empty());
        assert(quote_escaped(Seq::<char>::empty()) == Seq::<char>::empty());
        let w = quote_escaped(s) + t;
        lemma_escaped_in_quote(rest, t);
        reveal_with_fuel(bash_word_value, 4);
        if c == '\'' {
            assert(quote_escaped(seq![c]) =~= seq!['\'', '\\', '\'', '\'']);
            assert(w =~= seq!['\'', '\\', '\'', '\''] + (quote_escaped(rest) + t));
            assert(w.drop_first() =~= seq!['\\', '\'', '\''] + (quote_escaped(rest) + t));
            assert(w.drop_first().skip(2) =~= seq!['\''] + (quote_escaped(rest) + t));
            assert((seq!['\''] + (quote_escaped(rest) + t)).drop_first() =~= quote_escaped(rest)
                + t);
        } else {
            assert(quote_escaped(seq![c]) =~= seq![c]);
            assert(w =~= seq![c] + (quote_escaped(rest) + t));
            assert(w.drop_first() =~= quote_escaped(rest) + t);
        }
        match bash_word_value(t, true) {
            Some(r) => {
                assert(seq![c] + (rest + r) =~= s + r);
            },
            None => {},
        }
    }
}

/// The quoted word stands, in bash, for exactly the text that was quoted:
/// quoting is undone by the shell, whatever quotes the text holds.
pub proof fn lemma_single_quoted_is_literal(s: Seq<char>)
    ensures
        bash_word_value(single_quoted(s), false) == Some(s),
{
    let w = single_quoted(s);
    assert(w[0] == '\'');
    assert(bash_word_value(seq!['\''], true) == Some(Seq::<char>::empty())) by {
        assert(seq!['\''].drop_first() =~= Seq::<char>::empty());
        assert(bash_word_value(Seq::<char>::empty(), false) == Some(Seq::<char>::empty()));
    }
    assert(w.drop_first() =~= quote_escaped(s) + seq!['\'']);
    lemma_escaped_in_quote(s, seq!['\'']);
    assert(seq!['\''].drop_first() =~= Seq::<char>::empty());
    assert(s + Seq::<char>::empty() =~= s);
}

/// Single-quote a string for safe embedding in a bash command.
pub fn shell_single_quote(s: &str) -> (r: String)
    ensures
        r@ == single_quoted(s@),
{
    let cs = chars_of(s);
    let n = cs.len();
    let mut r = "'".to_owned();
    proof {
        reveal_strlit("'");
        assert(cs@.take(0) =~= Seq::<char>::empty());
    }
    let mut seg: usize = 0;
    let mut i: usize = 0;
    while i < n
        invariant
            n == cs@.len(),
            cs@ == s@,
            seg <= i <= n,
            r@ + cs@.subrange(seg as int, i as int) == seq!['\''] + quote_escaped(
                cs@.take(i as int),
            ),
        decreases n - i,
    {
        assert(cs@.take(i + 1).drop_last() =~= cs@.take(i as int));
        let ghost before = r@;
        let ghost pending = cs@.subrange(seg as int, i as int);
        let ghost c = cs@[i as int];
        if cs[i] == '\'' {
            let ghost esc = seq!['\'', '\\', '\'', '\''];
            r.append(s.substring_char(seg, i));
            r.append("'\\''");
            proof {
                reveal_strlit("'\\''");
                assert("'\\''"@ =~= esc);
            }
            seg = i + 1;
            assert(r@ + cs@.subrange(seg as int, i + 1) =~= seq!['\''] + quote_escaped(
                cs@.take(i as int),
            ) + esc);
        } else {
            assert(cs@.subrange(seg as int, i + 1) =~= pending.push(c));
            assert(r@ + pending.push(c) =~= (before + pending).push(c));
        }
        i = i + 1;
    }
    r.append(s.substring_char(seg, n));
    r.append("'");
    assert(cs@.take(n as int) =~= cs@);
    assert(r@ =~= single_quoted(s@));
    r
}

/// The bash command that prints the `SKILL.md` (any case) directly under the
/// folder `path`, quoted: the text before and after the quoted path.
pub open spec fn skill_md_command_text(path: Seq<char>) -> Seq<char> {
    "f=$(find "@ + single_quoted(path)
        + " -maxdepth 1 -iname 'SKILL.md' 2>/dev/null | head -1); [ -n \"$f\" ] && cat \"$f\""@
}

/// Locate the `SKILL.md` (case-insensitive) directly under `path` and cat it.
pub fn skill_md_command(path: &str) -> (r: String)
    ensures
        r@ == skill_md_command_text(path@),
{
    let quoted = shell_single_quote(path);
    let mut r = joined("f=$(find ", quoted.as_str());
    r.append(" -maxdepth 1 -iname 'SKILL.md' 2>/dev/null | head -1); [ -n \"$f\" ] && cat \"$f\"");
    r
}

/// The position of the first server that is the client laboratory `id`.
pub open spec fn is_first_laboratory(servers: Seq<McpServer>, id: Seq<char>, i: int) -> bool {
    &&& 0 <= i < servers.len()
    &&& laboratory_id_of(servers[i]) == Some(id)
    &&& forall|j: int| 0 <= j < i ==> laboratory_id_of(#[trigger] servers[j]) != Some(id)
}

/// Resolve the laboratory's MCP server: the first server whose laboratory id
/// is `id`, or the error for an unknown laboratory.
pub fn find_laboratory(servers: &Vec<McpServer>, id: &str) -> (r: Result<usize, ToolError>)
    ensures
        r matches Ok(i) ==> is_first_laboratory(servers@, id@, i as int),
        r is Err ==> is_invalid_params(r, "no laboratory with id "@ + id@) && forall|j: int|
            0 <= j < servers@.len() ==> laboratory_id_of(#[trigger] servers@[j]) != Some(id@),
{
    let mut i: usize = 0;
    while i < servers.len()
        invariant
            i <= servers@.len(),
            forall|j: int| 0 <= j < i ==> laboratory_id_of(#[trigger] servers@[j]) != Some(id@),
        decreases servers@.len() - i,
    {
        match laboratory_id(&servers[i]) {
            Some(found) => {
                if same_text(found, id) {
                    return Ok(i);
                }
            },
            None => {},
        }
        i = i + 1;
    }
    Err(ToolError::InvalidParams(joined("no laboratory with id ", id)))
}

/// The skill content that the laboratory's answer gives: `stdout` without its
/// trailing line feeds. No answer is an internal error; an empty content means
/// that no `SKILL.md` was found at `path`.
pub fn loaded_skill_content(stdout: Option<String>, path: &str) -> (r: Result<String, ToolError>)
    ensures
        stdout is None ==> is_internal(r, "failed to read SKILL.md over the laboratory"@),
        stdout matches Some(s) ==> if trim_end_newlines(s@).len() == 0 {
            is_invalid_params(r, "no SKILL.md found at "@ + path@)
        } else {
            r matches Ok(c) && c@ == trim_end_newlines(s@)
        },
{
    match stdout {
        None => Err(ToolError::Internal("failed to read SKILL.md over the laboratory".to_owned())),
        Some(s) => {
            let cs = chars_of(s.as_str());
            let mut b = cs.len();
            assert(cs@.take(b as int) =~= cs@);
            while b > 0 && cs[b - 1] == '\n'
                invariant
                    b <= cs@.len(),
                    cs@ == s@,
                    trim_end_newlines(s@) == trim_end_newlines(cs@.take(b as int)),
                decreases b,
            {
                assert(cs@.take(b as int).drop_last() =~= cs@.take(b - 1));
                b = b - 1;
            }
            if b == 0 {
                Err(ToolError::InvalidParams(joined("no SKILL.md found at ", path)))
            } else {
                Ok(s.as_str().substring_char(0, b).to_owned())
            }
        },
    }
}

/// The baseline a load sets: none when the agent already had one (the skill is
/// then only registered); on the first load, when the skill is injected at
/// once, the agent's current usage, or 0 when it could not be read.
pub open spec fn first_load_baseline_of(had_baseline: bool, usage: Option<i64>) -> Option<i64> {
    if had_baseline {
        None
    } else {
        match usage {
            Some(u) => Some(u),
            None => Some(0),
        }
    }
}

/// Whether a load injects the skill at once and which baseline it then sets:
/// `Some(baseline)` on the first load (no baseline yet), from the usage read
/// after the injection; `None` when a baseline already exists.
pub fn first_load_baseline(had_baseline: bool, usage: Option<i64>) -> (r: Option<i64>)
    ensures
        r == first_load_baseline_of(had_baseline, usage),
{
    if had_baseline {
        None
    } else {
        match usage {
            Some(u) => Some(u),
            None => Some(0),
        }
    }
}

} // verus!
