//! The rule store: an ordered list of glob rules loaded from a line-oriented
//! config format.
//!
//! Per non-empty line, the first character is a sigil: `+` appends the line's
//! flags when its pattern matches, `=` replaces everything gathered so far,
//! `#` marks a comment. The rest of the line is whitespace-split: first the
//! glob pattern, then the flags, kept in the order written.

use vstd::prelude::*;

verus! {

/// How a matching rule combines with the flags gathered so far.
#[derive(PartialEq, Eq, Structural, Clone, Copy, Debug)]
pub enum RuleMode {
    /// Extend the gathered flags with this rule's flags.
    Append,
    /// Discard the gathered flags in favour of this rule's flags.
    Replace,
}

/// One rule: a glob pattern (already vetted by the glob engine), the flags it
/// carries, and its combine mode.
#[derive(Debug)]
pub struct Rule {
    pub pattern: String,
    pub flags: Vec<String>,
    pub mode: RuleMode,
}

/// The mathematical content of a rule.
pub ghost struct RuleView {
    pub pattern: Seq<char>,
    pub flags: Seq<Seq<char>>,
    pub mode: RuleMode,
}

/// The character sequences of a sequence of strings.
pub open spec fn strs_view(v: Seq<String>) -> Seq<Seq<char>> {
    Seq::new(v.len(), |i: int| v[i]@)
}

impl View for Rule {
    type V = RuleView;

    open spec fn view(&self) -> RuleView {
        RuleView { pattern: self.pattern@, flags: strs_view(self.flags@), mode: self.mode }
    }
}

/// The character sequences of a sequence of rules.
pub open spec fn rules_view(v: Seq<Rule>) -> Seq<RuleView> {
    Seq::new(v.len(), |i: int| v[i]@)
}

/// A config syntax error, with the 1-based number of the offending line.
#[derive(PartialEq, Eq, Structural, Clone, Copy, Debug)]
pub enum ConfigError {
    /// The line begins with a character that is no known sigil.
    UnknownSigil { line: usize },
    /// A sigil with no pattern token after it.
    MissingPattern { line: usize },
    /// The pattern token is not a valid glob pattern.
    InvalidPattern { line: usize },
}

pub open spec fn is_wsc(c: char) -> bool {
    c == ' ' || c == '\t'
}

/// First position at or after `i` holding a space or tab (or the end).
pub open spec fn first_ws_from(s: Seq<char>, i: int) -> int
    decreases s.len() - i,
    when 0 <= i <= s.len()
{
    if i == s.len() || is_wsc(s[i]) {
        i
    } else {
        first_ws_from(s, i + 1)
    }
}

proof fn lemma_first_ws_lb(s: Seq<char>, i: int)
    requires
        0 <= i <= s.len(),
    ensures
        i <= first_ws_from(s, i) <= s.len(),
    decreases s.len() - i,
{
    if i < s.len() && !is_wsc(s[i]) {
        lemma_first_ws_lb(s, i + 1);
    }
}

proof fn lemma_first_ws_scan(s: Seq<char>, a: int, c: int)
    requires
        0 <= a <= c <= s.len(),
        forall|x: int| a <= x < c ==> !is_wsc(#[trigger] s[x]),
        c == s.len() || is_wsc(s[c]),
    ensures
        first_ws_from(s, a) == c,
    decreases c - a,
{
    if a < c {
        lemma_first_ws_scan(s, a + 1, c);
    }
}

/// The whitespace-split tokens of `s` from position `i` on.
pub open spec fn tokens_from(s: Seq<char>, i: int) -> Seq<Seq<char>>
    decreases s.len() - i,
    when 0 <= i <= s.len()
    via tokens_from_dec
{
    if i == s.len() {
        seq![]
    } else if is_wsc(s[i]) {
        tokens_from(s, i + 1)
    } else {
        seq![s.subrange(i, first_ws_from(s, i))] + tokens_from(s, first_ws_from(s, i))
    }
}

#[via_fn]
proof fn tokens_from_dec(s: Seq<char>, i: int) {
    if 0 <= i < s.len() && !is_wsc(s[i]) {
        lemma_first_ws_lb(s, i + 1);
    }
}

/// First position at or after `i` holding a line feed (or the end).
pub open spec fn first_nl_from(t: Seq<char>, i: int) -> int
    decreases t.len() - i,
    when 0 <= i <= t.len()
{
    if i == t.len() || t[i] == '\n' {
        i
    } else {
        first_nl_from(t, i + 1)
    }
}

proof fn lemma_first_nl_lb(t: Seq<char>, i: int)
    requires
        0 <= i <= t.len(),
    ensures
        i <= first_nl_from(t, i) <= t.len(),
    decreases t.len() - i,
{
    if i < t.len() && t[i] != '\n' {
        lemma_first_nl_lb(t, i + 1);
    }
}

proof fn lemma_first_nl_scan(t: Seq<char>, a: int, c: int)
    requires
        0 <= a <= c <= t.len(),
        forall|x: int| a <= x < c ==> #[trigger] t[x] != '\n',
        c == t.len() || t[c] == '\n',
    ensures
        first_nl_from(t, a) == c,
    decreases c - a,
{
    if a < c {
        lemma_first_nl_scan(t, a + 1, c);
    }
}

/// A line as handed to the rule parser: without one trailing carriage return.
pub open spec fn strip_cr(l: Seq<char>) -> Seq<char> {
    if l.len() > 0 && l.last() == '\r' {
        l.drop_last()
    } else {
        l
    }
}

/// The lines of `t` from position `i` on, split at line feeds. A final line
/// needs no trailing line feed, and one trailing line feed ends the text.
pub open spec fn lines_from(t: Seq<char>, i: int) -> Seq<Seq<char>>
    decreases t.len() - i,
    when 0 <= i <= t.len()
    via lines_from_dec
{
    if i == t.len() {
        seq![]
    } else {
        let e = first_nl_from(t, i);
        if e == t.len() {
            seq![strip_cr(t.subrange(i, e))]
        } else {
            seq![strip_cr(t.subrange(i, e))] + lines_from(t, e + 1)
        }
    }
}

#[via_fn]
proof fn lines_from_dec(t: Seq<char>, i: int) {
    if 0 <= i < t.len() {
        lemma_first_nl_lb(t, i);
    }
}

/// The lines of a whole config text.
pub open spec fn split_lines(t: Seq<char>) -> Seq<Seq<char>> {
    lines_from(t, 0)
}

/// What one config line means.
pub ghost enum LineParse {
    /// Blank line or comment: skipped.
    Skip,
    /// A rule line: its rule.
    Entry { rule: RuleView },
    /// The first character is no sigil.
    BadSigil,
    /// A sigil with nothing after it.
    NoPattern,
}

/// Structural parse of one (already stripped) config line. Whether the glob
/// engine accepts the pattern token is a question this spec leaves open.
pub open spec fn parse_line(l: Seq<char>) -> LineParse {
    if l.len() == 0 {
        LineParse::Skip
    } else if l[0] == '#' {
        LineParse::Skip
    } else if l[0] == '+' || l[0] == '=' {
        let toks = tokens_from(l, 1);
        if toks.len() == 0 {
            LineParse::NoPattern
        } else {
            LineParse::Entry {
                rule: RuleView {
                    pattern: toks[0],
                    flags: toks.drop_first(),
                    mode: if l[0] == '+' {
                        RuleMode::Append
                    } else {
                        RuleMode::Replace
                    },
                },
            }
        }
    } else {
        LineParse::BadSigil
    }
}

/// The line neither breaks on its sigil nor lacks a pattern.
pub open spec fn line_ok(l: Seq<char>) -> bool {
    !(parse_line(l) is BadSigil) && !(parse_line(l) is NoPattern)
}

/// The line is wholly acceptable: structurally good, and if it is a rule
/// line, its pattern token satisfies the glob engine.
pub open spec fn line_valid(l: Seq<char>) -> bool {
    &&& line_ok(l)
    &&& (parse_line(l) matches LineParse::Entry { rule } ==> glob_ok(rule.pattern))
}

/// The rules of the lines from index `k` on, in file order.
pub open spec fn rules_from(lines: Seq<Seq<char>>, k: int) -> Seq<RuleView>
    decreases lines.len() - k,
    when 0 <= k <= lines.len()
{
    if k == lines.len() {
        seq![]
    } else {
        match parse_line(lines[k]) {
            LineParse::Entry { rule } => seq![rule] + rules_from(lines, k + 1),
            _ => rules_from(lines, k + 1),
        }
    }
}

/// The rules of a whole config text, in file order.
pub open spec fn rules_of(lines: Seq<Seq<char>>) -> Seq<RuleView> {
    rules_from(lines, 0)
}

/// Whether the glob engine accepts a token as a pattern: a function of the
/// token alone for a given build of the engine.
pub uninterp spec fn glob_ok(p: Seq<char>) -> bool;

/// Relies on glob::Pattern::new: whether the glob engine accepts the token as
/// a pattern.
#[verifier::external_body]
fn pattern_ok(p: &str) -> (r: bool)
    ensures
        r == glob_ok(p@),
{
    glob::Pattern::new(p).is_ok()
}

/// Splits the config text into its lines, as `split_lines` states.
fn split_lines_exec(text: &str) -> (r: Vec<String>)
    ensures
        strs_view(r@) == split_lines(text@),
{
    let ghost t = text@;
    let n = text.unicode_len();
    let mut out: Vec<String> = Vec::new();
    let mut i: usize = 0;
    while i < n
        invariant
            t == text@,
            n == t.len(),
            i <= n,
            strs_view(out@) + lines_from(t, i as int) =~= split_lines(t),
        decreases n - i,
    {
        let mut j: usize = i;
        while j < n && text.get_char(j) != '\n'
            invariant
                t == text@,
                n == t.len(),
                i <= j <= n,
                forall|x: int| i <= x < j ==> #[trigger] t[x] != '\n',
            decreases n - j,
        {
            j += 1;
        }
        proof {
            lemma_first_nl_scan(t, i as int, j as int);
        }
        let line = if j > i && text.get_char(j - 1) == '\r' {
            text.substring_char(i, j - 1)
        } else {
            text.substring_char(i, j)
        };
        let owned = line.to_owned();
        proof {
            assert(owned@ == strip_cr(t.subrange(i as int, j as int)));
        }
        let ghost prev = out@;
        out.push(owned);
        proof {
            assert(strs_view(out@) =~= strs_view(prev).push(owned@));
            if j < n {
                assert(lines_from(t, i as int) == seq![strip_cr(t.subrange(i as int, j as int))]
                    + lines_from(t, j + 1));
                assert(strs_view(out@) + lines_from(t, j + 1) =~= split_lines(t));
            } else {
                assert(lines_from(t, i as int) == seq![strip_cr(t.subrange(i as int, j as int))]);
                assert(lines_from(t, n as int) == Seq::<Seq<char>>::empty());
                assert(strs_view(out@) + lines_from(t, n as int) =~= split_lines(t));
            }
        }
        if j < n {
            i = j + 1;
        } else {
            i = n;
        }
    }
    proof {
        assert(strs_view(out@) =~= split_lines(t));
    }
    out
}

/// Splits `s` from position `start` on into its whitespace-separated tokens,
/// as `tokens_from` states.
fn tokenize_from(s: &str, start: usize) -> (r: Vec<String>)
    requires
        start as int <= s@.len(),
    ensures
        strs_view(r@) == tokens_from(s@, start as int),
{
    let ghost t = s@;
    let n = s.unicode_len();
    let mut out: Vec<String> = Vec::new();
    let mut i: usize = start;
    while i < n
        invariant
            t == s@,
            n == t.len(),
            start <= i <= n,
            strs_view(out@) + tokens_from(t, i as int) =~= tokens_from(t, start as int),
        decreases n - i,
    {
        let c = s.get_char(i);
        if c == ' ' || c == '\t' {
            proof {
                assert(tokens_from(t, i as int) == tokens_from(t, i + 1));
            }
            i += 1;
        } else {
            let mut j: usize = i + 1;
            while j < n && s.get_char(j) != ' ' && s.get_char(j) != '\t'
                invariant
                    t == s@,
                    n == t.len(),
                    i < j <= n,
                    forall|x: int| i < x < j ==> !is_wsc(#[trigger] t[x]),
                decreases n - j,
            {
                j += 1;
            }
            proof {
                assert(!is_wsc(t[i as int]));
                lemma_first_ws_scan(t, i as int, j as int);
            }
            let tok = s.substring_char(i, j).to_owned();
            let ghost prev = out@;
            out.push(tok);
            proof {
                assert(strs_view(out@) =~= strs_view(prev).push(t.subrange(i as int, j as int)));
                assert(tokens_from(t, i as int) == seq![t.subrange(i as int, j as int)]
                    + tokens_from(t, j as int));
                assert(strs_view(out@) + tokens_from(t, j as int) =~= tokens_from(
                    t,
                    start as int,
                ));
            }
            i = j;
        }
    }
    proof {
        assert(strs_view(out@) =~= tokens_from(t, start as int));
    }
    out
}

/// Parses one stripped config line: a rule, nothing, or the error that
/// `lineno` (1-based) is reported under.
fn parse_line_exec(line: &String, lineno: usize) -> (r: Result<Option<Rule>, ConfigError>)
    ensures
        ({
            match parse_line(line@) {
                LineParse::Skip => r == Ok::<Option<Rule>, ConfigError>(None),
                LineParse::BadSigil => r == Err::<Option<Rule>, ConfigError>(
                    ConfigError::UnknownSigil { line: lineno },
                ),
                LineParse::NoPattern => r == Err::<Option<Rule>, ConfigError>(
                    ConfigError::MissingPattern { line: lineno },
                ),
                LineParse::Entry { rule } => match r {
                    Ok(Some(rl)) => rl@ == rule && glob_ok(rule.pattern),
                    Ok(None) => false,
                    Err(e) => e == ConfigError::InvalidPattern { line: lineno } && !glob_ok(
                        rule.pattern,
                    ),
                },
            }
        }),
{
    let s = line.as_str();
    let n = s.unicode_len();
    if n == 0 {
        return Ok(None);
    }
    let c0 = s.get_char(0);
    if c0 == '#' {
        return Ok(None);
    }
    if c0 != '+' && c0 != '=' {
        return Err(ConfigError::UnknownSigil { line: lineno });
    }
    let toks = tokenize_from(s, 1);
    if toks.len() == 0 {
        proof {
            assert(tokens_from(s@, 1).len() == 0);
        }
        return Err(ConfigError::MissingPattern { line: lineno });
    }
    let pattern = toks[0].clone();
    proof {
        assert(pattern@ == tokens_from(s@, 1)[0]);
    }
    if !pattern_ok(pattern.as_str()) {
        return Err(ConfigError::InvalidPattern { line: lineno });
    }
    proof {
        assert(glob_ok(tokens_from(s@, 1)[0]));
    }
    let mut flags: Vec<String> = Vec::new();
    let mut idx: usize = 1;
    while idx < toks.len()
        invariant
            1 <= idx <= toks.len(),
            strs_view(flags@) =~= strs_view(toks@).subrange(1, idx as int),
        decreases toks.len() - idx,
    {
        let ghost prev = flags@;
        flags.push(toks[idx].clone());
        proof {
            assert(strs_view(flags@) =~= strs_view(prev).push(toks@[idx as int]@));
            assert(strs_view(flags@) =~= strs_view(toks@).subrange(1, idx + 1));
        }
        idx += 1;
    }
    let mode = if c0 == '+' {
        RuleMode::Append
    } else {
        RuleMode::Replace
    };
    let rl = Rule { pattern, flags, mode };
    proof {
        let toksv = tokens_from(s@, 1);
        assert(strs_view(toks@) == toksv);
        assert(strs_view(flags@) =~= toksv.drop_first());
        assert(rl@ == parse_line(line@)->Entry_rule);
    }
    Ok(Some(rl))
}

/// Parses the whole config text into the rule store.
///
/// Processing is line by line, in file order, and stops at the first faulty
/// line: a sigil error or a missing pattern exactly as the structural parse
/// states it, or a pattern the glob engine refuses. Success is owed exactly
/// when every line is valid, and the store then holds exactly the rules of
/// the text, in file order.
pub fn parse_rules(text: &str) -> (r: Result<Vec<Rule>, ConfigError>)
    ensures
        ({
            let lines = split_lines(text@);
            match r {
                Ok(v) => (forall|x: int| 0 <= x < lines.len() ==> line_valid(#[trigger] lines[x]))
                    && rules_view(v@) == rules_of(lines),
                Err(ConfigError::UnknownSigil { line }) => 1 <= line <= lines.len() && parse_line(
                    lines[line - 1],
                ) is BadSigil && (forall|x: int|
                    0 <= x < line - 1 ==> line_valid(#[trigger] lines[x])),
                Err(ConfigError::MissingPattern { line }) => 1 <= line <= lines.len() && parse_line(
                    lines[line - 1],
                ) is NoPattern && (forall|x: int|
                    0 <= x < line - 1 ==> line_valid(#[trigger] lines[x])),
                Err(ConfigError::InvalidPattern { line }) => 1 <= line <= lines.len() && (
                parse_line(lines[line - 1]) matches LineParse::Entry { rule } && !glob_ok(
                    rule.pattern,
                )) && (forall|x: int| 0 <= x < line - 1 ==> line_valid(#[trigger] lines[x])),
            }
        }),
{
    let ghost lns = split_lines(text@);
    let lines = split_lines_exec(text);
    let mut rules: Vec<Rule> = Vec::new();
    let mut k: usize = 0;
    while k < lines.len()
        invariant
            strs_view(lines@) == lns,
            lns == split_lines(text@),
            k <= lines@.len(),
            forall|x: int| 0 <= x < k ==> line_valid(#[trigger] lns[x]),
            rules_view(rules@) + rules_from(lns, k as int) =~= rules_of(lns),
        decreases lines.len() - k,
    {
        proof {
            assert(lines@[k as int]@ == lns[k as int]);
        }
        match parse_line_exec(&lines[k], k + 1) {
            Err(e) => {
                return Err(e);
            },
            Ok(None) => {
                proof {
                    assert(rules_from(lns, k as int) == rules_from(lns, k + 1));
                }
            },
            Ok(Some(rl)) => {
                let ghost prev = rules@;
                let ghost rv = rl@;
                rules.push(rl);
                proof {
                    assert(rules_view(rules@) =~= rules_view(prev).push(rv));
                    assert(rules_from(lns, k as int) == seq![rv] + rules_from(lns, k + 1));
                    assert(rules_view(rules@) + rules_from(lns, k + 1) =~= rules_of(lns));
                }
            },
        }
        k += 1;
    }
    proof {
        assert(rules_from(lns, lns.len() as int) == Seq::<RuleView>::empty());
        assert(rules_view(rules@) =~= rules_of(lns));
    }
    Ok(rules)
}

} // verus!
