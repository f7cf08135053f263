pub mod rule;

use vstd::prelude::*;

use crate::preprocessor::rule::{find_from, regex_valid, InvalidRegex, Rule, RuleV};
use vstd::string::StrSliceExecFns;
use vstd::string::StringExecFns;

verus! {

/// The Unicode `White_Space` property, written out code point by
/// code point.
pub open spec fn is_whitespace_char(c: char) -> bool {
    ||| c == ' '
    ||| c == '\t'
    ||| c == '\n'
    ||| c == '\u{0B}'
    ||| c == '\u{0C}'
    ||| c == '\r'
    ||| c == '\u{85}'
    ||| c == '\u{A0}'
    ||| c == '\u{1680}'
    ||| (0x2000 <= c as u32 && c as u32 <= 0x200A)
    ||| c == '\u{2028}'
    ||| c == '\u{2029}'
    ||| c == '\u{202F}'
    ||| c == '\u{205F}'
    ||| c == '\u{3000}'
}

/// Whether every character of `s` is whitespace, so that a rule line
/// with this text is skipped rather than parsed.
pub open spec fn is_blank(s: Seq<char>) -> bool {
    forall|i: int| 0 <= i < s.len() ==> is_whitespace_char(#[trigger] s[i])
}

fn whitespace_char(c: char) -> (r: bool)
    ensures
        r == is_whitespace_char(c),
{
    let u = c as u32;
    u == 0x20 || u == 0x09 || u == 0x0A || u == 0x0B || u == 0x0C || u == 0x0D || u == 0x85
        || u == 0xA0 || u == 0x1680 || (0x2000 <= u && u <= 0x200A) || u == 0x2028 || u == 0x2029
        || u == 0x202F || u == 0x205F || u == 0x3000
}

/// The pattern and replacement texts of each rule, in order.
pub open spec fn rules_view(rules: Seq<Rule>) -> Seq<RuleV> {
    rules.map_values(|r: Rule| r@)
}

/// The position of the first line feed in `s`, if any.
pub open spec fn first_nl(s: Seq<char>) -> Option<int>
    decreases s.len(),
{
    if s.len() == 0 {
        None
    } else if s[0] == '\n' {
        Some(0int)
    } else {
        match first_nl(s.drop_first()) {
            Some(i) => Some(i + 1),
            None => None,
        }
    }
}

/// A line with its terminator already cut off: one carriage return left
/// over from a `\r\n` ending is cut as well.
pub open spec fn chomp(l: Seq<char>) -> Seq<char> {
    if l.len() > 0 && l.last() == '\r' {
        l.drop_last()
    } else {
        l
    }
}

/// `s` cut into lines: split at each line feed, with one carriage return
/// before the split point cut off, and no empty line after a final line
/// feed. Matches how the rule specification text is read line by line.
pub open spec fn lines_of(s: Seq<char>) -> Seq<Seq<char>>
    decreases s.len(),
    via lines_of_decreases
{
    if s.len() == 0 {
        Seq::empty()
    } else {
        match first_nl(s) {
            Some(i) => seq![chomp(s.subrange(0, i))] + lines_of(
                s.subrange(i + 1, s.len() as int),
            ),
            None => seq![s],
        }
    }
}

#[via_fn]
proof fn lines_of_decreases(s: Seq<char>) {
    lemma_first_nl_bounds(s);
}

/// Where `first_nl` points, it points at the first line feed.
pub proof fn lemma_first_nl_bounds(s: Seq<char>)
    ensures
        match first_nl(s) {
            Some(i) => 0 <= i < s.len() && s[i] == '\n' && forall|k: int|
                0 <= k < i ==> s[k] != '\n',
            None => forall|k: int| 0 <= k < s.len() ==> s[k] != '\n',
        },
    decreases s.len(),
{
    if s.len() > 0 && s[0] != '\n' {
        lemma_first_nl_bounds(s.drop_first());
        assert(forall|k: int| 1 <= k < s.len() ==> #[trigger] s[k] == s.drop_first()[k - 1]);
    }
}

/// A line feed at `k` with none before it is the first one.
proof fn lemma_first_nl_is(s: Seq<char>, k: int)
    requires
        0 <= k < s.len(),
        s[k] == '\n',
        forall|m: int| 0 <= m < k ==> s[m] != '\n',
    ensures
        first_nl(s) == Some(k),
    decreases k,
{
    if k > 0 {
        lemma_first_nl_is(s.drop_first(), k - 1);
    }
}

/// Without a line feed anywhere, `first_nl` finds none.
proof fn lemma_first_nl_none(s: Seq<char>)
    requires
        forall|m: int| 0 <= m < s.len() ==> s[m] != '\n',
    ensures
        first_nl(s) is None,
    decreases s.len(),
{
    if s.len() > 0 {
        lemma_first_nl_none(s.drop_first());
    }
}

/// The position of the last comma in `l`, if any: the split point of a
/// rule line, so that the pattern half may itself contain commas.
pub open spec fn last_comma(l: Seq<char>) -> Option<int>
    decreases l.len(),
{
    if l.len() == 0 {
        None
    } else if l.last() == ',' {
        Some(l.len() - 1)
    } else {
        last_comma(l.drop_last())
    }
}

/// Where `last_comma` points, it points at the last comma.
pub proof fn lemma_last_comma(l: Seq<char>)
    ensures
        match last_comma(l) {
            Some(k) => 0 <= k < l.len() && l[k] == ',' && forall|m: int|
                k < m < l.len() ==> l[m] != ',',
            None => forall|m: int| 0 <= m < l.len() ==> l[m] != ',',
        },
    decreases l.len(),
{
    if l.len() > 0 && l.last() != ',' {
        lemma_last_comma(l.drop_last());
        assert(forall|m: int| 0 <= m < l.len() - 1 ==> #[trigger] l[m] == l.drop_last()[m]);
    }
}

/// What parsing a rule specification comes to: the rule list in file
/// order, or the first failure in file order.
pub enum ParseOutcome {
    /// Every non-blank line split and compiled; the rules in file order.
    Rules(Seq<RuleV>),
    /// The first failing line has no comma; its 1-based number and its
    /// exact text.
    Malformed { line_number: int, line_content: Seq<char> },
    /// The first failing line's pattern half is no valid regular
    /// expression.
    BadPattern { pattern: Seq<char> },
}

/// Parses the given lines, the first of which is line `idx + 1` of the
/// file: blank lines are skipped, every other line is split at its last
/// comma into pattern and replacement, and the first failure wins.
pub open spec fn parse_lines(lines: Seq<Seq<char>>, idx: int) -> ParseOutcome
    decreases lines.len(),
{
    if lines.len() == 0 {
        ParseOutcome::Rules(Seq::empty())
    } else {
        let line = lines[0];
        if is_blank(line) {
            parse_lines(lines.drop_first(), idx + 1)
        } else {
            match last_comma(line) {
                None => ParseOutcome::Malformed { line_number: idx + 1, line_content: line },
                Some(k) => {
                    let pattern = line.subrange(0, k);
                    let replacement = line.subrange(k + 1, line.len() as int);
                    if !regex_valid(pattern) {
                        ParseOutcome::BadPattern { pattern }
                    } else {
                        match parse_lines(lines.drop_first(), idx + 1) {
                            ParseOutcome::Rules(rest) => ParseOutcome::Rules(
                                seq![RuleV { pattern, replacement }] + rest,
                            ),
                            err => err,
                        }
                    }
                },
            }
        }
    }
}

/// What parsing the whole specification text comes to.
pub open spec fn parse_spec(content: Seq<char>) -> ParseOutcome {
    parse_lines(lines_of(content), 0)
}

/// `out` with the already-collected rules `rs` put back in front.
pub open spec fn prepend_rules(rs: Seq<RuleV>, out: ParseOutcome) -> ParseOutcome {
    match out {
        ParseOutcome::Rules(rest) => ParseOutcome::Rules(rs + rest),
        _ => out,
    }
}

/// The spec-level image of the running last-comma candidate.
pub open spec fn comma_abs(c: Option<usize>) -> Option<int> {
    match c {
        None => None,
        Some(k) => Some(k as int),
    }
}

/// The match the engine selects at scan position `pos`, considering only
/// the first `n` rules: among the rules whose next match begins earliest,
/// the one declared first. `Some((i, s, e))` names the winning rule's
/// index and its match's character range.
pub open spec fn best_match_upto(
    rules: Seq<RuleV>,
    input: Seq<char>,
    pos: int,
    n: int,
) -> Option<(int, int, int)>
    decreases n,
{
    if n <= 0 {
        None
    } else {
        let prev = best_match_upto(rules, input, pos, n - 1);
        let cur = find_from(rules[n - 1].pattern, input, pos);
        match (prev, cur) {
            (None, None) => None,
            (Some(p), None) => Some(p),
            (None, Some((s, e))) => Some((n - 1, s, e)),
            (Some((pi, ps, pe)), Some((s, e))) => if s < ps {
                Some((n - 1, s, e))
            } else {
                Some((pi, ps, pe))
            },
        }
    }
}

/// The match the engine selects at scan position `pos` among all rules.
pub open spec fn best_match(rules: Seq<RuleV>, input: Seq<char>, pos: int) -> Option<(int, int, int)> {
    best_match_upto(rules, input, pos, rules.len() as int)
}

/// The text the engine emits for the part of `input` from character
/// position `pos` on: unmatched spans are copied, the selected rule's
/// replacement stands in for each match, and after a zero-width match one
/// input character is copied so the scan always moves forward. The guards
/// on the selected match's bounds always pass for a match found by the
/// engine; they only keep the definition total.
pub open spec fn run_from(rules: Seq<RuleV>, input: Seq<char>, pos: int) -> Seq<char>
    decreases input.len() - pos,
{
    if !(0 <= pos < input.len()) {
        Seq::empty()
    } else {
        match best_match(rules, input, pos) {
            None => input.subrange(pos, input.len() as int),
            Some((i, s, e)) => if 0 <= i < rules.len() && pos <= s <= e <= input.len() {
                let skipped = input.subrange(pos, s);
                let rep = rules[i].replacement;
                if s == e {
                    if e == input.len() {
                        skipped + rep
                    } else {
                        skipped + rep + seq![input[e]] + run_from(rules, input, e + 1)
                    }
                } else {
                    skipped + rep + run_from(rules, input, e)
                }
            } else {
                Seq::empty()
            },
        }
    }
}

/// The engine's whole output for `input`.
pub open spec fn run_spec(rules: Seq<RuleV>, input: Seq<char>) -> Seq<char> {
    run_from(rules, input, 0)
}

/// Whether one specification line goes through on its own: it is blank,
/// or it has a comma and its pattern half compiles.
pub open spec fn line_parses(l: Seq<char>) -> bool {
    ||| is_blank(l)
    ||| match last_comma(l) {
        Some(k) => regex_valid(l.subrange(0, k)),
        None => false,
    }
}

/// The lines that are parsed rather than skipped, in file order.
pub open spec fn non_blank_lines(lines: Seq<Seq<char>>) -> Seq<Seq<char>>
    decreases lines.len(),
{
    if lines.len() == 0 {
        Seq::empty()
    } else if is_blank(lines[0]) {
        non_blank_lines(lines.drop_first())
    } else {
        seq![lines[0]] + non_blank_lines(lines.drop_first())
    }
}

proof fn lemma_parse_lines_malformed(lines: Seq<Seq<char>>, idx: int)
    requires
        parse_lines(lines, idx) is Malformed,
    ensures
        parse_lines(lines, idx) matches ParseOutcome::Malformed { line_number, line_content }
            ==> {
            &&& idx + 1 <= line_number <= idx + lines.len()
            &&& lines[line_number - idx - 1] == line_content
            &&& !is_blank(line_content)
            &&& last_comma(line_content) is None
            &&& forall|k: int|
                0 <= k < line_number - idx - 1 ==> line_parses(#[trigger] lines[k])
        },
    decreases lines.len(),
{
    if lines.len() > 0 {
        let line = lines[0];
        if is_blank(line) || (last_comma(line) is Some && regex_valid(
            line.subrange(0, last_comma(line)->0),
        )) {
            lemma_parse_lines_malformed(lines.drop_first(), idx + 1);
            assert(forall|k: int|
                1 <= k < lines.len() ==> #[trigger] lines[k] == lines.drop_first()[k - 1]);
        }
    }
}

/// A rejected specification names the offending line exactly: the
/// reported number counts the lines of the text 1-based, the reported
/// content is that line letter for letter, the line is neither blank nor
/// split by any comma, and every line before it parses cleanly.
pub proof fn lemma_malformed_reports_offending_line(content: Seq<char>)
    requires
        parse_spec(content) is Malformed,
    ensures
        parse_spec(content) matches ParseOutcome::Malformed { line_number, line_content } ==> {
            &&& 1 <= line_number <= lines_of(content).len()
            &&& lines_of(content)[line_number - 1] == line_content
            &&& !is_blank(line_content)
            &&& last_comma(line_content) is None
            &&& forall|k: int|
                0 <= k < line_number - 1 ==> line_parses(#[trigger] lines_of(content)[k])
        },
{
    lemma_parse_lines_malformed(lines_of(content), 0);
}

proof fn lemma_parse_lines_order(lines: Seq<Seq<char>>, idx: int)
    requires
        parse_lines(lines, idx) is Rules,
    ensures
        parse_lines(lines, idx) matches ParseOutcome::Rules(rs) ==> {
            let nb = non_blank_lines(lines);
            &&& rs.len() == nb.len()
            &&& forall|i: int|
                0 <= i < rs.len() ==> {
                    let l = #[trigger] nb[i];
                    &&& last_comma(l) is Some
                    &&& rs[i].pattern == l.subrange(0, last_comma(l)->0)
                    &&& rs[i].replacement == l.subrange(last_comma(l)->0 + 1, l.len() as int)
                }
        },
    decreases lines.len(),
{
    if lines.len() > 0 {
        let line = lines[0];
        lemma_parse_lines_order(lines.drop_first(), idx + 1);
        if !is_blank(line) {
            let rest = parse_lines(lines.drop_first(), idx + 1);
            match rest {
                ParseOutcome::Rules(rest_rs) => {
                    let rs = (parse_lines(lines, idx))->Rules_0;
                    let nb = non_blank_lines(lines);
                    let nb_rest = non_blank_lines(lines.drop_first());
                    assert(forall|i: int|
                        1 <= i < rs.len() ==> #[trigger] rs[i] == rest_rs[i - 1]);
                    assert(forall|i: int|
                        1 <= i < nb.len() ==> #[trigger] nb[i] == nb_rest[i - 1]);
                },
                _ => {},
            }
        }
    }
}

/// Rules come back in file order: there is one per non-blank line, and
/// the i-th rule's pattern and replacement are the i-th non-blank line's
/// two halves around its last comma, exactly as written, untrimmed.
pub proof fn lemma_parse_preserves_order(content: Seq<char>)
    requires
        parse_spec(content) is Rules,
    ensures
        parse_spec(content) matches ParseOutcome::Rules(rs) ==> {
            let nb = non_blank_lines(lines_of(content));
            &&& rs.len() == nb.len()
            &&& forall|i: int|
                0 <= i < rs.len() ==> {
                    let l = #[trigger] nb[i];
                    &&& last_comma(l) is Some
                    &&& rs[i].pattern == l.subrange(0, last_comma(l)->0)
                    &&& rs[i].replacement == l.subrange(last_comma(l)->0 + 1, l.len() as int)
                }
        },
{
    lemma_parse_lines_order(lines_of(content), 0);
}

/// Why a rule specification was rejected. Parsing stops at the first
/// failing line in file order.
#[derive(Debug)]
pub enum ParseError {
    /// A rule line's pattern half does not compile.
    InvalidRegex(InvalidRegex),
    /// A non-blank line has no comma to split at; its 1-based number and
    /// its exact text.
    MalformedRule { line_number: usize, line_content: String },
}

/// Parses a rule specification: one rule per line, split at the line's
/// last comma into pattern and replacement, taken verbatim. Blank lines
/// are skipped; an empty specification gives an empty rule list. The
/// first malformed line or invalid pattern in file order wins, exactly as
/// `parse_spec` lays it down.
pub fn parse_rules(content: &str) -> (r: Result<Vec<Rule>, ParseError>)
    ensures
        match r {
            Ok(rules) => parse_spec(content@) == ParseOutcome::Rules(rules_view(rules@)),
            Err(ParseError::MalformedRule { line_number, line_content }) => parse_spec(content@)
                == (ParseOutcome::Malformed {
                line_number: line_number as int,
                line_content: line_content@,
            }),
            Err(ParseError::InvalidRegex(e)) => parse_spec(content@) == (ParseOutcome::BadPattern {
                pattern: e.pattern@,
            }),
        },
{
    let n: usize = content.unicode_len();
    let mut rules: Vec<Rule> = Vec::new();
    let mut pos: usize = 0;
    let mut line_idx: usize = 0;
    proof {
        assert(content@.subrange(0, n as int) =~= content@);
        assert(rules_view(rules@) =~= Seq::<RuleV>::empty());
        lemma_prepend_nothing(parse_spec(content@));
    }
    while pos < n
        invariant
            pos <= n,
            line_idx <= pos,
            n == content@.len(),
            parse_spec(content@) == prepend_rules(
                rules_view(rules@),
                parse_lines(lines_of(content@.subrange(pos as int, n as int)), line_idx as int),
            ),
        decreases n - pos,
    {
        let ghost tail = content@.subrange(pos as int, n as int);
        // Find the end of the current line: the next line feed, if any.
        let mut j: usize = pos;
        while j < n && content.get_char(j) != '\n'
            invariant
                pos <= j <= n,
                n == content@.len(),
                forall|k: int| pos <= k < j ==> content@[k] != '\n',
            decreases n - j,
        {
            j += 1;
        }
        let has_nl = j < n;
        proof {
            assert(forall|m: int| 0 <= m < tail.len() ==> #[trigger] tail[m] == content@[pos + m]);
            if has_nl {
                lemma_first_nl_is(tail, j - pos);
            } else {
                lemma_first_nl_none(tail);
            }
        }
        // Cut the line out, without its terminator: a carriage return
        // before the line feed belongs to the terminator.
        let line_end: usize = if has_nl && j > pos && content.get_char(j - 1) == '\r' {
            j - 1
        } else {
            j
        };
        let line = content.substring_char(pos, line_end);
        proof {
            if has_nl {
                assert(tail.subrange(0, j - pos) =~= content@.subrange(pos as int, j as int));
                if j > pos && content@[j - 1] == '\r' {
                    assert(chomp(tail.subrange(0, j - pos)) =~= content@.subrange(
                        pos as int,
                        j - 1,
                    ));
                } else {
                    assert(chomp(tail.subrange(0, j - pos)) =~= content@.subrange(
                        pos as int,
                        j as int,
                    ));
                }
                assert(tail.subrange(j - pos + 1, tail.len() as int) =~= content@.subrange(
                    j + 1,
                    n as int,
                ));
                assert(lines_of(tail) == seq![line@] + lines_of(
                    content@.subrange(j + 1, n as int),
                ));
            } else {
                assert(line@ =~= tail);
                assert(lines_of(tail) == seq![line@]);
            }
        }
        let line_len: usize = line_end - pos;
        // A line of nothing but whitespace is skipped, not parsed.
        let mut blank = true;
        let mut k: usize = 0;
        while k < line_len
            invariant
                k <= line_len,
                line_len == line@.len(),
                blank <==> (forall|m: int| 0 <= m < k ==> is_whitespace_char(#[trigger] line@[m])),
            decreases line_len - k,
        {
            let ws = whitespace_char(line.get_char(k));
            blank = blank && ws;
            k += 1;
        }
        let next_pos: usize = if has_nl {
            j + 1
        } else {
            n
        };
        proof {
            if !has_nl {
                assert(content@.subrange(n as int, n as int) =~= Seq::<char>::empty());
            }
            assert(lines_of(tail).drop_first() =~= lines_of(
                content@.subrange(next_pos as int, n as int),
            ));
        }
        if blank {
            pos = next_pos;
            line_idx += 1;
        } else {
            // Split at the last comma of the line.
            let mut comma: Option<usize> = None;
            let mut c: usize = 0;
            while c < line_len
                invariant
                    c <= line_len,
                    line_len == line@.len(),
                    comma_abs(comma) == last_comma(line@.subrange(0, c as int)),
                    match comma {
                        Some(ci) => ci < c,
                        None => true,
                    },
                decreases line_len - c,
            {
                proof {
                    assert(line@.subrange(0, c + 1).drop_last() =~= line@.subrange(0, c as int));
                }
                if line.get_char(c) == ',' {
                    comma = Some(c);
                }
                c += 1;
            }
            proof {
                assert(line@.subrange(0, line_len as int) =~= line@);
            }
            match comma {
                None => {
                    return Err(ParseError::MalformedRule {
                        line_number: line_idx + 1,
                        line_content: line.to_owned(),
                    });
                },
                Some(ci) => {
                    let pattern = line.substring_char(0, ci);
                    let replacement = line.substring_char(ci + 1, line_len);
                    match Rule::new(pattern, replacement) {
                        Err(e) => {
                            return Err(ParseError::InvalidRegex(e));
                        },
                        Ok(rule) => {
                            proof {
                                assert(rule@ == RuleV {
                                    pattern: line@.subrange(0, ci as int),
                                    replacement: line@.subrange(ci + 1, line@.len() as int),
                                });
                                lemma_rules_view_push(rules@, rule);
                                lemma_prepend_shift(
                                    rules_view(rules@),
                                    rule@,
                                    parse_lines(
                                        lines_of(content@.subrange(next_pos as int, n as int)),
                                        line_idx + 1,
                                    ),
                                );
                            }
                            rules.push(rule);
                            pos = next_pos;
                            line_idx += 1;
                        },
                    }
                },
            }
        }
    }
    proof {
        assert(content@.subrange(n as int, n as int) =~= Seq::<char>::empty());
        assert(rules_view(rules@) + Seq::<RuleV>::empty() =~= rules_view(rules@));
    }
    Ok(rules)
}

/// Putting no rules in front of an outcome changes nothing.
proof fn lemma_prepend_nothing(out: ParseOutcome)
    ensures
        prepend_rules(Seq::empty(), out) == out,
{
    match out {
        ParseOutcome::Rules(rest) => {
            assert(Seq::<RuleV>::empty() + rest =~= rest);
        },
        _ => {},
    }
}

/// One collected rule moves from the outcome's front into the collected list.
proof fn lemma_prepend_shift(rs: Seq<RuleV>, rv: RuleV, out: ParseOutcome)
    ensures
        prepend_rules(rs.push(rv), out) == prepend_rules(
            rs,
            prepend_rules(seq![rv], out),
        ),
{
    match out {
        ParseOutcome::Rules(rest) => {
            assert(rs.push(rv) + rest =~= rs + (seq![rv] + rest));
        },
        _ => {},
    }
}

/// Pushing a rule extends the viewed rule list by its view.
proof fn lemma_rules_view_push(rules: Seq<Rule>, rule: Rule)
    ensures
        rules_view(rules.push(rule)) == rules_view(rules).push(rule@),
{
    assert(rules_view(rules.push(rule)) =~= rules_view(rules).push(rule@));
}

/// With no rules at all, the engine is a no-op: for any input, the output
/// is the input unchanged.
pub proof fn lemma_empty_rules_identity(rules: Seq<RuleV>, input: Seq<char>)
    requires
        rules.len() == 0,
    ensures
        run_spec(rules, input) == input,
{
    if input.len() == 0 {
        assert(run_spec(rules, input) =~= input);
    } else {
        assert(best_match(rules, input, 0) is None);
        assert(run_spec(rules, input) =~= input);
    }
}

proof fn lemma_best_match_upto_all_none(rules: Seq<RuleV>, input: Seq<char>, pos: int, n: int)
    requires
        n <= rules.len(),
        forall|i: int| 0 <= i < rules.len() ==> find_from(#[trigger] rules[i].pattern, input, pos)
            is None,
    ensures
        best_match_upto(rules, input, pos, n) is None,
    decreases n,
{
    if n > 0 {
        lemma_best_match_upto_all_none(rules, input, pos, n - 1);
    }
}

proof fn lemma_best_match_upto_earliest(rules: Seq<RuleV>, input: Seq<char>, pos: int, n: int)
    requires
        0 <= n <= rules.len(),
    ensures
        match best_match_upto(rules, input, pos, n) {
            Some((bi, bs, be)) => {
                &&& 0 <= bi < n
                &&& find_from(rules[bi].pattern, input, pos) == Some((bs, be))
                &&& forall|j: int|
                    0 <= j < n ==> match #[trigger] find_from(rules[j].pattern, input, pos) {
                        Some(m) => bs < m.0 || (bs == m.0 && bi <= j),
                        None => true,
                    }
            },
            None => forall|j: int|
                0 <= j < n ==> #[trigger] find_from(rules[j].pattern, input, pos) is None,
        },
    decreases n,
{
    if n > 0 {
        lemma_best_match_upto_earliest(rules, input, pos, n - 1);
    }
}

/// The selection rule of the engine, in full: a selected match is a real
/// match of the rule it names; no rule's match starts strictly earlier;
/// a rule whose match starts at the same position comes no earlier in
/// declaration order; and when nothing is selected, no rule matches at
/// all. Start position dominates declaration order, which only breaks
/// ties.
pub proof fn lemma_best_match_earliest(rules: Seq<RuleV>, input: Seq<char>, pos: int)
    ensures
        match best_match(rules, input, pos) {
            Some((bi, bs, be)) => {
                &&& 0 <= bi < rules.len()
                &&& find_from(rules[bi].pattern, input, pos) == Some((bs, be))
                &&& forall|j: int|
                    0 <= j < rules.len() ==> match #[trigger] find_from(
                        rules[j].pattern,
                        input,
                        pos,
                    ) {
                        Some(m) => bs < m.0 || (bs == m.0 && bi <= j),
                        None => true,
                    }
            },
            None => forall|j: int|
                0 <= j < rules.len() ==> #[trigger] find_from(rules[j].pattern, input, pos)
                    is None,
        },
{
    lemma_best_match_upto_earliest(rules, input, pos, rules.len() as int);
}

/// When no rule's pattern matches anywhere in the input, the engine's
/// output is the input itself.
pub proof fn lemma_no_match_identity(rules: Seq<RuleV>, input: Seq<char>)
    requires
        forall|i: int, pos: int|
            0 <= i < rules.len() && 0 <= pos <= input.len() ==> #[trigger] find_from(
                rules[i].pattern,
                input,
                pos,
            ) is None,
    ensures
        run_spec(rules, input) == input,
{
    if input.len() == 0 {
        assert(run_spec(rules, input) =~= input);
    } else {
        lemma_best_match_upto_all_none(rules, input, 0, rules.len() as int);
        assert(run_spec(rules, input) =~= input);
    }
}

/// The spec-level image of the engine's running best candidate.
pub open spec fn best_abs(b: Option<(usize, usize, usize)>) -> Option<(int, int, int)> {
    match b {
        None => None,
        Some((i, s, e)) => Some((i as int, s as int, e as int)),
    }
}

/// How matches are selected; a single strategy exists today.
#[derive(Debug, Clone, Copy, PartialEq, Eq)]
enum Strategy {
    Simple,
}

/// A compiled, ordered rule set, ready to rewrite any number of inputs.
#[derive(Debug)]
pub struct Preprocessor {
    rules: Vec<Rule>,
    strategy: Strategy,
}

impl Preprocessor {
    /// The pattern and replacement texts of the held rules, in order.
    pub closed spec fn rules_spec(&self) -> Seq<RuleV> {
        rules_view(self.rules@)
    }

    /// Wraps an ordered rule list for running.
    pub fn new(rules: Vec<Rule>) -> (p: Preprocessor)
        ensures
            p.rules_spec() == rules_view(rules@),
    {
        Preprocessor { rules, strategy: Strategy::Simple }
    }

    /// Rewrites `input` in one left-to-right pass: at each scan position
    /// the earliest-starting match among all rules wins, with declaration
    /// order breaking ties. Total: with no rules, or none matching, the
    /// input comes back unchanged.
    pub fn run(&self, input: &str) -> (output: String)
        ensures
            output@ == run_spec(self.rules_spec(), input@),
    {
        match self.strategy {
            Strategy::Simple => self.run_simple(input),
        }
    }

    #[verifier::loop_isolation(false)]
    fn run_simple(&self, input: &str) -> (output: String)
        ensures
            output@ == run_spec(self.rules_spec(), input@),
    {
        let ghost rv = self.rules_spec();
        let n: usize = input.unicode_len();
        let mut output = String::new();
        let mut current_pos: usize = 0;
        proof {
            assert(output@ + run_from(rv, input@, 0) =~= run_from(rv, input@, 0));
        }
        while current_pos < n
            invariant
                current_pos <= n,
                output@ + run_from(rv, input@, current_pos as int) == run_from(rv, input@, 0),
            decreases n - current_pos,
        {
            let ghost pos = current_pos as int;
            let mut best: Option<(usize, usize, usize)> = None;
            let mut j: usize = 0;
            while j < self.rules.len()
                invariant
                    j <= self.rules.len(),
                    current_pos < n,
                    best_abs(best) == best_match_upto(rv, input@, pos, j as int),
                    match best {
                        Some((bi, bs, be)) => bi < j && current_pos <= bs <= be <= n,
                        None => true,
                    },
                decreases self.rules.len() - j,
            {
                proof {
                    assert(rv[j as int] == self.rules@[j as int]@);
                }
                let found = self.rules[j].find_at(input, current_pos);
                match found {
                    Some((s, e)) => {
                        let take = match best {
                            Some((_, bs, _)) => s < bs,
                            None => true,
                        };
                        if take {
                            best = Some((j, s, e));
                        }
                    },
                    None => {},
                }
                j += 1;
            }
            proof {
                assert(best_abs(best) == best_match(rv, input@, pos));
            }
            match best {
                Some((bi, s, e)) => {
                    output.append(input.substring_char(current_pos, s));
                    output.append(self.rules[bi].replacement());
                    if s == e {
                        if e < n {
                            output.append(input.substring_char(e, e + 1));
                            proof {
                                assert(input@.subrange(e as int, e + 1) =~= seq![input@[e as int]]);
                                assert(run_from(rv, input@, pos) == input@.subrange(pos, s as int)
                                    + rv[bi as int].replacement + seq![input@[e as int]] + run_from(
                                    rv,
                                    input@,
                                    e + 1,
                                ));
                                assert(output@ + run_from(rv, input@, e + 1) =~= run_from(
                                    rv,
                                    input@,
                                    0,
                                ));
                            }
                            current_pos = e + 1;
                        } else {
                            proof {
                                assert(run_from(rv, input@, pos) == input@.subrange(pos, s as int)
                                    + rv[bi as int].replacement);
                                assert(run_from(rv, input@, e as int) =~= Seq::<char>::empty());
                                assert(output@ + run_from(rv, input@, e as int) =~= run_from(
                                    rv,
                                    input@,
                                    0,
                                ));
                            }
                            current_pos = e;
                        }
                    } else {
                        proof {
                            assert(run_from(rv, input@, pos) == input@.subrange(pos, s as int)
                                + rv[bi as int].replacement + run_from(rv, input@, e as int));
                            assert(output@ + run_from(rv, input@, e as int) =~= run_from(
                                rv,
                                input@,
                                0,
                            ));
                        }
                        current_pos = e;
                    }
                },
                None => {
                    output.append(input.substring_char(current_pos, n));
                    proof {
                        assert(run_from(rv, input@, pos) == input@.subrange(pos, n as int));
                        assert(run_from(rv, input@, n as int) =~= Seq::<char>::empty());
                        assert(output@ + run_from(rv, input@, n as int) =~= run_from(
                            rv,
                            input@,
                            0,
                        ));
                    }
                    current_pos = n;
                },
            }
        }
        proof {
            assert(run_from(rv, input@, n as int) =~= Seq::<char>::empty());
            assert(output@ =~= run_from(rv, input@, 0));
        }
        output
    }
}

} // verus!

