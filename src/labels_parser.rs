//! The label-selector text that the gRPC querier sends for each stream,
//! `{name="value", other="value"}`, read into label pairs.
//!
//! The grammar: `{`, one or more labels separated by `,`, then `}` and the
//! end of the text; spaces may stand between these tokens. A label is a name
//! (a letter or `_`, then letters, digits or `_`), `=`, and a value written
//! between double quotes, taken as it stands. The empty text and `{}` hold
//! no labels.
use vstd::prelude::*;
use vstd::string::*;

use crate::decimal::{nat_digits, nat_text};
use crate::labels::{pairs_to_labels, pairs_view, LabelView, Labels};

verus! {

/// The part of the grammar that a failed parse expected.
#[derive(Clone, Copy, Debug, PartialEq, Eq, Structural)]
pub enum LabelRule {
    /// The whole selector.
    Labels,
    /// A label: name, `=`, quoted value.
    Label,
    /// A label's name.
    LabelKey,
}

/// Why a text is not a label selector: the text, and the character
/// position in it (counted from 0) where the expected part of the grammar
/// could not start.
#[derive(Debug)]
pub struct LabelsParseError {
    pub input: String,
    pub position: usize,
    pub expected: LabelRule,
}

pub open spec fn is_name_start(c: char) -> bool {
    ('a' <= c && c <= 'z') || ('A' <= c && c <= 'Z') || c == '_'
}

pub open spec fn is_name_char(c: char) -> bool {
    is_name_start(c) || ('0' <= c && c <= '9')
}

/// The first index from `i` on that is not a space.
pub open spec fn skip_spaces(s: Seq<char>, i: int) -> int
    decreases s.len() - i,
{
    if 0 <= i < s.len() && s[i] == ' ' {
        skip_spaces(s, i + 1)
    } else {
        i
    }
}

/// The end of the name characters from `i` on.
pub open spec fn name_chars_end(s: Seq<char>, i: int) -> int
    decreases s.len() - i,
{
    if 0 <= i < s.len() && is_name_char(s[i]) {
        name_chars_end(s, i + 1)
    } else {
        i
    }
}

/// The end of a label name starting at `i`; `i` itself if none starts there.
pub open spec fn name_end(s: Seq<char>, i: int) -> int {
    if 0 <= i < s.len() && is_name_start(s[i]) {
        name_chars_end(s, i + 1)
    } else {
        i
    }
}

/// The first index from `i` on that holds a double quote, or the length.
pub open spec fn quote_from(s: Seq<char>, i: int) -> int
    decreases s.len() - i,
{
    if 0 <= i < s.len() && s[i] != '"' {
        quote_from(s, i + 1)
    } else {
        i
    }
}

/// The label that starts at `i`, and the index just after it.
pub open spec fn label_at(s: Seq<char>, i: int) -> Result<(LabelView, int), (int, LabelRule)> {
    let k = name_end(s, i);
    let eq = skip_spaces(s, k);
    let open = skip_spaces(s, eq + 1);
    let close = quote_from(s, open + 1);
    if k == i {
        Err((i, LabelRule::LabelKey))
    } else if !(eq < s.len() && s[eq] == '=') {
        Err((i, LabelRule::Label))
    } else if !(open < s.len() && s[open] == '"') {
        Err((i, LabelRule::Label))
    } else if close >= s.len() {
        Err((i, LabelRule::Label))
    } else {
        Ok(((s.subrange(i, k), s.subrange(open + 1, close)), close + 1))
    }
}

/// The labels of a selector after the label that ended at `i`: more labels
/// each after a `,`, then `}` and the end.
pub open spec fn labels_after(s: Seq<char>, i: int, acc: Seq<LabelView>) -> Result<Seq<LabelView>, (int, LabelRule)>
    decreases s.len() - i,
{
    let j = skip_spaces(s, i);
    if j < s.len() && s[j] == ',' {
        let k = skip_spaces(s, j + 1);
        match label_at(s, k) {
            Err(e) => Err(e),
            Ok((p, next)) => if i < next <= s.len() {
                labels_after(s, next, acc.push(p))
            } else {
                Err((0, LabelRule::Labels))
            },
        }
    } else if j < s.len() && s[j] == '}' && skip_spaces(s, j + 1) == s.len() {
        Ok(acc)
    } else {
        Err((0, LabelRule::Labels))
    }
}

/// The labels of a selector, or where and why it fails.
pub open spec fn parse_labels_spec(s: Seq<char>) -> Result<Seq<LabelView>, (int, LabelRule)> {
    if s.len() == 0 || s == seq!['{', '}'] {
        Ok(Seq::empty())
    } else if s[0] != '{' {
        Err((0, LabelRule::Labels))
    } else {
        let k = skip_spaces(s, 1);
        match label_at(s, k) {
            Err(e) => Err(e),
            Ok((p, next)) => labels_after(s, next, seq![p]),
        }
    }
}

fn name_start(c: char) -> (r: bool)
    ensures
        r == is_name_start(c),
{
    ('a' <= c && c <= 'z') || ('A' <= c && c <= 'Z') || c == '_'
}

fn name_char(c: char) -> (r: bool)
    ensures
        r == is_name_char(c),
{
    name_start(c) || ('0' <= c && c <= '9')
}

fn skip_spaces_at(s: &str, n: usize, i: usize) -> (r: usize)
    requires
        n == s@.len(),
        i <= n,
    ensures
        r == skip_spaces(s@, i as int),
        i <= r <= n,
{
    let mut j = i;
    while j < n && s.get_char(j) == ' '
        invariant
            i <= j <= n,
            n == s@.len(),
            skip_spaces(s@, i as int) == skip_spaces(s@, j as int),
        decreases n - j,
    {
        j = j + 1;
    }
    j
}

fn name_end_at(s: &str, n: usize, i: usize) -> (r: usize)
    requires
        n == s@.len(),
        i <= n,
    ensures
        r == name_end(s@, i as int),
        i <= r <= n,
{
    if i >= n {
        return i;
    }
    if !name_start(s.get_char(i)) {
        return i;
    }
    let mut j = i + 1;
    while j < n && name_char(s.get_char(j))
        invariant
            i < j <= n,
            n == s@.len(),
            name_end(s@, i as int) == name_chars_end(s@, j as int),
        decreases n - j,
    {
        j = j + 1;
    }
    j
}

fn quote_at(s: &str, n: usize, i: usize) -> (r: usize)
    requires
        n == s@.len(),
        i <= n,
    ensures
        r == quote_from(s@, i as int),
        i <= r <= n,
{
    let mut j = i;
    while j < n && s.get_char(j) != '"'
        invariant
            i <= j <= n,
            n == s@.len(),
            quote_from(s@, i as int) == quote_from(s@, j as int),
        decreases n - j,
    {
        j = j + 1;
    }
    j
}

/// The label that starts at `i`, as `label_at` says.
fn label_at_exec(s: &str, n: usize, i: usize) -> (r: Result<((String, String), usize), (usize, LabelRule)>)
    requires
        n == s@.len(),
        i <= n,
    ensures
        match label_at(s@, i as int) {
            Ok((p, next)) => r matches Ok((q, m)) && (q.0@, q.1@) == p && m == next,
            Err((pos, rule)) => r matches Err((m, e)) && m == pos && e == rule,
        },
{
    let k = name_end_at(s, n, i);
    if k == i {
        return Err((i, LabelRule::LabelKey));
    }
    let eq = skip_spaces_at(s, n, k);
    if !(eq < n && s.get_char(eq) == '=') {
        return Err((i, LabelRule::Label));
    }
    let open = skip_spaces_at(s, n, eq + 1);
    if !(open < n && s.get_char(open) == '"') {
        return Err((i, LabelRule::Label));
    }
    let close = quote_at(s, n, open + 1);
    if close >= n {
        return Err((i, LabelRule::Label));
    }
    let name = String::from_str(s.substring_char(i, k));
    let value = String::from_str(s.substring_char(open + 1, close));
    Ok(((name, value), close + 1))
}

/// Reads a label selector into its label pairs, in the order written.
pub fn parse_labels(string: String) -> (r: Result<Vec<(String, String)>, LabelsParseError>)
    ensures
        match parse_labels_spec(string@) {
            Ok(v) => r matches Ok(x) && pairs_view(x@) == v,
            Err((pos, rule)) => r matches Err(e) && e.position == pos && e.expected == rule && e.input@ == string@,
        },
{
    let s = string.as_str();
    let n = s.unicode_len();
    if n == 0 {
        let v: Vec<(String, String)> = Vec::new();
        proof {
            assert(pairs_view(v@) =~= Seq::<LabelView>::empty());
        }
        return Ok(v);
    }
    let c0 = s.get_char(0);
    if n == 2 && c0 == '{' && s.get_char(1) == '}' {
        let v: Vec<(String, String)> = Vec::new();
        proof {
            assert(s@ =~= seq!['{', '}']);
            assert(pairs_view(v@) =~= Seq::<LabelView>::empty());
        }
        return Ok(v);
    }
    proof {
        if s@ == seq!['{', '}'] {
            assert(s@[1] == '}');
        }
    }
    if c0 != '{' {
        return Err(LabelsParseError { input: string, position: 0, expected: LabelRule::Labels });
    }
    let k = skip_spaces_at(s, n, 1);
    let (first, mut i) = match label_at_exec(s, n, k) {
        Ok(found) => found,
        Err((pos, rule)) => {
            return Err(LabelsParseError { input: string, position: pos, expected: rule });
        },
    };
    let mut acc: Vec<(String, String)> = Vec::new();
    acc.push(first);
    proof {
        assert(pairs_view(acc@) =~= seq![(first.0@, first.1@)]);
    }
    loop
        invariant
            n == s@.len(),
            s@ == string@,
            i <= n,
            parse_labels_spec(s@) == labels_after(s@, i as int, pairs_view(acc@)),
        decreases n - i,
    {
        let j = skip_spaces_at(s, n, i);
        if j < n && s.get_char(j) == ',' {
            let k = skip_spaces_at(s, n, j + 1);
            match label_at_exec(s, n, k) {
                Err((pos, rule)) => {
                    return Err(LabelsParseError { input: string, position: pos, expected: rule });
                },
                Ok((p, next)) => {
                    if !(i < next && next <= n) {
                        return Err(LabelsParseError { input: string, position: 0, expected: LabelRule::Labels });
                    }
                    let ghost before = acc@;
                    acc.push(p);
                    proof {
                        assert(pairs_view(acc@) =~= pairs_view(before).push((p.0@, p.1@)));
                    }
                    i = next;
                },
            }
        } else if j < n && s.get_char(j) == '}' && skip_spaces_at(s, n, j + 1) == n {
            return Ok(acc);
        } else {
            return Err(LabelsParseError { input: string, position: 0, expected: LabelRule::Labels });
        }
    }
}

/// Reads a label selector into a label set; where a name occurs more than
/// once, the last value given for it stands.
pub fn parse_labels_into_map(string: String) -> (r: Result<Labels, LabelsParseError>)
    ensures
        match parse_labels_spec(string@) {
            Ok(v) => r matches Ok(l) && l@ == pairs_to_labels(v),
            Err((pos, rule)) => r matches Err(e) && e.position == pos && e.expected == rule && e.input@ == string@,
        },
{
    match parse_labels(string) {
        Ok(pairs) => Ok(Labels::from_pairs(pairs)),
        Err(e) => Err(e),
    }
}

/// The line number (from 1) of position `p` of `s`, and the index at which
/// that line starts.
pub open spec fn line_info(s: Seq<char>, p: int) -> (int, int)
    decreases p,
{
    if p <= 0 || p > s.len() {
        (1, 0)
    } else {
        let (line, start) = line_info(s, p - 1);
        if s[p - 1] == '\n' {
            (line + 1, p)
        } else {
            (line, start)
        }
    }
}

/// The index of the first line break from `i` on, or the length.
pub open spec fn line_end(s: Seq<char>, i: int) -> int
    decreases s.len() - i,
{
    if 0 <= i < s.len() && s[i] != '\n' {
        line_end(s, i + 1)
    } else {
        i
    }
}

pub open spec fn spaces(n: nat) -> Seq<char> {
    Seq::new(n, |_i: int| ' ')
}

pub open spec fn rule_name(rule: LabelRule) -> Seq<char> {
    match rule {
        LabelRule::Labels => "labels"@,
        LabelRule::Label => "label"@,
        LabelRule::LabelKey => "labelKey"@,
    }
}

/// The report of a failure at `pos` (a position past the end counts as the
/// end): where it is as line and column, the line with a mark under the
/// position, and what was expected there.
pub open spec fn failure_report(s: Seq<char>, pos: int, rule: LabelRule) -> Seq<char> {
    let p = if pos > s.len() { s.len() as int } else { pos };
    let (line, start) = line_info(s, p);
    let ln = nat_digits(line as nat);
    let col = nat_digits((p - start + 1) as nat);
    let pad = spaces(ln.len());
    let text = s.subrange(start, line_end(s, start));
    pad + "--> "@ + ln + ":"@ + col + "\n"@ + pad + " |\n"@ + ln + " | "@ + text + "\n"@ + pad + " | "@ + spaces(
        (p - start) as nat,
    ) + "^---\n"@ + pad + " |\n"@ + pad + " = expected "@ + rule_name(rule)
}

fn push_spaces(out: &mut String, n: usize)
    ensures
        final(out)@ == old(out)@ + spaces(n as nat),
{
    let mut k: usize = 0;
    while k < n
        invariant
            k <= n,
            out@ == old(out)@ + spaces(k as nat),
        decreases n - k,
    {
        proof {
            reveal_strlit(" ");
        }
        out.append(" ");
        proof {
            assert(spaces(k as nat) + " "@ =~= spaces((k + 1) as nat));
        }
        k = k + 1;
    }
}

impl LabelsParseError {
    /// The failure's report: a location line, the failing line of the text
    /// with a mark under the position, and what was expected.
    pub fn to_string(&self) -> (r: String)
        ensures
            r@ == failure_report(self.input@, self.position as int, self.expected),
    {
        let s = self.input.as_str();
        let n = s.unicode_len();
        let p = if self.position > n { n } else { self.position };
        let mut breaks: usize = 0;
        let mut start: usize = 0;
        let mut i: usize = 0;
        while i < p
            invariant
                i <= p <= n,
                n == s@.len(),
                line_info(s@, i as int) == (breaks + 1, start as int),
                breaks <= i,
                start <= i,
            decreases p - i,
        {
            if s.get_char(i) == '\n' {
                breaks = breaks + 1;
                start = i + 1;
            }
            i = i + 1;
        }
        let mut end = start;
        while end < n && s.get_char(end) != '\n'
            invariant
                start <= end <= n,
                n == s@.len(),
                line_end(s@, start as int) == line_end(s@, end as int),
            decreases n - end,
        {
            end = end + 1;
        }
        let ln = nat_text(breaks as u128 + 1);
        let col = nat_text((p - start) as u128 + 1);
        let width = ln.unicode_len();
        proof {
            reveal_strlit("--> ");
            reveal_strlit(":");
            reveal_strlit("\n");
            reveal_strlit(" |\n");
            reveal_strlit(" | ");
            reveal_strlit("^---\n");
            reveal_strlit(" = expected ");
        }
        let mut out = String::new();
        push_spaces(&mut out, width);
        out.append("--> ");
        out.append(ln.as_str());
        out.append(":");
        out.append(col.as_str());
        out.append("\n");
        push_spaces(&mut out, width);
        out.append(" |\n");
        out.append(ln.as_str());
        out.append(" | ");
        out.append(s.substring_char(start, end));
        out.append("\n");
        push_spaces(&mut out, width);
        out.append(" | ");
        push_spaces(&mut out, p - start);
        out.append("^---\n");
        push_spaces(&mut out, width);
        out.append(" |\n");
        push_spaces(&mut out, width);
        out.append(" = expected ");
        match self.expected {
            LabelRule::Labels => out.append("labels"),
            LabelRule::Label => out.append("label"),
            LabelRule::LabelKey => out.append("labelKey"),
        }
        proof {
            assert(out@ =~= failure_report(self.input@, self.position as int, self.expected));
        }
        out
    }
}

} // verus!
