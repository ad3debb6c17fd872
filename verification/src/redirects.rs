//! Redirect rules: reading a `_redirects` file and finding the rule for a
//! request.

use crate::string_map::StringMap;
use crate::text::{
    begins_with, chars_of, contains_char, ends_with, find_char, finishes_with, first_index_of,
    lemma_first_index_bounds, parse_u16, parsed_u16, replace_all, replaced, split_on, split_text,
    split_words, starts_with, str_eq, texts, trim, trimmed, words,
};
use vstd::prelude::*;
use vstd::string::*;

verus! {

/// Maximum number of redirect rules that a file may bring.
pub const MAX_REDIRECT_RULES: usize = 1000;

/// Whether a pattern is a regular expression that the matcher accepts.
pub uninterp spec fn regex_valid(pattern: Seq<char>) -> bool;

/// The groups of the first match of a pattern in a text, the whole match
/// first, a group that took no part as nothing; or nothing where the
/// pattern does not match, or is not accepted.
pub uninterp spec fn regex_groups(pattern: Seq<char>, text: Seq<char>) -> Option<
    Seq<Option<Seq<char>>>,
>;

/// The views of a list of groups.
pub open spec fn groups_view(groups: Seq<Option<String>>) -> Seq<Option<Seq<char>>> {
    Seq::new(
        groups.len(),
        |i: int|
            match groups[i] {
                Some(text) => Some(text@),
                None => None,
            },
    )
}

/// `regex::Error`: why a pattern was refused, carried through and not
/// looked into.
#[verifier::external_type_specification]
#[verifier::external_body]
pub struct ExRegexError(regex::Error);

/// `Regex::new` of the crate regex. Trusted: whether a pattern is accepted
/// depends on the pattern alone.
#[verifier::external_body]
fn regex_check(pattern: &str) -> (result: Result<(), regex::Error>)
    ensures
        result is Ok == regex_valid(pattern@),
{
    match regex::Regex::new(pattern) {
        Ok(_) => Ok(()),
        Err(e) => Err(e),
    }
}

/// `Regex::captures` of the crate regex, on the expression that
/// `Regex::new` makes of `pattern`. Trusted: whether the pattern is
/// accepted, whether it matches, and what its groups hold, depends on the
/// pattern and the text alone.
#[verifier::external_body]
fn regex_captures(pattern: &str, text: &str) -> (result: Result<
    Option<Vec<Option<String>>>,
    regex::Error,
>)
    ensures
        match result {
            Ok(Some(found)) => regex_valid(pattern@) && regex_groups(pattern@, text@) == Some(
                groups_view(found@),
            ),
            Ok(None) => regex_valid(pattern@) && regex_groups(pattern@, text@) is None,
            Err(_) => !regex_valid(pattern@) && regex_groups(pattern@, text@) is None,
        },
{
    match regex::Regex::new(pattern) {
        Ok(expression) => match expression.captures(text) {
            Some(found) => Ok(
                Some(found.iter().map(|group| group.map(|m| m.as_str().to_string())).collect()),
            ),
            None => Ok(None),
        },
        Err(e) => Err(e),
    }
}

/// Whether a character has a meaning of its own in a regular expression
/// and none in a path pattern.
pub open spec fn special(c: char) -> bool {
    c == '.' || c == '+' || c == '^' || c == '$' || c == '{' || c == '}' || c == '(' || c == ')'
        || c == '|' || c == '[' || c == ']' || c == '\\'
}

/// `s` with a backslash before each special character.
pub open spec fn escaped(s: Seq<char>) -> Seq<char>
    decreases s.len(),
{
    if s.len() == 0 {
        s
    } else if special(s.last()) {
        escaped(s.drop_last()) + seq!['\\', s.last()]
    } else {
        escaped(s.drop_last()).push(s.last())
    }
}

/// Whether a placeholder's name can begin with `c`.
pub open spec fn name_start(c: char) -> bool {
    ('a' <= c <= 'z') || ('A' <= c <= 'Z') || c == '_'
}

/// Whether a placeholder's name can go on with `c`.
pub open spec fn name_char(c: char) -> bool {
    name_start(c) || ('0' <= c <= '9')
}

/// How many characters of a name stand at the start of `s`.
pub open spec fn name_len(s: Seq<char>) -> int
    decreases s.len(),
{
    if s.len() > 0 && name_char(s[0]) {
        1 + name_len(s.drop_first())
    } else {
        0
    }
}

/// Whether a placeholder, a colon and a name, stands at the start of `s`.
pub open spec fn placeholder_at_start(s: Seq<char>) -> bool {
    s.len() > 1 && s[0] == ':' && name_start(s[1])
}

/// The group that stands for a placeholder: one path segment.
pub open spec fn segment_group() -> Seq<char> {
    "([^/?]+)"@
}

/// `s` with each placeholder replaced by the group for one segment.
pub open spec fn with_groups(s: Seq<char>) -> Seq<char>
    decreases s.len(),
{
    if s.len() == 0 {
        s
    } else if placeholder_at_start(s) {
        let n = name_len(s.skip(1));
        if n <= 0 || n >= s.len() {
            segment_group()
        } else {
            segment_group() + with_groups(s.skip(1 + n))
        }
    } else {
        seq![s[0]] + with_groups(s.skip(1))
    }
}

/// The names of the placeholders of `s`, in their order.
pub open spec fn placeholder_names(s: Seq<char>) -> Seq<Seq<char>>
    decreases s.len(),
{
    if s.len() == 0 {
        Seq::empty()
    } else if placeholder_at_start(s) {
        let n = name_len(s.skip(1));
        if n <= 0 || n >= s.len() {
            seq![s.skip(1)]
        } else {
            seq![s.subrange(1, 1 + n)] + placeholder_names(s.skip(1 + n))
        }
    } else {
        placeholder_names(s.skip(1))
    }
}

/// What `name_len` counts: name characters, up to the first other one.
pub proof fn lemma_name_len(s: Seq<char>)
    ensures
        0 <= name_len(s) <= s.len(),
        forall|j: int| 0 <= j < name_len(s) ==> name_char(#[trigger] s[j]),
        name_len(s) < s.len() ==> !name_char(s[name_len(s)]),
    decreases s.len(),
{
    if s.len() > 0 && name_char(s[0]) {
        lemma_name_len(s.drop_first());
        assert forall|j: int| 0 <= j < name_len(s) implies name_char(#[trigger] s[j]) by {
            if j > 0 {
                assert(s.drop_first()[j - 1] == s[j]);
            }
        }
    }
}

/// A count of name characters is the place of the first other character.
pub proof fn lemma_name_len_is(s: Seq<char>, n: int)
    requires
        0 <= n <= s.len(),
        forall|j: int| 0 <= j < n ==> name_char(#[trigger] s[j]),
        n < s.len() ==> !name_char(s[n]),
    ensures
        name_len(s) == n,
{
    lemma_name_len(s);
    let k = name_len(s);
    if k < n {
        assert(name_char(s[k]));
    } else if k > n {
        assert(name_char(s[n]));
    }
}

fn is_special(c: char) -> (yes: bool)
    ensures
        yes == special(c),
{
    c == '.' || c == '+' || c == '^' || c == '$' || c == '{' || c == '}' || c == '(' || c == ')'
        || c == '|' || c == '[' || c == ']' || c == '\\'
}

fn is_name_start(c: char) -> (yes: bool)
    ensures
        yes == name_start(c),
{
    ('a' <= c && c <= 'z') || ('A' <= c && c <= 'Z') || c == '_'
}

fn is_name_char(c: char) -> (yes: bool)
    ensures
        yes == name_char(c),
{
    is_name_start(c) || ('0' <= c && c <= '9')
}

/// Put a backslash before each special character.
pub fn escape(s: &str) -> (result: String)
    ensures
        result@ == escaped(s@),
{
    let chars = chars_of(s);
    let n = chars.len();
    let mut result = String::new();
    let mut i: usize = 0;
    proof {
        assert(s@.take(0) == Seq::<char>::empty());
        reveal_strlit("\\");
    }
    while i < n
        invariant
            i <= n == chars@.len(),
            chars@ == s@,
            result@ == escaped(s@.take(i as int)),
            "\\"@ == seq!['\\'],
        decreases n - i,
    {
        proof {
            assert(s@.take(i + 1).drop_last() == s@.take(i as int));
            assert(s@.take(i + 1).last() == s@[i as int]);
            assert(s@.subrange(i as int, i + 1) == seq![s@[i as int]]);
        }
        let ghost before = result@;
        if is_special(chars[i]) {
            result.append("\\");
            result.append(s.substring_char(i, i + 1));
            assert(result@ == before + seq!['\\', s@[i as int]]);
        } else {
            result.append(s.substring_char(i, i + 1));
            assert(result@ == before.push(s@[i as int]));
        }
        i += 1;
    }
    proof {
        assert(s@.take(n as int) == s@);
    }
    result
}

/// Put the group for one segment in the place of each placeholder, and
/// list the placeholders' names.
pub fn group_placeholders(s: &str) -> (result: (String, Vec<String>))
    ensures
        result.0@ == with_groups(s@),
        texts(result.1@) == placeholder_names(s@),
{
    let chars = chars_of(s);
    let n = chars.len();
    let mut out = String::new();
    let mut names: Vec<String> = Vec::new();
    let mut i: usize = 0;
    proof {
        assert(s@.skip(0) == s@);
        assert(Seq::<char>::empty() + with_groups(s@) == with_groups(s@));
        assert(texts(names@) =~= Seq::empty());
        assert(Seq::<Seq<char>>::empty() + placeholder_names(s@) == placeholder_names(s@));
    }
    while i < n
        invariant
            i <= n == chars@.len(),
            chars@ == s@,
            with_groups(s@) == out@ + with_groups(s@.skip(i as int)),
            placeholder_names(s@) == texts(names@) + placeholder_names(s@.skip(i as int)),
        decreases n - i,
    {
        let ghost rest = s@.skip(i as int);
        let ghost out0 = out@;
        let ghost names0 = names@;
        if chars[i] == ':' && i + 1 < n && is_name_start(chars[i + 1]) {
            let mut end: usize = i + 1;
            let ghost tail = rest.skip(1);
            assert(tail == s@.skip(i + 1));
            while end < n && is_name_char(chars[end])
                invariant
                    i + 1 <= end <= n == chars@.len(),
                    chars@ == s@,
                    tail == s@.skip(i + 1),
                    forall|j: int| 0 <= j < end - i - 1 ==> name_char(#[trigger] tail[j]),
                decreases n - end,
            {
                end += 1;
            }
            proof {
                lemma_name_len_is(tail, end - i - 1);
                assert(end > i + 1) by {
                    if end == i + 1 {
                        assert(name_char(tail[0]));
                    }
                }
            }
            let name = s.substring_char(i + 1, end).to_owned();
            out.append("([^/?]+)");
            proof {
                let k = end - i - 1;
                assert(placeholder_at_start(rest));
                assert(name@ == rest.subrange(1, 1 + k));
                assert(texts(names0.push(name)) == texts(names0) + seq![name@]);
                if k >= rest.len() {
                    assert(false);
                }
                assert(rest.skip(1 + k) == s@.skip(end as int));
                assert(out0 + (segment_group() + with_groups(s@.skip(end as int))) == out0
                    + segment_group() + with_groups(s@.skip(end as int)));
                assert(texts(names0) + (seq![name@] + placeholder_names(s@.skip(end as int)))
                    == texts(names0) + seq![name@] + placeholder_names(s@.skip(end as int)));
            }
            names.push(name);
            i = end;
        } else {
            out.append(s.substring_char(i, i + 1));
            proof {
                assert(!placeholder_at_start(rest));
                assert(rest.skip(1) == s@.skip(i + 1));
                assert(s@.subrange(i as int, i + 1) == seq![rest[0]]);
                assert(out0 + (seq![rest[0]] + with_groups(s@.skip(i + 1))) == out0 + seq![
                    rest[0],
                ] + with_groups(s@.skip(i + 1)));
            }
            i += 1;
        }
    }
    proof {
        assert(out@ + Seq::<char>::empty() == out@);
        assert(texts(names@) + Seq::<Seq<char>>::empty() == texts(names@));
    }
    (out, names)
}

/// The part of a pattern before its first `?`.
pub open spec fn path_part(pattern: Seq<char>) -> Seq<char> {
    split_on(pattern, '?')[0]
}

/// The path part of a pattern with its special characters escaped and its
/// placeholders replaced by groups.
pub open spec fn grouped(pattern: Seq<char>) -> Seq<char> {
    with_groups(escaped(path_part(pattern)))
}

/// The regular expression for a path pattern: placeholders are groups of
/// one segment, each `*` is a group of anything, a slash at the end may be
/// missing, and the whole path has to match.
pub open spec fn pattern_regex(pattern: Seq<char>) -> Seq<char> {
    let body = replaced(grouped(pattern), "*"@, "(.*)"@);
    let open = "^"@ + body;
    if finishes_with(open, ".*"@) {
        open + "$"@
    } else {
        open + "/?"@ + "$"@
    }
}

/// The names of the groups of a path pattern, in the order of the groups:
/// its placeholders, then `splat` where the pattern holds a `*`.
pub open spec fn pattern_params(pattern: Seq<char>) -> Seq<Seq<char>> {
    let names = placeholder_names(escaped(path_part(pattern)));
    if grouped(pattern).contains('*') {
        names.push("splat"@)
    } else {
        names
    }
}

/// Convert a path pattern with placeholders and splats to a regular
/// expression and the names of its groups: `/blog/:year/:month` has the
/// groups `year` and `month`, `/news/*` the group `splat`. Nothing where
/// the matcher does not accept the expression.
pub fn convert_path_to_regex(pattern: &str) -> (result: Option<(String, Vec<String>)>)
    ensures
        match result {
            Some(converted) => {
                &&& regex_valid(pattern_regex(pattern@))
                &&& converted.0@ == pattern_regex(pattern@)
                &&& texts(converted.1@) == pattern_params(pattern@)
            },
            None => !regex_valid(pattern_regex(pattern@)),
        },
{
    let parts = split_text(pattern, '?');
    assert(texts(parts@)[0] == parts@[0]@);
    let (with_placeholders, mut params) = group_placeholders(escape(parts[0].as_str()).as_str());
    let splat = contains_char(with_placeholders.as_str(), '*');
    let body = replace_all(with_placeholders.as_str(), "*", "(.*)");
    if splat {
        let ghost before = params@;
        params.push("splat".to_owned());
        assert(texts(params@) == texts(before).push("splat"@));
    }
    let mut regex_str = "^".to_owned();
    regex_str.append(body.as_str());
    if !ends_with(regex_str.as_str(), ".*") {
        regex_str.append("/?");
    }
    regex_str.append("$");
    match regex_check(regex_str.as_str()) {
        Ok(_) => Some((regex_str, params)),
        Err(_) => None,
    }
}

/// A redirect rule.
#[derive(Debug, Clone)]
pub struct RedirectRule {
    /// The pattern that a request's path has to match, as it was written.
    pub from: String,
    /// Where to send the request; placeholders stand for what matched.
    pub to: String,
    /// The status to answer with.
    pub status: u16,
    /// Whether the rule holds even where a file of the path exists.
    pub force: bool,
    /// The regular expression made of `from`.
    pub from_pattern: String,
    /// The names of the groups of `from_pattern`.
    pub from_params: Vec<String>,
    /// What the request's query has to hold, if anything.
    pub query_params: Option<StringMap<String>>,
}

/// A rule as contracts see it; its conditions in their order.
pub struct RuleView {
    pub from: Seq<char>,
    pub to: Seq<char>,
    pub status: u16,
    pub force: bool,
    pub from_pattern: Seq<char>,
    pub from_params: Seq<Seq<char>>,
    pub query_params: Option<Seq<(Seq<char>, Seq<char>)>>,
}

impl View for RedirectRule {
    type V = RuleView;

    open spec fn view(&self) -> RuleView {
        RuleView {
            from: self.from@,
            to: self.to@,
            status: self.status,
            force: self.force,
            from_pattern: self.from_pattern@,
            from_params: texts(self.from_params@),
            query_params: match self.query_params {
                Some(conditions) => Some(conditions.entries()),
                None => None,
            },
        }
    }
}

/// The rule that matched a request, with its target filled in.
#[derive(Debug, PartialEq, Eq)]
pub struct RedirectMatch {
    pub target_path: String,
    pub status: u16,
    pub force: bool,
}

/// Whether a word of a rule is its destination: a path or a web address.
pub open spec fn destination(word: Seq<char>) -> bool {
    begins_with(word, "/"@) || begins_with(word, "http://"@) || begins_with(word, "https://"@)
}

/// Whether a word before the destination is a condition on the query: it
/// holds `=`.
pub open spec fn condition(word: Seq<char>) -> bool {
    !destination(word) && word.contains('=')
}

/// The place of the destination among the words of a rule: behind the
/// pattern and the conditions that follow it.
pub open spec fn destination_index(parts: Seq<Seq<char>>, from: int) -> int
    decreases parts.len() - from,
{
    if 0 <= from < parts.len() && condition(parts[from]) {
        destination_index(parts, from + 1)
    } else {
        from
    }
}

/// Entries with `value` stored under `key`: in the key's place if it has
/// one, at the end if not.
pub open spec fn stored(
    entries: Seq<(Seq<char>, Seq<char>)>,
    key: Seq<char>,
    value: Seq<char>,
) -> Seq<(Seq<char>, Seq<char>)> {
    let at = crate::string_map::key_index(entries, key);
    if at < entries.len() {
        entries.update(at, (key, value))
    } else {
        entries.push((key, value))
    }
}

/// The conditions that the words `parts[1..to]` state: each `key=value`
/// with neither side empty, a later one of a key in the place of the
/// earlier.
pub open spec fn conditions(parts: Seq<Seq<char>>, to: int) -> Seq<(Seq<char>, Seq<char>)>
    decreases to,
{
    if to <= 1 || to > parts.len() {
        Seq::empty()
    } else {
        let before = conditions(parts, to - 1);
        let word = parts[to - 1];
        let at = first_index_of(word, '=');
        if 0 < at < word.len() - 1 {
            stored(before, word.take(at), word.skip(at + 1))
        } else {
            before
        }
    }
}

/// The status and the force flag after the words `parts[from..to]`: a
/// number sets the status, a number with `!` behind it sets the status and
/// the flag, any other word changes nothing.
pub open spec fn status_after(parts: Seq<Seq<char>>, from: int, to: int) -> (u16, bool)
    decreases to - from,
{
    if to <= from || from < 0 || to > parts.len() {
        (301, false)
    } else {
        let before = status_after(parts, from, to - 1);
        let word = parts[to - 1];
        if word.len() > 0 && word.last() == '!' {
            match parsed_u16(word.drop_last()) {
                Some(status) => (status, true),
                None => before,
            }
        } else {
            match parsed_u16(word) {
                Some(status) => (status, before.1),
                None => before,
            }
        }
    }
}

/// What a line of a `_redirects` file says.
pub enum LineView {
    /// The line is no rule: it lacks a pattern or a destination.
    NoRule,
    /// The line's pattern makes no regular expression.
    BadPattern,
    /// The line is this rule.
    Rule(RuleView),
}

/// What the line `line` says: its words are the pattern, conditions on the
/// query, the destination, and status codes.
pub open spec fn line_meaning(line: Seq<char>) -> LineView {
    let parts = words(line);
    let at = destination_index(parts, 1);
    if parts.len() < 2 || at >= parts.len() {
        LineView::NoRule
    } else if !regex_valid(pattern_regex(parts[0])) {
        LineView::BadPattern
    } else {
        let outcome = status_after(parts, at + 1, parts.len() as int);
        let required = conditions(parts, at);
        LineView::Rule(
            RuleView {
                from: parts[0],
                to: parts[at],
                status: outcome.0,
                force: outcome.1,
                from_pattern: pattern_regex(parts[0]),
                from_params: pattern_params(parts[0]),
                query_params: if required.len() == 0 {
                    None
                } else {
                    Some(required)
                },
            },
        )
    }
}

/// What reading a line gave.
#[derive(Debug)]
pub enum ParsedLine {
    NoRule,
    BadPattern,
    Rule(RedirectRule),
}

impl View for ParsedLine {
    type V = LineView;

    open spec fn view(&self) -> LineView {
        match self {
            ParsedLine::NoRule => LineView::NoRule,
            ParsedLine::BadPattern => LineView::BadPattern,
            ParsedLine::Rule(rule) => LineView::Rule(rule@),
        }
    }
}

fn is_destination(word: &str) -> (yes: bool)
    ensures
        yes == destination(word@),
{
    starts_with(word, "/") || starts_with(word, "http://") || starts_with(word, "https://")
}

/// Parse a single redirect rule line:
/// `/from [key=value ...] /to [status[!]]`.
pub fn parse_redirect_line(line: &str) -> (parsed: ParsedLine)
    ensures
        parsed@ == line_meaning(line@),
{
    let parts = split_words(line);
    let n = parts.len();
    assert(forall|i: int| 0 <= i < parts@.len() ==> texts(parts@)[i] == (#[trigger] parts@[i])@);
    if n < 2 {
        return ParsedLine::NoRule;
    }
    let mut query_params: StringMap<String> = StringMap::new();
    let mut idx: usize = 1;
    while idx < n
        invariant
            1 <= idx <= n == parts@.len(),
            forall|i: int| 0 <= i < parts@.len() ==> texts(parts@)[i] == (#[trigger] parts@[i])@,
            destination_index(texts(parts@), 1) == destination_index(texts(parts@), idx as int),
            query_params.entries() == conditions(texts(parts@), idx as int),
        ensures
            idx >= n || !condition(texts(parts@)[idx as int]),
        decreases n - idx,
    {
        let part = parts[idx].as_str();
        if is_destination(part) || !contains_char(part, '=') {
            break ;
        }
        let len = part.unicode_len();
        let at = find_char(part, '=');
        proof {
            lemma_first_index_bounds(part@, '=');
        }
        if at > 0 && at + 1 < len {
            let key = part.substring_char(0, at).to_owned();
            let value = part.substring_char(at + 1, len).to_owned();
            proof {
                assert(key@ == part@.take(at as int));
                assert(value@ == part@.skip(at + 1));
            }
            query_params.insert(key, value);
        }
        idx += 1;
    }
    assert(destination_index(texts(parts@), 1) == idx);
    if idx >= n {
        return ParsedLine::NoRule;
    }
    let at = idx;
    let mut status: u16 = 301;
    let mut force = false;
    idx = at + 1;
    while idx < n
        invariant
            at + 1 <= idx <= n == parts@.len(),
            forall|i: int| 0 <= i < parts@.len() ==> texts(parts@)[i] == (#[trigger] parts@[i])@,
            (status, force) == status_after(texts(parts@), at + 1, idx as int),
        decreases n - idx,
    {
        let part = parts[idx].as_str();
        let len = part.unicode_len();
        if len > 0 && part.get_char(len - 1) == '!' {
            proof {
                assert(part@.drop_last() == part@.subrange(0, len - 1));
            }
            match parse_u16(part.substring_char(0, len - 1)) {
                Some(code) => {
                    force = true;
                    status = code;
                },
                None => {},
            }
        } else {
            match parse_u16(part) {
                Some(code) => {
                    status = code;
                },
                None => {},
            }
        }
        idx += 1;
    }
    match convert_path_to_regex(parts[0].as_str()) {
        None => ParsedLine::BadPattern,
        Some(converted) => {
            let (pattern, params) = converted;
            ParsedLine::Rule(
                RedirectRule {
                    from: parts[0].clone(),
                    to: parts[at].clone(),
                    status,
                    force,
                    from_pattern: pattern,
                    from_params: params,
                    query_params: if query_params.len() == 0 {
                        None
                    } else {
                        Some(query_params)
                    },
                },
            )
        },
    }
}

/// The views of a list of rules.
pub open spec fn rules_view(rules: Seq<RedirectRule>) -> Seq<RuleView> {
    Seq::new(rules.len(), |i: int| rules[i]@)
}

/// The rules of the first `n` lines: empty lines and lines that begin with
/// `#` say nothing, nor does a line that is no rule or whose pattern is
/// refused, nor any line once `MAX_REDIRECT_RULES` rules are there.
pub open spec fn rules_of(lines: Seq<Seq<char>>, n: int) -> Seq<RuleView>
    decreases n,
{
    if n <= 0 || n > lines.len() {
        Seq::empty()
    } else {
        let before = rules_of(lines, n - 1);
        let line = trimmed(lines[n - 1]);
        if line.len() == 0 || line[0] == '#' || before.len() >= MAX_REDIRECT_RULES {
            before
        } else {
            match line_meaning(line) {
                LineView::Rule(rule) => before.push(rule),
                LineView::NoRule => before,
                LineView::BadPattern => before,
            }
        }
    }
}

/// The lines of a text: what stands between its line feeds.
pub open spec fn lines_of(content: Seq<char>) -> Seq<Seq<char>> {
    split_on(content, '\n')
}

/// Parse a `_redirects` file into its redirect rules, in the order of
/// their lines.
pub fn parse_redirects_file(content: &str) -> (rules: Vec<RedirectRule>)
    ensures
        rules_view(rules@) == rules_of(lines_of(content@), lines_of(content@).len() as int),
        rules@.len() <= MAX_REDIRECT_RULES,
{
    let lines = split_text(content, '\n');
    let mut rules: Vec<RedirectRule> = Vec::new();
    let mut i: usize = 0;
    assert(rules_view(rules@) =~= Seq::empty());
    while i < lines.len()
        invariant
            i <= lines@.len(),
            texts(lines@) == lines_of(content@),
            rules_view(rules@) == rules_of(lines_of(content@), i as int),
            rules@.len() <= MAX_REDIRECT_RULES,
        decreases lines@.len() - i,
    {
        assert(texts(lines@)[i as int] == lines@[i as int]@);
        let line = trim(lines[i].as_str());
        if line.as_str().unicode_len() > 0 && line.as_str().get_char(0) != '#' && rules.len()
            < MAX_REDIRECT_RULES {
            match parse_redirect_line(line.as_str()) {
                ParsedLine::Rule(rule) => {
                    let ghost before = rules@;
                    rules.push(rule);
                    assert(rules_view(rules@) =~= rules_view(before).push(rule@));
                },
                ParsedLine::NoRule => {},
                ParsedLine::BadPattern => {},
            }
        }
        i += 1;
    }
    rules
}

/// A request's path with a slash at its start.
pub open spec fn normalized(path: Seq<char>) -> Seq<char> {
    if begins_with(path, "/"@) {
        path
    } else {
        "/"@ + path
    }
}

/// The value that `entries` hold for `key`, if any.
pub open spec fn lookup(entries: Seq<(Seq<char>, Seq<char>)>, key: Seq<char>) -> Option<Seq<char>> {
    let at = crate::string_map::key_index(entries, key);
    if at < entries.len() {
        Some(entries[at].1)
    } else {
        None
    }
}

/// Whether a query meets the first `n` conditions: it holds each key, with
/// the value asked for unless that is a placeholder.
pub open spec fn conditions_met(
    required: Seq<(Seq<char>, Seq<char>)>,
    n: int,
    actual: Seq<(Seq<char>, Seq<char>)>,
) -> bool
    decreases n,
{
    if n <= 0 || n > required.len() {
        true
    } else {
        let wanted = required[n - 1];
        conditions_met(required, n - 1, actual) && match lookup(actual, wanted.0) {
            Some(value) => begins_with(wanted.1, ":"@) || value == wanted.1,
            None => false,
        }
    }
}

/// Whether a rule's conditions on the query are met.
pub open spec fn rule_applies(rule: RuleView, query: Option<Seq<(Seq<char>, Seq<char>)>>) -> bool {
    match rule.query_params {
        None => true,
        Some(required) => match query {
            None => false,
            Some(actual) => conditions_met(required, required.len() as int, actual),
        },
    }
}

/// A target with the placeholders of the first `n` groups replaced by what
/// the groups matched.
pub open spec fn filled(
    target: Seq<char>,
    params: Seq<Seq<char>>,
    n: int,
    groups: Seq<Option<Seq<char>>>,
) -> Seq<char>
    decreases n,
{
    if n <= 0 || n > params.len() {
        target
    } else {
        let before = filled(target, params, n - 1, groups);
        if n < groups.len() && groups[n] is Some {
            replaced(before, ":"@ + params[n - 1], groups[n]->0)
        } else {
            before
        }
    }
}

/// A target with the placeholders of the first `n` conditions replaced by
/// what the query holds for their keys.
pub open spec fn query_filled(
    target: Seq<char>,
    required: Seq<(Seq<char>, Seq<char>)>,
    n: int,
    actual: Seq<(Seq<char>, Seq<char>)>,
) -> Seq<char>
    decreases n,
{
    if n <= 0 || n > required.len() {
        target
    } else {
        let before = query_filled(target, required, n - 1, actual);
        let wanted = required[n - 1];
        if begins_with(wanted.1, ":"@) && lookup(actual, wanted.0) is Some {
            replaced(before, wanted.1, lookup(actual, wanted.0)->0)
        } else {
            before
        }
    }
}

/// The first `n` entries of a query written as `key=value`, with `&`
/// between them.
pub open spec fn query_text(actual: Seq<(Seq<char>, Seq<char>)>, n: int) -> Seq<char>
    decreases n,
{
    if n <= 0 || n > actual.len() {
        Seq::empty()
    } else if n == 1 {
        actual[0].0 + "="@ + actual[0].1
    } else {
        query_text(actual, n - 1) + "&"@ + actual[n - 1].0 + "="@ + actual[n - 1].1
    }
}

/// Whether a rule of this status passes the request's query on.
pub open spec fn keeps_query(status: u16) -> bool {
    status == 200 || status == 301 || status == 302
}

/// Where a rule sends a request whose path matched with `groups`.
pub open spec fn target_of(
    rule: RuleView,
    groups: Seq<Option<Seq<char>>>,
    query: Option<Seq<(Seq<char>, Seq<char>)>>,
) -> Seq<char> {
    let by_path = filled(rule.to, rule.from_params, rule.from_params.len() as int, groups);
    let by_query = match (rule.query_params, query) {
        (Some(required), Some(actual)) => query_filled(
            by_path,
            required,
            required.len() as int,
            actual,
        ),
        _ => by_path,
    };
    match query {
        Some(actual) => if keeps_query(rule.status) && !by_query.contains('?') && actual.len()
            > 0 {
            by_query + "?"@ + query_text(actual, actual.len() as int)
        } else {
            by_query
        },
        None => by_query,
    }
}

/// A match as contracts see it.
pub struct MatchView {
    pub target_path: Seq<char>,
    pub status: u16,
    pub force: bool,
}

impl View for RedirectMatch {
    type V = MatchView;

    open spec fn view(&self) -> MatchView {
        MatchView { target_path: self.target_path@, status: self.status, force: self.force }
    }
}

/// The first rule from `from` on whose conditions the query meets and
/// whose pattern matches the path, with its target filled in.
pub open spec fn first_match(
    path: Seq<char>,
    rules: Seq<RuleView>,
    from: int,
    query: Option<Seq<(Seq<char>, Seq<char>)>>,
) -> Option<MatchView>
    decreases rules.len() - from,
{
    if from < 0 || from >= rules.len() {
        None
    } else {
        let rule = rules[from];
        if rule_applies(rule, query) && regex_groups(rule.from_pattern, path) is Some {
            Some(
                MatchView {
                    target_path: target_of(rule, regex_groups(rule.from_pattern, path)->0, query),
                    status: rule.status,
                    force: rule.force,
                },
            )
        } else {
            first_match(path, rules, from + 1, query)
        }
    }
}

/// The entries of a query that may be missing.
pub open spec fn query_view(query: Option<&StringMap<String>>) -> Option<Seq<(Seq<char>, Seq<char>)>> {
    match query {
        Some(actual) => Some(actual.entries()),
        None => None,
    }
}

fn query_conditions_met(required: &StringMap<String>, actual: &StringMap<String>) -> (met: bool)
    ensures
        met == conditions_met(required.entries(), required.entries().len() as int, actual.entries()),
{
    let mut i: usize = 0;
    while i < required.len()
        invariant
            i <= required.entries().len(),
            conditions_met(required.entries(), i as int, actual.entries()),
        decreases required.entries().len() - i,
    {
        let expected = required.value_at(i);
        let ok = match actual.get(required.key_at(i).as_str()) {
            Some(value) => starts_with(expected.as_str(), ":") || str_eq(
                value.as_str(),
                expected.as_str(),
            ),
            None => false,
        };
        if !ok {
            proof {
                lemma_conditions_fail(
                    required.entries(),
                    i as int + 1,
                    required.entries().len() as int,
                    actual.entries(),
                );
            }
            return false;
        }
        i += 1;
    }
    true
}

/// Conditions that are not met stay unmet when more are asked.
pub proof fn lemma_conditions_fail(
    required: Seq<(Seq<char>, Seq<char>)>,
    n: int,
    m: int,
    actual: Seq<(Seq<char>, Seq<char>)>,
)
    requires
        0 < n <= m <= required.len(),
        !conditions_met(required, n, actual),
    ensures
        !conditions_met(required, m, actual),
    decreases m - n,
{
    if n < m {
        lemma_conditions_fail(required, n, m - 1, actual);
    }
}

fn fill_from_path(target: &str, params: &Vec<String>, groups: &Vec<Option<String>>) -> (result:
    String)
    ensures
        result@ == filled(target@, texts(params@), params@.len() as int, groups_view(groups@)),
{
    let mut result = target.to_owned();
    let mut i: usize = 0;
    while i < params.len()
        invariant
            i <= params@.len(),
            result@ == filled(target@, texts(params@), i as int, groups_view(groups@)),
        decreases params@.len() - i,
    {
        assert(texts(params@)[i as int] == params@[i as int]@);
        if i + 1 < groups.len() {
            assert(groups_view(groups@)[i + 1] == match groups@[i + 1] {
                Some(text) => Some(text@),
                None => None,
            });
            match &groups[i + 1] {
                Some(value) => {
                    let mut placeholder = ":".to_owned();
                    placeholder.append(params[i].as_str());
                    result = replace_all(result.as_str(), placeholder.as_str(), value.as_str());
                },
                None => {},
            }
        }
        i += 1;
    }
    result
}

fn fill_from_query(target: String, required: &StringMap<String>, actual: &StringMap<String>) -> (result:
    String)
    ensures
        result@ == query_filled(
            target@,
            required.entries(),
            required.entries().len() as int,
            actual.entries(),
        ),
{
    let mut result = target;
    let mut i: usize = 0;
    while i < required.len()
        invariant
            i <= required.entries().len(),
            result@ == query_filled(target@, required.entries(), i as int, actual.entries()),
        decreases required.entries().len() - i,
    {
        let placeholder = required.value_at(i);
        if starts_with(placeholder.as_str(), ":") {
            match actual.get(required.key_at(i).as_str()) {
                Some(value) => {
                    result = replace_all(result.as_str(), placeholder.as_str(), value.as_str());
                },
                None => {},
            }
        }
        i += 1;
    }
    result
}

fn write_query(actual: &StringMap<String>) -> (text: String)
    ensures
        text@ == query_text(actual.entries(), actual.entries().len() as int),
{
    let mut text = String::new();
    let mut i: usize = 0;
    while i < actual.len()
        invariant
            i <= actual.entries().len(),
            text@ == query_text(actual.entries(), i as int),
        decreases actual.entries().len() - i,
    {
        let ghost before = text@;
        if i > 0 {
            text.append("&");
        }
        text.append(actual.key_at(i).as_str());
        text.append("=");
        text.append(actual.value_at(i).as_str());
        proof {
            if i == 0 {
                assert(before + actual.entries()[0].0 == actual.entries()[0].0);
            }
        }
        i += 1;
    }
    text
}

/// Match a request path against redirect rules: the first rule whose
/// conditions on the query are met and whose pattern matches the path, with
/// the placeholders of its target filled in, and with the request's query
/// behind the target where the rule's status passes it on and the target
/// has none.
pub fn match_redirect_rule(
    request_path: &str,
    rules: &[RedirectRule],
    query_params: Option<&StringMap<String>>,
) -> (found: Option<RedirectMatch>)
    ensures
        match found {
            Some(m) => first_match(
                normalized(request_path@),
                rules_view(rules@),
                0,
                query_view(query_params),
            ) == Some(m@),
            None => first_match(
                normalized(request_path@),
                rules_view(rules@),
                0,
                query_view(query_params),
            ) is None,
        },
{
    let normalized_path = if starts_with(request_path, "/") {
        request_path.to_owned()
    } else {
        let mut with_slash = "/".to_owned();
        with_slash.append(request_path);
        with_slash
    };
    let ghost query = query_view(query_params);
    let mut i: usize = 0;
    while i < rules.len()
        invariant
            i <= rules@.len(),
            normalized_path@ == normalized(request_path@),
            query == query_view(query_params),
            first_match(normalized(request_path@), rules_view(rules@), 0, query) == first_match(
                normalized(request_path@),
                rules_view(rules@),
                i as int,
                query,
            ),
        decreases rules@.len() - i,
    {
        let rule = &rules[i];
        assert(rules_view(rules@)[i as int] == rule@);
        let applies = match &rule.query_params {
            None => true,
            Some(required) => match query_params {
                None => false,
                Some(actual) => query_conditions_met(required, actual),
            },
        };
        if applies {
            match regex_captures(rule.from_pattern.as_str(), normalized_path.as_str()) {
                Ok(Some(groups)) => {
                    let by_path = fill_from_path(rule.to.as_str(), &rule.from_params, &groups);
                    let by_query = match &rule.query_params {
                        Some(required) => match query_params {
                            Some(actual) => fill_from_query(by_path, required, actual),
                            None => by_path,
                        },
                        None => by_path,
                    };
                    let mut target_path = by_query;
                    match query_params {
                        Some(actual) => {
                            if (rule.status == 200 || rule.status == 301 || rule.status == 302)
                                && !contains_char(target_path.as_str(), '?') && actual.len() > 0 {
                                target_path.append("?");
                                target_path.append(write_query(actual).as_str());
                            }
                        },
                        None => {},
                    }
                    return Some(
                        RedirectMatch { target_path, status: rule.status, force: rule.force },
                    );
                },
                Ok(None) => {},
                Err(_) => {},
            }
        }
        i += 1;
    }
    None
}

} // verus!
