//! Log lines taken apart into tokens, and the dictionaries of token pairs
//! and triples that are counted from them.

use crate::dictionary::{can_count, can_merge, counted, merged, Dictionary, Entries};
use std::collections::{BTreeSet, HashMap};
use vstd::prelude::*;
use vstd::string::{StrSliceExecFns, StringExecFns};

verus! {

broadcast use {
    vstd::std_specs::hash::group_hash_axioms,
    vstd::std_specs::btree::group_btree_axioms,
};

/// The kinds of log that are known.
#[derive(Clone, Copy, Debug, PartialEq, Eq, Structural)]
pub enum LogFormat {
    Linux,
    OpenStack,
    Spark,
    HDFS,
    HPC,
    Proxifier,
    Android,
    HealthApp,
}

/// How a line of each kind of log is laid out: the fields in angle brackets,
/// and between them what separates them.
pub open spec fn layout(lf: LogFormat) -> Seq<char> {
    match lf {
        LogFormat::Linux => r"<Month> <Date> <Time> <Level> <Component>(\\[<PID>\\])?: <Content>"@,
        LogFormat::OpenStack => r"'<Logrecord> <Date> <Time> <Pid> <Level> <Component> \[<ADDR>\] <Content>'"@,
        LogFormat::Spark => r"<Date> <Time> <Level> <Component>: <Content>"@,
        LogFormat::HDFS => r"<Date> <Time> <Pid> <Level> <Component>: <Content>"@,
        LogFormat::HPC => r"<LogId> <Node> <Component> <State> <Time> <Flag> <Content>"@,
        LogFormat::Proxifier => r"[<Time>] <Program> - <Content>"@,
        LogFormat::Android => r"<Date> <Time>  <Pid>  <Tid> <Level> <Component>: <Content>"@,
        LogFormat::HealthApp => "<Time>\\|<Component>\\|<Pid>\\|<Content>"@,
    }
}

/// The layout of a line of the given kind of log.
pub fn format_string(lf: &LogFormat) -> (r: String)
    ensures
        r@ == layout(*lf),
{
    match lf {
        LogFormat::Linux => r"<Month> <Date> <Time> <Level> <Component>(\\[<PID>\\])?: <Content>".to_owned(),
        LogFormat::OpenStack => r"'<Logrecord> <Date> <Time> <Pid> <Level> <Component> \[<ADDR>\] <Content>'".to_owned(),
        LogFormat::Spark => r"<Date> <Time> <Level> <Component>: <Content>".to_owned(),
        LogFormat::HDFS => r"<Date> <Time> <Pid> <Level> <Component>: <Content>".to_owned(),
        LogFormat::HPC => r"<LogId> <Node> <Component> <State> <Time> <Flag> <Content>".to_owned(),
        LogFormat::Proxifier => r"[<Time>] <Program> - <Content>".to_owned(),
        LogFormat::Android => r"<Date> <Time>  <Pid>  <Tid> <Level> <Component>: <Content>".to_owned(),
        LogFormat::HealthApp => "<Time>\\|<Component>\\|<Pid>\\|<Content>".to_owned(),
    }
}

/// The patterns of what is blotted out of a line of each kind of log before
/// its tokens are taken: addresses, times, sizes and the like.
pub open spec fn censored(lf: LogFormat) -> Seq<Seq<char>> {
    match lf {
        LogFormat::Linux => seq![
            r"(\d+\.){3}\d+"@,
            r"\w{3} \w{3} \d{2} \d{2}:\d{2}:\d{2} \d{4}"@,
            r"\d{2}:\d{2}:\d{2}"@,
        ],
        LogFormat::OpenStack => seq![r"((\d+\.){3}\d+,?)+"@, r"/.+?\s"@],
        LogFormat::Spark => seq![
            r"(\d+\.){3}\d+"@,
            r"\b[KGTM]?B\b"@,
            r"([\w-]+\.){2,}[\w-]+"@,
        ],
        LogFormat::HDFS => seq![r"blk_(|-)[0-9]+"@, r"(/|)([0-9]+\.){3}[0-9]+(:[0-9]+|)(:|)"@],
        LogFormat::HPC => seq![r"=\d+"@],
        LogFormat::Proxifier => seq![
            r"<\d+\ssec"@,
            r"([\w-]+\.)+[\w-]+(:\d+)?"@,
            r"\d{2}:\d{2}(:\d{2})*"@,
            r"[KGTM]B"@,
        ],
        LogFormat::Android => seq![
            r"(/[\w-]+)+"@,
            r"([\w-]+\.){2,}[\w-]+"@,
            r"\b(\-?\+?\d+)\b|\b0[Xx][a-fA-F\d]+\b|\b[a-fA-F\d]{4,}\b"@,
        ],
        LogFormat::HealthApp => seq![],
    }
}

/// The patterns of what is blotted out of a line of the given kind of log.
pub fn censored_regexps(lf: &LogFormat) -> (r: Vec<String>)
    ensures
        r.deep_view() == censored(*lf),
{
    let mut r: Vec<String> = Vec::new();
    match lf {
        LogFormat::Linux => {
            r.push(r"(\d+\.){3}\d+".to_owned());
            r.push(r"\w{3} \w{3} \d{2} \d{2}:\d{2}:\d{2} \d{4}".to_owned());
            r.push(r"\d{2}:\d{2}:\d{2}".to_owned());
        },
        LogFormat::OpenStack => {
            r.push(r"((\d+\.){3}\d+,?)+".to_owned());
            r.push(r"/.+?\s".to_owned());
        },
        LogFormat::Spark => {
            r.push(r"(\d+\.){3}\d+".to_owned());
            r.push(r"\b[KGTM]?B\b".to_owned());
            r.push(r"([\w-]+\.){2,}[\w-]+".to_owned());
        },
        LogFormat::HDFS => {
            r.push(r"blk_(|-)[0-9]+".to_owned());
            r.push(r"(/|)([0-9]+\.){3}[0-9]+(:[0-9]+|)(:|)".to_owned());
        },
        LogFormat::HPC => {
            r.push(r"=\d+".to_owned());
        },
        LogFormat::Proxifier => {
            r.push(r"<\d+\ssec".to_owned());
            r.push(r"([\w-]+\.)+[\w-]+(:\d+)?".to_owned());
            r.push(r"\d{2}:\d{2}(:\d{2})*".to_owned());
            r.push(r"[KGTM]B".to_owned());
        },
        LogFormat::Android => {
            r.push(r"(/[\w-]+)+".to_owned());
            r.push(r"([\w-]+\.){2,}[\w-]+".to_owned());
            r.push(r"\b(\-?\+?\d+)\b|\b0[Xx][a-fA-F\d]+\b|\b[a-fA-F\d]{4,}\b".to_owned());
        },
        LogFormat::HealthApp => {},
    }
    assert(r.deep_view() =~= censored(*lf));
    r
}

/// The length of the longest prefix of `s` from `i` on that holds no angle
/// bracket.
pub open spec fn name_len(s: Seq<char>, i: int) -> int
    decreases s.len() - i,
{
    if 0 <= i < s.len() && s[i] != '<' && s[i] != '>' {
        1 + name_len(s, i + 1)
    } else {
        0
    }
}

/// Where a field starts at `i`, the index behind it. A field is `<`, a name
/// of one character or more without angle brackets, and `>`.
pub open spec fn field_end(s: Seq<char>, i: int) -> Option<int> {
    let n = name_len(s, i + 1);
    if 0 <= i < s.len() && s[i] == '<' && n > 0 && i + 1 + n < s.len() && s[i + 1 + n] == '>' {
        Some(i + n + 2)
    } else {
        None
    }
}

/// The length of the longest prefix of `s` from `i` on that is made of
/// spaces.
pub open spec fn spaces_len(s: Seq<char>, i: int) -> int
    decreases s.len() - i,
{
    if 0 <= i < s.len() && s[i] == ' ' {
        1 + spaces_len(s, i + 1)
    } else {
        0
    }
}

/// What stands between two fields, as a pattern: the text from `i` on with
/// its first run of spaces, if it has one, replaced by `\s+`.
pub open spec fn splitter(gap: Seq<char>, i: int) -> Seq<char>
    decreases gap.len() - i,
{
    if 0 <= i < gap.len() {
        if gap[i] == ' ' {
            r"\s+"@ + gap.skip(i + spaces_len(gap, i))
        } else {
            seq![gap[i]] + splitter(gap, i + 1)
        }
    } else {
        Seq::empty()
    }
}

/// The pattern of one field: a named group that takes as little as it can.
pub open spec fn field_pattern(name: Seq<char>) -> Seq<char> {
    "(?P<"@ + name + ">.*?)"@
}

/// The pattern of a layout from `pos` on: each field gives a named group,
/// and what stands between two fields gives its splitter. `gap` is where
/// the field before ended, if there was one. What stands before the first
/// field and behind the last is left out.
pub open spec fn pattern_from(s: Seq<char>, pos: int, gap: Option<int>) -> Seq<char>
    decreases s.len() - pos,
    via pattern_from_decreases
{
    if 0 <= pos < s.len() {
        match field_end(s, pos) {
            Some(end) => (match gap {
                Some(from) => splitter(s.subrange(from, pos), 0),
                None => Seq::empty(),
            }) + field_pattern(s.subrange(pos + 1, end - 1)) + pattern_from(s, end, Some(end)),
            None => pattern_from(s, pos + 1, gap),
        }
    } else {
        Seq::empty()
    }
}

#[via_fn]
proof fn pattern_from_decreases(s: Seq<char>, pos: int, gap: Option<int>) {
    lemma_name_len_bounds(s, pos + 1);
}

/// The pattern of a layout.
pub open spec fn pattern_of(layout: Seq<char>) -> Seq<char> {
    pattern_from(layout, 0, None)
}

proof fn lemma_name_len_bounds(s: Seq<char>, i: int)
    ensures
        0 <= name_len(s, i),
        0 <= i <= s.len() ==> i + name_len(s, i) <= s.len(),
    decreases s.len() - i,
{
    if 0 <= i < s.len() && s[i] != '<' && s[i] != '>' {
        lemma_name_len_bounds(s, i + 1);
    }
}

/// Where a field starts at `pos`, the index behind it.
fn find_field_end(s: &str, pos: usize, n: usize) -> (r: Option<usize>)
    requires
        n == s@.len(),
        pos < n,
    ensures
        match r {
            Some(end) => field_end(s@, pos as int) == Some(end as int) && pos + 2 < end <= n,
            None => field_end(s@, pos as int) is None,
        },
{
    if s.get_char(pos) != '<' {
        return None;
    }
    let mut k: usize = pos + 1;
    while k < n && s.get_char(k) != '<' && s.get_char(k) != '>'
        invariant
            n == s@.len(),
            pos < k <= n,
            name_len(s@, pos + 1) == (k - pos - 1) + name_len(s@, k as int),
        decreases n - k,
    {
        k += 1;
    }
    if k > pos + 1 && k < n && s.get_char(k) == '>' {
        Some(k + 1)
    } else {
        None
    }
}

/// Appends to `r` the pattern of what stands between two fields.
fn append_splitter(r: &mut String, gap: &str)
    ensures
        final(r)@ == old(r)@ + splitter(gap@, 0),
{
    let n = gap.unicode_len();
    let mut i: usize = 0;
    while i < n && gap.get_char(i) != ' '
        invariant
            n == gap@.len(),
            i <= n,
            r@ + splitter(gap@, i as int) == old(r)@ + splitter(gap@, 0),
        decreases n - i,
    {
        let ghost before = r@;
        r.append(gap.substring_char(i, i + 1));
        proof {
            assert(gap@.subrange(i as int, i + 1) =~= seq![gap@[i as int]]);
            assert(r@ + splitter(gap@, i + 1) =~= before + splitter(gap@, i as int));
        }
        i += 1;
    }
    if i < n {
        let mut j: usize = i;
        while j < n && gap.get_char(j) == ' '
            invariant
                n == gap@.len(),
                i <= j <= n,
                spaces_len(gap@, i as int) == (j - i) + spaces_len(gap@, j as int),
            decreases n - j,
        {
            j += 1;
        }
        let ghost before = r@;
        r.append(r"\s+");
        r.append(gap.substring_char(j, n));
        proof {
            assert(gap@.subrange(j as int, n as int) =~= gap@.skip(i + spaces_len(gap@, i as int)));
            assert(r@ =~= before + splitter(gap@, i as int));
        }
    } else {
        assert(r@ + splitter(gap@, i as int) =~= r@);
    }
}

/// The pattern of a layout, without anchors: each field `<Name>` gives the
/// named group `(?P<Name>.*?)`, and what stands between two fields is kept,
/// its first run of spaces replaced by `\s+`.
pub fn regex_generator_helper(format: String) -> (r: String)
    ensures
        r@ == pattern_of(format@),
{
    let s = format.as_str();
    let n = s.unicode_len();
    let mut r = String::new();
    let mut prev_end: Option<usize> = None;
    let mut pos: usize = 0;
    assert(r@ + pattern_from(s@, 0, None) =~= pattern_of(format@));
    while pos < n
        invariant
            n == s@.len(),
            s@ == format@,
            pos <= n,
            match prev_end {
                Some(pe) => pe <= pos,
                None => true,
            },
            r@ + pattern_from(
                s@,
                pos as int,
                match prev_end {
                    Some(pe) => Some(pe as int),
                    None => None,
                },
            ) == pattern_of(format@),
        decreases n - pos,
    {
        let ghost before = r@;
        let ghost gap = match prev_end {
            Some(pe) => Some(pe as int),
            None => None,
        };
        match find_field_end(s, pos, n) {
            Some(end) => {
                if let Some(pe) = prev_end {
                    append_splitter(&mut r, s.substring_char(pe, pos));
                }
                let ghost middle = r@;
                r.append("(?P<");
                r.append(s.substring_char(pos + 1, end - 1));
                r.append(">.*?)");
                proof {
                    assert(r@ =~= middle + field_pattern(s@.subrange(pos + 1, end - 1)));
                    assert(r@ + pattern_from(s@, end as int, Some(end as int)) =~= before
                        + pattern_from(s@, pos as int, gap));
                }
                prev_end = Some(end);
                pos = end;
            },
            None => {
                pos += 1;
            },
        }
    }
    assert(r@ + Seq::<char>::empty() =~= r@);
    r
}

/// The pattern that a whole line of the layout must match.
pub fn regex_generator(format: String) -> (r: String)
    ensures
        r@ == "^"@ + pattern_of(format@) + "$"@,
{
    let mut r = "^".to_owned();
    r.append(regex_generator_helper(format).as_str());
    r.append("$");
    r
}

/// The characters of a text.
pub fn chars_of(text: &str) -> (r: Vec<char>)
    ensures
        r@ == text@,
{
    let mut r: Vec<char> = Vec::new();
    for c in it: text.chars()
        invariant
            r@ == it.seq().take(it.index() as int),
            it.seq() == text@,
    {
        r.push(c);
        assert(it.seq().take(it.index() + 1) =~= it.seq().take(it.index() as int).push(c));
    }
    assert(r@ =~= text@.take(r@.len() as int));
    assert(r@ =~= text@);
    r
}

/// Whether a character is white space as `char::is_whitespace` tells.
pub uninterp spec fn is_whitespace(c: char) -> bool;

/// Whether a pattern is one that `regex::Regex::new` accepts.
pub uninterp spec fn regex_compiles(pattern: Seq<char>) -> bool;

/// The text in which every match of the pattern is replaced, as
/// `regex::Regex::replace_all` does it.
pub uninterp spec fn regex_replaced(
    pattern: Seq<char>,
    text: Seq<char>,
    replacement: Seq<char>,
) -> Seq<char>;

/// What the named group of the pattern holds in the first match in the
/// text, as `regex::Regex::captures` finds it: `None` where the text has no
/// match, `Some(None)` where the match has nothing for that group.
pub uninterp spec fn regex_captured(
    pattern: Seq<char>,
    text: Seq<char>,
    group: Seq<char>,
) -> Option<Option<Seq<char>>>;

/// Calls `char::is_whitespace`, and names what it returns.
#[verifier::external_body]
fn is_whitespace_char(c: char) -> (r: bool)
    ensures
        r == is_whitespace(c),
{
    c.is_whitespace()
}

/// Calls `regex::Regex::new` and says whether it gave a regular expression.
/// The answer depends on the pattern alone and is named.
#[verifier::external_body]
fn regex_is_valid(pattern: &str) -> (r: bool)
    ensures
        r == regex_compiles(pattern@),
{
    regex::Regex::new(pattern).is_ok()
}

/// Calls `regex::Regex::replace_all` on the regular expression of a pattern
/// that compiles. The result depends on the three texts alone and is named.
#[verifier::external_body]
fn regex_replace_all(pattern: &str, text: &str, replacement: &str) -> (r: String)
    requires
        regex_compiles(pattern@),
    ensures
        r@ == regex_replaced(pattern@, text@, replacement@),
{
    match regex::Regex::new(pattern) {
        Ok(re) => re.replace_all(text, replacement).into_owned(),
        Err(_) => String::new(),
    }
}

/// Calls `regex::Regex::captures` on the regular expression of a pattern
/// that compiles, and `Captures::name` on what it finds. The result depends
/// on the three texts alone and is named.
#[verifier::external_body]
fn regex_capture(pattern: &str, text: &str, group: &str) -> (r: Option<Option<String>>)
    requires
        regex_compiles(pattern@),
    ensures
        r.deep_view() == regex_captured(pattern@, text@, group@),
{
    match regex::Regex::new(pattern) {
        Ok(re) => match re.captures(text) {
            Some(found) => match found.name(group) {
                Some(m) => Some(Some(m.as_str().to_owned())),
                None => Some(None),
            },
            None => None,
        },
        Err(_) => None,
    }
}

/// The length of the longest run of white space in `s` from `i` on.
pub open spec fn blank_len(s: Seq<char>, i: int) -> int
    decreases s.len() - i,
{
    if 0 <= i < s.len() && is_whitespace(s[i]) {
        1 + blank_len(s, i + 1)
    } else {
        0
    }
}

/// The length of the longest run of white space at the end of `s`.
pub open spec fn blank_tail_len(s: Seq<char>) -> int
    decreases s.len(),
{
    if s.len() > 0 && is_whitespace(s.last()) {
        1 + blank_tail_len(s.drop_last())
    } else {
        0
    }
}

/// The length of the longest run without white space in `s` from `i` on.
pub open spec fn word_len(s: Seq<char>, i: int) -> int
    decreases s.len() - i,
{
    if 0 <= i < s.len() && !is_whitespace(s[i]) {
        1 + word_len(s, i + 1)
    } else {
        0
    }
}

/// A text without the white space at its start and at its end.
pub open spec fn trimmed(s: Seq<char>) -> Seq<char> {
    let from = blank_len(s, 0);
    if from >= s.len() {
        Seq::empty()
    } else {
        s.subrange(from, s.len() - blank_tail_len(s))
    }
}

/// The words of a text from `i` on: its longest runs without white space.
pub open spec fn words_from(s: Seq<char>, i: int) -> Seq<Seq<char>>
    decreases s.len() - i,
    via words_from_decreases
{
    if 0 <= i < s.len() {
        if is_whitespace(s[i]) {
            words_from(s, i + 1)
        } else {
            seq![s.subrange(i, i + word_len(s, i))] + words_from(s, i + word_len(s, i))
        }
    } else {
        Seq::empty()
    }
}

#[via_fn]
proof fn words_from_decreases(s: Seq<char>, i: int) {
    lemma_word_len_bounds(s, i);
}

/// The words of a text.
pub open spec fn words(s: Seq<char>) -> Seq<Seq<char>> {
    words_from(s, 0)
}

proof fn lemma_word_len_bounds(s: Seq<char>, i: int)
    ensures
        0 <= word_len(s, i),
        0 <= i <= s.len() ==> i + word_len(s, i) <= s.len(),
        0 <= i < s.len() && !is_whitespace(s[i]) ==> word_len(s, i) >= 1,
    decreases s.len() - i,
{
    if 0 <= i < s.len() && !is_whitespace(s[i]) {
        lemma_word_len_bounds(s, i + 1);
    }
}

/// The text without the white space at its start and at its end.
pub fn trim(text: &str) -> (r: &str)
    ensures
        r@ == trimmed(text@),
{
    let chars = chars_of(text);
    let n = chars.len();
    let mut from: usize = 0;
    while from < n && is_whitespace_char(chars[from])
        invariant
            n == chars.len(),
            chars@ == text@,
            from <= n,
            blank_len(text@, 0) == from + blank_len(text@, from as int),
        decreases n - from,
    {
        from += 1;
    }
    if from >= n {
        return text.substring_char(0, 0);
    }
    let mut to: usize = n;
    proof {
        assert(text@.take(n as int) =~= text@);
    }
    while to > from && is_whitespace_char(chars[to - 1])
        invariant
            n == chars.len(),
            chars@ == text@,
            from < to <= n,
            !is_whitespace(text@[from as int]),
            blank_tail_len(text@) == (n - to) + blank_tail_len(text@.take(to as int)),
        decreases to,
    {
        assert(text@.take(to as int).drop_last() =~= text@.take(to - 1));
        to -= 1;
    }
    assert(text@.take(to as int).last() == text@[to - 1]);
    text.substring_char(from, to)
}

/// The words of the text: its longest runs without white space, in order.
pub fn split_whitespace(text: &str) -> (r: Vec<String>)
    ensures
        r.deep_view() == words(text@),
{
    let chars = chars_of(text);
    let n = chars.len();
    let mut found: Vec<String> = Vec::new();
    let mut i: usize = 0;
    assert(found.deep_view() + words_from(text@, 0) =~= words(text@));
    while i < n
        invariant
            n == chars.len(),
            chars@ == text@,
            i <= n,
            found.deep_view() + words_from(text@, i as int) == words(text@),
        decreases n - i,
    {
        if is_whitespace_char(chars[i]) {
            i += 1;
        } else {
            let mut j: usize = i;
            while j < n && !is_whitespace_char(chars[j])
                invariant
                    n == chars.len(),
                    chars@ == text@,
                    i <= j <= n,
                    word_len(text@, i as int) == (j - i) + word_len(text@, j as int),
                decreases n - j,
            {
                j += 1;
            }
            let ghost before = found.deep_view();
            found.push(text.substring_char(i, j).to_owned());
            proof {
                assert(found.deep_view() =~= before.push(text@.subrange(i as int, j as int)));
                assert(found.deep_view() + words_from(text@, j as int) =~= before + words_from(
                    text@,
                    i as int,
                ));
            }
            i = j;
        }
    }
    assert(found.deep_view() + Seq::<Seq<char>>::empty() =~= found.deep_view());
    found
}

/// Every pattern compiles.
pub open spec fn all_compile(patterns: Seq<Seq<char>>) -> bool {
    forall|i: int| 0 <= i < patterns.len() ==> regex_compiles(#[trigger] patterns[i])
}

/// A line in which the matches of each pattern in turn are blotted out by
/// `<*>`.
pub open spec fn blotted(line: Seq<char>, patterns: Seq<Seq<char>>) -> Seq<char>
    decreases patterns.len(),
{
    if patterns.len() == 0 {
        line
    } else {
        regex_replaced(patterns.last(), blotted(line, patterns.drop_last()), "<*>"@)
    }
}

/// The tokens of a message: a blank is put before it, the matches of the
/// patterns are blotted out, and the words of what is left are taken.
pub open spec fn message_tokens(message: Seq<char>, patterns: Seq<Seq<char>>) -> Seq<Seq<char>> {
    words(trimmed(blotted(" "@ + message, patterns)))
}

/// The message of a log line: what the group `Content` of the line's
/// pattern holds, the line taken without the white space around it.
pub open spec fn content_of(line: Seq<char>, re: Seq<char>) -> Option<Option<Seq<char>>> {
    regex_captured(re, trimmed(line), "Content"@)
}

/// A line can be split: its pattern and the patterns of what is blotted out
/// compile, and where the line matches its pattern, the match has a
/// message.
pub open spec fn can_split(line: Seq<char>, re: Seq<char>, patterns: Seq<Seq<char>>) -> bool {
    &&& regex_compiles(re)
    &&& all_compile(patterns)
    &&& content_of(line, re) != Some(None::<Seq<char>>)
}

/// The tokens of a log line: those of its message, and none where the line
/// does not match its pattern.
pub open spec fn tokens_of(line: Seq<char>, re: Seq<char>, patterns: Seq<Seq<char>>) -> Seq<
    Seq<char>,
> {
    match content_of(line, re) {
        Some(Some(message)) => message_tokens(message, patterns),
        _ => Seq::empty(),
    }
}

/// Whether every pattern compiles.
pub fn patterns_compile(patterns: &Vec<String>) -> (r: bool)
    ensures
        r == all_compile(patterns.deep_view()),
{
    let mut i: usize = 0;
    while i < patterns.len()
        invariant
            i <= patterns.len(),
            forall|k: int| 0 <= k < i ==> regex_compiles(#[trigger] patterns.deep_view()[k]),
        decreases patterns.len() - i,
    {
        if !regex_is_valid(patterns[i].as_str()) {
            assert(!regex_compiles(patterns.deep_view()[i as int]));
            return false;
        }
        i += 1;
    }
    true
}

/// Puts a blank before the line and blots out the matches of each pattern
/// in turn by `<*>`.
pub fn apply_domain_specific_re(log_line: String, domain_specific_re: &Vec<String>) -> (r: String)
    requires
        all_compile(domain_specific_re.deep_view()),
    ensures
        r@ == blotted(" "@ + log_line@, domain_specific_re.deep_view()),
{
    let ghost patterns = domain_specific_re.deep_view();
    let mut line = " ".to_owned();
    line.append(log_line.as_str());
    let mut i: usize = 0;
    assert(patterns.take(0) =~= Seq::<Seq<char>>::empty());
    while i < domain_specific_re.len()
        invariant
            i <= domain_specific_re.len(),
            patterns == domain_specific_re.deep_view(),
            all_compile(patterns),
            line@ == blotted(" "@ + log_line@, patterns.take(i as int)),
        decreases domain_specific_re.len() - i,
    {
        assert(patterns.take(i + 1).drop_last() =~= patterns.take(i as int));
        assert(regex_compiles(patterns[i as int]));
        line = regex_replace_all(domain_specific_re[i].as_str(), line.as_str(), "<*>");
        i += 1;
    }
    assert(patterns.take(domain_specific_re.len() as int) =~= patterns);
    line
}

/// The tokens of a message.
pub fn split_message(message: String, domain_specific_re: &Vec<String>) -> (r: Vec<String>)
    requires
        all_compile(domain_specific_re.deep_view()),
    ensures
        r.deep_view() == message_tokens(message@, domain_specific_re.deep_view()),
{
    let line = apply_domain_specific_re(message, domain_specific_re);
    split_whitespace(trim(line.as_str()))
}

/// The tokens of a log line. The line must be one that can be split.
pub fn token_splitter(log_line: String, re: &String, domain_specific_re: &Vec<String>) -> (r: Vec<
    String,
>)
    requires
        can_split(log_line@, re@, domain_specific_re.deep_view()),
    ensures
        r.deep_view() == tokens_of(log_line@, re@, domain_specific_re.deep_view()),
{
    match regex_capture(re.as_str(), trim(log_line.as_str()), "Content") {
        Some(Some(message)) => split_message(message, domain_specific_re),
        _ => {
            let r: Vec<String> = Vec::new();
            assert(r.deep_view() =~= Seq::<Seq<char>>::empty());
            r
        },
    }
}

/// Whether a log line can be split.
pub fn splits(log_line: &str, re: &str, domain_specific_re: &Vec<String>) -> (r: bool)
    ensures
        r == can_split(log_line@, re@, domain_specific_re.deep_view()),
{
    if !regex_is_valid(re) || !patterns_compile(domain_specific_re) {
        return false;
    }
    match regex_capture(re, trim(log_line), "Content") {
        Some(None) => false,
        _ => true,
    }
}

/// The tokens of a log line, or `None` where the line cannot be split.
pub fn try_token_splitter(log_line: String, re: &String, domain_specific_re: &Vec<String>) -> (r:
    Option<Vec<String>>)
    ensures
        r is Some <==> can_split(log_line@, re@, domain_specific_re.deep_view()),
        r is Some ==> r->0.deep_view() == tokens_of(
            log_line@,
            re@,
            domain_specific_re.deep_view(),
        ),
{
    if splits(log_line.as_str(), re.as_str(), domain_specific_re) {
        Some(token_splitter(log_line, re, domain_specific_re))
    } else {
        None
    }
}

/// The last token and the one before it, as far as there are any.
pub open spec fn last_two(tokens: Seq<Seq<char>>) -> (Option<Seq<char>>, Option<Seq<char>>) {
    (
        if tokens.len() >= 1 {
            Some(tokens[tokens.len() - 1])
        } else {
            None
        },
        if tokens.len() >= 2 {
            Some(tokens[tokens.len() - 2])
        } else {
            None
        },
    )
}

/// The first token and the one behind it, as far as there are any.
pub open spec fn first_two(tokens: Seq<Seq<char>>) -> (Option<Seq<char>>, Option<Seq<char>>) {
    (
        if tokens.len() >= 1 {
            Some(tokens[0])
        } else {
            None
        },
        if tokens.len() >= 2 {
            Some(tokens[1])
        } else {
            None
        },
    )
}

/// The last token and the one before it, as far as there are any.
pub fn last_tokens(tokens: &Vec<String>) -> (r: (Option<String>, Option<String>))
    ensures
        r.deep_view() == last_two(tokens.deep_view()),
{
    let n = tokens.len();
    let last = if n >= 1 {
        Some(tokens[n - 1].clone())
    } else {
        None
    };
    let second_to_last = if n >= 2 {
        Some(tokens[n - 2].clone())
    } else {
        None
    };
    (last, second_to_last)
}

/// The first token and the one behind it, as far as there are any.
pub fn first_tokens(tokens: &Vec<String>) -> (r: (Option<String>, Option<String>))
    ensures
        r.deep_view() == first_two(tokens.deep_view()),
{
    let n = tokens.len();
    let first = if n >= 1 {
        Some(tokens[0].clone())
    } else {
        None
    };
    let second = if n >= 2 {
        Some(tokens[1].clone())
    } else {
        None
    };
    (first, second)
}

/// The last token of a log line and the one before it, as far as there are
/// any. The line must be one that can be split.
pub fn find_prev_tokens(line: String, regexp: &String, regexps: &Vec<String>) -> (r: (
    Option<String>,
    Option<String>,
))
    requires
        can_split(line@, regexp@, regexps.deep_view()),
    ensures
        r.deep_view() == last_two(tokens_of(line@, regexp@, regexps.deep_view())),
{
    let tokens = token_splitter(line, regexp, regexps);
    last_tokens(&tokens)
}

/// The key of a pair of tokens.
pub open spec fn pair_key(a: Seq<char>, b: Seq<char>) -> Seq<char> {
    a + "^"@ + b
}

/// The key of a triple of tokens.
pub open spec fn triple_key(a: Seq<char>, b: Seq<char>, c: Seq<char>) -> Seq<char> {
    a + "^"@ + b + "^"@ + c
}

/// The keys of the pairs of neighbours among the tokens, in order.
pub open spec fn pairs(tokens: Seq<Seq<char>>) -> Seq<Seq<char>> {
    Seq::new(
        if tokens.len() >= 1 {
            (tokens.len() - 1) as nat
        } else {
            0
        },
        |i: int| pair_key(tokens[i], tokens[i + 1]),
    )
}

/// The keys of the triples of neighbours among the tokens, in order.
pub open spec fn triples(tokens: Seq<Seq<char>>) -> Seq<Seq<char>> {
    Seq::new(
        if tokens.len() >= 2 {
            (tokens.len() - 2) as nat
        } else {
            0
        },
        |i: int| triple_key(tokens[i], tokens[i + 1], tokens[i + 2]),
    )
}

/// The tokens with a token before them and one behind them, as far as
/// these are given.
pub open spec fn with_neighbours(
    before: Option<Seq<char>>,
    tokens: Seq<Seq<char>>,
    behind: Option<Seq<char>>,
) -> Seq<Seq<char>> {
    (match before {
        Some(t) => seq![t],
        None => Seq::empty(),
    }) + tokens + (match behind {
        Some(t) => seq![t],
        None => Seq::empty(),
    })
}

/// The list with a token put at its end unless the list holds it.
pub open spec fn with_token(list: Seq<Seq<char>>, token: Seq<char>) -> Seq<Seq<char>> {
    if list.contains(token) {
        list
    } else {
        list.push(token)
    }
}

/// The list after each of the tokens was put in, in order, unless the list
/// held it.
pub open spec fn collected(list: Seq<Seq<char>>, tokens: Seq<Seq<char>>) -> Seq<Seq<char>>
    decreases tokens.len(),
{
    if tokens.len() == 0 {
        list
    } else {
        with_token(collected(list, tokens.drop_last()), tokens.last())
    }
}

/// The keys of the pairs of neighbours among the tokens, in order.
pub fn double_keys(tokens: &Vec<String>) -> (r: Vec<String>)
    ensures
        r.deep_view() == pairs(tokens.deep_view()),
{
    let mut keys: Vec<String> = Vec::new();
    let count: usize = if tokens.len() >= 1 {
        tokens.len() - 1
    } else {
        0
    };
    let mut i: usize = 0;
    while i < count
        invariant
            i <= count,
            count + 1 <= tokens.len() || count == 0,
            count == pairs(tokens.deep_view()).len(),
            keys.len() == i,
            forall|k: int|
                0 <= k < i ==> (#[trigger] keys[k])@ == pair_key(
                    tokens.deep_view()[k],
                    tokens.deep_view()[k + 1],
                ),
        decreases count - i,
    {
        let mut key = tokens[i].clone();
        key.append("^");
        key.append(tokens[i + 1].as_str());
        keys.push(key);
        i += 1;
    }
    assert(keys.deep_view() =~= pairs(tokens.deep_view()));
    keys
}

/// The keys of the triples of neighbours among the tokens, in order.
pub fn triple_keys(tokens: &Vec<String>) -> (r: Vec<String>)
    ensures
        r.deep_view() == triples(tokens.deep_view()),
{
    let mut keys: Vec<String> = Vec::new();
    let count: usize = if tokens.len() >= 2 {
        tokens.len() - 2
    } else {
        0
    };
    let mut i: usize = 0;
    while i < count
        invariant
            i <= count,
            count + 2 <= tokens.len() || count == 0,
            count == triples(tokens.deep_view()).len(),
            keys.len() == i,
            forall|k: int|
                0 <= k < i ==> (#[trigger] keys[k])@ == triple_key(
                    tokens.deep_view()[k],
                    tokens.deep_view()[k + 1],
                    tokens.deep_view()[k + 2],
                ),
        decreases count - i,
    {
        let mut key = tokens[i].clone();
        key.append("^");
        key.append(tokens[i + 1].as_str());
        key.append("^");
        key.append(tokens[i + 2].as_str());
        keys.push(key);
        i += 1;
    }
    assert(keys.deep_view() =~= triples(tokens.deep_view()));
    keys
}

/// The tokens with a token before them and one behind them, as far as
/// these are given.
pub fn add_neighbours(before: Option<String>, tokens: Vec<String>, behind: Option<String>) -> (r:
    Vec<String>)
    ensures
        r.deep_view() == with_neighbours(before.deep_view(), tokens.deep_view(), behind.deep_view()),
{
    let mut tokens = tokens;
    let ghost middle = tokens.deep_view();
    let mut r: Vec<String> = match before {
        None => tokens,
        Some(x) => {
            let mut t: Vec<String> = Vec::new();
            t.push(x);
            t.append(&mut tokens);
            t
        },
    };
    match behind {
        None => {},
        Some(x) => {
            r.push(x);
        },
    }
    assert(r.deep_view() =~= with_neighbours(before.deep_view(), middle, behind.deep_view()));
    r
}

/// Whether the list holds the token.
pub fn holds_token(list: &Vec<String>, token: &String) -> (r: bool)
    ensures
        r == list.deep_view().contains(token@),
{
    let mut i: usize = 0;
    while i < list.len()
        invariant
            i <= list.len(),
            forall|k: int| 0 <= k < i ==> list.deep_view()[k] != token@,
        decreases list.len() - i,
    {
        if list[i] == *token {
            assert(list.deep_view()[i as int] == token@);
            return true;
        }
        i += 1;
    }
    false
}

/// Puts each of the tokens at the end of the list, in order, unless the
/// list holds it.
pub fn collect_tokens(list: &mut Vec<String>, tokens: &Vec<String>)
    ensures
        final(list).deep_view() == collected(old(list).deep_view(), tokens.deep_view()),
{
    let ghost ts = tokens.deep_view();
    let mut i: usize = 0;
    assert(ts.take(0) =~= Seq::<Seq<char>>::empty());
    while i < tokens.len()
        invariant
            i <= tokens.len(),
            ts == tokens.deep_view(),
            list.deep_view() == collected(old(list).deep_view(), ts.take(i as int)),
        decreases tokens.len() - i,
    {
        assert(ts.take(i + 1).drop_last() =~= ts.take(i as int));
        if !holds_token(list, &tokens[i]) {
            let ghost before = list.deep_view();
            list.push(tokens[i].clone());
            assert(list.deep_view() =~= before.push(ts[i as int]));
        }
        i += 1;
    }
    assert(ts.take(tokens.len() as int) =~= ts);
}

/// The tokens of a line with those around them, as the pairs are taken
/// from them.
pub open spec fn pair_window(
    tokens: Seq<Seq<char>>,
    next1: Option<Seq<char>>,
    prev1: Option<Seq<char>>,
) -> Seq<Seq<char>> {
    with_neighbours(prev1, tokens, next1)
}

/// The tokens of a line with those around them, as the triples are taken
/// from them.
pub open spec fn triple_window(
    tokens: Seq<Seq<char>>,
    next1: Option<Seq<char>>,
    next2: Option<Seq<char>>,
    prev1: Option<Seq<char>>,
    prev2: Option<Seq<char>>,
) -> Seq<Seq<char>> {
    with_neighbours(prev2, pair_window(tokens, next1, prev1), next2)
}

/// The tokens of a line can be counted: the counts of their pairs and
/// triples have room.
pub open spec fn can_count_tokens(
    tokens: Seq<Seq<char>>,
    next1: Option<Seq<char>>,
    next2: Option<Seq<char>>,
    dbl: Entries,
    trpl: Entries,
    prev1: Option<Seq<char>>,
    prev2: Option<Seq<char>>,
) -> bool {
    tokens.len() > 0 ==> can_count(dbl, pairs(pair_window(tokens, next1, prev1))) && can_count(
        trpl,
        triples(triple_window(tokens, next1, next2, prev1, prev2)),
    )
}

/// Counts the tokens of one line. `next1` and `next2` are the first tokens
/// of the line behind it, `prev1` and `prev2` the last and the last but one
/// of the line before it, as far as there are any. The tokens are put into
/// the list of all tokens; each pair of neighbours among `prev1`, the
/// tokens and `next1` is counted in `dbl`; and each triple of neighbours
/// among `prev2`, `prev1`, the tokens, `next1` and `next2` is counted in
/// `trpl`. The last token and the one before it are returned. A line
/// without tokens changes nothing.
pub fn count_tokens(
    tokens: Vec<String>,
    next1: Option<String>,
    next2: Option<String>,
    dbl: &mut Dictionary,
    trpl: &mut Dictionary,
    all_token_list: &mut Vec<String>,
    prev1: Option<String>,
    prev2: Option<String>,
) -> (r: (Option<String>, Option<String>))
    requires
        can_count_tokens(
            tokens.deep_view(),
            next1.deep_view(),
            next2.deep_view(),
            old(dbl)@,
            old(trpl)@,
            prev1.deep_view(),
            prev2.deep_view(),
        ),
    ensures
        tokens.len() == 0 ==> {
            &&& r.deep_view() == (None::<Seq<char>>, None::<Seq<char>>)
            &&& final(dbl)@ == old(dbl)@
            &&& final(trpl)@ == old(trpl)@
            &&& final(all_token_list).deep_view() == old(all_token_list).deep_view()
        },
        tokens.len() > 0 ==> {
            &&& r.deep_view() == last_two(tokens.deep_view())
            &&& final(all_token_list).deep_view() == collected(
                old(all_token_list).deep_view(),
                tokens.deep_view(),
            )
            &&& final(dbl)@ == counted(
                old(dbl)@,
                pairs(pair_window(tokens.deep_view(), next1.deep_view(), prev1.deep_view())),
            )
            &&& final(trpl)@ == counted(
                old(trpl)@,
                triples(
                    triple_window(
                        tokens.deep_view(),
                        next1.deep_view(),
                        next2.deep_view(),
                        prev1.deep_view(),
                        prev2.deep_view(),
                    ),
                ),
            )
        },
{
    if tokens.len() == 0 {
        return (None, None);
    }
    collect_tokens(all_token_list, &tokens);
    let last = last_tokens(&tokens);
    let tokens2 = add_neighbours(prev1, tokens, next1);
    let doubles = double_keys(&tokens2);
    dbl.count_all(&doubles);
    let tokens3 = add_neighbours(prev2, tokens2, next2);
    let triples = triple_keys(&tokens3);
    trpl.count_all(&triples);
    last
}

/// Whether the tokens of a line can be counted.
pub fn can_count_line(
    tokens: &Vec<String>,
    next1: &Option<String>,
    next2: &Option<String>,
    dbl: &Dictionary,
    trpl: &Dictionary,
    prev1: &Option<String>,
    prev2: &Option<String>,
) -> (r: bool)
    ensures
        r == can_count_tokens(
            tokens.deep_view(),
            next1.deep_view(),
            next2.deep_view(),
            dbl@,
            trpl@,
            prev1.deep_view(),
            prev2.deep_view(),
        ),
{
    if tokens.len() == 0 {
        return true;
    }
    let tokens2 = add_neighbours(prev1.clone(), tokens.clone(), next1.clone());
    let doubles = double_keys(&tokens2);
    if !dbl.has_room_for(&doubles) {
        return false;
    }
    let tokens3 = add_neighbours(prev2.clone(), tokens2, next2.clone());
    let triples = triple_keys(&tokens3);
    trpl.has_room_for(&triples)
}

/// The first two tokens of the line behind, as far as there is such a line
/// and it has any.
pub open spec fn next_two(lookahead: Option<Seq<char>>, re: Seq<char>, patterns: Seq<Seq<char>>) -> (
    Option<Seq<char>>,
    Option<Seq<char>>,
) {
    match lookahead {
        Some(line) => first_two(tokens_of(line, re, patterns)),
        None => (None, None),
    }
}

/// A line can be processed: it can be split, and so can the line behind it
/// where there is one; and the counts of its pairs and triples have room.
pub open spec fn can_process(
    line: Seq<char>,
    lookahead: Option<Seq<char>>,
    re: Seq<char>,
    patterns: Seq<Seq<char>>,
    dbl: Entries,
    trpl: Entries,
    prev1: Option<Seq<char>>,
    prev2: Option<Seq<char>>,
) -> bool {
    &&& can_split(line, re, patterns)
    &&& lookahead is Some ==> can_split(lookahead->0, re, patterns)
    &&& can_count_tokens(
        tokens_of(line, re, patterns),
        next_two(lookahead, re, patterns).0,
        next_two(lookahead, re, patterns).1,
        dbl,
        trpl,
        prev1,
        prev2,
    )
}

/// Counts the tokens of one log line, as `count_tokens` does, with the
/// first two tokens of the line behind it taken from `lookahead_line`.
pub fn process_dictionary_builder_line(
    line: String,
    lookahead_line: Option<String>,
    regexp: &String,
    regexps: &Vec<String>,
    dbl: &mut Dictionary,
    trpl: &mut Dictionary,
    all_token_list: &mut Vec<String>,
    prev1: Option<String>,
    prev2: Option<String>,
) -> (r: (Option<String>, Option<String>))
    requires
        can_process(
            line@,
            lookahead_line.deep_view(),
            regexp@,
            regexps.deep_view(),
            old(dbl)@,
            old(trpl)@,
            prev1.deep_view(),
            prev2.deep_view(),
        ),
    ensures
        ({
            let tokens = tokens_of(line@, regexp@, regexps.deep_view());
            let next = next_two(lookahead_line.deep_view(), regexp@, regexps.deep_view());
            &&& tokens.len() == 0 ==> {
                &&& r.deep_view() == (None::<Seq<char>>, None::<Seq<char>>)
                &&& final(dbl)@ == old(dbl)@
                &&& final(trpl)@ == old(trpl)@
                &&& final(all_token_list).deep_view() == old(all_token_list).deep_view()
            }
            &&& tokens.len() > 0 ==> {
                &&& r.deep_view() == last_two(tokens)
                &&& final(all_token_list).deep_view() == collected(
                    old(all_token_list).deep_view(),
                    tokens,
                )
                &&& final(dbl)@ == counted(
                    old(dbl)@,
                    pairs(pair_window(tokens, next.0, prev1.deep_view())),
                )
                &&& final(trpl)@ == counted(
                    old(trpl)@,
                    triples(
                        triple_window(tokens, next.0, next.1, prev1.deep_view(), prev2.deep_view()),
                    ),
                )
            }
        }),
{
    let (next1, next2) = match lookahead_line {
        None => (None, None),
        Some(ll) => {
            let next_tokens = token_splitter(ll, regexp, regexps);
            first_tokens(&next_tokens)
        },
    };
    let tokens = token_splitter(line, regexp, regexps);
    count_tokens(tokens, next1, next2, dbl, trpl, all_token_list, prev1, prev2)
}

/// Counts the tokens of one log line where that can be done, and else
/// changes nothing and returns `None`.
pub fn try_process_dictionary_builder_line(
    line: String,
    lookahead_line: Option<String>,
    regexp: &String,
    regexps: &Vec<String>,
    dbl: &mut Dictionary,
    trpl: &mut Dictionary,
    all_token_list: &mut Vec<String>,
    prev1: Option<String>,
    prev2: Option<String>,
) -> (r: Option<(Option<String>, Option<String>)>)
    ensures
        r is Some <==> can_process(
            line@,
            lookahead_line.deep_view(),
            regexp@,
            regexps.deep_view(),
            old(dbl)@,
            old(trpl)@,
            prev1.deep_view(),
            prev2.deep_view(),
        ),
        r is None ==> {
            &&& final(dbl)@ == old(dbl)@
            &&& final(trpl)@ == old(trpl)@
            &&& final(all_token_list).deep_view() == old(all_token_list).deep_view()
        },
        r is Some ==> ({
            let tokens = tokens_of(line@, regexp@, regexps.deep_view());
            let next = next_two(lookahead_line.deep_view(), regexp@, regexps.deep_view());
            &&& tokens.len() == 0 ==> {
                &&& r->0.deep_view() == (None::<Seq<char>>, None::<Seq<char>>)
                &&& final(dbl)@ == old(dbl)@
                &&& final(trpl)@ == old(trpl)@
                &&& final(all_token_list).deep_view() == old(all_token_list).deep_view()
            }
            &&& tokens.len() > 0 ==> {
                &&& r->0.deep_view() == last_two(tokens)
                &&& final(all_token_list).deep_view() == collected(
                    old(all_token_list).deep_view(),
                    tokens,
                )
                &&& final(dbl)@ == counted(
                    old(dbl)@,
                    pairs(pair_window(tokens, next.0, prev1.deep_view())),
                )
                &&& final(trpl)@ == counted(
                    old(trpl)@,
                    triples(
                        triple_window(tokens, next.0, next.1, prev1.deep_view(), prev2.deep_view()),
                    ),
                )
            }
        }),
{
    if !splits(line.as_str(), regexp.as_str(), regexps) {
        return None;
    }
    let (next1, next2) = match &lookahead_line {
        None => (None, None),
        Some(ll) => {
            if !splits(ll.as_str(), regexp.as_str(), regexps) {
                return None;
            }
            let next_tokens = token_splitter(ll.clone(), regexp, regexps);
            first_tokens(&next_tokens)
        },
    };
    let tokens = token_splitter(line.clone(), regexp, regexps);
    if !can_count_line(&tokens, &next1, &next2, dbl, trpl, &prev1, &prev2) {
        return None;
    }
    Some(
        process_dictionary_builder_line(
            line,
            lookahead_line,
            regexp,
            regexps,
            dbl,
            trpl,
            all_token_list,
            prev1,
            prev2,
        ),
    )
}

/// The last token of a log line and the one before it, as far as there are
/// any; `None` where the line cannot be split.
pub fn try_find_prev_tokens(line: String, regexp: &String, regexps: &Vec<String>) -> (r: Option<
    (Option<String>, Option<String>),
>)
    ensures
        r is Some <==> can_split(line@, regexp@, regexps.deep_view()),
        r is Some ==> r->0.deep_view() == last_two(tokens_of(line@, regexp@, regexps.deep_view())),
{
    if splits(line.as_str(), regexp.as_str(), regexps) {
        Some(find_prev_tokens(line, regexp, regexps))
    } else {
        None
    }
}

/// The entries of each dictionary.
pub open spec fn views(maps: Seq<Dictionary>) -> Seq<Entries> {
    Seq::new(maps.len(), |i: int| maps[i]@)
}

/// The entries after the counts of each of the others were added, in order.
pub open spec fn merged_all(entries: Entries, others: Seq<Entries>) -> Entries
    decreases others.len(),
{
    if others.len() == 0 {
        entries
    } else {
        merged(merged_all(entries, others.drop_last()), others.last())
    }
}

/// The counts of each of the others can be added, in order.
pub open spec fn can_merge_all(entries: Entries, others: Seq<Entries>) -> bool
    decreases others.len(),
{
    others.len() > 0 ==> can_merge_all(entries, others.drop_last()) && can_merge(
        merged_all(entries, others.drop_last()),
        others.last(),
    )
}

/// One dictionary with the counts of all: the count of a key is the sum of
/// its counts. `None` where a sum does not fit.
pub fn try_merge_hashmaps(maps: &Vec<Dictionary>) -> (r: Option<Dictionary>)
    ensures
        r is Some <==> can_merge_all(Entries::empty(), views(maps@)),
        r is Some ==> r->0@ == merged_all(Entries::empty(), views(maps@)),
{
    let ghost all = views(maps@);
    let mut merged = Dictionary::new();
    let mut i: usize = 0;
    assert(all.take(0) =~= Seq::<Entries>::empty());
    while i < maps.len()
        invariant
            i <= maps.len(),
            all == views(maps@),
            can_merge_all(Entries::empty(), all.take(i as int)),
            merged@ == merged_all(Entries::empty(), all.take(i as int)),
        decreases maps.len() - i,
    {
        assert(all.take(i + 1).drop_last() =~= all.take(i as int));
        assert(all.take(i + 1).last() == maps[i as int]@);
        if !merged.has_room_for_all(&maps[i]) {
            proof {
                lemma_can_merge_all_prefix(Entries::empty(), all, i + 1);
            }
            return None;
        }
        merged.merge(&maps[i]);
        i += 1;
    }
    assert(all.take(maps.len() as int) =~= all);
    Some(merged)
}

/// One dictionary with the counts of all: the count of a key is the sum of
/// its counts. The sums must fit.
pub fn merge_hashmaps(maps: Vec<Dictionary>) -> (r: Dictionary)
    requires
        can_merge_all(Entries::empty(), views(maps@)),
    ensures
        r@ == merged_all(Entries::empty(), views(maps@)),
{
    match try_merge_hashmaps(&maps) {
        Some(merged) => merged,
        None => Dictionary::new(),
    }
}

/// Where all can be merged, the first of them can.
pub proof fn lemma_can_merge_all_prefix(entries: Entries, others: Seq<Entries>, n: int)
    requires
        0 <= n <= others.len(),
    ensures
        can_merge_all(entries, others) ==> can_merge_all(entries, others.take(n)),
    decreases others.len(),
{
    if n < others.len() {
        lemma_can_merge_all_prefix(entries, others.drop_last(), n);
        assert(others.drop_last().take(n) =~= others.take(n));
    } else {
        assert(others.take(n) =~= others);
    }
}

/// The list after the tokens of each of the lists were put in, in order,
/// unless the list held them.
pub open spec fn collected_all(list: Seq<Seq<char>>, lists: Seq<Seq<Seq<char>>>) -> Seq<Seq<char>>
    decreases lists.len(),
{
    if lists.len() == 0 {
        list
    } else {
        collected(collected_all(list, lists.drop_last()), lists.last())
    }
}

/// The tokens of all lists, each once, in the order in which they are first
/// met.
pub fn merge_token_list(list: Vec<Vec<String>>) -> (r: Vec<String>)
    ensures
        r.deep_view() == collected_all(Seq::empty(), list.deep_view()),
{
    let ghost lists = list.deep_view();
    let mut all: Vec<String> = Vec::new();
    let mut i: usize = 0;
    assert(lists.take(0) =~= Seq::<Seq<Seq<char>>>::empty());
    assert(all.deep_view() =~= Seq::<Seq<char>>::empty());
    while i < list.len()
        invariant
            i <= list.len(),
            lists == list.deep_view(),
            all.deep_view() == collected_all(Seq::empty(), lists.take(i as int)),
        decreases list.len() - i,
    {
        assert(lists.take(i + 1).drop_last() =~= lists.take(i as int));
        collect_tokens(&mut all, &list[i]);
        i += 1;
    }
    assert(lists.take(list.len() as int) =~= lists);
    all
}

/// The keys that have the count `value`, in the order of the entries.
pub open spec fn keys_with(entries: Entries, value: i32) -> Seq<Seq<char>>
    decreases entries.len(),
{
    if entries.len() == 0 {
        Seq::empty()
    } else if entries.last().1 == value {
        keys_with(entries.drop_last(), value).push(entries.last().0)
    } else {
        keys_with(entries.drop_last(), value)
    }
}

/// The counts that occur.
pub open spec fn values_of(entries: Entries) -> Set<i32> {
    Set::new(|value: i32| exists|i: int| 0 <= i < entries.len() && (#[trigger] entries[i]).1 == value)
}

/// A dictionary turned round: the counts that occur, and for each of them
/// the keys that have it, in the order of the entries.
pub fn reverse_dict(d: &Dictionary) -> (r: (BTreeSet<i32>, HashMap<i32, Vec<String>>))
    ensures
        r.0@ == values_of(d@),
        r.1@.dom() == values_of(d@),
        forall|value: i32| #[trigger]
            r.1@.contains_key(value) ==> r.1@[value].deep_view() == keys_with(d@, value),
{
    let mut reverse_d: HashMap<i32, Vec<String>> = HashMap::new();
    let mut val_set: BTreeSet<i32> = BTreeSet::new();
    let ghost entries = d@;
    let n = d.len();
    let mut i: usize = 0;
    assert(val_set@ =~= values_of(entries.take(0)));
    assert(reverse_d@.dom() =~= values_of(entries.take(0)));
    while i < n
        invariant
            i <= n,
            n == entries.len(),
            entries == d@,
            val_set@ == values_of(entries.take(i as int)),
            reverse_d@.dom() == values_of(entries.take(i as int)),
            forall|value: i32| #[trigger]
                reverse_d@.contains_key(value) ==> reverse_d@[value].deep_view() == keys_with(
                    entries.take(i as int),
                    value,
                ),
        decreases n - i,
    {
        let val = d.count_at(i);
        let key = d.key_at(i).to_owned();
        let ghost before = entries.take(i as int);
        let ghost after = entries.take(i + 1);
        let ghost old_map = reverse_d@;
        proof {
            assert(after.drop_last() =~= before);
            assert(after.last() == entries[i as int]);
            assert(values_of(after) =~= values_of(before).insert(val)) by {
                assert forall|v: i32| values_of(after).contains(v) implies values_of(
                    before,
                ).insert(val).contains(v) by {
                    let k = choose|k: int| 0 <= k < after.len() && (#[trigger] after[k]).1 == v;
                    if k < i {
                        assert(before[k].1 == v);
                    }
                }
                assert forall|v: i32| values_of(before).insert(val).contains(v) implies values_of(
                    after,
                ).contains(v) by {
                    if v == val {
                        assert(after[i as int].1 == v);
                    } else {
                        let k = choose|k: int|
                            0 <= k < before.len() && (#[trigger] before[k]).1 == v;
                        assert(after[k].1 == v);
                    }
                }
            }
        }
        let mut keys: Vec<String> = match reverse_d.remove(&val) {
            Some(existing_keys) => existing_keys,
            None => Vec::new(),
        };
        let ghost keys_before = keys.deep_view();
        assert(keys_before =~= keys_with(before, val)) by {
            if !old_map.contains_key(val) {
                lemma_keys_with_absent(before, val);
            }
        }
        keys.push(key);
        assert(keys.deep_view() =~= keys_before.push(entries[i as int].0));
        reverse_d.insert(val, keys);
        val_set.insert(val);
        proof {
            assert(reverse_d@.dom() =~= values_of(after));
            assert forall|value: i32| #[trigger]
                reverse_d@.contains_key(value) implies reverse_d@[value].deep_view() == keys_with(
                after,
                value,
            ) by {
                if value != val {
                    assert(old_map.contains_key(value));
                }
            }
        }
        i += 1;
    }
    assert(entries.take(n as int) =~= entries);
    (val_set, reverse_d)
}

/// No key has a count that does not occur.
proof fn lemma_keys_with_absent(entries: Entries, value: i32)
    requires
        !values_of(entries).contains(value),
    ensures
        keys_with(entries, value) == Seq::<Seq<char>>::empty(),
    decreases entries.len(),
{
    if entries.len() > 0 {
        let before = entries.drop_last();
        assert(entries[entries.len() - 1].1 != value);
        assert(!values_of(before).contains(value)) by {
            if values_of(before).contains(value) {
                let k = choose|k: int| 0 <= k < before.len() && (#[trigger] before[k]).1 == value;
                assert(entries[k].1 == value);
            }
        }
        lemma_keys_with_absent(before, value);
    }
}

} // verus!
