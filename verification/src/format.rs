//! The storage format: one record per line, the key and the value of a
//! record parted by the first tab of its line.
//!
//! ```text
//! <key1>\t<value1>\n
//! <key2>\t<value2>\n
//! ```
//!
//! Nothing is escaped. A key therefore holds neither a tab nor a line
//! terminator, and a value no line terminator.

use vstd::prelude::*;

verus! {

/// Parts the key of a record from its value.
pub const FIELD_SEPARATOR: char = '\t';

/// Ends the line of a record.
pub const LINE_TERMINATOR: char = '\n';

/// A record as the contracts see it: its key and its value as sequences of
/// characters.
pub struct Entry {
    pub key: Seq<char>,
    pub value: Seq<char>,
}

/// One key with its value.
#[derive(Debug)]
pub struct Record {
    pub key: String,
    pub value: String,
}

impl View for Record {
    type V = Entry;

    open spec fn view(&self) -> Entry {
        Entry { key: self.key@, value: self.value@ }
    }
}

/// Where the first `c` of `s` stands; `s.len()` where `s` holds no `c`.
pub open spec fn first_index(s: Seq<char>, c: char) -> int
    decreases s.len(),
{
    if s.len() == 0 || s[0] == c {
        0
    } else {
        1 + first_index(s.drop_first(), c)
    }
}

/// The tab and the line terminator, which the format keeps for itself.
pub open spec fn is_delimiter(c: char) -> bool {
    c == FIELD_SEPARATOR || c == LINE_TERMINATOR
}

/// `s` holds a tab or a line terminator.
pub open spec fn holds_delimiter(s: Seq<char>) -> bool {
    exists|i: int| 0 <= i < s.len() && is_delimiter(#[trigger] s[i])
}

/// `e` can be stored and read back: its line is one line, and the first tab
/// of that line is the one behind the key.
pub open spec fn storable(e: Entry) -> bool {
    &&& !e.key.contains(FIELD_SEPARATOR)
    &&& !e.key.contains(LINE_TERMINATOR)
    &&& !e.value.contains(LINE_TERMINATOR)
}

/// The line that stores `e`, without its terminator.
pub open spec fn line_of(e: Entry) -> Seq<char> {
    e.key.push(FIELD_SEPARATOR) + e.value
}

/// The record that `line` stores: the key is what stands before the first
/// tab, the value all that follows it, further tabs included. A line
/// without a tab stores none.
pub open spec fn entry_of(line: Seq<char>) -> Option<Entry> {
    let i = first_index(line, FIELD_SEPARATOR);
    if 0 <= i < line.len() {
        Some(Entry { key: line.take(i), value: line.skip(i + 1) })
    } else {
        None
    }
}

/// A line that is not empty and yet stores no record.
pub open spec fn malformed(line: Seq<char>) -> bool {
    line.len() > 0 && !line.contains(FIELD_SEPARATOR)
}

/// The lines of `text`. Each line terminator ends a line; what follows the
/// last terminator is a line too, unless it is empty.
pub open spec fn lines_of(text: Seq<char>) -> Seq<Seq<char>>
    decreases text.len(),
{
    let i = first_index(text, LINE_TERMINATOR);
    if text.len() == 0 {
        Seq::empty()
    } else if 0 <= i < text.len() {
        seq![text.take(i)] + lines_of(text.skip(i + 1))
    } else {
        seq![text]
    }
}

/// The text that stores `entries`: the line of each, in order, each with its
/// terminator.
pub open spec fn render(entries: Seq<Entry>) -> Seq<char>
    decreases entries.len(),
{
    if entries.len() == 0 {
        Seq::empty()
    } else {
        render(entries.drop_last()) + line_of(entries.last()).push(LINE_TERMINATOR)
    }
}

/// `first_index` is in range, no `c` stands before it, and a `c` stands at
/// it unless it is the length.
pub proof fn lemma_first_index(s: Seq<char>, c: char)
    ensures
        0 <= first_index(s, c) <= s.len(),
        forall|j: int| 0 <= j < first_index(s, c) ==> s[j] != c,
        first_index(s, c) < s.len() ==> s[first_index(s, c)] == c,
        first_index(s, c) == s.len() <==> !s.contains(c),
    decreases s.len(),
{
    if s.len() == 0 || s[0] == c {
    } else {
        let rest = s.drop_first();
        lemma_first_index(rest, c);
        let r = first_index(rest, c);
        assert forall|j: int| 0 <= j < r + 1 implies s[j] != c by {
            if j > 0 {
                assert(s[j] == rest[j - 1]);
            }
        }
        if r < rest.len() {
            assert(s[r + 1] == rest[r]);
        }
    }
}

/// An index with no `c` before it, and a `c` at it unless it is the length,
/// is the `first_index`.
pub proof fn lemma_first_index_is(s: Seq<char>, c: char, i: int)
    requires
        0 <= i <= s.len(),
        forall|j: int| 0 <= j < i ==> s[j] != c,
        i < s.len() ==> s[i] == c,
    ensures
        first_index(s, c) == i,
{
    lemma_first_index(s, c);
}

/// A text without tab and line terminator holds neither.
pub proof fn lemma_holds_delimiter(s: Seq<char>)
    ensures
        holds_delimiter(s) <==> s.contains(FIELD_SEPARATOR) || s.contains(LINE_TERMINATOR),
{
    if holds_delimiter(s) {
        let i = choose|i: int| 0 <= i < s.len() && is_delimiter(#[trigger] s[i]);
        assert(s[i] == FIELD_SEPARATOR || s[i] == LINE_TERMINATOR);
    }
    if s.contains(FIELD_SEPARATOR) {
        let i = choose|i: int| 0 <= i < s.len() && s[i] == FIELD_SEPARATOR;
        assert(is_delimiter(s[i]));
    }
    if s.contains(LINE_TERMINATOR) {
        let i = choose|i: int| 0 <= i < s.len() && s[i] == LINE_TERMINATOR;
        assert(is_delimiter(s[i]));
    }
}

/// A line stores a record exactly if it holds a tab. The record of a line
/// without line terminator can be stored, and its line is that line.
pub proof fn lemma_entry_of(line: Seq<char>)
    ensures
        entry_of(line) is Some <==> line.contains(FIELD_SEPARATOR),
        entry_of(line) is None ==> (malformed(line) <==> line.len() > 0),
        entry_of(line) matches Some(e) ==> line_of(e) == line && !e.key.contains(FIELD_SEPARATOR),
        entry_of(line) matches Some(e) ==> (!line.contains(LINE_TERMINATOR) ==> storable(e)),
{
    lemma_first_index(line, FIELD_SEPARATOR);
    if let Some(e) = entry_of(line) {
        let i = first_index(line, FIELD_SEPARATOR);
        assert(line_of(e) == line);
        if e.key.contains(FIELD_SEPARATOR) {
            let j = choose|j: int| 0 <= j < e.key.len() && e.key[j] == FIELD_SEPARATOR;
            assert(line[j] == FIELD_SEPARATOR);
        }
        if !line.contains(LINE_TERMINATOR) {
            if e.key.contains(LINE_TERMINATOR) {
                let j = choose|j: int| 0 <= j < e.key.len() && e.key[j] == LINE_TERMINATOR;
                assert(line[j] == LINE_TERMINATOR);
            }
            if e.value.contains(LINE_TERMINATOR) {
                let j = choose|j: int| 0 <= j < e.value.len() && e.value[j] == LINE_TERMINATOR;
                assert(line[i + 1 + j] == LINE_TERMINATOR);
            }
        }
    }
}

/// The line of a record whose key has no tab stores that record.
pub proof fn lemma_entry_of_line(e: Entry)
    requires
        !e.key.contains(FIELD_SEPARATOR),
    ensures
        entry_of(line_of(e)) == Some(e),
{
    let line = line_of(e);
    let i = e.key.len() as int;
    assert forall|j: int| 0 <= j < i implies line[j] != FIELD_SEPARATOR by {
        assert(e.key[j] == line[j]);
    }
    lemma_first_index_is(line, FIELD_SEPARATOR, i);
    assert(line.take(i) == e.key);
    assert(line.skip(i + 1) == e.value);
}

/// No line of a text holds a line terminator.
pub proof fn lemma_lines_of(text: Seq<char>)
    ensures
        forall|i: int|
            0 <= i < lines_of(text).len() ==> !(#[trigger] lines_of(text)[i]).contains(
                LINE_TERMINATOR,
            ),
    decreases text.len(),
{
    lemma_first_index(text, LINE_TERMINATOR);
    let n = first_index(text, LINE_TERMINATOR);
    if text.len() > 0 && n < text.len() {
        let head = text.take(n);
        let tail = text.skip(n + 1);
        lemma_lines_of(tail);
        if head.contains(LINE_TERMINATOR) {
            let j = choose|j: int| 0 <= j < head.len() && head[j] == LINE_TERMINATOR;
            assert(text[j] == LINE_TERMINATOR);
        }
        assert forall|i: int| 0 <= i < lines_of(text).len() implies !(#[trigger] lines_of(
            text,
        )[i]).contains(LINE_TERMINATOR) by {
            if i > 0 {
                assert(lines_of(text)[i] == lines_of(tail)[i - 1]);
            }
        }
    }
}

/// `std::string::String::push` appends one character: the string afterwards
/// is the string before with `c` at its end. This is taken from the
/// documentation of `String::push` and not proved.
pub assume_specification[ String::push ](s: &mut String, c: char)
    ensures
        final(s)@ == old(s)@.push(c),
;

/// Whether `s` holds a tab or a line terminator.
pub fn has_delimiter(s: &str) -> (found: bool)
    ensures
        found == holds_delimiter(s@),
{
    let mut found = false;
    for c in it: s.chars()
        invariant
            it.seq() == s@,
            found == holds_delimiter(s@.take(it.index())),
    {
        let ghost before = s@.take(it.index());
        let ghost after = s@.take(it.index() + 1);
        assert(after == before.push(c));
        if c == FIELD_SEPARATOR || c == LINE_TERMINATOR {
            found = true;
            assert(is_delimiter(after[it.index()]));
        } else {
            assert(holds_delimiter(after) ==> holds_delimiter(before)) by {
                if holds_delimiter(after) {
                    let i = choose|i: int| 0 <= i < after.len() && is_delimiter(#[trigger] after[i]);
                    assert(is_delimiter(before[i]));
                }
            }
            assert(holds_delimiter(before) ==> holds_delimiter(after)) by {
                if holds_delimiter(before) {
                    let i = choose|i: int| 0 <= i < before.len() && is_delimiter(#[trigger] before[i]);
                    assert(is_delimiter(after[i]));
                }
            }
        }
    }
    assert(s@.take(s@.len() as int) == s@);
    found
}

/// Parts `text` into its lines.
pub fn split_lines(text: &str) -> (lines: Vec<String>)
    ensures
        lines.deep_view() == lines_of(text@),
{
    let mut lines: Vec<String> = Vec::new();
    let mut line = String::new();
    proof {
        assert(line@ + text@.skip(0) == text@);
        assert(lines.deep_view() + lines_of(text@) == lines_of(text@));
    }
    for c in it: text.chars()
        invariant
            it.seq() == text@,
            !line@.contains(LINE_TERMINATOR),
            lines_of(text@) == lines.deep_view() + lines_of(line@ + text@.skip(it.index())),
    {
        let ghost rest = text@.skip(it.index());
        let ghost open = line@ + rest;
        let ghost done = lines.deep_view();
        let ghost ended = line@;
        let ghost n = line@.len() as int;
        assert(rest[0] == c);
        if c == LINE_TERMINATOR {
            proof {
                lemma_first_index_is(open, LINE_TERMINATOR, n);
                assert(open.take(n) == ended);
                assert(open.skip(n + 1) == Seq::<char>::empty() + text@.skip(it.index() + 1));
            }
            lines.push(line);
            line = String::new();
            assert(lines.deep_view() == done + seq![ended]);
        } else {
            line.push(c);
            assert(line@ + text@.skip(it.index() + 1) == open);
        }
    }
    proof {
        assert(line@ + text@.skip(text@.len() as int) == line@);
        lemma_first_index(line@, LINE_TERMINATOR);
    }
    if !line.as_str().is_empty() {
        let ghost done = lines.deep_view();
        lines.push(line);
        assert(lines.deep_view() == done + seq![line@]);
    }
    lines
}

/// Reads the record that `line` stores, if it stores one.
pub fn parse_line(line: &str) -> (record: Option<Record>)
    ensures
        match record {
            Some(r) => entry_of(line@) == Some(r@),
            None => entry_of(line@) is None,
        },
{
    let mut key = String::new();
    let mut value = String::new();
    let mut parted = false;
    let ghost mut tab: int = 0;
    for c in it: line.chars()
        invariant
            it.seq() == line@,
            !parted ==> key@ == line@.take(it.index()) && !key@.contains(FIELD_SEPARATOR),
            !parted ==> value@.len() == 0,
            parted ==> 0 <= tab < it.index() && first_index(line@, FIELD_SEPARATOR) == tab,
            parted ==> key@ == line@.take(tab) && value@ == line@.subrange(tab + 1, it.index()),
    {
        let ghost i = it.index();
        if parted {
            value.push(c);
            assert(line@.subrange(tab + 1, i).push(c) == line@.subrange(tab + 1, i + 1));
        } else if c == FIELD_SEPARATOR {
            parted = true;
            proof {
                tab = i;
                assert forall|j: int| 0 <= j < i implies line@[j] != FIELD_SEPARATOR by {
                    assert(key@[j] == line@[j]);
                }
                lemma_first_index_is(line@, FIELD_SEPARATOR, i);
                assert(value@ == line@.subrange(i + 1, i + 1));
            }
        } else {
            let ghost before = key@;
            key.push(c);
            assert(line@.take(i).push(c) == line@.take(i + 1));
            assert(!key@.contains(FIELD_SEPARATOR)) by {
                if key@.contains(FIELD_SEPARATOR) {
                    let j = choose|j: int| 0 <= j < key@.len() && key@[j] == FIELD_SEPARATOR;
                    assert(before[j] == FIELD_SEPARATOR);
                }
            }
        }
    }
    if parted {
        assert(line@.subrange(tab + 1, line@.len() as int) == line@.skip(tab + 1));
        Some(Record { key, value })
    } else {
        proof {
            assert(line@.take(line@.len() as int) == line@);
            lemma_first_index(line@, FIELD_SEPARATOR);
        }
        None
    }
}

/// Appends to `text` the line that stores `record`, with its terminator.
pub fn write_line(text: &mut String, record: &Record)
    ensures
        final(text)@ == old(text)@ + line_of(record@).push(LINE_TERMINATOR),
{
    text.append(record.key.as_str());
    text.push(FIELD_SEPARATOR);
    text.append(record.value.as_str());
    text.push(LINE_TERMINATOR);
}

} // verus!
