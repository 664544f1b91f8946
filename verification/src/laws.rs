//! What holds of loading, changing and writing a store, whatever it holds.

use vstd::prelude::*;
use crate::database::{decoded, first_malformed, lemma_first_malformed, stored, Database};
use crate::error::LoadError;
use crate::format::{
    entry_of, first_index, lemma_entry_of, lemma_entry_of_line, lemma_first_index,
    lemma_first_index_is, line_of, lines_of, malformed, render, storable, Entry,
    LINE_TERMINATOR,
};
use crate::model::{
    distinct_keys, has_key, lemma_mapping_value, lemma_put, mapping_of, put, sole_entry,
    sole_index, well_formed,
};

verus! {

/// A text that is empty or ends with a line terminator, with one more line
/// and its terminator behind it, has the lines it had and that line.
pub proof fn lemma_lines_of_append(text: Seq<char>, line: Seq<char>)
    requires
        text.len() == 0 || text.last() == LINE_TERMINATOR,
        !line.contains(LINE_TERMINATOR),
    ensures
        lines_of(text + line.push(LINE_TERMINATOR)) == lines_of(text).push(line),
    decreases text.len(),
{
    let more = line.push(LINE_TERMINATOR);
    let whole = text + more;
    if text.len() == 0 {
        assert(whole == more);
        assert forall|j: int| 0 <= j < line.len() implies more[j] != LINE_TERMINATOR by {
            assert(line[j] == more[j]);
        }
        let n = line.len() as int;
        lemma_first_index_is(more, LINE_TERMINATOR, n);
        assert(more.take(n) == line);
        assert(more.skip(n + 1) == Seq::<char>::empty());
        assert(lines_of(Seq::<char>::empty()) == Seq::<Seq<char>>::empty());
        assert(lines_of(more) == seq![line] + Seq::<Seq<char>>::empty());
    } else {
        lemma_first_index(text, LINE_TERMINATOR);
        let i = first_index(text, LINE_TERMINATOR);
        assert(text[text.len() - 1] == LINE_TERMINATOR);
        assert(i < text.len());
        let tail = text.skip(i + 1);
        assert forall|j: int| 0 <= j < i implies whole[j] != LINE_TERMINATOR by {
            assert(text[j] == whole[j]);
        }
        lemma_first_index_is(whole, LINE_TERMINATOR, i);
        assert(whole.take(i) == text.take(i));
        assert(whole.skip(i + 1) == tail + more);
        if tail.len() > 0 {
            assert(tail.last() == text.last());
        }
        lemma_lines_of_append(tail, line);
        assert(seq![text.take(i)] + lines_of(tail).push(line) == (seq![text.take(i)] + lines_of(
            tail,
        )).push(line));
    }
}

/// The lines of the text that stores `entries` are the lines of the
/// entries, one each and in their order.
pub proof fn lemma_lines_of_render(entries: Seq<Entry>)
    requires
        well_formed(entries),
    ensures
        lines_of(render(entries)) == entries.map_values(|e: Entry| line_of(e)),
        render(entries).len() == 0 || render(entries).last() == LINE_TERMINATOR,
    decreases entries.len(),
{
    if entries.len() == 0 {
        assert(lines_of(render(entries)) == entries.map_values(|e: Entry| line_of(e)));
    } else {
        let front = entries.drop_last();
        let e = entries.last();
        assert(well_formed(front)) by {
            assert forall|i: int, j: int| 0 <= i < j < front.len() implies (#[trigger] front[i]).key
                != (#[trigger] front[j]).key by {
                assert(entries[i].key != entries[j].key);
            }
            assert forall|i: int| 0 <= i < front.len() implies storable(
                #[trigger] front[i],
            ) by {
                assert(storable(entries[i]));
            }
        }
        lemma_lines_of_render(front);
        assert(storable(entries[entries.len() - 1]));
        let line = line_of(e);
        assert(!line.contains(LINE_TERMINATOR)) by {
            if line.contains(LINE_TERMINATOR) {
                let j = choose|j: int| 0 <= j < line.len() && line[j] == LINE_TERMINATOR;
                if j < e.key.len() {
                    assert(e.key[j] == LINE_TERMINATOR);
                } else if j > e.key.len() {
                    assert(e.value[j - e.key.len() - 1] == LINE_TERMINATOR);
                }
            }
        }
        lemma_lines_of_append(render(front), line);
        assert(front.map_values(|e: Entry| line_of(e)).push(line) == entries.map_values(
            |e: Entry| line_of(e),
        ));
    }
}

/// Reading the lines of well-formed entries stores those entries.
pub proof fn lemma_stored_lines(entries: Seq<Entry>)
    requires
        well_formed(entries),
    ensures
        stored(entries.map_values(|e: Entry| line_of(e))) == entries,
        first_malformed(entries.map_values(|e: Entry| line_of(e))) == entries.len(),
    decreases entries.len(),
{
    let lines = entries.map_values(|e: Entry| line_of(e));
    lemma_first_malformed(lines);
    if first_malformed(lines) < lines.len() {
        let n = first_malformed(lines);
        assert(storable(entries[n]));
        lemma_entry_of_line(entries[n]);
        lemma_entry_of(lines[n]);
    }
    if entries.len() == 0 {
        assert(stored(lines) == entries);
    } else {
        let front = entries.drop_last();
        let e = entries.last();
        assert(well_formed(front)) by {
            assert forall|i: int, j: int| 0 <= i < j < front.len() implies (#[trigger] front[i]).key
                != (#[trigger] front[j]).key by {
                assert(entries[i].key != entries[j].key);
            }
            assert forall|i: int| 0 <= i < front.len() implies storable(
                #[trigger] front[i],
            ) by {
                assert(storable(entries[i]));
            }
        }
        lemma_stored_lines(front);
        assert(lines.drop_last() == front.map_values(|e: Entry| line_of(e)));
        assert(storable(entries[entries.len() - 1]));
        lemma_entry_of_line(e);
        assert(lines.last() == line_of(e));
        assert(!has_key(front, e.key)) by {
            if has_key(front, e.key) {
                let i = choose|i: int| 0 <= i < front.len() && (#[trigger] front[i]).key == e.key;
                assert(entries[i].key == entries[entries.len() - 1].key);
            }
        }
        assert(front.push(e) == entries);
    }
}

/// The entries stored by any lines have distinct keys, and the last line
/// does to their mapping what `insert` does.
pub proof fn lemma_stored(lines: Seq<Seq<char>>)
    ensures
        distinct_keys(stored(lines)),
        lines.len() > 0 ==> mapping_of(stored(lines)) == match entry_of(lines.last()) {
            Some(e) => mapping_of(stored(lines.drop_last())).insert(e.key, e.value),
            None => mapping_of(stored(lines.drop_last())),
        },
        lines.len() > 0 ==> (entry_of(lines.last()) matches Some(e) ==> sole_entry(stored(lines), e)),
    decreases lines.len(),
{
    if lines.len() > 0 {
        lemma_stored(lines.drop_last());
        if let Some(e) = entry_of(lines.last()) {
            lemma_put(stored(lines.drop_last()), e);
        }
    }
}

/// Round trip: loading the text that a store writes gives that store back,
/// record for record, and so the same mapping.
pub proof fn law_round_trip(db: Database)
    requires
        db.wf(),
    ensures
        decoded(render(db.entries())) == Ok::<Seq<Entry>, LoadError>(db.entries()),
{
    lemma_lines_of_render(db.entries());
    lemma_stored_lines(db.entries());
}

/// Overwrite in a store: putting a second value under a key under which a
/// first was put leaves one entry for that key, with the second value, and
/// the store is as if the first had never been put.
pub proof fn law_overwrite(db: Database, key: Seq<char>, first: Seq<char>, second: Seq<char>)
    requires
        db.wf(),
    ensures
        ({
            let once = put(db.entries(), Entry { key, value: first });
            let twice = put(once, Entry { key, value: second });
            &&& twice == put(db.entries(), Entry { key, value: second })
            &&& sole_entry(twice, Entry { key, value: second })
            &&& mapping_of(twice) == db@.insert(key, second)
            &&& mapping_of(twice)[key] == second
        }),
{
    let e1 = Entry { key, value: first };
    let e2 = Entry { key, value: second };
    let once = put(db.entries(), e1);
    let twice = put(once, e2);
    lemma_put(db.entries(), e1);
    lemma_put(once, e2);
    lemma_put(db.entries(), e2);
    assert(mapping_of(twice) == db@.insert(key, second)) by {
        assert(db@.insert(key, first).insert(key, second) == db@.insert(key, second));
    }
    let direct = put(db.entries(), e2);
    let at = choose|i: int| 0 <= i < once.len() && #[trigger] once[i] == e1;
    assert(once[at].key == key);
    assert(has_key(once, key));
    assert(twice.len() == direct.len());
    assert forall|i: int| 0 <= i < twice.len() implies twice[i] == direct[i] by {
        if has_key(db.entries(), key) {
            assert(once[i].key == db.entries()[i].key);
        } else if i < db.entries().len() {
            assert(once[i] == db.entries()[i]);
            assert(db.entries()[i].key != key);
        }
    }
    assert(twice == direct);
}

/// Overwrite across lines: where a text loads, a line that stores a record
/// whose key no later line stores gives that key its value, and the store
/// holds one entry for that key.
pub proof fn law_last_line_wins(text: Seq<char>, i: int)
    requires
        0 <= i < lines_of(text).len(),
        entry_of(lines_of(text)[i]) is Some,
        forall|j: int|
            i < j < lines_of(text).len() ==> (entry_of(#[trigger] lines_of(text)[j]) matches Some(
                later,
            ) ==> later.key != entry_of(lines_of(text)[i])->0.key),
    ensures
        decoded(text) matches Ok(entries) ==> {
            let e = entry_of(lines_of(text)[i])->0;
            &&& sole_entry(entries, e)
            &&& mapping_of(entries).contains_key(e.key)
            &&& mapping_of(entries)[e.key] == e.value
        },
{
    lemma_last_entry_stays(lines_of(text), i);
}

/// Of the lines that store a record under one key, the last one gives the
/// entry that the store holds for that key.
pub proof fn lemma_last_entry_stays(lines: Seq<Seq<char>>, i: int)
    requires
        0 <= i < lines.len(),
        entry_of(lines[i]) is Some,
        forall|j: int|
            i < j < lines.len() ==> (entry_of(#[trigger] lines[j]) matches Some(later)
                ==> later.key != entry_of(lines[i])->0.key),
    ensures
        sole_entry(stored(lines), entry_of(lines[i])->0),
        mapping_of(stored(lines)).contains_key(entry_of(lines[i])->0.key),
        mapping_of(stored(lines))[entry_of(lines[i])->0.key] == entry_of(lines[i])->0.value,
    decreases lines.len(),
{
    let e = entry_of(lines[i])->0;
    let front = lines.drop_last();
    lemma_stored(lines);
    lemma_stored(front);
    if i < lines.len() - 1 {
        assert forall|j: int| i < j < front.len() implies (entry_of(#[trigger] front[j]) matches Some(
            later,
        ) ==> later.key != entry_of(front[i])->0.key) by {
            assert(front[j] == lines[j]);
        }
        lemma_last_entry_stays(front, i);
        let last = lines[lines.len() - 1];
        if let Some(later) = entry_of(last) {
            assert(later.key != e.key);
            let before = stored(front);
            let after = stored(lines);
            lemma_put(before, later);
            let at = choose|a: int|
                0 <= a < before.len() && #[trigger] before[a] == e && forall|b: int|
                    0 <= b < before.len() && b != a ==> (#[trigger] before[b]).key != e.key;
            assert(after[at] == e);
            assert forall|b: int| 0 <= b < after.len() && b != at implies (#[trigger] after[b]).key
                != e.key by {
                if b < before.len() && after[b] != later {
                    assert(before[b].key != e.key);
                }
            }
        }
    } else {
        lemma_mapping_value(stored(lines), sole_index(stored(lines), e));
    }
}

/// Idempotent flush: two texts written from one unchanged store load alike,
/// and both give that store back.
pub proof fn law_flush_idempotent(db: Database, first: Seq<char>, second: Seq<char>)
    requires
        db.wf(),
        first == render(db.entries()),
        second == render(db.entries()),
    ensures
        decoded(first) == decoded(second),
        decoded(first) == Ok::<Seq<Entry>, LoadError>(db.entries()),
{
    law_round_trip(db);
}

/// Malformed lines: a text fails to load exactly if one of its lines is not
/// empty and has no tab, and the failure names the first such line.
pub proof fn law_malformed_line(text: Seq<char>)
    ensures
        decoded(text) is Err <==> exists|i: int|
            0 <= i < lines_of(text).len() && malformed(#[trigger] lines_of(text)[i]),
        decoded(text) is Err ==> {
            let n = first_malformed(lines_of(text));
            &&& 0 <= n < lines_of(text).len()
            &&& malformed(lines_of(text)[n])
            &&& forall|j: int| 0 <= j < n ==> !malformed(#[trigger] lines_of(text)[j])
            &&& decoded(text) == Err::<Seq<Entry>, LoadError>(
                LoadError::MalformedLine { line: (n + 1) as usize },
            )
        },
{
    lemma_first_malformed(lines_of(text));
}

} // verus!
