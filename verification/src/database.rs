//! The store itself: load it from a text, change it, write it as a text.

use vstd::prelude::*;
use crate::error::{InvalidRecordError, LoadError, ReadFailure};
use crate::format::{
    entry_of, has_delimiter, holds_delimiter, lemma_entry_of, lemma_holds_delimiter,
    lemma_lines_of, lines_of, malformed, parse_line, render, split_lines, storable, write_line,
    Entry, Record, LINE_TERMINATOR,
};
use crate::laws::law_round_trip;
use crate::model::{
    has_key, lemma_mapping_keys, lemma_mapping_len, lemma_mapping_value, lemma_put, mapping_of,
    put, well_formed,
};

verus! {

/// The entries that a store holds once it has read `lines` from the first to
/// the last: each line that stores a record puts it, every other line is
/// passed over.
pub open spec fn stored(lines: Seq<Seq<char>>) -> Seq<Entry>
    decreases lines.len(),
{
    if lines.len() == 0 {
        Seq::empty()
    } else {
        match entry_of(lines.last()) {
            Some(e) => put(stored(lines.drop_last()), e),
            None => stored(lines.drop_last()),
        }
    }
}

/// How many lines stand before the first malformed one; `lines.len()` where
/// none is malformed.
pub open spec fn first_malformed(lines: Seq<Seq<char>>) -> int
    decreases lines.len(),
{
    if lines.len() == 0 || malformed(lines[0]) {
        0
    } else {
        1 + first_malformed(lines.drop_first())
    }
}

/// What loading `text` gives: the entries stored by its lines, or the number
/// of its first malformed line.
pub open spec fn decoded(text: Seq<char>) -> Result<Seq<Entry>, LoadError> {
    let lines = lines_of(text);
    let n = first_malformed(lines);
    if 0 <= n < lines.len() {
        Err(LoadError::MalformedLine { line: (n + 1) as usize })
    } else {
        Ok(stored(lines))
    }
}

/// `first_malformed` is in range, no malformed line stands before it, and a
/// malformed line stands at it unless it is the length.
pub proof fn lemma_first_malformed(lines: Seq<Seq<char>>)
    ensures
        0 <= first_malformed(lines) <= lines.len(),
        forall|j: int| 0 <= j < first_malformed(lines) ==> !malformed(#[trigger] lines[j]),
        first_malformed(lines) < lines.len() ==> malformed(lines[first_malformed(lines)]),
    decreases lines.len(),
{
    if lines.len() == 0 || malformed(lines[0]) {
    } else {
        let rest = lines.drop_first();
        lemma_first_malformed(rest);
        let r = first_malformed(rest);
        assert forall|j: int| 0 <= j < r + 1 implies !malformed(#[trigger] lines[j]) by {
            if j > 0 {
                assert(lines[j] == rest[j - 1]);
            }
        }
        if r < rest.len() {
            assert(lines[r + 1] == rest[r]);
        }
    }
}

/// An index with no malformed line before it, and a malformed line at it
/// unless it is the length, is the `first_malformed`.
pub proof fn lemma_first_malformed_is(lines: Seq<Seq<char>>, i: int)
    requires
        0 <= i <= lines.len(),
        forall|j: int| 0 <= j < i ==> !malformed(#[trigger] lines[j]),
        i < lines.len() ==> malformed(lines[i]),
    ensures
        first_malformed(lines) == i,
{
    lemma_first_malformed(lines);
}

/// A mapping from keys to values, kept as records in the order in which
/// their keys first came.
#[derive(Debug)]
pub struct Database {
    records: Vec<Record>,
}

impl View for Database {
    type V = Map<Seq<char>, Seq<char>>;

    open spec fn view(&self) -> Map<Seq<char>, Seq<char>> {
        mapping_of(self.entries())
    }
}

impl Database {
    /// The records of the store, in the order in which it writes them.
    pub closed spec fn entries(&self) -> Seq<Entry> {
        self.records@.map_values(|r: Record| r@)
    }

    /// No key stands twice, and every record can be stored and read back.
    pub open spec fn wf(&self) -> bool {
        well_formed(self.entries())
    }

    #[verifier::type_invariant]
    spec fn inv(&self) -> bool {
        self.wf()
    }

    /// A store that holds nothing.
    pub fn new() -> (db: Database)
        ensures
            db.entries() == Seq::<Entry>::empty(),
            db@ == Map::<Seq<char>, Seq<char>>::empty(),
            db.wf(),
    {
        let db = Database { records: Vec::new() };
        assert(db.entries() == Seq::<Entry>::empty());
        db
    }

    /// Where the record with the key `key` stands, if there is one.
    fn position(&self, key: &String) -> (at: Option<usize>)
        ensures
            match at {
                Some(i) => i < self.entries().len() && self.entries()[i as int].key == key@,
                None => !has_key(self.entries(), key@),
            },
    {
        let mut i: usize = 0;
        while i < self.records.len()
            invariant
                i <= self.records.len(),
                forall|j: int| 0 <= j < i ==> (#[trigger] self.entries()[j]).key != key@,
            decreases self.records.len() - i,
        {
            if self.records[i].key == *key {
                return Some(i);
            }
            i += 1;
        }
        None
    }

    /// Puts `record` into the store, in place of the record that has its
    /// key or, where there is none, behind the last record.
    fn store(&mut self, record: Record)
        requires
            storable(record@),
        ensures
            final(self).entries() == put(old(self).entries(), record@),
            final(self)@ == old(self)@.insert(record@.key, record@.value),
            final(self).wf(),
    {
        proof {
            use_type_invariant(&*self);
            lemma_put(self.entries(), record@);
        }
        let ghost before = self.entries();
        let ghost after = put(before, record@);
        let at = self.position(&record.key);
        // The records are taken out while they change, so that the store
        // is well formed at every step.
        let mut records: Vec<Record> = Vec::new();
        assert(records@.map_values(|r: Record| r@) == Seq::<Entry>::empty());
        core::mem::swap(&mut self.records, &mut records);
        match at {
            Some(i) => {
                assert(has_key(before, record@.key));
                records[i] = record;
            },
            None => {
                records.push(record);
            },
        }
        assert(records@.map_values(|r: Record| r@) == after);
        self.records = records;
    }

    /// How many keys the store holds.
    pub fn len(&self) -> (n: usize)
        ensures
            n == self@.len(),
            n == self.entries().len(),
    {
        proof {
            use_type_invariant(self);
            lemma_mapping_len(self.entries());
        }
        self.records.len()
    }

    /// Whether the store holds nothing.
    pub fn is_empty(&self) -> (empty: bool)
        ensures
            empty == (self@.len() == 0),
            empty == (self.entries().len() == 0),
    {
        self.len() == 0
    }

    /// The value that the store holds for `key`, if it holds one.
    pub fn get(&self, key: &str) -> (value: Option<&str>)
        ensures
            match value {
                Some(v) => self@.contains_key(key@) && self@[key@] == v@,
                None => !self@.contains_key(key@),
            },
    {
        proof {
            use_type_invariant(self);
            lemma_mapping_keys(self.entries());
        }
        let wanted = key.to_owned();
        match self.position(&wanted) {
            Some(i) => {
                proof {
                    lemma_mapping_value(self.entries(), i as int);
                }
                Some(self.records[i].value.as_str())
            },
            None => None,
        }
    }

    /// Puts the value `value` under the key `key`, in place of the value
    /// that the store held for that key if it held one. A key or a value
    /// that holds a tab or a line terminator is refused, and the store
    /// stays as it was.
    pub fn insert(&mut self, key: String, value: String) -> (done: Result<(), InvalidRecordError>)
        ensures
            match done {
                Ok(_) => {
                    &&& !holds_delimiter(key@)
                    &&& !holds_delimiter(value@)
                    &&& final(self).entries() == put(
                        old(self).entries(),
                        Entry { key: key@, value: value@ },
                    )
                    &&& final(self)@ == old(self)@.insert(key@, value@)
                },
                Err(e) => {
                    &&& *final(self) == *old(self)
                    &&& holds_delimiter(key@) ==> e == InvalidRecordError::Key
                    &&& !holds_delimiter(key@) ==> e == InvalidRecordError::Value && holds_delimiter(
                        value@,
                    )
                },
            },
            final(self).wf(),
    {
        proof {
            use_type_invariant(&*self);
            lemma_holds_delimiter(key@);
            lemma_holds_delimiter(value@);
        }
        if has_delimiter(key.as_str()) {
            Err(InvalidRecordError::Key)
        } else if has_delimiter(value.as_str()) {
            Err(InvalidRecordError::Value)
        } else {
            self.store(Record { key, value });
            Ok(())
        }
    }

    /// Loads a store from `text`: every line that is not empty holds a
    /// record, its key before the first tab and its value behind it, and of
    /// two records with one key the later one stays. A line that is not
    /// empty and has no tab is refused, with its number.
    pub fn parse(text: &str) -> (loaded: Result<Database, LoadError>)
        ensures
            match loaded {
                Ok(db) => decoded(text@) == Ok::<Seq<Entry>, LoadError>(db.entries()) && db.wf(),
                Err(e) => decoded(text@) == Err::<Seq<Entry>, LoadError>(e),
            },
    {
        let lines = split_lines(text);
        let ghost all = lines_of(text@);
        let mut db = Database::new();
        let mut i: usize = 0;
        proof {
            lemma_lines_of(text@);
            assert(all.take(0) == Seq::<Seq<char>>::empty());
        }
        while i < lines.len()
            invariant
                i <= lines.len(),
                all == lines_of(text@),
                lines.deep_view() == all,
                forall|j: int| 0 <= j < all.len() ==> !(#[trigger] all[j]).contains(LINE_TERMINATOR),
                forall|j: int| 0 <= j < i ==> !malformed(#[trigger] all[j]),
                db.entries() == stored(all.take(i as int)),
                db.wf(),
            decreases lines.len() - i,
        {
            let ghost line = all[i as int];
            proof {
                assert(lines[i as int]@ == line);
                assert(all.take(i + 1).drop_last() == all.take(i as int));
                assert(all.take(i + 1).last() == line);
                lemma_entry_of(line);
            }
            match parse_line(lines[i].as_str()) {
                Some(record) => {
                    db.store(record);
                },
                None => {
                    if !lines[i].as_str().is_empty() {
                        proof {
                            lemma_first_malformed_is(all, i as int);
                        }
                        return Err(LoadError::MalformedLine { line: i + 1 });
                    }
                },
            }
            i += 1;
        }
        proof {
            assert(all.take(i as int) == all);
            lemma_first_malformed_is(all, i as int);
        }
        Ok(db)
    }

    /// Loads a store from what reading its text gave. A text that was read
    /// is parsed. Where nothing is kept yet and `create_if_missing` is set,
    /// the store is empty; every other failure to read is handed on.
    pub fn load(read: Result<String, ReadFailure>, create_if_missing: bool) -> (loaded: Result<
        Database,
        LoadError,
    >)
        ensures
            match read {
                Ok(text) => match loaded {
                    Ok(db) => decoded(text@) == Ok::<Seq<Entry>, LoadError>(db.entries())
                        && db.wf(),
                    Err(e) => decoded(text@) == Err::<Seq<Entry>, LoadError>(e),
                },
                Err(failure) => if failure == ReadFailure::NotFound && create_if_missing {
                    loaded matches Ok(db) && db.entries() == Seq::<Entry>::empty() && db.wf()
                } else {
                    loaded == Err::<Database, LoadError>(LoadError::Read(failure))
                },
            },
    {
        match read {
            Ok(text) => Database::parse(text.as_str()),
            Err(ReadFailure::NotFound) => {
                if create_if_missing {
                    Ok(Database::new())
                } else {
                    Err(LoadError::Read(ReadFailure::NotFound))
                }
            },
            Err(failure) => Err(LoadError::Read(failure)),
        }
    }

    /// The text that stores what the store holds: a line for each record,
    /// in the order in which the keys first came.
    pub fn serialize(&self) -> (text: String)
        ensures
            text@ == render(self.entries()),
            decoded(text@) == Ok::<Seq<Entry>, LoadError>(self.entries()),
    {
        proof {
            use_type_invariant(self);
            law_round_trip(*self);
        }
        let mut text = String::new();
        let mut i: usize = 0;
        assert(self.entries().take(0) == Seq::<Entry>::empty());
        while i < self.records.len()
            invariant
                i <= self.records.len(),
                text@ == render(self.entries().take(i as int)),
            decreases self.records.len() - i,
        {
            proof {
                assert(self.entries().take(i + 1).drop_last() == self.entries().take(i as int));
                assert(self.entries().take(i + 1).last() == self.records[i as int]@);
            }
            write_line(&mut text, &self.records[i]);
            i += 1;
        }
        assert(self.entries().take(i as int) == self.entries());
        text
    }
}

} // verus!
