//! The database: an append-only log of operations and the indexes kept beside it.

use vstd::prelude::*;
use vstd::string::*;
use crate::entry::Entry;
use crate::keys::{KeyOrder, compare_keys};
use crate::limits::{json_within_limits, within_parser_limits};
use crate::index::{Index, IndexEntry};
use crate::json::{JsonObject, JsonValue};
use crate::outside::{
    char_is_alphanumeric, is_ascii_alnum, json_accepts, push_char, random_ascii_char,
    spec_json_accepts,
};
use crate::records::{
    complete_lines, join_records, lemma_log_text_round_trip, split_complete_lines, string_views,
    strip_newlines, stripped,
};
use rustc_serialize::json::EncoderError;
use std::collections::VecDeque;

verus! {

/// Why storing a document failed.
pub enum DBError {
    EncodeError(EncoderError),
    WriteError(std::io::Error),
}

/// The field under which every document carries its identifier.
pub open spec fn id_key() -> Seq<char> {
    seq!['_', 'i', 'd']
}

/// The number of characters in a generated identifier.
pub const ID_LEN: usize = 15;

/// A generated identifier: `ID_LEN` ASCII letters and digits.
pub open spec fn is_valid_id(id: Seq<char>) -> bool {
    &&& id.len() == ID_LEN
    &&& forall|i: int| 0 <= i < id.len() ==> is_ascii_alnum(#[trigger] id[i])
}

/// The fields of `data` that a stored document keeps: all of them for an
/// object, none for any other value.
pub open spec fn fields_of(data: JsonValue) -> Map<Seq<char>, JsonValue> {
    match data {
        JsonValue::Object(o) => o@,
        _ => Map::empty(),
    }
}

/// `doc` is `data` as stored: an object with the fields of `data` and, under
/// `_id`, a string holding a generated identifier.
pub open spec fn is_stamped(doc: JsonValue, data: JsonValue) -> bool {
    &&& doc matches JsonValue::Object(o)
    &&& o@.contains_key(id_key())
    &&& o@[id_key()] matches JsonValue::String(s)
    &&& is_valid_id(s@)
    &&& o@.remove(id_key()) == fields_of(data).remove(id_key())
}

/// A line that loading accepts: within the parser's bounds, and a JSON
/// document to the parser.
pub open spec fn line_loads(line: Seq<char>) -> bool {
    json_within_limits(line) && spec_json_accepts(line)
}

/// The names of the indexes, position by position.
pub open spec fn index_names(s: Seq<(String, Index)>) -> Seq<Seq<char>> {
    s.map_values(|e: (String, Index)| e.0@)
}

/// Each index name with the contents of its index.
pub open spec fn index_map(s: Seq<(String, Index)>) -> Map<Seq<char>, Seq<(JsonValue, IndexEntry)>> {
    Map::new(
        |k: Seq<char>| index_names(s).contains(k),
        |k: Seq<char>| s[choose|i: int| 0 <= i < s.len() && index_names(s)[i] == k].1@,
    )
}

proof fn lemma_index_map_update(s: Seq<(String, Index)>, i: int, e: (String, Index))
    requires
        index_names(s).no_duplicates(),
        0 <= i < s.len(),
        e.0@ == s[i].0@,
    ensures
        index_names(s.update(i, e)).no_duplicates(),
        index_map(s.update(i, e)) == index_map(s).insert(e.0@, e.1@),
{
    let t = s.update(i, e);
    assert(index_names(t) =~= index_names(s));
    let m1 = index_map(t);
    let m2 = index_map(s).insert(e.0@, e.1@);
    assert(m1.dom() =~= m2.dom()) by {
        assert(index_names(s)[i] == e.0@);
    }
    assert forall|k: Seq<char>| m1.contains_key(k) implies m1[k] == m2[k] by {
        let j = choose|j: int| 0 <= j < t.len() && index_names(t)[j] == k;
        if k == e.0@ {
            assert(index_names(t)[i] == k);
        } else {
            let j2 = choose|j2: int| 0 <= j2 < s.len() && index_names(s)[j2] == k;
            assert(index_names(s)[j] == k);
            assert(j != i);
            assert(j2 == j);
        }
    }
    assert(m1 =~= m2);
}

proof fn lemma_index_map_push(s: Seq<(String, Index)>, e: (String, Index))
    requires
        index_names(s).no_duplicates(),
        !index_names(s).contains(e.0@),
    ensures
        index_names(s.push(e)).no_duplicates(),
        index_map(s.push(e)) == index_map(s).insert(e.0@, e.1@),
{
    let t = s.push(e);
    assert(index_names(t) =~= index_names(s).push(e.0@));
    let m1 = index_map(t);
    let m2 = index_map(s).insert(e.0@, e.1@);
    assert forall|k: Seq<char>| m1.contains_key(k) <==> m2.contains_key(k) by {
        if index_names(s).contains(k) {
            let j = choose|j: int| 0 <= j < s.len() && index_names(s)[j] == k;
            assert(index_names(t)[j] == k);
        }
        if index_names(t).contains(k) {
            let j = choose|j: int| 0 <= j < t.len() && index_names(t)[j] == k;
            if j < s.len() {
                assert(index_names(s)[j] == k);
            }
        }
        assert(index_names(t)[s.len() as int] == e.0@);
    }
    assert(m1.dom() =~= m2.dom());
    assert forall|k: Seq<char>| m1.contains_key(k) implies m1[k] == m2[k] by {
        let j = choose|j: int| 0 <= j < t.len() && index_names(t)[j] == k;
        if k == e.0@ {
            assert(index_names(t)[s.len() as int] == k);
        } else {
            let j2 = choose|j2: int| 0 <= j2 < s.len() && index_names(s)[j2] == k;
            assert(index_names(t)[j2] == k);
        }
    }
    assert(m1 =~= m2);
}

/// The document that stores `data` under identifier `id`: `data`'s fields if
/// it is an object (nothing if not), with `_id` set to `id`.
pub fn stamp_document(data: JsonValue, id: String) -> (doc: JsonValue)
    ensures
        doc matches JsonValue::Object(o) && o@ == fields_of(data).insert(id_key(), JsonValue::String(id)),
{
    let mut obj = match data {
        JsonValue::Object(o) => o,
        _ => JsonObject::new(),
    };
    let key = String::from_str("_id");
    proof {
        reveal_strlit("_id");
        assert(key@ =~= id_key());
    }
    obj.insert(key, JsonValue::String(id));
    JsonValue::Object(obj)
}

/// The operations logged so far and the indexes over stored documents.
pub struct Database {
    log: VecDeque<Entry>,
    indexes: Vec<(String, Index)>,
}

impl Database {
    #[verifier::type_invariant]
    spec fn index_names_distinct(self) -> bool {
        index_names(self.indexes@).no_duplicates()
    }

    /// The logged operations, oldest first.
    pub closed spec fn log_view(&self) -> Seq<Entry> {
        self.log@
    }

    /// The indexes, by field name.
    pub closed spec fn indexes_view(&self) -> Map<Seq<char>, Seq<(JsonValue, IndexEntry)>> {
        index_map(self.indexes@)
    }

    /// An empty database: nothing logged, no index.
    pub fn new() -> (db: Database)
        ensures
            db.log_view() == Seq::<Entry>::empty(),
            db.indexes_view() == Map::<Seq<char>, Seq<(JsonValue, IndexEntry)>>::empty(),
    {
        let db = Database { log: VecDeque::new(), indexes: Vec::new() };
        assert(db.indexes_view() =~= Map::<Seq<char>, Seq<(JsonValue, IndexEntry)>>::empty());
        db
    }

    /// A fresh identifier: `ID_LEN` random characters, those of `rand`'s
    /// stream of letters and digits that are alphanumeric.
    pub fn gen_random_id() -> (id: String)
        ensures
            is_valid_id(id@),
    {
        let mut id = String::new();
        let mut n: usize = 0;
        while n < ID_LEN
            invariant
                n == id@.len(),
                n <= ID_LEN,
                forall|i: int| 0 <= i < id@.len() ==> is_ascii_alnum(#[trigger] id@[i]),
            decreases ID_LEN - n,
        {
            let drawn = random_ascii_char();
            if let Some(c) = drawn {
                if char_is_alphanumeric(c) {
                    push_char(&mut id, c);
                    n = n + 1;
                }
            }
        }
        id
    }

    /// Stores `data`: the document `stamp_document` makes of it, under a fresh
    /// identifier, is appended to the log as an insertion.
    pub fn insert(&mut self, data: JsonValue) -> (r: Result<(), DBError>)
        ensures
            r is Ok,
            final(self).indexes_view() == old(self).indexes_view(),
            final(self).log_view().len() == old(self).log_view().len() + 1,
            final(self).log_view().drop_last() == old(self).log_view(),
            final(self).log_view().last() matches Entry::Insert(doc) && is_stamped(doc, data),
    {
        let ghost original = data;
        let id = Self::gen_random_id();
        let doc = stamp_document(data, id);
        proof {
            let o = doc->Object_0;
            assert(o@.remove(id_key()) =~= fields_of(original).remove(id_key()));
            use_type_invariant(&*self);
        }
        let mut log: VecDeque<Entry> = VecDeque::new();
        std::mem::swap(&mut log, &mut self.log);
        log.push_back(Entry::Insert(doc));
        self.log = log;
        proof {
            assert(self.log@.drop_last() =~= old(self).log@);
        }
        Ok(())
    }

    /// Hands over everything logged so far, oldest first, and empties the log.
    pub fn take_log(&mut self) -> (taken: VecDeque<Entry>)
        ensures
            taken@ == old(self).log_view(),
            final(self).log_view() == Seq::<Entry>::empty(),
            final(self).indexes_view() == old(self).indexes_view(),
    {
        proof {
            use_type_invariant(&*self);
        }
        let mut taken: VecDeque<Entry> = VecDeque::new();
        std::mem::swap(&mut taken, &mut self.log);
        taken
    }

    /// The logged operations, oldest first.
    pub fn log(&self) -> (r: &VecDeque<Entry>)
        ensures
            r@ == self.log_view(),
    {
        &self.log
    }

    /// The index kept for field `name`, if any.
    pub fn index(&self, name: &str) -> (r: Option<&Index>)
        ensures
            match r {
                Some(ix) => self.indexes_view().contains_key(name@) && ix@ == self.indexes_view()[name@],
                None => !self.indexes_view().contains_key(name@),
            },
    {
        let n = self.indexes.len();
        let mut i: usize = 0;
        while i < n
            invariant
                n == self.indexes@.len(),
                i <= n,
                forall|j: int| 0 <= j < i ==> index_names(self.indexes@)[j] != name@,
            decreases n - i,
        {
            if compare_keys(self.indexes[i].0.as_str(), name) == KeyOrder::Same {
                proof {
                    use_type_invariant(self);
                    let s = self.indexes@;
                    assert(index_names(s)[i as int] == name@);
                    let j = choose|j: int| 0 <= j < s.len() && index_names(s)[j] == name@;
                    assert(index_names(s).contains(name@));
                    assert(j == i);
                }
                return Some(&self.indexes[i].1);
            }
            i = i + 1;
        }
        assert(!index_names(self.indexes@).contains(name@));
        None
    }

    /// Puts `index` under field `name`, replacing any index already there.
    fn set_index(&mut self, name: String, index: Index)
        ensures
            final(self).log_view() == old(self).log_view(),
            final(self).indexes_view() == old(self).indexes_view().insert(name@, index@),
    {
        proof {
            use_type_invariant(&*self);
        }
        let mut indexes: Vec<(String, Index)> = Vec::new();
        std::mem::swap(&mut indexes, &mut self.indexes);
        let n = indexes.len();
        let mut i: usize = 0;
        while i < n && !(indexes[i].0 == name)
            invariant
                n == indexes@.len(),
                i <= n,
                indexes@ == old(self).indexes@,
                forall|j: int| 0 <= j < i ==> index_names(indexes@)[j] != name@,
            decreases n - i,
        {
            i = i + 1;
        }
        let ghost before = indexes@;
        let ghost name_view = name@;
        if i < n {
            indexes.remove(i);
            indexes.insert(i, (name, index));
            proof {
                assert(indexes@ =~= before.update(i as int, indexes@[i as int]));
                lemma_index_map_update(before, i as int, indexes@[i as int]);
            }
        } else {
            indexes.push((name, index));
            proof {
                assert(!index_names(before).contains(name_view));
                lemma_index_map_push(before, indexes@[i as int]);
                assert(indexes@ =~= before.push(indexes@[i as int]));
            }
        }
        self.indexes = indexes;
    }

    /// Loads the database text: registers an empty `_id` index; every complete
    /// line must be a JSON document within the parser's bounds. Gives the
    /// number of such lines.
    pub fn load_database(&mut self, text: &str) -> (n: usize)
        requires
            forall|i: int| 0 <= i < complete_lines(text@).len() ==> line_loads(#[trigger] complete_lines(text@)[i]),
        ensures
            n == complete_lines(text@).len(),
            final(self).log_view() == old(self).log_view(),
            final(self).indexes_view() == old(self).indexes_view().insert(id_key(), Seq::<(JsonValue, IndexEntry)>::empty()),
    {
        let id = String::from_str("_id");
        proof {
            reveal_strlit("_id");
            assert(id@ =~= id_key());
        }
        self.set_index(id, Index::new());
        let lines = split_complete_lines(text);
        proof {
            assert(string_views(lines@).len() == lines@.len());
        }
        lines.len()
    }

    /// Loads the database text if every complete line is a JSON document
    /// within the parser's bounds, as `load_database` does; otherwise changes
    /// nothing and gives the position of the first line that is not. A line
    /// outside the bounds is not handed to the parser.
    pub fn load_database_checked(&mut self, text: &str) -> (r: Result<usize, usize>)
        ensures
            match r {
                Ok(n) => {
                    &&& forall|i: int| 0 <= i < complete_lines(text@).len() ==> line_loads(#[trigger] complete_lines(text@)[i])
                    &&& n == complete_lines(text@).len()
                    &&& final(self).log_view() == old(self).log_view()
                    &&& final(self).indexes_view() == old(self).indexes_view().insert(id_key(), Seq::<(JsonValue, IndexEntry)>::empty())
                },
                Err(bad) => {
                    &&& bad < complete_lines(text@).len()
                    &&& !line_loads(complete_lines(text@)[bad as int])
                    &&& forall|i: int| 0 <= i < bad ==> line_loads(#[trigger] complete_lines(text@)[i])
                    &&& final(self).log_view() == old(self).log_view()
                    &&& final(self).indexes_view() == old(self).indexes_view()
                },
            },
    {
        let lines = split_complete_lines(text);
        let n = lines.len();
        let mut i: usize = 0;
        while i < n
            invariant
                n == lines@.len(),
                i <= n,
                string_views(lines@) == complete_lines(text@),
                forall|j: int| 0 <= j < i ==> line_loads(#[trigger] complete_lines(text@)[j]),
            decreases n - i,
        {
            proof {
                assert(string_views(lines@)[i as int] == lines@[i as int]@);
            }
            if !within_parser_limits(lines[i].as_str()) {
                return Err(i);
            }
            if !json_accepts(lines[i].as_str()) {
                return Err(i);
            }
            i = i + 1;
        }
        Ok(self.load_database(text))
    }
}

/// A log written by `log_text` from records that loading accepts loads
/// whole: every line it holds is accepted, one line per record.
pub proof fn lemma_written_log_loads(records: Seq<Seq<char>>)
    requires
        forall|i: int| 0 <= i < records.len() ==> line_loads(strip_newlines(#[trigger] records[i])),
    ensures
        complete_lines(join_records(stripped(records))).len() == records.len(),
        forall|i: int| 0 <= i < records.len() ==> line_loads(
            #[trigger] complete_lines(join_records(stripped(records)))[i],
        ),
{
    lemma_log_text_round_trip(records);
    let lines = complete_lines(join_records(stripped(records)));
    assert forall|i: int| 0 <= i < records.len() implies line_loads(#[trigger] lines[i]) by {
        assert(lines[i] == strip_newlines(records[i]));
    }
}

} // verus!
