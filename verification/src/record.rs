use vstd::prelude::*;

use crate::error::StoreError;
use crate::ordering::lemma_str_lt_irreflexive;
use crate::ordering::str_less;
use crate::ordering::str_same;
use crate::sorted::SortKey;
use crate::sorted::has_key;
use crate::sorted::insert_sorted;
use crate::sorted::pair_lt;
use crate::sorted::sorted_by_key;

verus! {

/// One note: a timestamp and a text value.
///
/// The timestamp is kept in its wire form, a fixed-width UTC instant such
/// as `2017-03-05T14:30:00Z`; the fixed width makes the chronological
/// order and the character order one and the same.
#[derive(Clone, Debug, PartialEq, Eq)]
pub struct Note {
    pub time_stamp: String,
    pub value: String,
}

impl View for Note {
    type V = (Seq<char>, Seq<char>);

    open spec fn view(&self) -> (Seq<char>, Seq<char>) {
        (self.time_stamp@, self.value@)
    }
}

impl SortKey for Note {
    open spec fn key(&self) -> (Seq<char>, Seq<char>) {
        self@
    }

    fn key_less(&self, other: &Self) -> (r: bool)
        ensures
            r == pair_lt(self.key(), other.key()),
    {
        if str_same(self.time_stamp.as_str(), other.time_stamp.as_str()) {
            proof {
                lemma_str_lt_irreflexive(self.time_stamp@);
            }
            str_less(self.value.as_str(), other.value.as_str())
        } else {
            str_less(self.time_stamp.as_str(), other.time_stamp.as_str())
        }
    }

    fn key_same(&self, other: &Self) -> (r: bool)
        ensures
            r == (self.key() == other.key()),
    {
        str_same(self.time_stamp.as_str(), other.time_stamp.as_str()) && str_same(
            self.value.as_str(),
            other.value.as_str(),
        )
    }
}

/// A decimal digit.
pub open spec fn is_digit(c: char) -> bool {
    48 <= c as int <= 57
}

/// The number written by the two digits at `i` and `i + 1`.
pub open spec fn two_digits(s: Seq<char>, i: int) -> int {
    10 * (s[i] as int - 48) + (s[i + 1] as int - 48)
}

/// The fixed wire form of a timestamp: `YYYY-MM-DDTHH:MM:SSZ`, a UTC
/// instant of exactly twenty characters, with the month, day, hour,
/// minute and second in their calendar ranges.
pub open spec fn valid_timestamp(s: Seq<char>) -> bool {
    &&& s.len() == 20
    &&& is_digit(s[0]) && is_digit(s[1]) && is_digit(s[2]) && is_digit(s[3])
    &&& s[4] == '-' && s[7] == '-' && s[10] == 'T' && s[13] == ':' && s[16] == ':' && s[19] == 'Z'
    &&& is_digit(s[5]) && is_digit(s[6]) && is_digit(s[8]) && is_digit(s[9])
    &&& is_digit(s[11]) && is_digit(s[12]) && is_digit(s[14]) && is_digit(s[15])
    &&& is_digit(s[17]) && is_digit(s[18])
    &&& 1 <= two_digits(s, 5) <= 12
    &&& 1 <= two_digits(s, 8) <= 31
    &&& two_digits(s, 11) <= 23
    &&& two_digits(s, 14) <= 59
    &&& two_digits(s, 17) <= 59
}

/// A note the write path accepts and the store may hold: a well-formed
/// timestamp and a non-empty value.
pub open spec fn wf_row(k: (Seq<char>, Seq<char>)) -> bool {
    valid_timestamp(k.0) && k.1.len() > 0
}

/// Every row of the sequence is one the store may hold.
pub open spec fn wf_rows(rows: Seq<(Seq<char>, Seq<char>)>) -> bool {
    forall|i: int| 0 <= i < rows.len() ==> wf_row(#[trigger] rows[i])
}

/// Reads one character and decides whether it is a decimal digit.
fn check_digit(s: &str, i: usize) -> (r: bool)
    requires
        i < s@.len(),
    ensures
        r == is_digit(s@[i as int]),
{
    let c = s.get_char(i);
    let d = c as u32;
    48 <= d && d <= 57
}

/// The number written by the two digits at `i` and `i + 1`.
fn read_two_digits(s: &str, i: usize) -> (r: u32)
    requires
        i < 19,
        i + 1 < s@.len(),
        is_digit(s@[i as int]),
        is_digit(s@[i as int + 1]),
    ensures
        r == two_digits(s@, i as int),
{
    let hi = s.get_char(i) as u32;
    let lo = s.get_char(i + 1) as u32;
    10 * (hi - 48) + (lo - 48)
}

/// Decides the timestamp wire form, character by character.
pub fn timestamp_is_valid(s: &str) -> (r: bool)
    ensures
        r == valid_timestamp(s@),
{
    if s.unicode_len() != 20 {
        return false;
    }
    if !(check_digit(s, 0) && check_digit(s, 1) && check_digit(s, 2) && check_digit(s, 3)) {
        return false;
    }
    if !(s.get_char(4) == '-' && s.get_char(7) == '-' && s.get_char(10) == 'T') {
        return false;
    }
    if !(s.get_char(13) == ':' && s.get_char(16) == ':' && s.get_char(19) == 'Z') {
        return false;
    }
    if !(check_digit(s, 5) && check_digit(s, 6) && check_digit(s, 8) && check_digit(s, 9)) {
        return false;
    }
    if !(check_digit(s, 11) && check_digit(s, 12) && check_digit(s, 14) && check_digit(s, 15)) {
        return false;
    }
    if !(check_digit(s, 17) && check_digit(s, 18)) {
        return false;
    }
    let month = read_two_digits(s, 5);
    let day = read_two_digits(s, 8);
    let hour = read_two_digits(s, 11);
    let minute = read_two_digits(s, 14);
    let second = read_two_digits(s, 17);
    1 <= month && month <= 12 && 1 <= day && day <= 31 && hour <= 23 && minute <= 59 && second
        <= 59
}

/// What the csv crate writes for one record of two fields: a deterministic
/// function of the two fields alone (delimiter, quoting and terminator are
/// fixed by the writer's configuration).
pub uninterp spec fn record_encoding(time_stamp: Seq<char>, value: Seq<char>) -> Seq<u8>;

/// The bytes of a whole record file: each row's record, in order.
pub open spec fn encoding_of(rows: Seq<(Seq<char>, Seq<char>)>) -> Seq<u8>
    decreases rows.len(),
{
    if rows.len() == 0 {
        Seq::empty()
    } else {
        record_encoding(rows[0].0, rows[0].1) + encoding_of(rows.drop_first())
    }
}

/// The views of a sequence of notes, in order.
pub open spec fn note_views(s: Seq<Note>) -> Seq<(Seq<char>, Seq<char>)> {
    s.map_values(|n: Note| n@)
}

/// Appending one row encodes to appending its record.
pub proof fn lemma_encoding_append(rows: Seq<(Seq<char>, Seq<char>)>, row: (Seq<char>, Seq<char>))
    ensures
        encoding_of(rows.push(row)) == encoding_of(rows) + record_encoding(row.0, row.1),
    decreases rows.len(),
{
    if rows.len() == 0 {
        let e = Seq::<(Seq<char>, Seq<char>)>::empty();
        assert(rows.push(row).drop_first() =~= e);
        assert(encoding_of(e) == Seq::<u8>::empty());
        assert(rows.push(row)[0] == row);
        assert(encoding_of(rows.push(row)) =~= encoding_of(rows) + record_encoding(row.0, row.1));
    } else {
        assert(rows.push(row).drop_first() =~= rows.drop_first().push(row));
        lemma_encoding_append(rows.drop_first(), row);
        assert(rows.push(row)[0] == rows[0]);
        assert(encoding_of(rows.push(row)) =~= encoding_of(rows) + record_encoding(row.0, row.1));
    }
}

/// Concatenating two record files encodes the concatenation of their rows:
/// the archive's byte-level merge loses no record and adds none.
pub proof fn lemma_encoding_concat(a: Seq<(Seq<char>, Seq<char>)>, b: Seq<(Seq<char>, Seq<char>)>)
    ensures
        encoding_of(a + b) == encoding_of(a) + encoding_of(b),
    decreases a.len(),
{
    if a.len() == 0 {
        assert(a + b =~= b);
        assert(encoding_of(a) + encoding_of(b) =~= encoding_of(b));
    } else {
        assert((a + b).drop_first() =~= a.drop_first() + b);
        lemma_encoding_concat(a.drop_first(), b);
        assert((a + b)[0] == a[0]);
        assert(encoding_of(a + b) =~= encoding_of(a) + encoding_of(b));
    }
}

/// Relies on `csv::Writer` over an in-memory buffer: serializing a tuple
/// writes exactly one record with no header row, a deterministic function
/// of the two fields; writing into a `Vec<u8>` cannot fail.
#[verifier::external_body]
pub(crate) fn encode_record(note: &Note) -> (r: Vec<u8>)
    ensures
        r@ == record_encoding(note.time_stamp@, note.value@),
{
    let mut wtr = csv::WriterBuilder::new().has_headers(false).from_writer(Vec::new());
    wtr.serialize((&note.time_stamp, &note.value)).expect("serializing into a Vec can not fail");
    wtr.into_inner().expect("flushing into a Vec can not fail")
}

/// Relies on `csv::Reader`: reading with no header row yields the records
/// in file order, and reading back what `csv::Writer` wrote yields exactly
/// the written records (the crate's round-trip guarantee); a malformed
/// file surfaces as an error from `deserialize`.
#[verifier::external_body]
pub(crate) fn decode_records(bytes: &Vec<u8>) -> (r: Result<Vec<Note>, StoreError>)
    ensures
        r matches Err(e) ==> e == StoreError::DecodeError,
        r matches Ok(v) ==> forall|rows: Seq<(Seq<char>, Seq<char>)>|
            bytes@ == encoding_of(rows) ==> note_views(v@) == rows,
        forall|rows: Seq<(Seq<char>, Seq<char>)>| bytes@ == encoding_of(rows) ==> r is Ok,
{
    let mut rdr = csv::ReaderBuilder::new().has_headers(false).from_reader(bytes.as_slice());
    let mut out = Vec::new();
    for rec in rdr.deserialize::<(String, String)>() {
        match rec {
            Ok((time_stamp, value)) => out.push(Note { time_stamp, value }),
            Err(_) => return Err(StoreError::DecodeError),
        }
    }
    Ok(out)
}

/// A well-formed note collection holds no two notes with the same view:
/// its strict order rules duplicates out.
pub proof fn lemma_notes_no_duplicates(notes: Notes)
    requires
        notes.wf(),
    ensures
        notes@.no_duplicates(),
{
    assert forall|i: int, j: int|
        0 <= i < notes@.len() && 0 <= j < notes@.len() && i != j implies notes@[i] != notes@[j] by {
        let s = notes.seq();
        assert(notes@[i] == s[i].key() && notes@[j] == s[j].key());
        if i < j {
            assert(crate::sorted::pair_lt(s[i].key(), s[j].key()));
        } else {
            assert(crate::sorted::pair_lt(s[j].key(), s[i].key()));
        }
        crate::sorted::lemma_pair_lt_irreflexive(notes@[i]);
    }
}

/// Encodes one note as the record the write path appends to a project
/// file; a note with an empty value is rejected before anything else
/// happens.
pub fn encode_note(note: &Note) -> (r: Result<Vec<u8>, StoreError>)
    ensures
        note.value@.len() == 0 ==> (r matches Err(e) && e == StoreError::EmptyValue),
        note.value@.len() > 0 ==> (r matches Ok(b) && b@ == record_encoding(
            note.time_stamp@,
            note.value@,
        )),
{
    if note.value.as_str().is_empty() {
        return Err(StoreError::EmptyValue);
    }
    Ok(encode_record(note))
}

/// A set of notes, ordered by timestamp and then by value, with no
/// duplicates; what a project holds in memory.
#[derive(Clone, Debug, PartialEq, Eq)]
pub struct Notes {
    notes: Vec<Note>,
}

impl View for Notes {
    type V = Seq<(Seq<char>, Seq<char>)>;

    closed spec fn view(&self) -> Seq<(Seq<char>, Seq<char>)> {
        note_views(self.notes@)
    }
}

/// Membership of a key among the views of a note sequence agrees with
/// membership by key among the notes themselves.
pub proof fn lemma_views_contain(s: Seq<Note>, k: (Seq<char>, Seq<char>))
    ensures
        note_views(s).contains(k) == has_key(s, k),
{
    if note_views(s).contains(k) {
        let i = choose|i: int| 0 <= i < note_views(s).len() && note_views(s)[i] == k;
        assert(s[i].key() == k);
    }
    if has_key(s, k) {
        let i = choose|i: int| 0 <= i < s.len() && s[i].key() == k;
        assert(note_views(s)[i] == k);
    }
}

impl Notes {
    /// The notes inside, in their sorted order.
    pub closed spec fn seq(self) -> Seq<Note> {
        self.notes@
    }

    /// The collection is sorted strictly: its order is the note order and
    /// it holds no duplicates.
    pub closed spec fn wf(self) -> bool {
        sorted_by_key(self.notes@)
    }

    /// An empty collection.
    pub fn new() -> (r: Notes)
        ensures
            r.wf(),
            r@ =~= Seq::<(Seq<char>, Seq<char>)>::empty(),
    {
        let r = Notes { notes: Vec::new() };
        proof {
            assert(r.notes@.len() == 0);
        }
        r
    }

    /// How many notes the collection holds.
    pub fn len(&self) -> (r: usize)
        ensures
            r == self@.len(),
    {
        self.notes.len()
    }

    /// The note at a position of the sorted order.
    pub fn get(&self, i: usize) -> (r: &Note)
        requires
            i < self@.len(),
        ensures
            r@ == self@[i as int],
    {
        &self.notes[i]
    }

    /// Adds a note; one equal to a note already present is dropped, as in
    /// any set.
    pub fn insert(&mut self, note: Note)
        requires
            old(self).wf(),
        ensures
            final(self).wf(),
            forall|k: (Seq<char>, Seq<char>)|
                final(self)@.contains(k) == (old(self)@.contains(k) || k == note@),
            final(self)@.len() == old(self)@.len() + (if old(self)@.contains(note@) {
                0int
            } else {
                1int
            }),
    {
        let ghost olds = self.notes@;
        let ghost k0 = note@;
        insert_sorted(&mut self.notes, note);
        proof {
            lemma_views_contain(olds, k0);
            assert forall|k: (Seq<char>, Seq<char>)|
                self@.contains(k) == (note_views(olds).contains(k) || k == k0) by {
                lemma_views_contain(self.notes@, k);
                lemma_views_contain(olds, k);
            }
        }
    }
}

} // verus!
