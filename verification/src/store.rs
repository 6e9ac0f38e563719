//! The storage gateway: per-date file naming and whole-value read/write of
//! the two record kinds (free-text notes, structured task records).
//!
//! The filesystem itself stays with the caller; this module fixes every
//! decision the caller must not make: the data directory name, the file name
//! for each date key and kind, what a missing file means on load, and the
//! exact file content on save. A directory is modelled as a map from file
//! name to content; the public proof functions state the gateway laws over
//! that model: save/load round trips, absence handling, and whole-value
//! replacement on overwrite (last writer wins).

use vstd::prelude::*;
use vstd::string::StringExecFns;
use crate::codec::{
    all_records_fit, enc_records, lemma_round_trip, parse_records, parse_records_spec,
};
use crate::records::{ParseError, TaskRecord, TaskRecordView};

verus! {

// ---------------------------------------------------------------------------
// Names
// ---------------------------------------------------------------------------

/// The fixed application subdirectory of the user's documents location.
pub open spec fn data_dir_spec() -> Seq<char> {
    seq!['Z', 'e', 'n', 'P', 'l', 'a', 'n']
}

pub open spec fn note_suffix() -> Seq<char> {
    seq!['.', 'm', 'd']
}

pub open spec fn records_suffix() -> Seq<char> {
    seq!['.', 'j', 's', 'o', 'n']
}

/// File name for the note stored under a date key.
pub open spec fn note_name_spec(date: Seq<char>) -> Seq<char> {
    date + note_suffix()
}

/// File name for the task records stored under a date key.
pub open spec fn records_name_spec(date: Seq<char>) -> Seq<char> {
    date + records_suffix()
}

/// The data directory's name is a constant: every call resolves the same
/// location, so repeated resolution is idempotent as far as this library
/// decides it (the caller's directory creation is itself idempotent).
pub fn data_dir_name() -> (r: String)
    ensures
        r@ == data_dir_spec(),
{
    let r = String::from_str("ZenPlan");
    proof {
        reveal_strlit("ZenPlan");
        assert(r@ =~= data_dir_spec());
    }
    r
}

pub fn note_file_name(date: &str) -> (r: String)
    ensures
        r@ == note_name_spec(date@),
{
    let mut r = date.to_owned();
    r.append(".md");
    proof {
        reveal_strlit(".md");
        assert(".md"@ =~= note_suffix());
    }
    r
}

pub fn records_file_name(date: &str) -> (r: String)
    ensures
        r@ == records_name_spec(date@),
{
    let mut r = date.to_owned();
    r.append(".json");
    proof {
        reveal_strlit(".json");
        assert(".json"@ =~= records_suffix());
    }
    r
}

// ---------------------------------------------------------------------------
// Load policies
// ---------------------------------------------------------------------------

/// A note that was never saved reads back as the empty string: absence is not
/// an error. A found file's content is returned verbatim.
pub fn note_content(found: Option<String>) -> (r: String)
    ensures
        match found {
            Some(c) => r@ == c@,
            None => r@ == Seq::<char>::empty(),
        },
{
    match found {
        Some(c) => c,
        None => String::new(),
    }
}

/// A record file that was never saved reads back as the empty sequence; a
/// found file must parse, and a malformed one surfaces `ParseError` on this
/// direct load path (the aggregation scan instead skips it).
pub fn decode_records(found: Option<&str>) -> (r: Result<Vec<TaskRecord>, ParseError>)
    ensures
        match found {
            None => match r {
                Ok(v) => v.deep_view() == Seq::<TaskRecordView>::empty(),
                Err(_) => false,
            },
            Some(t) => match r {
                Ok(v) => parse_records_spec(t@) == Some(v.deep_view()),
                Err(_) => parse_records_spec(t@) is None,
            },
        },
{
    match found {
        None => {
            let v: Vec<TaskRecord> = Vec::new();
            proof {
                assert(v.deep_view() =~= Seq::<TaskRecordView>::empty());
            }
            Ok(v)
        },
        Some(t) => parse_records(t),
    }
}

// ---------------------------------------------------------------------------
// The directory model and the gateway laws
// ---------------------------------------------------------------------------

/// A directory is a map from file name to file content; writing replaces the
/// whole value under the name, never part of it.
pub open spec fn write_file(
    dir: Map<Seq<char>, Seq<char>>,
    name: Seq<char>,
    content: Seq<char>,
) -> Map<Seq<char>, Seq<char>> {
    dir.insert(name, content)
}

pub open spec fn save_note_in(
    dir: Map<Seq<char>, Seq<char>>,
    date: Seq<char>,
    content: Seq<char>,
) -> Map<Seq<char>, Seq<char>> {
    write_file(dir, note_name_spec(date), content)
}

pub open spec fn save_records_in(
    dir: Map<Seq<char>, Seq<char>>,
    date: Seq<char>,
    records: Seq<TaskRecordView>,
) -> Map<Seq<char>, Seq<char>> {
    write_file(dir, records_name_spec(date), enc_records(records))
}

pub open spec fn loaded_note(dir: Map<Seq<char>, Seq<char>>, date: Seq<char>) -> Seq<char> {
    if dir.contains_key(note_name_spec(date)) {
        dir[note_name_spec(date)]
    } else {
        Seq::empty()
    }
}

/// `None` stands for the parse error on the direct load path.
pub open spec fn loaded_records(dir: Map<Seq<char>, Seq<char>>, date: Seq<char>) -> Option<
    Seq<TaskRecordView>,
> {
    if dir.contains_key(records_name_spec(date)) {
        parse_records_spec(dir[records_name_spec(date)])
    } else {
        Some(Seq::empty())
    }
}

/// Loading a note right after saving it returns exactly the saved content.
pub proof fn lemma_note_round_trip(
    dir: Map<Seq<char>, Seq<char>>,
    date: Seq<char>,
    content: Seq<char>,
)
    ensures
        loaded_note(save_note_in(dir, date, content), date) == content,
{
}

/// Loading a note that was never saved returns the empty string, not an
/// error.
pub proof fn lemma_note_absent(dir: Map<Seq<char>, Seq<char>>, date: Seq<char>)
    requires
        !dir.contains_key(note_name_spec(date)),
    ensures
        loaded_note(dir, date) == Seq::<char>::empty(),
{
}

/// Loading records right after saving them returns the same sequence,
/// element for element, in order — including the empty sequence.
pub proof fn lemma_records_round_trip(
    dir: Map<Seq<char>, Seq<char>>,
    date: Seq<char>,
    records: Seq<TaskRecordView>,
)
    requires
        all_records_fit(records),
    ensures
        loaded_records(save_records_in(dir, date, records), date) == Some(records),
{
    lemma_round_trip(records);
}

/// Loading records that were never saved returns the empty sequence.
pub proof fn lemma_records_absent(dir: Map<Seq<char>, Seq<char>>, date: Seq<char>)
    requires
        !dir.contains_key(records_name_spec(date)),
    ensures
        loaded_records(dir, date) == Some(Seq::<TaskRecordView>::empty()),
{
}

/// A date's note file and any date's record file never collide: the two
/// kinds live under distinct names, so saving one kind cannot clobber the
/// other.
pub proof fn lemma_kinds_distinct(d1: Seq<char>, d2: Seq<char>)
    ensures
        note_name_spec(d1) != records_name_spec(d2),
{
    let a = note_name_spec(d1);
    let b = records_name_spec(d2);
    assert(a[a.len() - 1] == 'd');
    assert(b[b.len() - 1] == 'n');
}

/// Two date keys share a storage slot only when they are identical: the name
/// maps are injective. No normalization happens anywhere.
pub proof fn lemma_names_injective(d1: Seq<char>, d2: Seq<char>)
    requires
        d1 != d2,
    ensures
        note_name_spec(d1) != note_name_spec(d2),
        records_name_spec(d1) != records_name_spec(d2),
{
    if note_name_spec(d1) == note_name_spec(d2) {
        assert(note_name_spec(d1).take(d1.len() as int) =~= d1);
        assert(note_name_spec(d2).take(d2.len() as int) =~= d2);
    }
    if records_name_spec(d1) == records_name_spec(d2) {
        assert(records_name_spec(d1).take(d1.len() as int) =~= d1);
        assert(records_name_spec(d2).take(d2.len() as int) =~= d2);
    }
}

/// Two racing saves to the same date key leave the file holding one of the
/// two encodings in full — the later one — never an interleaving: each write
/// replaces the whole value under the name.
pub proof fn lemma_last_write_wins(
    dir: Map<Seq<char>, Seq<char>>,
    date: Seq<char>,
    first: Seq<TaskRecordView>,
    second: Seq<TaskRecordView>,
)
    ensures
        save_records_in(save_records_in(dir, date, first), date, second) == save_records_in(
            dir,
            date,
            second,
        ),
        save_records_in(save_records_in(dir, date, first), date, second)[records_name_spec(date)]
            == enc_records(second),
{
    assert(save_records_in(save_records_in(dir, date, first), date, second) =~= save_records_in(
        dir,
        date,
        second,
    ));
}

} // verus!
