//! The activity aggregator: from a directory listing (file name and content
//! pairs) to the sparse sequence of (date, total solved) points that drives
//! the heatmap. Only entries named like a record file count; each is parsed,
//! the `solved` fields are summed, and a point is emitted exactly for the
//! dates whose sum is strictly positive. A malformed file is skipped, never
//! an error: one corrupt day must not abort the whole scan.

use vstd::prelude::*;
use vstd::string::StrSliceExecFns;
use crate::codec::{enc_records, lemma_round_trip, parse_records, parse_records_spec};
use crate::records::{ActivityPoint, ActivityPointView, TaskRecord, TaskRecordView};
use crate::store::{records_name_spec, records_suffix};

verus! {

/// One directory entry as the caller hands it in: the entry's file name (not
/// its path) and the file's text content.
pub struct ScanEntry {
    pub name: String,
    pub content: String,
}

pub struct ScanEntryView {
    pub name: Seq<char>,
    pub content: Seq<char>,
}

impl View for ScanEntry {
    type V = ScanEntryView;

    open spec fn view(&self) -> ScanEntryView {
        ScanEntryView { name: self.name@, content: self.content@ }
    }
}

impl DeepView for ScanEntry {
    type V = ScanEntryView;

    open spec fn deep_view(&self) -> ScanEntryView {
        self.view()
    }
}

/// Sum of the `solved` fields of a record sequence.
pub open spec fn sum_solved(rs: Seq<TaskRecordView>) -> nat
    decreases rs.len(),
{
    if rs.len() == 0 {
        0
    } else {
        sum_solved(rs.drop_last()) + rs.last().solved as nat
    }
}

pub open spec fn has_records_suffix(name: Seq<char>) -> bool {
    name.len() >= 5 && name.skip(name.len() - 5) == records_suffix()
}

/// The date key a record file stores: its name without the suffix.
pub open spec fn date_stem(name: Seq<char>) -> Seq<char> {
    name.take(name.len() - 5)
}

/// What one directory entry contributes to the activity log.
pub open spec fn entry_point(e: ScanEntryView) -> Option<ActivityPointView> {
    if has_records_suffix(e.name) {
        match parse_records_spec(e.content) {
            Some(rs) => if sum_solved(rs) > 0 {
                Some(ActivityPointView { date: date_stem(e.name), count: sum_solved(rs) as u128 })
            } else {
                None
            },
            None => None,
        }
    } else {
        None
    }
}

pub open spec fn opt_point(o: Option<ActivityPointView>) -> Seq<ActivityPointView> {
    match o {
        Some(p) => seq![p],
        None => Seq::empty(),
    }
}

/// The full log: each entry's contribution, in listing order.
pub open spec fn activity_log_spec(es: Seq<ScanEntryView>) -> Seq<ActivityPointView>
    decreases es.len(),
{
    if es.len() == 0 {
        Seq::empty()
    } else {
        activity_log_spec(es.drop_last()) + opt_point(entry_point(es.last()))
    }
}

/// Sum the `solved` counters of a record sequence. Up to `usize::MAX` values
/// of `u32` always fit in `u128`, so the result is exact.
pub fn total_solved(records: &Vec<TaskRecord>) -> (t: u128)
    ensures
        t as nat == sum_solved(records.deep_view()),
{
    let ghost dv = records.deep_view();
    let mut t: u128 = 0;
    let mut i: usize = 0;
    while i < records.len()
        invariant
            i <= records.len(),
            dv == records.deep_view(),
            dv.len() == records.len(),
            t as nat == sum_solved(dv.take(i as int)),
            t <= (i as u128) * 0xffff_ffff,
        decreases records.len() - i,
    {
        proof {
            assert(dv.take(i as int + 1).drop_last() =~= dv.take(i as int));
            assert(dv.take(i as int + 1).last() == dv[i as int]);
            assert(dv[i as int] == records[i as int]@);
            assert((i as u128 + 1) * 0xffff_ffff <= (u64::MAX as u128) * 0xffff_ffff);
        }
        t = t + (records[i].solved as u128);
        i = i + 1;
    }
    proof {
        assert(dv.take(records.len() as int) =~= dv);
    }
    t
}

fn entry_activity(e: &ScanEntry) -> (r: Option<ActivityPoint>)
    ensures
        match r {
            Some(p) => entry_point(e@) == Some(p@),
            None => entry_point(e@) is None,
        },
{
    let name = e.name.as_str();
    let n = name.unicode_len();
    if n < 5 {
        return None;
    }
    let matches_suffix = name.get_char(n - 5) == '.' && name.get_char(n - 4) == 'j'
        && name.get_char(n - 3) == 's' && name.get_char(n - 2) == 'o' && name.get_char(n - 1)
        == 'n';
    proof {
        if matches_suffix {
            assert(name@.skip(n - 5) =~= records_suffix());
        } else {
            if name@.skip(n - 5) == records_suffix() {
                assert(name@.skip(n - 5)[0] == name@[n - 5]);
                assert(name@.skip(n - 5)[1] == name@[n - 4]);
                assert(name@.skip(n - 5)[2] == name@[n - 3]);
                assert(name@.skip(n - 5)[3] == name@[n - 2]);
                assert(name@.skip(n - 5)[4] == name@[n - 1]);
            }
        }
    }
    if !matches_suffix {
        return None;
    }
    let recs = match parse_records(e.content.as_str()) {
        Ok(v) => v,
        Err(_) => {
            return None;
        },
    };
    let t = total_solved(&recs);
    if t == 0 {
        return None;
    }
    let stem = name.substring_char(0, n - 5).to_owned();
    proof {
        assert(stem@ =~= date_stem(name@));
    }
    Some(ActivityPoint { date: stem, count: t })
}

/// Build the activity log from a directory listing. The result holds, in
/// listing order, one point per record file whose content parses and whose
/// `solved` sum is strictly positive; all other entries — foreign names,
/// malformed content, all-zero days — contribute nothing.
pub fn activity_log(entries: &Vec<ScanEntry>) -> (r: Vec<ActivityPoint>)
    ensures
        r.deep_view() == activity_log_spec(entries.deep_view()),
{
    let ghost dv = entries.deep_view();
    let mut r: Vec<ActivityPoint> = Vec::new();
    proof {
        assert(r.deep_view() =~= activity_log_spec(dv.take(0)));
    }
    let mut i: usize = 0;
    while i < entries.len()
        invariant
            i <= entries.len(),
            dv == entries.deep_view(),
            dv.len() == entries.len(),
            r.deep_view() == activity_log_spec(dv.take(i as int)),
        decreases entries.len() - i,
    {
        let ghost prev = r.deep_view();
        proof {
            assert(dv.take(i as int + 1).drop_last() =~= dv.take(i as int));
            assert(dv.take(i as int + 1).last() == dv[i as int]);
            assert(dv[i as int] == entries[i as int]@);
        }
        match entry_activity(&entries[i]) {
            Some(p) => {
                r.push(p);
                proof {
                    assert(r.deep_view() =~= prev + opt_point(entry_point(dv[i as int])));
                }
            },
            None => {
                proof {
                    assert(r.deep_view() =~= prev + opt_point(entry_point(dv[i as int])));
                }
            },
        }
        i = i + 1;
    }
    proof {
        assert(dv.take(entries.len() as int) =~= dv);
    }
    r
}

// ---------------------------------------------------------------------------
// Laws of the scan
// ---------------------------------------------------------------------------

/// An entry that contributes no point — a foreign name, malformed content, a
/// zero sum — leaves the log exactly as if the entry were not listed at all:
/// one corrupt day never disturbs its siblings.
pub proof fn lemma_silent_entry_skipped(es: Seq<ScanEntryView>, j: int)
    requires
        0 <= j < es.len(),
        entry_point(es[j]) is None,
    ensures
        activity_log_spec(es) == activity_log_spec(es.remove(j)),
    decreases es.len(),
{
    if j == es.len() - 1 {
        assert(es.remove(j) =~= es.drop_last());
        assert(activity_log_spec(es) == activity_log_spec(es.drop_last()) + opt_point(
            entry_point(es.last()),
        ));
        assert(activity_log_spec(es.drop_last()) + Seq::<ActivityPointView>::empty()
            =~= activity_log_spec(es.drop_last()));
    } else {
        assert(es.drop_last()[j] == es[j]);
        lemma_silent_entry_skipped(es.drop_last(), j);
        assert(es.remove(j).drop_last() =~= es.drop_last().remove(j));
        assert(es.remove(j).last() == es.last());
    }
}

/// A record file name is recovered from its date: the stem of `<d>.json` is
/// `d`, and a record-suffixed name whose stem is `d` is `<d>.json`.
pub proof fn lemma_records_name_stem(name: Seq<char>, d: Seq<char>)
    requires
        has_records_suffix(name),
        date_stem(name) == d,
    ensures
        name == records_name_spec(d),
{
    assert(name =~= name.take(name.len() - 5) + name.skip(name.len() - 5));
}

/// A date all of whose record files hold a zero `solved` sum — in
/// particular, one saved with the empty record sequence — appears nowhere in
/// the activity log.
pub proof fn lemma_zero_date_excluded(es: Seq<ScanEntryView>, d: Seq<char>)
    requires
        forall|j: int|
            0 <= j < es.len() && (#[trigger] es[j]).name == records_name_spec(d) ==> match
                parse_records_spec(es[j].content) {
                Some(rs) => sum_solved(rs) == 0,
                None => true,
            },
    ensures
        forall|p: int|
            0 <= p < activity_log_spec(es).len() ==> (#[trigger] activity_log_spec(es)[p]).date
                != d,
    decreases es.len(),
{
    if es.len() == 0 {
    } else {
        let front = es.drop_last();
        assert forall|j: int|
            0 <= j < front.len() && (#[trigger] front[j]).name == records_name_spec(d) implies match
            parse_records_spec(front[j].content) {
            Some(rs) => sum_solved(rs) == 0,
            None => true,
        } by {
            assert(front[j] == es[j]);
        }
        lemma_zero_date_excluded(front, d);
        let e = es.last();
        let log = activity_log_spec(es);
        assert forall|p: int| 0 <= p < log.len() implies (#[trigger] log[p]).date != d by {
            if p < activity_log_spec(front).len() {
                assert(log[p] == activity_log_spec(front)[p]);
            } else {
                match entry_point(e) {
                    Some(pt) => {
                        assert(log[p] == pt);
                        if pt.date == d {
                            lemma_records_name_stem(e.name, d);
                            assert(es[es.len() - 1] == e);
                        }
                    },
                    None => {},
                }
            }
        }
    }
}

/// Saving the empty record sequence under a date keeps that date out of the
/// activity log: a listing whose record file for `d` holds the encoding of
/// the empty sequence yields no point for `d`.
pub proof fn lemma_empty_save_excluded(es: Seq<ScanEntryView>, d: Seq<char>)
    requires
        forall|j: int|
            0 <= j < es.len() && (#[trigger] es[j]).name == records_name_spec(d) ==> es[j].content
                == enc_records(Seq::<TaskRecordView>::empty()),
    ensures
        forall|p: int|
            0 <= p < activity_log_spec(es).len() ==> (#[trigger] activity_log_spec(es)[p]).date
                != d,
{
    lemma_round_trip(Seq::<TaskRecordView>::empty());
    lemma_zero_date_excluded(es, d);
}

} // verus!
