//! The record file format: a whitespace-formatted, human-readable rendering of
//! a sequence of task records, one field per line, each text field carrying
//! its character count so that arbitrary content (newlines, braces, quotes)
//! needs no escaping. A file looks like:
//!
//! ```text
//! [
//! {
//! id 1 a
//! subject 4 math
//! task_type 6 type 1
//! solved 5
//! correct 3
//! }
//! ]
//! ```
//!
//! `enc_records` is the specification of the writer, `parse_records_spec` the
//! specification of the (strict) reader, and `lemma_round_trip` proves that
//! reading back a written file yields the original records. The executable
//! `encode_records` and `parse_records` are verified against these
//! specifications exactly; any text the writer cannot produce is rejected by
//! the reader.

use vstd::prelude::*;
use vstd::string::StrSliceExecFns;
use vstd::string::StringExecFns;
use crate::records::{TaskRecord, TaskRecordView, ParseError};

verus! {

// ---------------------------------------------------------------------------
// Decimal digits
// ---------------------------------------------------------------------------

pub open spec fn is_digit_char(c: char) -> bool {
    c == '0' || c == '1' || c == '2' || c == '3' || c == '4' || c == '5' || c == '6' || c == '7'
        || c == '8' || c == '9'
}

pub open spec fn char_digit(c: char) -> nat {
    if c == '0' {
        0
    } else if c == '1' {
        1
    } else if c == '2' {
        2
    } else if c == '3' {
        3
    } else if c == '4' {
        4
    } else if c == '5' {
        5
    } else if c == '6' {
        6
    } else if c == '7' {
        7
    } else if c == '8' {
        8
    } else {
        9
    }
}

pub open spec fn digit_char(d: nat) -> char {
    if d == 0 {
        '0'
    } else if d == 1 {
        '1'
    } else if d == 2 {
        '2'
    } else if d == 3 {
        '3'
    } else if d == 4 {
        '4'
    } else if d == 5 {
        '5'
    } else if d == 6 {
        '6'
    } else if d == 7 {
        '7'
    } else if d == 8 {
        '8'
    } else {
        '9'
    }
}

/// Decimal rendering of a natural number, most significant digit first.
pub open spec fn dec_digits(n: nat) -> Seq<char>
    decreases n,
{
    if n < 10 {
        seq![digit_char(n)]
    } else {
        dec_digits(n / 10).push(digit_char(n % 10))
    }
}

/// Value of a digit string, most significant digit first.
pub open spec fn digits_value(d: Seq<char>) -> nat
    decreases d.len(),
{
    if d.len() == 0 {
        0
    } else {
        digits_value(d.drop_last()) * 10 + char_digit(d.last())
    }
}

pub open spec fn pow10(k: nat) -> nat
    decreases k,
{
    if k == 0 {
        1
    } else {
        10 * pow10((k - 1) as nat)
    }
}

/// Length of the longest digit prefix of `s`.
pub open spec fn digit_run(s: Seq<char>) -> nat
    decreases s.len(),
{
    if s.len() > 0 && is_digit_char(s[0]) {
        1 + digit_run(s.skip(1))
    } else {
        0
    }
}

proof fn lemma_digit_run_bounds(s: Seq<char>)
    ensures
        digit_run(s) <= s.len(),
        forall|l: int| 0 <= l < digit_run(s) ==> is_digit_char(s[l]),
        digit_run(s) < s.len() ==> !is_digit_char(s[digit_run(s) as int]),
    decreases s.len(),
{
    if s.len() > 0 && is_digit_char(s[0]) {
        lemma_digit_run_bounds(s.skip(1));
        assert forall|l: int| 0 <= l < digit_run(s) implies is_digit_char(s[l]) by {
            if l > 0 {
                assert(s.skip(1)[l - 1] == s[l]);
            }
        }
        if digit_run(s) < s.len() {
            assert(s.skip(1)[digit_run(s) - 1] == s[digit_run(s) as int]);
        }
    }
}

proof fn lemma_digit_run_is(s: Seq<char>, k: nat)
    requires
        k <= s.len(),
        forall|l: int| 0 <= l < k ==> is_digit_char(s[l]),
        k == s.len() || !is_digit_char(s[k as int]),
    ensures
        digit_run(s) == k,
    decreases s.len(),
{
    if k == 0 {
    } else {
        assert(is_digit_char(s[0]));
        lemma_digit_run_is(s.skip(1), (k - 1) as nat);
    }
}

/// Facts about the decimal rendering: it is non-empty, all digits, and
/// `digits_value` inverts it.
proof fn lemma_dec_digits(n: nat)
    ensures
        dec_digits(n).len() >= 1,
        forall|l: int| 0 <= l < dec_digits(n).len() ==> is_digit_char(dec_digits(n)[l]),
        digits_value(dec_digits(n)) == n,
    decreases n,
{
    if n < 10 {
        assert(digits_value(dec_digits(n).drop_last()) == 0);
    } else {
        lemma_dec_digits(n / 10);
        let d = dec_digits(n);
        assert(d.drop_last() =~= dec_digits(n / 10));
        assert(d.last() == digit_char(n % 10));
        assert(char_digit(digit_char(n % 10)) == n % 10);
        assert(digits_value(d) == (n / 10) * 10 + n % 10);
        assert forall|l: int| 0 <= l < d.len() implies is_digit_char(d[l]) by {
            if l < d.len() - 1 {
                assert(d[l] == dec_digits(n / 10)[l]);
            }
        }
    }
}

proof fn lemma_dec_digits_len(n: nat, k: nat)
    requires
        k >= 1,
        n < pow10(k),
    ensures
        dec_digits(n).len() <= k,
    decreases n,
{
    if n < 10 {
    } else {
        assert(pow10(k) == 10 * pow10((k - 1) as nat));
        assert(n / 10 < pow10((k - 1) as nat)) by {
            assert(n == 10 * (n / 10) + n % 10);
        }
        assert(k - 1 >= 1) by {
            if k == 1 {
                assert(pow10(1nat) == 10);
            }
        }
        lemma_dec_digits_len(n / 10, (k - 1) as nat);
    }
}

proof fn lemma_pow10_20()
    ensures
        pow10(20) == 100000000000000000000,
{
    reveal_with_fuel(pow10, 21);
}

// ---------------------------------------------------------------------------
// The fixed pieces of the format
// ---------------------------------------------------------------------------

pub open spec fn lit_open() -> Seq<char> {
    seq!['[', '\n']
}

pub open spec fn lit_close() -> Seq<char> {
    seq![']', '\n']
}

pub open spec fn lit_rec_open() -> Seq<char> {
    seq!['{', '\n']
}

pub open spec fn lit_rec_close() -> Seq<char> {
    seq!['}', '\n']
}

pub open spec fn lit_id() -> Seq<char> {
    seq!['i', 'd', ' ']
}

pub open spec fn lit_subject() -> Seq<char> {
    seq!['s', 'u', 'b', 'j', 'e', 'c', 't', ' ']
}

pub open spec fn lit_task_type() -> Seq<char> {
    seq!['t', 'a', 's', 'k', '_', 't', 'y', 'p', 'e', ' ']
}

pub open spec fn lit_solved() -> Seq<char> {
    seq!['s', 'o', 'l', 'v', 'e', 'd', ' ']
}

pub open spec fn lit_correct() -> Seq<char> {
    seq!['c', 'o', 'r', 'r', 'e', 'c', 't', ' ']
}

pub open spec fn lit_sp() -> Seq<char> {
    seq![' ']
}

pub open spec fn lit_nl() -> Seq<char> {
    seq!['\n']
}

// ---------------------------------------------------------------------------
// Encoding
// ---------------------------------------------------------------------------

/// One text field line: the field name, the character count, one space, the
/// raw content (which may hold any characters), a newline.
pub open spec fn enc_text_field(name: Seq<char>, s: Seq<char>) -> Seq<char> {
    name + dec_digits(s.len()) + lit_sp() + s + lit_nl()
}

/// One counter line: the field name, the decimal value, a newline.
pub open spec fn enc_num_field(name: Seq<char>, n: nat) -> Seq<char> {
    name + dec_digits(n) + lit_nl()
}

#[verifier::opaque]
pub open spec fn enc_record(r: TaskRecordView) -> Seq<char> {
    lit_rec_open() + enc_text_field(lit_id(), r.id) + enc_text_field(lit_subject(), r.subject)
        + enc_text_field(lit_task_type(), r.task_type) + enc_num_field(
        lit_solved(),
        r.solved as nat,
    ) + enc_num_field(lit_correct(), r.correct as nat) + lit_rec_close()
}

pub open spec fn enc_items(rs: Seq<TaskRecordView>) -> Seq<char>
    decreases rs.len(),
{
    if rs.len() == 0 {
        Seq::empty()
    } else {
        enc_record(rs[0]) + enc_items(rs.skip(1))
    }
}

/// The full file content for a record sequence.
pub open spec fn enc_records(rs: Seq<TaskRecordView>) -> Seq<char> {
    lit_open() + enc_items(rs) + lit_close()
}

// ---------------------------------------------------------------------------
// Parsing (strict: exactly the writer's output is accepted)
// ---------------------------------------------------------------------------

pub open spec fn parse_lit(s: Seq<char>, lit: Seq<char>) -> Option<Seq<char>> {
    if s.len() >= lit.len() && s.take(lit.len() as int) == lit {
        Some(s.skip(lit.len() as int))
    } else {
        None
    }
}

/// A decimal number: a non-empty digit run of at most 20 digits whose value
/// fits in `u64`. Returns the value and the rest of the input.
pub open spec fn parse_number(s: Seq<char>) -> Option<(nat, Seq<char>)> {
    let k = digit_run(s);
    if k == 0 || k > 20 {
        None
    } else {
        let v = digits_value(s.take(k as int));
        if v > u64::MAX {
            None
        } else {
            Some((v, s.skip(k as int)))
        }
    }
}

pub open spec fn parse_text_field(s: Seq<char>, name: Seq<char>) -> Option<(Seq<char>, Seq<char>)> {
    match parse_lit(s, name) {
        None => None,
        Some(s1) => match parse_number(s1) {
            None => None,
            Some((n, s2)) => match parse_lit(s2, lit_sp()) {
                None => None,
                Some(s3) => if s3.len() < n {
                    None
                } else {
                    match parse_lit(s3.skip(n as int), lit_nl()) {
                        None => None,
                        Some(s4) => Some((s3.take(n as int), s4)),
                    }
                },
            },
        },
    }
}

pub open spec fn parse_num_field(s: Seq<char>, name: Seq<char>) -> Option<(u32, Seq<char>)> {
    match parse_lit(s, name) {
        None => None,
        Some(s1) => match parse_number(s1) {
            None => None,
            Some((n, s2)) => match parse_lit(s2, lit_nl()) {
                None => None,
                Some(s3) => if n > u32::MAX {
                    None
                } else {
                    Some((n as u32, s3))
                },
            },
        },
    }
}

#[verifier::opaque]
pub open spec fn parse_record(s: Seq<char>) -> Option<(TaskRecordView, Seq<char>)> {
    match parse_lit(s, lit_rec_open()) {
        None => None,
        Some(s1) => match parse_text_field(s1, lit_id()) {
            None => None,
            Some((id, s2)) => match parse_text_field(s2, lit_subject()) {
                None => None,
                Some((subject, s3)) => match parse_text_field(s3, lit_task_type()) {
                    None => None,
                    Some((task_type, s4)) => match parse_num_field(s4, lit_solved()) {
                        None => None,
                        Some((solved, s5)) => match parse_num_field(s5, lit_correct()) {
                            None => None,
                            Some((correct, s6)) => match parse_lit(s6, lit_rec_close()) {
                                None => None,
                                Some(s7) => Some(
                                    (
                                        TaskRecordView { id, subject, task_type, solved, correct },
                                        s7,
                                    ),
                                ),
                            },
                        },
                    },
                },
            },
        },
    }
}

/// Zero or more records followed by the closing bracket, which must end the
/// input. The guard on `rest.len()` only serves the termination measure: a
/// successful `parse_record` always consumes at least one character.
pub open spec fn parse_items(s: Seq<char>) -> Option<Seq<TaskRecordView>>
    decreases s.len(),
{
    if s.len() >= 1 && s[0] == '{' {
        match parse_record(s) {
            None => None,
            Some((r, rest)) => if rest.len() < s.len() {
                match parse_items(rest) {
                    None => None,
                    Some(tail) => Some(seq![r] + tail),
                }
            } else {
                None
            },
        }
    } else if s.len() == 2 && s[0] == ']' && s[1] == '\n' {
        Some(Seq::empty())
    } else {
        None
    }
}

/// The reader's specification over a whole file.
pub open spec fn parse_records_spec(s: Seq<char>) -> Option<Seq<TaskRecordView>> {
    match parse_lit(s, lit_open()) {
        None => None,
        Some(s1) => parse_items(s1),
    }
}

// ---------------------------------------------------------------------------
// Round trip: parsing a written file yields the original records
// ---------------------------------------------------------------------------

proof fn lemma_add_assoc<T>(a: Seq<T>, b: Seq<T>, c: Seq<T>)
    ensures
        (a + b) + c == a + (b + c),
{
    assert((a + b) + c =~= a + (b + c));
}

proof fn lemma_parse_lit_prefix(lit: Seq<char>, tail: Seq<char>)
    ensures
        parse_lit(lit + tail, lit) == Some(tail),
{
    let s = lit + tail;
    assert(s.take(lit.len() as int) =~= lit);
    assert(s.skip(lit.len() as int) =~= tail);
}

proof fn lemma_parse_number_prefix(n: nat, tail: Seq<char>)
    requires
        n <= u64::MAX,
        tail.len() == 0 || !is_digit_char(tail[0]),
    ensures
        parse_number(dec_digits(n) + tail) == Some((n, tail)),
{
    let d = dec_digits(n);
    let s = d + tail;
    lemma_dec_digits(n);
    lemma_digit_run_is(s, d.len());
    assert(s.take(d.len() as int) =~= d);
    assert(s.skip(d.len() as int) =~= tail);
    lemma_pow10_20();
    lemma_dec_digits_len(n, 20);
}

/// The writer can only be asked for text that an executable `String` can
/// hold; a field longer than `u64::MAX` characters has no decimal count the
/// reader would accept.
pub open spec fn record_fits(r: TaskRecordView) -> bool {
    r.id.len() <= u64::MAX && r.subject.len() <= u64::MAX && r.task_type.len() <= u64::MAX
}

pub open spec fn all_records_fit(rs: Seq<TaskRecordView>) -> bool {
    forall|i: int| 0 <= i < rs.len() ==> #[trigger] record_fits(rs[i])
}

proof fn lemma_parse_text_field_prefix(name: Seq<char>, content: Seq<char>, tail: Seq<char>)
    requires
        content.len() <= u64::MAX,
    ensures
        parse_text_field(enc_text_field(name, content) + tail, name) == Some((content, tail)),
{
    let s = enc_text_field(name, content) + tail;
    let after_name = dec_digits(content.len()) + (lit_sp() + (content + (lit_nl() + tail)));
    assert(s =~= name + after_name);
    lemma_parse_lit_prefix(name, after_name);
    let after_num = lit_sp() + (content + (lit_nl() + tail));
    assert(after_num[0] == ' ');
    lemma_parse_number_prefix(content.len(), after_num);
    let after_sp = content + (lit_nl() + tail);
    lemma_parse_lit_prefix(lit_sp(), after_sp);
    assert(after_sp.len() >= content.len());
    assert(after_sp.take(content.len() as int) =~= content);
    assert(after_sp.skip(content.len() as int) =~= lit_nl() + tail);
    lemma_parse_lit_prefix(lit_nl(), tail);
}

proof fn lemma_parse_num_field_prefix(name: Seq<char>, v: u32, tail: Seq<char>)
    ensures
        parse_num_field(enc_num_field(name, v as nat) + tail, name) == Some((v, tail)),
{
    let s = enc_num_field(name, v as nat) + tail;
    let after_name = dec_digits(v as nat) + (lit_nl() + tail);
    assert(s =~= name + after_name);
    lemma_parse_lit_prefix(name, after_name);
    let after_num = lit_nl() + tail;
    assert(after_num[0] == '\n');
    lemma_parse_number_prefix(v as nat, after_num);
    lemma_parse_lit_prefix(lit_nl(), tail);
}

#[verifier::rlimit(60)]
proof fn lemma_parse_record_prefix(r: TaskRecordView, tail: Seq<char>)
    requires
        record_fits(r),
    ensures
        parse_record(enc_record(r) + tail) == Some((r, tail)),
{
    reveal(enc_record);
    reveal(parse_record);
    let s = enc_record(r) + tail;
    let t1 = enc_text_field(lit_id(), r.id) + (enc_text_field(lit_subject(), r.subject)
        + (enc_text_field(lit_task_type(), r.task_type) + (enc_num_field(
        lit_solved(),
        r.solved as nat,
    ) + (enc_num_field(lit_correct(), r.correct as nat) + (lit_rec_close() + tail)))));
    assert(s =~= lit_rec_open() + t1);
    lemma_parse_lit_prefix(lit_rec_open(), t1);
    let t2 = enc_text_field(lit_subject(), r.subject) + (enc_text_field(
        lit_task_type(),
        r.task_type,
    ) + (enc_num_field(lit_solved(), r.solved as nat) + (enc_num_field(
        lit_correct(),
        r.correct as nat,
    ) + (lit_rec_close() + tail))));
    lemma_parse_text_field_prefix(lit_id(), r.id, t2);
    let t3 = enc_text_field(lit_task_type(), r.task_type) + (enc_num_field(
        lit_solved(),
        r.solved as nat,
    ) + (enc_num_field(lit_correct(), r.correct as nat) + (lit_rec_close() + tail)));
    lemma_parse_text_field_prefix(lit_subject(), r.subject, t3);
    let t4 = enc_num_field(lit_solved(), r.solved as nat) + (enc_num_field(
        lit_correct(),
        r.correct as nat,
    ) + (lit_rec_close() + tail));
    lemma_parse_text_field_prefix(lit_task_type(), r.task_type, t4);
    let t5 = enc_num_field(lit_correct(), r.correct as nat) + (lit_rec_close() + tail);
    lemma_parse_num_field_prefix(lit_solved(), r.solved, t5);
    let t6 = lit_rec_close() + tail;
    lemma_parse_num_field_prefix(lit_correct(), r.correct, t6);
    lemma_parse_lit_prefix(lit_rec_close(), tail);
}

proof fn lemma_parse_items_step(s: Seq<char>, r: TaskRecordView, rest: Seq<char>, tail: Seq<
    TaskRecordView,
>)
    requires
        s.len() >= 1,
        s[0] == '{',
        parse_record(s) == Some((r, rest)),
        rest.len() < s.len(),
        parse_items(rest) == Some(tail),
    ensures
        parse_items(s) == Some(seq![r] + tail),
{
}

proof fn lemma_parse_items_close(s: Seq<char>)
    requires
        s.len() == 2,
        s[0] == ']',
        s[1] == '\n',
    ensures
        parse_items(s) == Some(Seq::<TaskRecordView>::empty()),
{
    assert(s[0] != '{');
}

proof fn lemma_enc_record_shape(r: TaskRecordView)
    ensures
        enc_record(r).len() >= 2,
        enc_record(r)[0] == '{',
{
    reveal(enc_record);
    assert(enc_record(r)[0] == lit_rec_open()[0]);
}

proof fn lemma_parse_items_of(rs: Seq<TaskRecordView>)
    requires
        all_records_fit(rs),
    ensures
        parse_items(enc_items(rs) + lit_close()) == Some(rs),
    decreases rs.len(),
{
    let s = enc_items(rs) + lit_close();
    if rs.len() == 0 {
        assert(s =~= lit_close());
        lemma_parse_items_close(s);
        assert(rs =~= Seq::<TaskRecordView>::empty());
    } else {
        let first = enc_record(rs[0]);
        let rest = enc_items(rs.skip(1)) + lit_close();
        lemma_add_assoc(first, enc_items(rs.skip(1)), lit_close());
        assert(s == first + rest);
        assert(record_fits(rs[0]));
        lemma_parse_record_prefix(rs[0], rest);
        assert forall|i: int| 0 <= i < rs.skip(1).len() implies #[trigger] record_fits(
            rs.skip(1)[i],
        ) by {
            assert(rs.skip(1)[i] == rs[i + 1]);
        }
        lemma_enc_record_shape(rs[0]);
        assert(s[0] == first[0]);
        assert(rest.len() < s.len());
        lemma_parse_items_of(rs.skip(1));
        lemma_parse_items_step(s, rs[0], rest, rs.skip(1));
        assert(seq![rs[0]] + rs.skip(1) =~= rs);
    }
}

/// Round trip of the record file format: parsing the encoding of any record
/// sequence succeeds and yields that sequence, element for element, in order.
pub proof fn lemma_round_trip(rs: Seq<TaskRecordView>)
    requires
        all_records_fit(rs),
    ensures
        parse_records_spec(enc_records(rs)) == Some(rs),
{
    let t = enc_items(rs) + lit_close();
    assert(enc_records(rs) =~= lit_open() + t);
    lemma_parse_lit_prefix(lit_open(), t);
    lemma_parse_items_of(rs);
}

// ---------------------------------------------------------------------------
// Writer
// ---------------------------------------------------------------------------

fn digit_str(d: u64) -> (s: &'static str)
    requires
        d < 10,
    ensures
        s@ == seq![digit_char(d as nat)],
{
    if d == 0 {
        proof {
            reveal_strlit("0");
            assert("0"@ =~= seq![digit_char(d as nat)]);
        }
        "0"
    } else if d == 1 {
        proof {
            reveal_strlit("1");
            assert("1"@ =~= seq![digit_char(d as nat)]);
        }
        "1"
    } else if d == 2 {
        proof {
            reveal_strlit("2");
            assert("2"@ =~= seq![digit_char(d as nat)]);
        }
        "2"
    } else if d == 3 {
        proof {
            reveal_strlit("3");
            assert("3"@ =~= seq![digit_char(d as nat)]);
        }
        "3"
    } else if d == 4 {
        proof {
            reveal_strlit("4");
            assert("4"@ =~= seq![digit_char(d as nat)]);
        }
        "4"
    } else if d == 5 {
        proof {
            reveal_strlit("5");
            assert("5"@ =~= seq![digit_char(d as nat)]);
        }
        "5"
    } else if d == 6 {
        proof {
            reveal_strlit("6");
            assert("6"@ =~= seq![digit_char(d as nat)]);
        }
        "6"
    } else if d == 7 {
        proof {
            reveal_strlit("7");
            assert("7"@ =~= seq![digit_char(d as nat)]);
        }
        "7"
    } else if d == 8 {
        proof {
            reveal_strlit("8");
            assert("8"@ =~= seq![digit_char(d as nat)]);
        }
        "8"
    } else {
        proof {
            reveal_strlit("9");
            assert("9"@ =~= seq![digit_char(d as nat)]);
        }
        "9"
    }
}

fn append_u64(out: &mut String, v: u64)
    ensures
        final(out)@ == old(out)@ + dec_digits(v as nat),
    decreases v,
{
    if v < 10 {
        out.append(digit_str(v));
    } else {
        append_u64(out, v / 10);
        out.append(digit_str(v % 10));
        proof {
            assert(out@ =~= old(out)@ + dec_digits(v as nat));
        }
    }
}

fn append_text_field(out: &mut String, name: &str, content: &String)
    ensures
        final(out)@ == old(out)@ + enc_text_field(name@, content@),
{
    out.append(name);
    let n = content.as_str().unicode_len();
    append_u64(out, n as u64);
    out.append(" ");
    out.append(content.as_str());
    out.append("\n");
    proof {
        reveal_strlit(" ");
        reveal_strlit("\n");
        assert(" "@ =~= lit_sp());
        assert("\n"@ =~= lit_nl());
        assert(out@ =~= old(out)@ + enc_text_field(name@, content@));
    }
}

fn append_num_field(out: &mut String, name: &str, v: u32)
    ensures
        final(out)@ == old(out)@ + enc_num_field(name@, v as nat),
{
    out.append(name);
    append_u64(out, v as u64);
    out.append("\n");
    proof {
        reveal_strlit("\n");
        assert("\n"@ =~= lit_nl());
        assert(out@ =~= old(out)@ + enc_num_field(name@, v as nat));
    }
}

#[verifier::rlimit(100)]
fn append_record(out: &mut String, r: &TaskRecord)
    ensures
        final(out)@ == old(out)@ + enc_record(r@),
{
    out.append("{\n");
    append_text_field(out, "id ", &r.id);
    append_text_field(out, "subject ", &r.subject);
    append_text_field(out, "task_type ", &r.task_type);
    append_num_field(out, "solved ", r.solved);
    append_num_field(out, "correct ", r.correct);
    out.append("}\n");
    proof {
        reveal(enc_record);
        reveal_strlit("{\n");
        reveal_strlit("}\n");
        reveal_strlit("id ");
        reveal_strlit("subject ");
        reveal_strlit("task_type ");
        reveal_strlit("solved ");
        reveal_strlit("correct ");
        assert("{\n"@ =~= lit_rec_open());
        assert("}\n"@ =~= lit_rec_close());
        assert("id "@ =~= lit_id());
        assert("subject "@ =~= lit_subject());
        assert("task_type "@ =~= lit_task_type());
        assert("solved "@ =~= lit_solved());
        assert("correct "@ =~= lit_correct());
        assert(out@ =~= old(out)@ + enc_record(r@));
    }
}

proof fn lemma_enc_items_push(rs: Seq<TaskRecordView>, r: TaskRecordView)
    ensures
        enc_items(rs.push(r)) == enc_items(rs) + enc_record(r),
    decreases rs.len(),
{
    if rs.len() == 0 {
        assert(rs.push(r).skip(1) =~= Seq::<TaskRecordView>::empty());
        assert(rs.push(r)[0] == r);
        assert(enc_items(rs.push(r).skip(1)) == Seq::<char>::empty());
        assert(enc_items(rs.push(r)) == enc_record(r) + Seq::<char>::empty());
        assert(enc_items(rs) == Seq::<char>::empty());
        assert(enc_record(r) + Seq::<char>::empty() =~= Seq::<char>::empty() + enc_record(r));
    } else {
        assert(rs.push(r).skip(1) =~= rs.skip(1).push(r));
        assert(rs.push(r)[0] == rs[0]);
        assert(enc_items(rs.push(r)) == enc_record(rs[0]) + enc_items(rs.skip(1).push(r)));
        lemma_enc_items_push(rs.skip(1), r);
        lemma_add_assoc(enc_record(rs[0]), enc_items(rs.skip(1)), enc_record(r));
        assert(enc_items(rs) == enc_record(rs[0]) + enc_items(rs.skip(1)));
    }
}

/// Render a record sequence as the full file content. The result is exactly
/// `enc_records` of the records' views; `parse_records` reads it back.
pub fn encode_records(records: &Vec<TaskRecord>) -> (r: String)
    ensures
        r@ == enc_records(records.deep_view()),
{
    let mut out = String::from_str("[\n");
    proof {
        reveal_strlit("[\n");
        assert("[\n"@ =~= lit_open());
    }
    let mut i: usize = 0;
    while i < records.len()
        invariant
            i <= records.len(),
            out@ == lit_open() + enc_items(records.deep_view().take(i as int)),
        decreases records.len() - i,
    {
        append_record(&mut out, &records[i]);
        proof {
            let dv = records.deep_view();
            assert(dv[i as int] == records[i as int]@);
            lemma_enc_items_push(dv.take(i as int), dv[i as int]);
            assert(dv.take(i as int + 1) =~= dv.take(i as int).push(dv[i as int]));
            lemma_add_assoc(lit_open(), enc_items(dv.take(i as int)), enc_record(dv[i as int]));
        }
        i = i + 1;
    }
    out.append("]\n");
    proof {
        reveal_strlit("]\n");
        assert("]\n"@ =~= lit_close());
        assert(records.deep_view().take(records.len() as int) =~= records.deep_view());
    }
    out
}

// ---------------------------------------------------------------------------
// Reader
// ---------------------------------------------------------------------------

proof fn lemma_pow10_pos(k: nat)
    ensures
        pow10(k) >= 1,
    decreases k,
{
    if k > 0 {
        lemma_pow10_pos((k - 1) as nat);
    }
}

proof fn lemma_pow10_mono(a: nat, b: nat)
    requires
        a <= b,
    ensures
        pow10(a) <= pow10(b),
    decreases b,
{
    if a < b {
        lemma_pow10_mono(a, (b - 1) as nat);
        lemma_pow10_pos((b - 1) as nat);
    }
}

fn digit_of(c: char) -> (d: u8)
    requires
        is_digit_char(c),
    ensures
        d as nat == char_digit(c),
        d < 10,
{
    if c == '0' {
        0
    } else if c == '1' {
        1
    } else if c == '2' {
        2
    } else if c == '3' {
        3
    } else if c == '4' {
        4
    } else if c == '5' {
        5
    } else if c == '6' {
        6
    } else if c == '7' {
        7
    } else if c == '8' {
        8
    } else {
        9
    }
}

fn is_digit(c: char) -> (r: bool)
    ensures
        r == is_digit_char(c),
{
    c == '0' || c == '1' || c == '2' || c == '3' || c == '4' || c == '5' || c == '6' || c == '7'
        || c == '8' || c == '9'
}

/// Match the fixed characters `pat` at position `i`; on success return the
/// position just past them.
fn take_lit(text: &str, n: usize, i: usize, pat: &[char]) -> (r: Option<usize>)
    requires
        n == text@.len(),
        i <= n,
    ensures
        match r {
            Some(j) => {
                &&& parse_lit(text@.skip(i as int), pat@) == Some(text@.skip(j as int))
                &&& i <= j <= n
                &&& j == i + pat@.len()
            },
            None => parse_lit(text@.skip(i as int), pat@) is None,
        },
{
    let m = pat.len();
    if n - i < m {
        return None;
    }
    let mut j: usize = 0;
    while j < m
        invariant
            n == text@.len(),
            i <= n,
            j <= m,
            m == pat@.len(),
            n - i >= m,
            forall|l: int| 0 <= l < j ==> text@[i + l] == pat@[l],
        decreases m - j,
    {
        if text.get_char(i + j) != pat[j] {
            proof {
                assert(text@.skip(i as int).take(m as int)[j as int] == text@[i + j]);
                assert(text@.skip(i as int).take(m as int) != pat@);
            }
            return None;
        }
        j = j + 1;
    }
    proof {
        assert(text@.skip(i as int).take(m as int) =~= pat@);
        assert(text@.skip(i as int).skip(m as int) =~= text@.skip(i as int + m));
    }
    Some(i + m)
}

/// Length of the digit run starting at position `i`.
fn scan_digits(text: &str, n: usize, i: usize) -> (k: usize)
    requires
        n == text@.len(),
        i <= n,
    ensures
        k as nat == digit_run(text@.skip(i as int)),
        i + k <= n,
{
    let mut k: usize = 0;
    while i + k < n && is_digit(text.get_char(i + k))
        invariant
            n == text@.len(),
            i + k <= n,
            forall|l: int| 0 <= l < k ==> is_digit_char(#[trigger] text@[i + l]),
        decreases n - i - k,
    {
        k = k + 1;
    }
    proof {
        let s = text@.skip(i as int);
        assert forall|l: int| 0 <= l < k implies is_digit_char(s[l]) by {
            assert(s[l] == text@[i + l]);
        }
        if (k as int) < s.len() {
            assert(s[k as int] == text@[i + k]);
        }
        lemma_digit_run_is(s, k as nat);
    }
    k
}

/// A decimal number at position `i`, per `parse_number`.
fn take_number(text: &str, n: usize, i: usize) -> (r: Option<(u64, usize)>)
    requires
        n == text@.len(),
        i <= n,
    ensures
        match r {
            Some(v) => {
                &&& parse_number(text@.skip(i as int)) == Some(
                    (v.0 as nat, text@.skip(v.1 as int)),
                )
                &&& i < v.1 <= n
            },
            None => parse_number(text@.skip(i as int)) is None,
        },
{
    let ghost s = text@.skip(i as int);
    let k = scan_digits(text, n, i);
    if k == 0 || k > 20 {
        return None;
    }
    let ghost d = s.take(k as int);
    proof {
        lemma_digit_run_bounds(s);
        lemma_pow10_20();
    }
    let mut acc: u128 = 0;
    let mut l: usize = 0;
    while l < k
        invariant
            n == text@.len(),
            i + k <= n,
            l <= k,
            k <= 20,
            s == text@.skip(i as int),
            d == s.take(k as int),
            k as nat == digit_run(s),
            forall|p: int| 0 <= p < k ==> is_digit_char(s[p]),
            acc as nat == digits_value(d.take(l as int)),
            acc < pow10(l as nat),
            pow10(20) == 100000000000000000000,
        decreases k - l,
    {
        let c = text.get_char(i + l);
        proof {
            assert(d[l as int] == s[l as int]);
            assert(s[l as int] == text@[i + l]);
        }
        let dd = digit_of(c);
        proof {
            assert(pow10((l + 1) as nat) == 10 * pow10(l as nat));
            lemma_pow10_mono((l + 1) as nat, 20);
            assert(d.take(l as int + 1).drop_last() =~= d.take(l as int));
            assert(d.take(l as int + 1).last() == d[l as int]);
        }
        acc = acc * 10 + (dd as u128);
        l = l + 1;
    }
    proof {
        assert(d.take(k as int) =~= d);
    }
    if acc > u64::MAX as u128 {
        return None;
    }
    proof {
        assert(s.skip(k as int) =~= text@.skip(i as int + k));
    }
    Some((acc as u64, i + k))
}

/// A text field line (`name`, count, space, raw content, newline) at `i`.
fn take_text_field(text: &str, n: usize, i: usize, name: &[char]) -> (r: Option<(String, usize)>)
    requires
        n == text@.len(),
        i <= n,
    ensures
        match r {
            Some(v) => {
                &&& parse_text_field(text@.skip(i as int), name@) == Some(
                    (v.0@, text@.skip(v.1 as int)),
                )
                &&& i <= v.1 <= n
            },
            None => parse_text_field(text@.skip(i as int), name@) is None,
        },
{
    let sp_pat = [' '];
    let nl_pat = ['\n'];
    proof {
        assert(sp_pat@ =~= lit_sp());
        assert(nl_pat@ =~= lit_nl());
    }
    let j1 = match take_lit(text, n, i, name) {
        Some(j) => j,
        None => {
            return None;
        },
    };
    let (v, j2) = match take_number(text, n, j1) {
        Some(p) => p,
        None => {
            return None;
        },
    };
    let j3 = match take_lit(text, n, j2, sp_pat.as_slice()) {
        Some(j) => j,
        None => {
            return None;
        },
    };
    let remaining = n - j3;
    if v > remaining as u64 {
        proof {
            assert(text@.skip(j3 as int).len() < v as nat);
        }
        return None;
    }
    let vlen = v as usize;
    let content = text.substring_char(j3, j3 + vlen);
    let owned = content.to_owned();
    let j4 = match take_lit(text, n, j3 + vlen, nl_pat.as_slice()) {
        Some(j) => j,
        None => {
            proof {
                assert(text@.skip(j3 as int).skip(v as int) =~= text@.skip(j3 as int + vlen));
            }
            return None;
        },
    };
    proof {
        assert(text@.skip(j3 as int).skip(v as int) =~= text@.skip(j3 as int + vlen));
        assert(text@.skip(j3 as int).take(v as int) =~= text@.subrange(
            j3 as int,
            j3 as int + vlen,
        ));
    }
    Some((owned, j4))
}

/// A counter line (`name`, decimal value, newline) at `i`.
fn take_u32_field(text: &str, n: usize, i: usize, name: &[char]) -> (r: Option<(u32, usize)>)
    requires
        n == text@.len(),
        i <= n,
    ensures
        match r {
            Some(v) => {
                &&& parse_num_field(text@.skip(i as int), name@) == Some(
                    (v.0, text@.skip(v.1 as int)),
                )
                &&& i <= v.1 <= n
            },
            None => parse_num_field(text@.skip(i as int), name@) is None,
        },
{
    let nl_pat = ['\n'];
    proof {
        assert(nl_pat@ =~= lit_nl());
    }
    let j1 = match take_lit(text, n, i, name) {
        Some(j) => j,
        None => {
            return None;
        },
    };
    let (v, j2) = match take_number(text, n, j1) {
        Some(p) => p,
        None => {
            return None;
        },
    };
    let j3 = match take_lit(text, n, j2, nl_pat.as_slice()) {
        Some(j) => j,
        None => {
            return None;
        },
    };
    if v > u32::MAX as u64 {
        return None;
    }
    Some((v as u32, j3))
}

/// One record (`{`, the five field lines, `}`) at `i`.
#[verifier::rlimit(100)]
fn take_record(text: &str, n: usize, i: usize) -> (r: Option<(TaskRecord, usize)>)
    requires
        n == text@.len(),
        i <= n,
    ensures
        match r {
            Some(v) => {
                &&& parse_record(text@.skip(i as int)) == Some((v.0@, text@.skip(v.1 as int)))
                &&& i < v.1 <= n
            },
            None => parse_record(text@.skip(i as int)) is None,
        },
{
    let open_pat = ['{', '\n'];
    let close_pat = ['}', '\n'];
    let id_pat = ['i', 'd', ' '];
    let subject_pat = ['s', 'u', 'b', 'j', 'e', 'c', 't', ' '];
    let task_type_pat = ['t', 'a', 's', 'k', '_', 't', 'y', 'p', 'e', ' '];
    let solved_pat = ['s', 'o', 'l', 'v', 'e', 'd', ' '];
    let correct_pat = ['c', 'o', 'r', 'r', 'e', 'c', 't', ' '];
    proof {
        reveal(parse_record);
        assert(open_pat@ =~= lit_rec_open());
        assert(close_pat@ =~= lit_rec_close());
        assert(id_pat@ =~= lit_id());
        assert(subject_pat@ =~= lit_subject());
        assert(task_type_pat@ =~= lit_task_type());
        assert(solved_pat@ =~= lit_solved());
        assert(correct_pat@ =~= lit_correct());
    }
    let j1 = match take_lit(text, n, i, open_pat.as_slice()) {
        Some(j) => j,
        None => {
            return None;
        },
    };
    let (id, j2) = match take_text_field(text, n, j1, id_pat.as_slice()) {
        Some(p) => p,
        None => {
            return None;
        },
    };
    let (subject, j3) = match take_text_field(text, n, j2, subject_pat.as_slice()) {
        Some(p) => p,
        None => {
            return None;
        },
    };
    let (task_type, j4) = match take_text_field(text, n, j3, task_type_pat.as_slice()) {
        Some(p) => p,
        None => {
            return None;
        },
    };
    let (solved, j5) = match take_u32_field(text, n, j4, solved_pat.as_slice()) {
        Some(p) => p,
        None => {
            return None;
        },
    };
    let (correct, j6) = match take_u32_field(text, n, j5, correct_pat.as_slice()) {
        Some(p) => p,
        None => {
            return None;
        },
    };
    let j7 = match take_lit(text, n, j6, close_pat.as_slice()) {
        Some(j) => j,
        None => {
            return None;
        },
    };
    let rec = TaskRecord { id, subject, task_type, solved, correct };
    Some((rec, j7))
}

/// Read a whole record file, strictly: exactly the texts that
/// `encode_records` produces are accepted, and the result is the encoded
/// sequence; anything else is a `ParseError`.
pub fn parse_records(text: &str) -> (r: Result<Vec<TaskRecord>, ParseError>)
    ensures
        match r {
            Ok(v) => parse_records_spec(text@) == Some(v.deep_view()),
            Err(e) => parse_records_spec(text@) is None,
        },
{
    let n = text.unicode_len();
    let open_pat = ['[', '\n'];
    proof {
        assert(open_pat@ =~= lit_open());
        assert(text@.skip(0) =~= text@);
    }
    let mut i = match take_lit(text, n, 0, open_pat.as_slice()) {
        Some(j) => j,
        None => {
            return Err(ParseError);
        },
    };
    let mut out: Vec<TaskRecord> = Vec::new();
    proof {
        assert(out.deep_view() =~= Seq::<TaskRecordView>::empty());
    }
    loop
        invariant
            i <= n,
            n == text@.len(),
            parse_records_spec(text@) == (match parse_items(text@.skip(i as int)) {
                None => None::<Seq<TaskRecordView>>,
                Some(tl) => Some(out.deep_view() + tl),
            }),
        decreases n - i,
    {
        if i < n {
            let c0 = text.get_char(i);
            proof {
                assert(text@.skip(i as int)[0] == text@[i as int]);
            }
            if c0 == '{' {
                match take_record(text, n, i) {
                    Some((rec, j)) => {
                        proof {
                            let s = text@.skip(i as int);
                            let rest = text@.skip(j as int);
                            assert(rest.len() < s.len());
                            let ghost prev = out.deep_view();
                            assert(out.deep_view().push(rec@) + Seq::<
                                TaskRecordView,
                            >::empty() =~= out.deep_view().push(rec@));
                        }
                        let ghost prev = out.deep_view();
                        out.push(rec);
                        proof {
                            assert(out.deep_view() =~= prev.push(rec@));
                            assert forall|tl: Seq<TaskRecordView>|
                                prev + (seq![rec@] + tl) =~= out.deep_view() + tl by {
                                assert(prev + (seq![rec@] + tl) =~= prev.push(rec@) + tl);
                            }
                        }
                        i = j;
                    },
                    None => {
                        return Err(ParseError);
                    },
                }
            } else if n - i == 2 && c0 == ']' {
                let c1 = text.get_char(i + 1);
                proof {
                    assert(text@.skip(i as int)[1] == text@[i as int + 1]);
                }
                if c1 == '\n' {
                    proof {
                        assert(parse_items(text@.skip(i as int)) == Some(Seq::<
                            TaskRecordView,
                        >::empty()));
                        assert(out.deep_view() + Seq::<TaskRecordView>::empty() =~= out.deep_view());
                    }
                    return Ok(out);
                } else {
                    return Err(ParseError);
                }
            } else {
                return Err(ParseError);
            }
        } else {
            return Err(ParseError);
        }
    }
}

} // verus!

