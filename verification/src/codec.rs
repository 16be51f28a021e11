//! Decode rules between stored bytes and the record shapes.
//!
//! A stored value is a structured-text object: `{` followed by
//! comma-separated members `"name": value` and a closing `}`, where a value
//! is either a quoted text (no escapes) or an unsigned decimal integer that
//! fits in 32 bits. A status projection is decoded from the members named
//! `tcin` (text), `version` (integer) and `status` (one of the closed status
//! set); other members are read past and ignored, so the projection decodes
//! from the same bytes that encode a full record.

use vstd::prelude::*;
use vstd::slice::slice_index_get;
use vstd::slice::slice_subrange;
use vstd::slice::slice_to_vec;
use crate::record::ProjectionView;
use crate::record::Status;
use crate::record::StatusProjection;
use crate::record::status_of;

verus! {

pub const QUOTE: u8 = 34;
pub const BACKSLASH: u8 = 92;
pub const COMMA: u8 = 44;
pub const COLON: u8 = 58;
pub const LBRACE: u8 = 123;
pub const RBRACE: u8 = 125;

/// A member's value: quoted text or an unsigned integer.
pub enum FieldVal {
    Text(Vec<u8>),
    Number(u32),
}

/// Mathematical shape of a member's value.
pub ghost enum FieldValView {
    Text(Seq<u8>),
    Number(u32),
}

impl View for FieldVal {
    type V = FieldValView;

    open spec fn view(&self) -> FieldValView {
        match self {
            FieldVal::Text(t) => FieldValView::Text(t@),
            FieldVal::Number(n) => FieldValView::Number(*n),
        }
    }
}

/// The members of a decoded record, names paired with values.
pub open spec fn members_view(ms: Seq<(Vec<u8>, FieldVal)>) -> Seq<(Seq<u8>, FieldValView)> {
    ms.map_values(|m: (Vec<u8>, FieldVal)| (m.0@, m.1@))
}

pub open spec fn is_ws(b: u8) -> bool {
    b == 32 || b == 9 || b == 10 || b == 13
}

pub open spec fn is_digit(b: u8) -> bool {
    48 <= b <= 57
}

/// Bytes allowed inside quoted text: anything printable but the quote and
/// the escape lead-in, which the format does not use.
pub open spec fn is_text_byte(b: u8) -> bool {
    b != QUOTE && b != BACKSLASH && b >= 32
}

/// First position at or after `i` that does not hold whitespace.
pub open spec fn skip_ws(s: Seq<u8>, i: int) -> int
    decreases s.len() - i,
{
    if 0 <= i < s.len() && is_ws(s[i]) {
        skip_ws(s, i + 1)
    } else {
        i
    }
}

/// First position at or after `i` that does not hold a text byte.
pub open spec fn text_end(s: Seq<u8>, i: int) -> int
    decreases s.len() - i,
{
    if 0 <= i < s.len() && is_text_byte(s[i]) {
        text_end(s, i + 1)
    } else {
        i
    }
}

/// First position at or after `i` that does not hold a decimal digit.
pub open spec fn digits_end(s: Seq<u8>, i: int) -> int
    decreases s.len() - i,
{
    if 0 <= i < s.len() && is_digit(s[i]) {
        digits_end(s, i + 1)
    } else {
        i
    }
}

/// Value of the decimal digits `s[i..j)`.
pub open spec fn digits_value(s: Seq<u8>, i: int, j: int) -> nat
    decreases j - i,
{
    if i < j {
        digits_value(s, i, j - 1) * 10 + (s[j - 1] - 48) as nat
    } else {
        0
    }
}

/// Quoted text starting at `i`: its contents and the position after the
/// closing quote.
pub open spec fn parse_text(s: Seq<u8>, i: int) -> Option<(Seq<u8>, int)> {
    if 0 <= i < s.len() && s[i] == QUOTE {
        let j = text_end(s, i + 1);
        if j < s.len() && s[j] == QUOTE {
            Some((s.subrange(i + 1, j), j + 1))
        } else {
            None
        }
    } else {
        None
    }
}

/// Unsigned decimal integer starting at `i`, rejected unless it fits in 32
/// bits: its value and the position after its digits.
pub open spec fn parse_number(s: Seq<u8>, i: int) -> Option<(u32, int)> {
    if 0 <= i < s.len() && is_digit(s[i]) {
        let j = digits_end(s, i);
        if digits_value(s, i, j) <= u32::MAX {
            Some(((digits_value(s, i, j) as u32), j))
        } else {
            None
        }
    } else {
        None
    }
}

/// A member's value starting at `i`: quoted text or an integer.
pub open spec fn parse_value(s: Seq<u8>, i: int) -> Option<(FieldValView, int)> {
    if 0 <= i < s.len() && s[i] == QUOTE {
        match parse_text(s, i) {
            Some(r) => Some((FieldValView::Text(r.0), r.1)),
            None => None,
        }
    } else if 0 <= i < s.len() && is_digit(s[i]) {
        match parse_number(s, i) {
            Some(r) => Some((FieldValView::Number(r.0), r.1)),
            None => None,
        }
    } else {
        None
    }
}

/// A member `"name": value` starting at `i`.
pub open spec fn parse_member(s: Seq<u8>, i: int) -> Option<((Seq<u8>, FieldValView), int)> {
    match parse_text(s, i) {
        None => None,
        Some(nm) => {
            let j = skip_ws(s, nm.1);
            if 0 <= j < s.len() && s[j] == COLON {
                match parse_value(s, skip_ws(s, j + 1)) {
                    None => None,
                    Some(v) => Some(((nm.0, v.0), v.1)),
                }
            } else {
                None
            }
        }
    }
}

/// Members from `i` up to and past the closing brace. Each step consumes at
/// least one byte, so fuel equal to the input length never runs out first.
pub open spec fn parse_members(s: Seq<u8>, i: int, fuel: nat) -> Option<(
    Seq<(Seq<u8>, FieldValView)>,
    int,
)>
    decreases fuel,
{
    if fuel == 0 {
        None
    } else {
        match parse_member(s, i) {
            None => None,
            Some(m) => {
                let j = skip_ws(s, m.1);
                if 0 <= j < s.len() && s[j] == COMMA {
                    match parse_members(s, skip_ws(s, j + 1), (fuel - 1) as nat) {
                        None => None,
                        Some(rest) => Some((seq![m.0] + rest.0, rest.1)),
                    }
                } else if 0 <= j < s.len() && s[j] == RBRACE {
                    Some((seq![m.0], j + 1))
                } else {
                    None
                }
            }
        }
    }
}

/// A whole record: an object covering all of `s` but surrounding whitespace.
pub open spec fn parse_record(s: Seq<u8>) -> Option<Seq<(Seq<u8>, FieldValView)>> {
    let i = skip_ws(s, 0);
    if 0 <= i < s.len() && s[i] == LBRACE {
        let j = skip_ws(s, i + 1);
        if 0 <= j < s.len() && s[j] == RBRACE {
            if skip_ws(s, j + 1) == s.len() {
                Some(Seq::empty())
            } else {
                None
            }
        } else {
            match parse_members(s, j, s.len() as nat) {
                None => None,
                Some(ms) => {
                    if skip_ws(s, ms.1) == s.len() {
                        Some(ms.0)
                    } else {
                        None
                    }
                }
            }
        }
    } else {
        None
    }
}

/// Value of the first member named `name`, at or after position `i`.
pub open spec fn field_lookup(
    ms: Seq<(Seq<u8>, FieldValView)>,
    name: Seq<u8>,
    i: int,
) -> Option<FieldValView>
    decreases ms.len() - i,
{
    if 0 <= i < ms.len() {
        if ms[i].0 == name {
            Some(ms[i].1)
        } else {
            field_lookup(ms, name, i + 1)
        }
    } else {
        None
    }
}

pub open spec fn key_tcin() -> Seq<u8> {
    seq![116u8, 99, 105, 110]
}

pub open spec fn key_version() -> Seq<u8> {
    seq![118u8, 101, 114, 115, 105, 111, 110]
}

pub open spec fn key_status() -> Seq<u8> {
    seq![115u8, 116, 97, 116, 117, 115]
}

/// The status projection encoded by `s`, if `s` decodes at all: a record
/// whose `tcin` member is text, whose `version` member is an integer and
/// whose `status` member names a status. Of repeated members the first
/// counts.
pub open spec fn decode_projection(s: Seq<u8>) -> Option<ProjectionView> {
    match parse_record(s) {
        None => None,
        Some(ms) => {
            match (
                field_lookup(ms, key_tcin(), 0),
                field_lookup(ms, key_version(), 0),
                field_lookup(ms, key_status(), 0),
            ) {
                (
                    Some(FieldValView::Text(t)),
                    Some(FieldValView::Number(n)),
                    Some(FieldValView::Text(st)),
                ) => {
                    match status_of(st) {
                        Some(stat) => Some(ProjectionView { tcin: t, version: n, status: stat }),
                        None => None,
                    }
                }
                _ => None,
            }
        }
    }
}

/// Whether the byte sequences `a` and `b` are equal.
pub fn bytes_eq(a: &[u8], b: &[u8]) -> (r: bool)
    ensures
        r == (a@ == b@),
{
    if a.len() != b.len() {
        assert(a@.len() != b@.len());
        return false;
    }
    let mut i: usize = 0;
    while i < a.len()
        invariant
            i <= a.len(),
            a.len() == b.len(),
            a@.len() == b@.len(),
            forall|j: int| 0 <= j < i ==> a@[j] == b@[j],
        decreases a.len() - i,
    {
        if *slice_index_get(a, i) != *slice_index_get(b, i) {
            assert(a@[i as int] != b@[i as int]);
            return false;
        }
        i += 1;
    }
    proof {
        assert(a@ =~= b@);
    }
    true
}

fn is_ws_x(b: u8) -> (r: bool)
    ensures
        r == is_ws(b),
{
    b == 32 || b == 9 || b == 10 || b == 13
}

fn is_digit_x(b: u8) -> (r: bool)
    ensures
        r == is_digit(b),
{
    48 <= b && b <= 57
}

fn is_text_byte_x(b: u8) -> (r: bool)
    ensures
        r == is_text_byte(b),
{
    b != QUOTE && b != BACKSLASH && b >= 32
}

fn skip_ws_x(s: &Vec<u8>, i: usize) -> (r: usize)
    requires
        i <= s.len(),
    ensures
        r == skip_ws(s@, i as int),
        i <= r <= s.len(),
    decreases s.len() - i,
{
    if i < s.len() && is_ws_x(s[i]) {
        skip_ws_x(s, i + 1)
    } else {
        i
    }
}

fn text_end_x(s: &Vec<u8>, i: usize) -> (r: usize)
    requires
        i <= s.len(),
    ensures
        r == text_end(s@, i as int),
        i <= r <= s.len(),
    decreases s.len() - i,
{
    if i < s.len() && is_text_byte_x(s[i]) {
        text_end_x(s, i + 1)
    } else {
        i
    }
}

fn digits_end_x(s: &Vec<u8>, i: usize) -> (r: usize)
    requires
        i <= s.len(),
    ensures
        r == digits_end(s@, i as int),
        i <= r <= s.len(),
    decreases s.len() - i,
{
    if i < s.len() && is_digit_x(s[i]) {
        digits_end_x(s, i + 1)
    } else {
        i
    }
}

proof fn lemma_digits_value_grows(s: Seq<u8>, i: int, k: int, j: int)
    requires
        i <= k <= j,
    ensures
        digits_value(s, i, k) <= digits_value(s, i, j),
    decreases j - k,
{
    if k < j {
        lemma_digits_value_grows(s, i, k, j - 1);
    }
}

/// Value of the digit run `s[i..j)`, or `None` where it exceeds 32 bits.
fn digits_value_x(s: &Vec<u8>, i: usize, j: usize) -> (r: Option<u32>)
    requires
        i <= j <= s.len(),
        forall|t: int| i <= t < j ==> is_digit(s@[t]),
    ensures
        (match r {
            Some(n) => n == digits_value(s@, i as int, j as int),
            None => digits_value(s@, i as int, j as int) > u32::MAX,
        }),
    decreases j - i,
{
    if i < j {
        match digits_value_x(s, i, j - 1) {
            None => {
                proof {
                    lemma_digits_value_grows(s@, i as int, j - 1, j as int);
                }
                None
            }
            Some(p) => {
                let v: u64 = (p as u64) * 10 + ((s[j - 1] - 48) as u64);
                if v > (u32::MAX as u64) {
                    None
                } else {
                    Some(v as u32)
                }
            }
        }
    } else {
        Some(0)
    }
}

fn parse_text_x(s: &Vec<u8>, i: usize) -> (r: Option<(Vec<u8>, usize)>)
    requires
        i <= s.len(),
    ensures
        (match r {
            Some(t) => parse_text(s@, i as int) == Some((t.0@, t.1 as int)) && i < t.1 <= s.len(),
            None => parse_text(s@, i as int) is None,
        }),
{
    if i < s.len() && s[i] == QUOTE {
        let j = text_end_x(s, i + 1);
        if j < s.len() && s[j] == QUOTE {
            let content = slice_to_vec(slice_subrange(s.as_slice(), i + 1, j));
            Some((content, j + 1))
        } else {
            None
        }
    } else {
        None
    }
}

fn parse_number_x(s: &Vec<u8>, i: usize) -> (r: Option<(u32, usize)>)
    requires
        i <= s.len(),
    ensures
        (match r {
            Some(n) => parse_number(s@, i as int) == Some((n.0, n.1 as int)) && i < n.1 <= s.len(),
            None => parse_number(s@, i as int) is None,
        }),
{
    if i < s.len() && is_digit_x(s[i]) {
        let j = digits_end_x(s, i);
        proof {
            lemma_digits_end_past(s@, i as int);
        }
        assert(forall|t: int| i <= t < j ==> is_digit(s@[t])) by {
            assert forall|t: int| i <= t < j implies is_digit(s@[t]) by {
                lemma_digits_run(s@, i as int, t);
            }
        }
        match digits_value_x(s, i, j) {
            Some(n) => Some((n, j)),
            None => None,
        }
    } else {
        None
    }
}

/// A digit run that starts on a digit ends past it.
proof fn lemma_digits_end_past(s: Seq<u8>, i: int)
    requires
        0 <= i < s.len(),
        is_digit(s[i]),
    ensures
        digits_end(s, i) > i,
    decreases s.len() - i,
{
    assert(digits_end(s, i) == digits_end(s, i + 1));
    if i + 1 < s.len() && is_digit(s[i + 1]) {
        lemma_digits_end_past(s, i + 1);
    } else {
        assert(digits_end(s, i + 1) == i + 1);
    }
}

/// Every position of a digit run, up to its end, holds a digit.
proof fn lemma_digits_run(s: Seq<u8>, i: int, t: int)
    requires
        0 <= i <= t < digits_end(s, i),
    ensures
        is_digit(s[t]),
    decreases t - i,
{
    if i < t {
        lemma_digits_run(s, i + 1, t);
    }
}

fn parse_value_x(s: &Vec<u8>, i: usize) -> (r: Option<(FieldVal, usize)>)
    requires
        i <= s.len(),
    ensures
        (match r {
            Some(v) => parse_value(s@, i as int) == Some((v.0@, v.1 as int)) && i < v.1 <= s.len(),
            None => parse_value(s@, i as int) is None,
        }),
{
    if i < s.len() && s[i] == QUOTE {
        match parse_text_x(s, i) {
            Some(t) => Some((FieldVal::Text(t.0), t.1)),
            None => None,
        }
    } else if i < s.len() && is_digit_x(s[i]) {
        match parse_number_x(s, i) {
            Some(n) => Some((FieldVal::Number(n.0), n.1)),
            None => None,
        }
    } else {
        None
    }
}

fn parse_member_x(s: &Vec<u8>, i: usize) -> (r: Option<((Vec<u8>, FieldVal), usize)>)
    requires
        i <= s.len(),
    ensures
        (match r {
            Some(m) => parse_member(s@, i as int) == Some((((m.0).0@, (m.0).1@), m.1 as int))
                && i < m.1 <= s.len(),
            None => parse_member(s@, i as int) is None,
        }),
{
    match parse_text_x(s, i) {
        None => None,
        Some(nm) => {
            let j = skip_ws_x(s, nm.1);
            if j < s.len() && s[j] == COLON {
                let k = skip_ws_x(s, j + 1);
                match parse_value_x(s, k) {
                    None => None,
                    Some(v) => Some(((nm.0, v.0), v.1)),
                }
            } else {
                None
            }
        }
    }
}

fn parse_members_x(s: &Vec<u8>, i: usize, fuel: usize) -> (r: Option<(
    Vec<(Vec<u8>, FieldVal)>,
    usize,
)>)
    requires
        i <= s.len(),
    ensures
        (match r {
            Some(ms) => parse_members(s@, i as int, fuel as nat) == Some(
                (members_view(ms.0@), ms.1 as int),
            ) && ms.1 <= s.len(),
            None => parse_members(s@, i as int, fuel as nat) is None,
        }),
    decreases fuel,
{
    if fuel == 0 {
        None
    } else {
        match parse_member_x(s, i) {
            None => None,
            Some(m) => {
                let j = skip_ws_x(s, m.1);
                if j < s.len() && s[j] == COMMA {
                    let k = skip_ws_x(s, j + 1);
                    match parse_members_x(s, k, fuel - 1) {
                        None => None,
                        Some(rest) => {
                            let mut ms = rest.0;
                            ms.insert(0, m.0);
                            proof {
                                assert(members_view(ms@) =~= seq![((m.0).0@, (m.0).1@)]
                                    + members_view(rest.0@));
                            }
                            Some((ms, rest.1))
                        }
                    }
                } else if j < s.len() && s[j] == RBRACE {
                    let mut ms: Vec<(Vec<u8>, FieldVal)> = Vec::new();
                    ms.push(m.0);
                    proof {
                        assert(members_view(ms@) =~= seq![((m.0).0@, (m.0).1@)]);
                    }
                    Some((ms, j + 1))
                } else {
                    None
                }
            }
        }
    }
}

/// The members of the record encoded by `value`, if it parses whole.
fn parse_record_x(value: &Vec<u8>) -> (r: Option<Vec<(Vec<u8>, FieldVal)>>)
    ensures
        (match r {
            Some(ms) => parse_record(value@) == Some(members_view(ms@)),
            None => parse_record(value@) is None,
        }),
{
    let i = skip_ws_x(value, 0);
    if i < value.len() && value[i] == LBRACE {
        let j = skip_ws_x(value, i + 1);
        if j < value.len() && value[j] == RBRACE {
            if skip_ws_x(value, j + 1) == value.len() {
                let ms: Vec<(Vec<u8>, FieldVal)> = Vec::new();
                proof {
                    assert(members_view(ms@) =~= Seq::<(Seq<u8>, FieldValView)>::empty());
                }
                Some(ms)
            } else {
                None
            }
        } else {
            match parse_members_x(value, j, value.len()) {
                None => None,
                Some(ms) => {
                    if skip_ws_x(value, ms.1) == value.len() {
                        Some(ms.0)
                    } else {
                        None
                    }
                }
            }
        }
    } else {
        None
    }
}

/// Position of the first member named `name`, at or after `i`.
fn field_index(ms: &Vec<(Vec<u8>, FieldVal)>, name: &Vec<u8>, i: usize) -> (r: Option<usize>)
    requires
        i <= ms.len(),
    ensures
        (match r {
            Some(p) => i <= p < ms.len() && field_lookup(members_view(ms@), name@, i as int)
                == Some(ms@[p as int].1@),
            None => field_lookup(members_view(ms@), name@, i as int) is None,
        }),
    decreases ms.len() - i,
{
    if i < ms.len() {
        let entry = slice_index_get(ms.as_slice(), i);
        if bytes_eq(entry.0.as_slice(), name.as_slice()) {
            Some(i)
        } else {
            field_index(ms, name, i + 1)
        }
    } else {
        None
    }
}

fn key_tcin_bytes() -> (r: Vec<u8>)
    ensures
        r@ == key_tcin(),
{
    let mut v: Vec<u8> = Vec::new();
    v.push(116);
    v.push(99);
    v.push(105);
    v.push(110);
    proof {
        assert(v@ =~= key_tcin());
    }
    v
}

fn key_version_bytes() -> (r: Vec<u8>)
    ensures
        r@ == key_version(),
{
    let mut v: Vec<u8> = Vec::new();
    v.push(118);
    v.push(101);
    v.push(114);
    v.push(115);
    v.push(105);
    v.push(111);
    v.push(110);
    proof {
        assert(v@ =~= key_version());
    }
    v
}

fn key_status_bytes() -> (r: Vec<u8>)
    ensures
        r@ == key_status(),
{
    let mut v: Vec<u8> = Vec::new();
    v.push(115);
    v.push(116);
    v.push(97);
    v.push(116);
    v.push(117);
    v.push(115);
    proof {
        assert(v@ =~= key_status());
    }
    v
}

/// The status named by `name`, if any.
fn status_of_bytes(name: &Vec<u8>) -> (r: Option<Status>)
    ensures
        r == status_of(name@),
{
    let approved = crate::record::status_name_bytes(Status::Approved);
    if bytes_eq(name.as_slice(), approved.as_slice()) {
        return Some(Status::Approved);
    }
    let initiated = crate::record::status_name_bytes(Status::Initiated);
    if bytes_eq(name.as_slice(), initiated.as_slice()) {
        return Some(Status::Initiated);
    }
    let unpublished = crate::record::status_name_bytes(Status::Unpublished);
    if bytes_eq(name.as_slice(), unpublished.as_slice()) {
        return Some(Status::Unpublished);
    }
    None
}

/// Decode `value` into a status projection, exactly where the decode rules
/// allow one.
pub fn parse_projection(value: &Vec<u8>) -> (r: Option<StatusProjection>)
    ensures
        (match r {
            Some(p) => decode_projection(value@) == Some(p@),
            None => decode_projection(value@) is None,
        }),
{
    let ms = match parse_record_x(value) {
        None => {
            return None;
        }
        Some(ms) => ms,
    };
    let tcin_key = key_tcin_bytes();
    let version_key = key_version_bytes();
    let status_key = key_status_bytes();
    let tcin = match field_index(&ms, &tcin_key, 0) {
        Some(p) => {
            match &slice_index_get(ms.as_slice(), p).1 {
                FieldVal::Text(t) => slice_to_vec(t.as_slice()),
                FieldVal::Number(_) => {
                    return None;
                }
            }
        }
        None => {
            return None;
        }
    };
    let version = match field_index(&ms, &version_key, 0) {
        Some(p) => {
            match &slice_index_get(ms.as_slice(), p).1 {
                FieldVal::Number(n) => *n,
                FieldVal::Text(_) => {
                    return None;
                }
            }
        }
        None => {
            return None;
        }
    };
    let status = match field_index(&ms, &status_key, 0) {
        Some(p) => {
            match &slice_index_get(ms.as_slice(), p).1 {
                FieldVal::Text(st) => {
                    match status_of_bytes(st) {
                        Some(stat) => stat,
                        None => {
                            return None;
                        }
                    }
                }
                FieldVal::Number(_) => {
                    return None;
                }
            }
        }
        None => {
            return None;
        }
    };
    Some(StatusProjection { tcin, version, status })
}

} // verus!
