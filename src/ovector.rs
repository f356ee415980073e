use vstd::prelude::*;
use vstd::string::*;
use vstd::utf8::*;

use crate::captures::{participating, slot_text, Captures};

verus! {

/// Number of integers in the offset vector handed to the matcher: a start
/// and an end offset for each group, group 0 (the whole match) first.
pub const OVECTOR_LEN: usize = 30;

/// Only the first two thirds of the offset vector hold offset pairs; the
/// matcher uses the rest as workspace.
pub const USABLE_LEN: usize = 20;

/// Number of numbered groups whose offsets the usable part can hold.
pub const GROUP_SLOTS: usize = 9;

/// True when an offset pair describes a group that took part in the match.
pub open spec fn participates(start: i32, end: i32) -> bool {
    start != end && start >= 0 && end >= 0
}

/// True when `start..end` is a byte range of the text whose bytes are given
/// that begins and ends on character boundaries.
pub open spec fn span_fits(bytes: Seq<u8>, start: int, end: int) -> bool {
    &&& 0 <= start <= end <= bytes.len()
    &&& is_char_boundary(bytes, start)
    &&& is_char_boundary(bytes.subrange(start, bytes.len() as int), end - start)
}

/// Start offset of group `number`.
pub open spec fn group_start(ovector: Seq<i32>, number: int) -> i32 {
    ovector[2 * number]
}

/// End offset of group `number`.
pub open spec fn group_end(ovector: Seq<i32>, number: int) -> i32 {
    ovector[2 * number + 1]
}

/// Every participating group of the offset vector names a piece of the
/// subject that can be cut out as text.
pub open spec fn spans_fit(bytes: Seq<u8>, ovector: Seq<i32>) -> bool {
    forall|number: int|
        1 <= number <= GROUP_SLOTS && participates(
            #[trigger] group_start(ovector, number),
            group_end(ovector, number),
        ) ==> span_fits(bytes, group_start(ovector, number) as int, group_end(ovector, number) as int)
}

/// The text that the bytes `start..end` of a subject spell.
pub open spec fn span_text(bytes: Seq<u8>, start: int, end: int) -> Seq<char> {
    decode_utf8(bytes.subrange(start, end))
}

/// Group `number` as the offset vector gives it: its text where it took
/// part in the match, else `None`.
pub open spec fn group_from(bytes: Seq<u8>, ovector: Seq<i32>, number: int) -> Option<Seq<char>> {
    let start = group_start(ovector, number);
    let end = group_end(ovector, number);
    if participates(start, end) {
        Some(span_text(bytes, start as int, end as int))
    } else {
        None
    }
}

/// Groups `1..=GROUP_SLOTS` as the offset vector gives them, by number.
pub open spec fn groups_from(bytes: Seq<u8>, ovector: Seq<i32>) -> Seq<Option<Seq<char>>> {
    Seq::new(GROUP_SLOTS as nat, |k: int| group_from(bytes, ovector, k + 1))
}

/// What reading a match of status `status` out of `ovector` yields: `None`
/// where the status is negative, else the groups by number.
pub open spec fn outcome(
    bytes: Seq<u8>,
    ovector: Seq<i32>,
    status: i32,
    r: Option<Captures>,
) -> bool {
    match r {
        None => status < 0,
        Some(c) => status >= 0 && c@ == groups_from(bytes, ovector),
    }
}

/// Reading the same subject, offsets and status twice gives equal
/// captures, with the same participating groups in the same order. A
/// matcher that fills the offsets alike for the same pattern and subject
/// thus gives equal matches on every run.
pub proof fn lemma_outcome_repeatable(
    bytes: Seq<u8>,
    ovector: Seq<i32>,
    status: i32,
    first: Option<Captures>,
    second: Option<Captures>,
)
    requires
        outcome(bytes, ovector, status, first),
        outcome(bytes, ovector, status, second),
    ensures
        first is None <==> second is None,
        first is Some ==> first->Some_0@ == second->Some_0@,
        first is Some ==> participating(first->Some_0@) == participating(second->Some_0@),
{
}

/// Whether `start..end` is a byte range of `subject` on character
/// boundaries.
pub fn span_fits_subject(subject: &str, start: libc::c_int, end: libc::c_int) -> (r: bool)
    ensures
        r == span_fits(subject.spec_bytes(), start as int, end as int),
{
    if start < 0 || end < start || end as usize > subject.as_bytes().len() {
        return false;
    }
    let start = start as usize;
    let end = end as usize;
    if !subject.is_char_boundary(start) {
        return false;
    }
    let (_, rest) = subject.split_at(start);
    proof {
        assert(rest.spec_bytes() =~= subject.spec_bytes().subrange(
            start as int,
            subject.spec_bytes().len() as int,
        ));
    }
    rest.is_char_boundary(end - start)
}

/// Whether every participating group of `ovector` can be cut out of
/// `subject` as text.
pub fn spans_fit_subject(subject: &str, ovector: &[libc::c_int]) -> (r: bool)
    requires
        ovector@.len() == OVECTOR_LEN,
    ensures
        r == spans_fit(subject.spec_bytes(), ovector@),
{
    let mut number: usize = 1;
    while number <= GROUP_SLOTS
        invariant
            1 <= number <= GROUP_SLOTS + 1,
            ovector@.len() == OVECTOR_LEN,
            forall|m: int|
                1 <= m < number && participates(
                    #[trigger] group_start(ovector@, m),
                    group_end(ovector@, m),
                ) ==> span_fits(
                    subject.spec_bytes(),
                    group_start(ovector@, m) as int,
                    group_end(ovector@, m) as int,
                ),
        decreases GROUP_SLOTS + 1 - number,
    {
        let start = ovector[2 * number];
        let end = ovector[2 * number + 1];
        if start != end && start >= 0 && end >= 0 && !span_fits_subject(subject, start, end) {
            assert(participates(group_start(ovector@, number as int), group_end(ovector@, number as int)));
            return false;
        }
        number = number + 1;
    }
    true
}

/// Cuts `start..end` out of `subject` as an owned string.
fn span_string(subject: &str, start: usize, end: usize) -> (r: String)
    requires
        span_fits(subject.spec_bytes(), start as int, end as int),
    ensures
        r@ == span_text(subject.spec_bytes(), start as int, end as int),
{
    let (_, rest) = subject.split_at(start);
    proof {
        assert(rest.spec_bytes() =~= subject.spec_bytes().subrange(
            start as int,
            subject.spec_bytes().len() as int,
        ));
    }
    let (piece, _) = rest.split_at(end - start);
    proof {
        assert(piece.spec_bytes() =~= subject.spec_bytes().subrange(start as int, end as int));
        encode_utf8_decode_utf8(piece@);
    }
    piece.to_owned()
}

/// The captures that a match of status `status` left in `ovector`, or
/// `None` where the status is negative (no match, or the matcher failed).
///
/// Group 0, the whole match, is not kept. Each of the groups that the
/// usable part of the vector holds is kept by number, with its text where
/// it took part and `None` where it did not: a group whose offsets are
/// equal, or either of them negative, did not take part.
pub fn captures_from_ovector(subject: &str, ovector: &[libc::c_int], status: libc::c_int) -> (r:
    Option<Captures>)
    requires
        ovector@.len() == OVECTOR_LEN,
        spans_fit(subject.spec_bytes(), ovector@),
    ensures
        outcome(subject.spec_bytes(), ovector@, status, r),
{
    if status < 0 {
        return None;
    }
    let mut groups: Vec<Option<String>> = Vec::new();
    let mut idx: usize = 2;
    while idx < USABLE_LEN
        invariant
            2 <= idx <= USABLE_LEN,
            idx % 2 == 0,
            ovector@.len() == OVECTOR_LEN,
            spans_fit(subject.spec_bytes(), ovector@),
            groups@.map_values(|g: Option<String>| slot_text(g)) =~= groups_from(
                subject.spec_bytes(),
                ovector@,
            ).take(idx / 2 - 1),
        decreases USABLE_LEN - idx,
    {
        let start = ovector[idx];
        let end = ovector[idx + 1];
        proof {
            assert(group_start(ovector@, (idx / 2) as int) == start);
            assert(group_end(ovector@, (idx / 2) as int) == end);
        }
        let ghost before = groups@;
        if start != end && start >= 0 && end >= 0 {
            groups.push(Some(span_string(subject, start as usize, end as usize)));
        } else {
            groups.push(None);
        }
        proof {
            let wanted = groups_from(subject.spec_bytes(), ovector@);
            let n = (idx / 2) as int;
            assert(slot_text(groups@.last()) == wanted[n - 1]);
            assert(groups@.drop_last() == before);
            assert(wanted.take(n) =~= wanted.take(n - 1).push(wanted[n - 1]));
        }
        idx = idx + 2;
    }
    proof {
        let wanted = groups_from(subject.spec_bytes(), ovector@);
        assert(wanted.take(GROUP_SLOTS as int) =~= wanted);
    }
    Some(Captures::from_groups(groups))
}

} // verus!
