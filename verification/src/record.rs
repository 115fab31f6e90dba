//! Records: lines of two fields with a comma between them.
//!
//! A line is split at its commas and nothing is quoted or escaped: the first
//! field ends before the first comma, the second field before the second
//! comma or at the end of the line, and what follows a second comma is not
//! read. A line without a comma has no second field and is malformed.

use vstd::prelude::*;

verus! {

/// The position of the first comma of `line` at or after `from`, or the
/// length of `line` where no comma follows.
pub open spec fn comma_from(line: Seq<char>, from: int) -> int
    decreases line.len() - from,
{
    if from >= line.len() {
        line.len() as int
    } else if line[from] == ',' {
        from
    } else {
        comma_from(line, from + 1)
    }
}

/// `line` holds a comma, and so two fields or more.
pub open spec fn has_two_fields(line: Seq<char>) -> bool {
    line.contains(',')
}

/// The first field of `line`: what stands before its first comma.
pub open spec fn first_field(line: Seq<char>) -> Seq<char> {
    line.subrange(0, comma_from(line, 0))
}

/// The second field of `line`: what stands between its first comma and the
/// next one, or the end of the line. A line without a comma has an empty one.
pub open spec fn second_field(line: Seq<char>) -> Seq<char> {
    let start = comma_from(line, 0) + 1;
    if start > line.len() {
        Seq::empty()
    } else {
        line.subrange(start, comma_from(line, start))
    }
}

/// Where no comma stands from `from` up to `at`, and `at` is a comma or the
/// end of the line, the first comma at or after `from` is at `at`.
pub proof fn lemma_comma_found(line: Seq<char>, from: int, at: int)
    requires
        0 <= from <= at <= line.len(),
        forall|i: int| from <= i < at ==> line[i] != ',',
        at == line.len() || line[at] == ',',
    ensures
        comma_from(line, from) == at,
    decreases at - from,
{
    if from < at {
        lemma_comma_found(line, from + 1, at);
    }
}

/// The first comma at or after `from` is a comma unless it is the end of the
/// line, and no comma stands between `from` and it.
pub proof fn lemma_comma_from(line: Seq<char>, from: int)
    requires
        0 <= from <= line.len(),
    ensures
        from <= comma_from(line, from) <= line.len(),
        comma_from(line, from) < line.len() ==> line[comma_from(line, from)] == ',',
        forall|i: int| from <= i < comma_from(line, from) ==> line[i] != ',',
    decreases line.len() - from,
{
    if from < line.len() && line[from] != ',' {
        lemma_comma_from(line, from + 1);
    }
}

/// A line with a comma is its first field, a comma, its second field and a
/// rest that is empty or begins with a comma; neither field holds a comma.
pub proof fn lemma_fields_split(line: Seq<char>)
    requires
        has_two_fields(line),
    ensures
        !first_field(line).contains(','),
        !second_field(line).contains(','),
        exists|rest: Seq<char>|
            line == first_field(line) + seq![','] + second_field(line) + rest && (rest.len() == 0
                || rest[0] == ','),
{
    let first = comma_from(line, 0);
    lemma_comma_from(line, 0);
    let i = choose|i: int| 0 <= i < line.len() && line[i] == ',';
    assert(first < line.len());
    let second = comma_from(line, first + 1);
    lemma_comma_from(line, first + 1);
    let rest = line.subrange(second, line.len() as int);
    assert(line =~= first_field(line) + seq![','] + second_field(line) + rest);
    if first_field(line).contains(',') {
        let j = choose|j: int| 0 <= j < first_field(line).len() && first_field(line)[j] == ',';
        assert(line[j] == ',');
    }
    if second_field(line).contains(',') {
        let j = choose|j: int| 0 <= j < second_field(line).len() && second_field(line)[j] == ',';
        assert(line[first + 1 + j] == ',');
    }
}

/// Splits `line` into its first two fields. There are none where `line`
/// holds no comma.
pub fn parse_record(line: &str) -> (record: Option<(String, String)>)
    ensures
        record is Some <==> has_two_fields(line@),
        record matches Some(fields) ==> fields.0@ == first_field(line@) && fields.1@
            == second_field(line@),
{
    let length: usize = line.unicode_len();
    let mut first: usize = length;
    let mut second: usize = length;
    let mut at: usize = 0;
    for letter in letters: line.chars()
        invariant
            letters.seq() == line@,
            at == letters.index(),
            length == line@.len(),
            first <= second <= length,
            first < length ==> first < at && line@[first as int] == ',',
            second < length ==> first < second < at && line@[second as int] == ',',
            forall|i: int| 0 <= i < at && i < first ==> line@[i] != ',',
            forall|i: int| first < i < at && i < second ==> line@[i] != ',',
    {
        if letter == ',' {
            if first == length {
                first = at;
            } else if second == length {
                second = at;
            }
        }
        at += 1;
    }
    proof {
        lemma_comma_found(line@, 0, first as int);
        if first < length {
            lemma_comma_found(line@, first + 1, second as int);
        } else {
            assert forall|i: int| 0 <= i < line@.len() implies line@[i] != ',' by {}
        }
    }
    if first == length {
        None
    } else {
        let head = line.substring_char(0, first);
        let tail = line.substring_char(first + 1, second);
        Some((head.to_owned(), tail.to_owned()))
    }
}

} // verus!
