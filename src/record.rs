//! The text record of a sweep: one line per input, and reading back where a sweep
//! stopped so that it can go on.
use crate::natural::{is_ascii_digit, is_foreign_byte, is_number_text, lemma_text_value, text, text_value, Natural};
use crate::routine::{all_wf, values};
use vstd::prelude::*;

verus! {

/// The `j`-th cell of a record: the text of the `j`-th value, empty past the last one.
pub open spec fn cell(series: Seq<nat>, j: int) -> Seq<u8> {
    if 0 <= j < series.len() {
        text(series[j])
    } else {
        Seq::empty()
    }
}

/// The first `k` columns of a record, each led by a comma.
pub open spec fn columns(series: Seq<nat>, k: nat) -> Seq<u8>
    decreases k,
{
    if k == 0 {
        Seq::empty()
    } else {
        columns(series, (k - 1) as nat) + seq![44u8] + cell(series, k - 1)
    }
}

/// The number of columns of a record: `iterations`, or the length of a longer series.
pub open spec fn column_count(series: Seq<nat>, iterations: nat) -> nat {
    if series.len() > iterations {
        series.len()
    } else {
        iterations
    }
}

/// The record of one input: its text, then one column per value of the series, padded
/// with empty columns up to `iterations`, then a newline.
pub open spec fn record(input: nat, series: Seq<nat>, iterations: nat) -> Seq<u8> {
    text(input) + columns(series, column_count(series, iterations)) + seq![10u8]
}

/// Where the line that ends at `k` starts: just after the last newline before `k`.
pub open spec fn line_start(s: Seq<u8>, k: nat) -> nat
    decreases k,
{
    if k == 0 {
        0
    } else if s[k - 1] == 10 {
        k
    } else {
        line_start(s, (k - 1) as nat)
    }
}

/// Where the last line of `s` ends, leaving out a final line break (`\n` or `\r\n`).
pub open spec fn last_line_end(s: Seq<u8>) -> nat {
    if s.len() > 0 && s.last() == 10 {
        if s.len() >= 2 && s[s.len() - 2] == 13 {
            (s.len() - 2) as nat
        } else {
            (s.len() - 1) as nat
        }
    } else {
        s.len()
    }
}

/// Where the field that starts at `k` ends: at the next comma, or at the end.
pub open spec fn field_end(s: Seq<u8>, k: nat) -> nat
    decreases s.len() - k,
{
    if k >= s.len() {
        s.len()
    } else if s[k as int] == 44 {
        k
    } else {
        field_end(s, k + 1)
    }
}

/// The first field of the last line of `s`.
pub open spec fn last_field(s: Seq<u8>) -> Seq<u8> {
    let e = last_line_end(s);
    let line = s.subrange(line_start(s, e) as int, e as int);
    line.take(field_end(line, 0) as int)
}

/// Every byte of the columns is a comma or a digit, and they start with a comma.
proof fn lemma_columns_bytes(series: Seq<nat>, k: nat)
    ensures
        forall|i: int|
            0 <= i < columns(series, k).len() ==> #[trigger] columns(series, k)[i] == 44 || is_ascii_digit(
                columns(series, k)[i],
            ),
        k > 0 ==> columns(series, k).len() > 0 && columns(series, k)[0] == 44,
    decreases k,
{
    if k > 0 {
        let km = (k - 1) as nat;
        lemma_columns_bytes(series, km);
        let a = columns(series, km) + seq![44u8];
        let c = cell(series, k - 1);
        if 0 <= k - 1 < series.len() {
            lemma_text_value(series[k - 1]);
        }
        assert(columns(series, k) == a + c);
        assert forall|i: int| 0 <= i < columns(series, k).len() implies #[trigger] columns(series, k)[i] == 44
            || is_ascii_digit(columns(series, k)[i]) by {
            if i >= a.len() {
                assert(columns(series, k)[i] == c[i - a.len()]);
            } else if i < columns(series, km).len() {
                assert(columns(series, k)[i] == columns(series, km)[i]);
            }
        }
        if km > 0 {
            assert(columns(series, k)[0] == columns(series, km)[0]);
        }
    }
}

/// Scanning back from `k` over bytes that are no newline stops after the newline at `m`.
proof fn lemma_line_start(s: Seq<u8>, m: nat, k: nat)
    requires
        m <= k <= s.len(),
        m == 0 || s[m - 1] == 10,
        forall|i: int| m <= i < k ==> s[i] != 10,
    ensures
        line_start(s, k) == m,
    decreases k,
{
    if k > m {
        lemma_line_start(s, m, (k - 1) as nat);
    }
}

/// Scanning forward from `k` over bytes that are no comma stops at the comma at `m`.
proof fn lemma_field_end(s: Seq<u8>, k: nat, m: nat)
    requires
        k <= m <= s.len(),
        m == s.len() || s[m as int] == 44,
        forall|i: int| k <= i < m ==> s[i] != 44,
    ensures
        field_end(s, k) == m,
    decreases m - k,
{
    if k < m {
        lemma_field_end(s, k + 1, m);
    }
}

/// A sweep can be resumed from its record: after any whole lines, the record of an
/// input reads back as that input, so the sweep goes on at the input that follows it.
pub proof fn lemma_resume_after_record(prefix: Seq<u8>, input: nat, series: Seq<nat>, iterations: nat)
    requires
        prefix.len() == 0 || prefix.last() == 10,
    ensures
        last_field(prefix + record(input, series, iterations)) == text(input),
        is_number_text(text(input)),
        text_value(text(input)) == input,
{
    let t = text(input);
    let c = columns(series, column_count(series, iterations));
    let body = t + c;
    let s = prefix + record(input, series, iterations);
    lemma_text_value(input);
    lemma_columns_bytes(series, column_count(series, iterations));
    assert(s =~= prefix + body + seq![10u8]);
    let p = prefix.len();
    let e = (p + body.len()) as nat;
    assert forall|i: int| 0 <= i < body.len() implies #[trigger] body[i] == 44 || is_ascii_digit(body[i]) by {
        if i >= t.len() {
            assert(body[i] == c[i - t.len()]);
        } else {
            assert(body[i] == t[i]);
        }
    }
    assert(s[s.len() - 2] == body[body.len() - 1]);
    assert(last_line_end(s) == e);
    assert forall|i: int| p <= i < e implies s[i] != 10 by {
        assert(s[i] == body[i - p]);
    }
    if p > 0 {
        assert(s[p - 1] == prefix.last());
    }
    lemma_line_start(s, p as nat, e);
    let line = s.subrange(p as int, e as int);
    assert(line =~= body);
    assert forall|i: int| 0 <= i < t.len() implies line[i] != 44 by {
        assert(line[i] == t[i]);
    }
    if c.len() > 0 {
        assert(line[t.len() as int] == c[0]);
    }
    lemma_field_end(line, 0, t.len());
    assert(line.take(t.len() as int) =~= t);
}

/// Why a record could not be read back.
#[derive(Debug, PartialEq, Eq)]
pub enum ResumeError {
    /// The first field of the last line is not a decimal number.
    MalformedInput,
}

/// The record of `input` and its `series`, with at least `iterations` columns.
pub fn format_record(input: &Natural, series: &Vec<Natural>, iterations: u16) -> (r: Vec<u8>)
    requires
        input.wf(),
        all_wf(series@),
    ensures
        r@ == record(input@, values(series@), iterations as nat),
{
    let ghost vs = values(series@);
    let mut r = input.to_text();
    let cols: usize = if series.len() > iterations as usize {
        series.len()
    } else {
        iterations as usize
    };
    let mut j: usize = 0;
    while j < cols
        invariant
            j <= cols,
            cols == column_count(vs, iterations as nat),
            vs == values(series@),
            all_wf(series@),
            r@ == text(input@) + columns(vs, j as nat),
        decreases cols - j,
    {
        r.push(44);
        if j < series.len() {
            let mut t = series[j].to_text();
            r.append(&mut t);
        }
        j += 1;
        assert(r@ =~= text(input@) + columns(vs, j as nat));
    }
    r.push(10);
    r
}

/// The last input written to a record of a sweep: none for an empty record, else the
/// first field of its last line read as a decimal number.
pub fn last_recorded(content: &Vec<u8>) -> (r: Result<Option<Natural>, ResumeError>)
    ensures
        content@.len() == 0 ==> r == Ok::<Option<Natural>, ResumeError>(None),
        content@.len() > 0 && is_number_text(last_field(content@)) ==> (r matches Ok(Some(n))
            && n.wf() && n@ == text_value(last_field(content@))),
        content@.len() > 0 && (last_field(content@).len() == 0 || exists|i: int|
            0 <= i < last_field(content@).len() && is_foreign_byte(
                #[trigger] last_field(content@)[i],
            )) ==> r == Err::<Option<Natural>, ResumeError>(ResumeError::MalformedInput),
        r matches Ok(Some(n)) ==> n.wf() && content@.len() > 0,
{
    let len = content.len();
    if len == 0 {
        return Ok(None);
    }
    let end: usize = if content[len - 1] == 10 {
        if len >= 2 && content[len - 2] == 13 {
            len - 2
        } else {
            len - 1
        }
    } else {
        len
    };
    let mut start: usize = end;
    while start > 0 && content[start - 1] != 10
        invariant
            start <= end <= len == content.len(),
            line_start(content@, end as nat) == line_start(content@, start as nat),
        decreases start,
    {
        start -= 1;
    }
    let ghost line = content@.subrange(start as int, end as int);
    let mut field: Vec<u8> = Vec::new();
    let mut k: usize = start;
    while k < end && content[k] != 44
        invariant
            start <= k <= end <= len == content.len(),
            line == content@.subrange(start as int, end as int),
            field@ == line.take(k - start),
            field_end(line, 0) == field_end(line, (k - start) as nat),
        decreases end - k,
    {
        field.push(content[k]);
        k += 1;
        assert(field@ =~= line.take(k - start));
    }
    assert(field@ == last_field(content@));
    match Natural::parse(field.as_slice()) {
        Some(n) => Ok(Some(n)),
        None => Err(ResumeError::MalformedInput),
    }
}

/// Where a sweep begins: after the last recorded input when there is one, else at
/// `start`.
pub fn sweep_start(start: &Natural, last: &Option<Natural>) -> (r: Natural)
    requires
        start.wf(),
        last matches Some(l) ==> l.wf(),
    ensures
        r.wf(),
        last is None ==> r@ == start@,
        last matches Some(l) ==> r@ == l@ + 1,
{
    match last {
        Some(l) => l.successor(),
        None => start.clone(),
    }
}

} // verus!
