//! Decoding a whole text of element sets: every complete group is decoded on
//! its own, and what fails is reported beside what succeeds.

use vstd::prelude::*;
use crate::decimal::slice_subrange;
use crate::error::DecodeError;
use crate::lines::{leftover_report, line_bounds, lines_of};
use crate::record::{decode_lines, record_from_lines, TleView, TLE};
use crate::text::chars_of;

verus! {

/// A group that could not be decoded, by its position in the text.
#[derive(Clone, Copy, Debug, PartialEq, Eq, Structural)]
pub struct Failure {
    pub group: usize,
    pub error: DecodeError,
}

/// The outcome of decoding a text of element sets.
#[derive(Debug)]
pub struct Batch {
    /// The records of the groups that decoded, in text order.
    pub records: Vec<TLE>,
    /// The groups that did not decode, in text order, then the leftover
    /// lines, if any.
    pub failures: Vec<Failure>,
}

/// What each complete group of `lines` decodes to.
pub open spec fn group_results(lines: Seq<Seq<char>>) -> Seq<Result<TleView, DecodeError>> {
    Seq::new(
        (lines.len() / 3) as nat,
        |g: int| record_from_lines(lines[3 * g], lines[3 * g + 1], lines[3 * g + 2]),
    )
}

/// The records among `rs`, in order.
pub open spec fn decoded(rs: Seq<Result<TleView, DecodeError>>) -> Seq<TleView>
    decreases rs.len(),
{
    if rs.len() == 0 {
        Seq::empty()
    } else {
        let p = decoded(rs.drop_last());
        match rs.last() {
            Ok(v) => p.push(v),
            Err(_) => p,
        }
    }
}

/// The errors among `rs`, each with its position, in order.
pub open spec fn failed(rs: Seq<Result<TleView, DecodeError>>) -> Seq<Failure>
    decreases rs.len(),
{
    if rs.len() == 0 {
        Seq::empty()
    } else {
        let p = failed(rs.drop_last());
        match rs.last() {
            Ok(_) => p,
            Err(e) => p.push(Failure { group: (rs.len() - 1) as usize, error: e }),
        }
    }
}

/// Everything that goes wrong in `text`: the failed groups, then one
/// `TruncatedInput` when the number of lines is not a multiple of three.
pub open spec fn batch_failures(text: Seq<char>) -> Seq<Failure> {
    let lines = lines_of(text);
    let f = failed(group_results(lines));
    if lines.len() % 3 == 0 {
        f
    } else {
        f.push(
            Failure {
                group: (lines.len() / 3) as usize,
                error: DecodeError::TruncatedInput { leftover_lines: (lines.len() % 3) as usize },
            },
        )
    }
}

/// A text whose line count `n` is not a multiple of three has `n / 3`
/// complete groups; splitting it reports a `TruncatedInput` that counts the
/// `n % 3` lines left over, and its decoding failures end with that report.
pub proof fn lemma_truncation_reported(text: Seq<char>)
    requires
        lines_of(text).len() % 3 != 0,
    ensures
        group_results(lines_of(text)).len() == lines_of(text).len() / 3,
        leftover_report(lines_of(text)) == Some(
            DecodeError::TruncatedInput { leftover_lines: (lines_of(text).len() % 3) as usize },
        ),
        batch_failures(text).len() > 0,
        batch_failures(text).last() == (Failure {
            group: (lines_of(text).len() / 3) as usize,
            error: DecodeError::TruncatedInput { leftover_lines: (lines_of(text).len() % 3) as usize },
        }),
{
}

/// Decodes every complete three-line group of `text`. A group that fails
/// does not stop the others.
pub fn decode_batch(text: &str) -> (r: Batch)
    ensures
        r.records@.len() == decoded(group_results(lines_of(text@))).len(),
        forall|i: int|
            0 <= i < r.records@.len() ==> (#[trigger] r.records@[i])@ == decoded(
                group_results(lines_of(text@)),
            )[i],
        r.failures@ == batch_failures(text@),
{
    let v = chars_of(text);
    let bounds = line_bounds(&v);
    let ghost lines = lines_of(v@);
    let ghost results = group_results(lines);
    let count = bounds.len() / 3;
    let mut records: Vec<TLE> = Vec::new();
    let mut failures: Vec<Failure> = Vec::new();
    let mut g: usize = 0;
    while g < count
        invariant
            v@ == text@,
            lines == lines_of(v@),
            results == group_results(lines),
            count == bounds@.len() / 3,
            bounds@.len() == lines.len(),
            forall|k: int|
                0 <= k < bounds@.len() ==> {
                    &&& (#[trigger] bounds@[k]).0 <= bounds@[k].1 <= v@.len()
                    &&& v@.subrange(bounds@[k].0 as int, bounds@[k].1 as int) == lines[k]
                },
            g <= count,
            records@.len() == decoded(results.take(g as int)).len(),
            forall|i: int|
                0 <= i < records@.len() ==> (#[trigger] records@[i])@ == decoded(
                    results.take(g as int),
                )[i],
            failures@ == failed(results.take(g as int)),
        decreases count - g,
    {
        let line_count = bounds.len();
        assert(3 * g + 2 < line_count) by (nonlinear_arith)
            requires
                g < count,
                count == line_count / 3,
        ;
        let title = slice_subrange(&v, bounds[3 * g].0, bounds[3 * g].1);
        let first = slice_subrange(&v, bounds[3 * g + 1].0, bounds[3 * g + 1].1);
        let second = slice_subrange(&v, bounds[3 * g + 2].0, bounds[3 * g + 2].1);
        let r = decode_lines(&title, &first, &second);
        assert(results.take(g + 1).drop_last() =~= results.take(g as int));
        assert(results.take(g + 1).last() == results[g as int]);
        match r {
            Ok(t) => {
                records.push(t);
            },
            Err(e) => {
                failures.push(Failure { group: g, error: e });
            },
        }
        g = g + 1;
    }
    assert(results.take(count as int) =~= results);
    let leftover = bounds.len() % 3;
    if leftover != 0 {
        failures.push(Failure { group: count, error: DecodeError::TruncatedInput { leftover_lines: leftover } });
    }
    Batch { records, failures }
}

} // verus!
