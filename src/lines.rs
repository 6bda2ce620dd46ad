//! Splitting text into lines and lines into three-line groups.

use vstd::prelude::*;
use crate::error::DecodeError;
use crate::text::{chars_of, push_char};

verus! {

/// `l` without one final carriage return.
pub open spec fn strip_cr(l: Seq<char>) -> Seq<char> {
    if l.len() > 0 && l.last() == '\r' {
        l.drop_last()
    } else {
        l
    }
}

/// The lines of `s` ended by a newline so far, and the unfinished line after
/// them.
pub open spec fn line_state(s: Seq<char>) -> (Seq<Seq<char>>, Seq<char>)
    decreases s.len(),
{
    if s.len() == 0 {
        (Seq::empty(), Seq::empty())
    } else {
        let (done, cur) = line_state(s.drop_last());
        if s.last() == '\n' {
            (done.push(strip_cr(cur)), Seq::empty())
        } else {
            (done, cur.push(s.last()))
        }
    }
}

/// The lines of `s`: split at each `\n`, with a `\r` right before it
/// dropped; a last line without `\n` counts when it is not empty.
pub open spec fn lines_of(s: Seq<char>) -> Seq<Seq<char>> {
    let (done, cur) = line_state(s);
    if cur.len() == 0 {
        done
    } else {
        done.push(cur)
    }
}

/// The text of group `g`: lines `3g`, `3g + 1` and `3g + 2`, each followed
/// by `\n`.
pub open spec fn group_text(lines: Seq<Seq<char>>, g: int) -> Seq<char> {
    lines[3 * g] + seq!['\n'] + lines[3 * g + 1] + seq!['\n'] + lines[3 * g + 2] + seq!['\n']
}

/// The start and end of each line of `v`, as `lines_of` has them.
pub fn line_bounds(v: &Vec<char>) -> (r: Vec<(usize, usize)>)
    ensures
        r@.len() == lines_of(v@).len(),
        forall|k: int|
            0 <= k < r@.len() ==> {
                &&& (#[trigger] r@[k]).0 <= r@[k].1 <= v@.len()
                &&& v@.subrange(r@[k].0 as int, r@[k].1 as int) == lines_of(v@)[k]
            },
{
    let ghost s = v@;
    let mut r: Vec<(usize, usize)> = Vec::new();
    let mut start: usize = 0;
    let mut i: usize = 0;
    while i < v.len()
        invariant
            s == v@,
            start <= i <= v@.len(),
            r@.len() == line_state(s.take(i as int)).0.len(),
            line_state(s.take(i as int)).1 == s.subrange(start as int, i as int),
            forall|k: int|
                0 <= k < r@.len() ==> {
                    &&& (#[trigger] r@[k]).0 <= r@[k].1 <= i
                    &&& s.subrange(r@[k].0 as int, r@[k].1 as int) == line_state(
                        s.take(i as int),
                    ).0[k]
                },
        decreases v@.len() - i,
    {
        let ghost prev = line_state(s.take(i as int));
        assert(s.take(i + 1).drop_last() =~= s.take(i as int));
        if v[i] == '\n' {
            let end = if i > start && v[i - 1] == '\r' { i - 1 } else { i };
            assert(s.subrange(start as int, end as int) =~= strip_cr(s.subrange(start as int, i as int)));
            r.push((start, end));
            start = i + 1;
        } else {
            assert(s.subrange(start as int, i + 1) =~= s.subrange(start as int, i as int).push(s[i as int]));
        }
        i = i + 1;
    }
    assert(s.take(i as int) =~= s);
    if start < i {
        r.push((start, i));
    }
    r
}

/// Appends `v[from..to]` to `s`.
pub fn push_chars(s: &mut String, v: &[char], from: usize, to: usize)
    requires
        from <= to <= v@.len(),
    ensures
        final(s)@ == old(s)@ + v@.subrange(from as int, to as int),
{
    let mut i = from;
    while i < to
        invariant
            from <= i <= to <= v@.len(),
            s@ == old(s)@ + v@.subrange(from as int, i as int),
        decreases to - i,
    {
        push_char(s, v[i]);
        assert(v@.subrange(from as int, i + 1) =~= v@.subrange(from as int, i as int).push(v@[i as int]));
        i = i + 1;
    }
}

/// What is left over after the complete groups of `lines`: nothing, or a
/// `TruncatedInput` counting the one or two lines that make no group.
pub open spec fn leftover_report(lines: Seq<Seq<char>>) -> Option<DecodeError> {
    if lines.len() % 3 == 0 {
        None
    } else {
        Some(DecodeError::TruncatedInput { leftover_lines: (lines.len() % 3) as usize })
    }
}

/// Groups the lines of `tles` by three: each group is its three lines, each
/// followed by `\n`. One or two lines left over at the end make no group and
/// are reported beside the groups as `TruncatedInput`.
pub fn split_tle(tles: String) -> (r: (Vec<String>, Option<DecodeError>))
    ensures
        r.0@.len() == lines_of(tles@).len() / 3,
        forall|g: int| 0 <= g < r.0@.len() ==> (#[trigger] r.0@[g])@ == group_text(lines_of(tles@), g),
        r.1 == leftover_report(lines_of(tles@)),
{
    let v = chars_of(tles.as_str());
    let bounds = line_bounds(&v);
    let ghost lines = lines_of(v@);
    let count = bounds.len() / 3;
    let mut r: Vec<String> = Vec::new();
    let mut g: usize = 0;
    while g < count
        invariant
            v@ == tles@,
            lines == lines_of(v@),
            count == bounds@.len() / 3,
            bounds@.len() == lines.len(),
            forall|k: int|
                0 <= k < bounds@.len() ==> {
                    &&& (#[trigger] bounds@[k]).0 <= bounds@[k].1 <= v@.len()
                    &&& v@.subrange(bounds@[k].0 as int, bounds@[k].1 as int) == lines[k]
                },
            g <= count,
            r@.len() == g,
            forall|h: int| 0 <= h < g ==> (#[trigger] r@[h])@ == group_text(lines, h),
        decreases count - g,
    {
        let mut text = String::new();
        let line_count = bounds.len();
        assert(3 * g + 2 < line_count) by (nonlinear_arith)
            requires
                g < count,
                count == line_count / 3,
        ;
        let (a0, b0) = bounds[3 * g];
        let (a1, b1) = bounds[3 * g + 1];
        let (a2, b2) = bounds[3 * g + 2];
        push_chars(&mut text, &v, a0, b0);
        push_char(&mut text, '\n');
        push_chars(&mut text, &v, a1, b1);
        push_char(&mut text, '\n');
        push_chars(&mut text, &v, a2, b2);
        push_char(&mut text, '\n');
        assert(text@ =~= group_text(lines, g as int));
        r.push(text);
        g = g + 1;
    }
    let leftover = bounds.len() % 3;
    if leftover == 0 {
        (r, None)
    } else {
        (r, Some(DecodeError::TruncatedInput { leftover_lines: leftover }))
    }
}

} // verus!
