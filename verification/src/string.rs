//! The shift engine and the line extractors: re-indentation of extracted
//! lines, extraction by line-index range, and extraction of anchored regions.

use vstd::prelude::*;

use crate::link::LineRange;
use crate::text::{
    is_word, is_word_char, join_lines, marker_of, spec_join_lines, spec_lines,
    split_lines, str_eq, ws_run_end, ws_run_to, word_run_end, word_run_to,
};

verus! {

/// Indication of whether to shift included text.
#[derive(PartialEq, Eq, Debug, Clone, Copy)]
pub enum Shift {
    /// Pass lines through unchanged.
    Unchanged,
    Left(usize),
    Right(usize),
    /// Strip leftmost whitespace that is common to all lines.
    Auto,
}

/// A shift with the automatic mode already resolved to a concrete amount.
#[derive(PartialEq, Eq, Debug, Clone, Copy)]
pub enum ExplicitShift {
    Unchanged,
    Left(usize),
    Right(usize),
}

/// The maximal white-space prefix of one line.
pub open spec fn ws_prefix(l: Seq<char>) -> Seq<char> {
    l.take(ws_run_end(l, 0))
}

/// End of the longest common prefix of `a` and `b` that starts at `i`.
pub open spec fn common_prefix_end(a: Seq<char>, b: Seq<char>, i: int) -> int
    decreases a.len() - i,
{
    if i < 0 || i >= a.len() || i >= b.len() {
        i
    } else if a[i] == b[i] {
        common_prefix_end(a, b, i + 1)
    } else {
        i
    }
}

/// The longest common prefix of `a` and `b`.
pub open spec fn common_prefix(a: Seq<char>, b: Seq<char>) -> Seq<char> {
    a.take(common_prefix_end(a, b, 0))
}

/// One step of the common-whitespace fold: empty lines are passed over, the
/// first non-empty line contributes its whole white-space prefix, and every
/// further non-empty line narrows the accumulator to the common prefix.
pub open spec fn common_ws_loop(lines: Seq<Seq<char>>, i: int, acc: Option<Seq<char>>) -> Seq<char>
    decreases lines.len() - i,
{
    if i < 0 || i >= lines.len() {
        match acc {
            Some(c) => c,
            None => Seq::empty(),
        }
    } else if lines[i].len() == 0 {
        common_ws_loop(lines, i + 1, acc)
    } else {
        let w = ws_prefix(lines[i]);
        match acc {
            None => common_ws_loop(lines, i + 1, Some(w)),
            Some(c) => common_ws_loop(lines, i + 1, Some(common_prefix(c, w))),
        }
    }
}

/// The longest white-space prefix common to all non-empty lines.
pub open spec fn spec_common_ws(lines: Seq<Seq<char>>) -> Seq<char> {
    common_ws_loop(lines, 0, None)
}

fn common_prefix_exec(a: &str, b: &str) -> (r: String)
    ensures
        r@ == common_prefix(a@, b@),
{
    let na = a.unicode_len();
    let nb = b.unicode_len();
    let mut i: usize = 0;
    while i < na && i < nb && a.get_char(i) == b.get_char(i)
        invariant
            0 <= i <= na,
            i <= nb,
            na == a@.len(),
            nb == b@.len(),
            common_prefix_end(a@, b@, 0) == common_prefix_end(a@, b@, i as int),
        decreases na - i,
    {
        i = i + 1;
    }
    String::from_str(a.substring_char(0, i))
}

/// The longest white-space prefix shared by every non-empty line.
pub fn common_leading_ws(lines: &Vec<String>) -> (r: String)
    ensures
        r@ == spec_common_ws(lines.deep_view()),
{
    let mut acc: Option<String> = None;
    let n = lines.len();
    let mut i: usize = 0;
    while i < n
        invariant
            0 <= i <= n,
            n == lines@.len(),
            spec_common_ws(lines.deep_view()) == common_ws_loop(
                lines.deep_view(),
                i as int,
                acc.deep_view(),
            ),
        decreases n - i,
    {
        let line = &lines[i];
        if line.as_str().unicode_len() > 0 {
            let wend = ws_run_to(line.as_str(), 0);
            let w = String::from_str(line.as_str().substring_char(0, wend));
            proof {
                assert(w@ =~= ws_prefix(lines.deep_view()[i as int]));
            }
            let new_acc = match &acc {
                None => w,
                Some(c) => common_prefix_exec(c.as_str(), w.as_str()),
            };
            acc = Some(new_acc);
        }
        i = i + 1;
    }
    match acc {
        Some(c) => c,
        None => String::new(),
    }
}

/// The resolved form of a shift: the automatic mode becomes a left shift by
/// the byte length of the common white-space prefix of the lines at hand.
pub open spec fn spec_calculate_shift(lines: Seq<Seq<char>>, shift: Shift) -> ExplicitShift {
    match shift {
        Shift::Unchanged => ExplicitShift::Unchanged,
        Shift::Left(n) => ExplicitShift::Left(n),
        Shift::Right(n) => ExplicitShift::Right(n),
        Shift::Auto => ExplicitShift::Left(
            vstd::utf8::encode_utf8(spec_common_ws(lines)).len() as usize,
        ),
    }
}

pub fn calculate_shift(lines: &Vec<String>, shift: Shift) -> (r: ExplicitShift)
    ensures
        r == spec_calculate_shift(lines.deep_view(), shift),
{
    match shift {
        Shift::Unchanged => ExplicitShift::Unchanged,
        Shift::Left(n) => ExplicitShift::Left(n),
        Shift::Right(n) => ExplicitShift::Right(n),
        Shift::Auto => {
            let cw = common_leading_ws(lines);
            ExplicitShift::Left(cw.as_str().len())
        },
    }
}

/// `n` space characters.
pub open spec fn spaces(n: int) -> Seq<char> {
    Seq::new(n as nat, |i: int| ' ')
}

/// One line after a shift: a right shift prepends spaces, a left shift drops
/// the first `n` characters, white space or not.
pub open spec fn spec_shift_line(l: Seq<char>, shift: ExplicitShift) -> Seq<char> {
    match shift {
        ExplicitShift::Unchanged => l,
        ExplicitShift::Right(n) => spaces(n as int) + l,
        ExplicitShift::Left(n) => if n <= l.len() {
            l.skip(n as int)
        } else {
            Seq::empty()
        },
    }
}

pub fn shift_line(l: &str, shift: ExplicitShift) -> (r: String)
    ensures
        r@ == spec_shift_line(l@, shift),
{
    match shift {
        ExplicitShift::Unchanged => String::from_str(l),
        ExplicitShift::Right(n) => {
            let mut out = String::new();
            let mut k: usize = 0;
            while k < n
                invariant
                    0 <= k <= n,
                    out@ =~= spaces(k as int),
                decreases n - k,
            {
                out.append(" ");
                proof {
                    reveal_strlit(" ");
                    assert(out@ =~= spaces(k + 1 as int));
                }
                k = k + 1;
            }
            out.append(l);
            proof {
                assert(out@ =~= spaces(n as int) + l@);
            }
            out
        },
        ExplicitShift::Left(n) => {
            let len = l.unicode_len();
            let k = if n < len {
                n
            } else {
                len
            };
            let r = String::from_str(l.substring_char(k, len));
            proof {
                assert(r@ =~= spec_shift_line(l@, shift));
            }
            r
        },
    }
}

/// All lines after a shift; the automatic amount is computed from this very
/// set of lines, never from any surrounding text.
pub open spec fn spec_shift_lines(lines: Seq<Seq<char>>, shift: Shift) -> Seq<Seq<char>> {
    let ex = spec_calculate_shift(lines, shift);
    Seq::new(lines.len(), |i: int| spec_shift_line(lines[i], ex))
}

pub fn shift_lines(lines: &Vec<String>, shift: Shift) -> (r: Vec<String>)
    ensures
        r.deep_view() == spec_shift_lines(lines.deep_view(), shift),
{
    let ex = calculate_shift(lines, shift);
    let mut out: Vec<String> = Vec::new();
    let n = lines.len();
    let mut i: usize = 0;
    while i < n
        invariant
            0 <= i <= n,
            n == lines@.len(),
            ex == spec_calculate_shift(lines.deep_view(), shift),
            out.deep_view() =~= spec_shift_lines(lines.deep_view(), shift).take(i as int),
        decreases n - i,
    {
        let ghost dv0 = out.deep_view();
        out.push(shift_line(lines[i].as_str(), ex));
        proof {
            assert(out.deep_view() =~= dv0.push(spec_shift_line(lines.deep_view()[i as int], ex)));
            assert(out.deep_view() =~= spec_shift_lines(lines.deep_view(), shift).take(
                i + 1 as int,
            ));
        }
        i = i + 1;
    }
    proof {
        assert(spec_shift_lines(lines.deep_view(), shift).take(n as int) =~= spec_shift_lines(
            lines.deep_view(),
            shift,
        ));
    }
    out
}

/// The sub-list of lines a range selects. A start at or past the end of the
/// list, or an end at or before the start, selects nothing; an unbounded end
/// reads to the end of the list.
pub open spec fn spec_take_range(lines: Seq<Seq<char>>, range: LineRange) -> Seq<Seq<char>> {
    let n = lines.len() as int;
    match range {
        LineRange::Range(a, b) => {
            let lo = if a as int <= n {
                a as int
            } else {
                n
            };
            let cnt = if b as int > a as int {
                b as int - a as int
            } else {
                0
            };
            let hi = if lo + cnt <= n {
                lo + cnt
            } else {
                n
            };
            lines.subrange(lo, hi)
        },
        LineRange::RangeFrom(a) => {
            let lo = if a as int <= n {
                a as int
            } else {
                n
            };
            lines.subrange(lo, n)
        },
        LineRange::RangeTo(b) => {
            let hi = if b as int <= n {
                b as int
            } else {
                n
            };
            lines.subrange(0, hi)
        },
        LineRange::RangeFull => lines,
    }
}

/// What a range extraction with a shift returns, as one joined string.
pub open spec fn spec_take_lines_with_shift(s: Seq<char>, range: LineRange, shift: Shift) -> Seq<
    char,
> {
    spec_join_lines(spec_shift_lines(spec_take_range(spec_lines(s), range), shift))
}

/// Take a range of lines from a string, shifting all lines left or right.
pub fn take_lines_with_shift(s: &str, range: LineRange, shift: Shift) -> (r: String)
    ensures
        r@ == spec_take_lines_with_shift(s@, range, shift),
{
    let lines = split_lines(s);
    let n = lines.len();
    let (lo, hi) = match range {
        LineRange::Range(a, b) => {
            let lo = if a <= n {
                a
            } else {
                n
            };
            let cnt = if b > a {
                b - a
            } else {
                0
            };
            let hi = if cnt <= n - lo {
                lo + cnt
            } else {
                n
            };
            (lo, hi)
        },
        LineRange::RangeFrom(a) => {
            let lo = if a <= n {
                a
            } else {
                n
            };
            (lo, n)
        },
        LineRange::RangeTo(b) => {
            let hi = if b <= n {
                b
            } else {
                n
            };
            (0usize, hi)
        },
        LineRange::RangeFull => (0usize, n),
    };
    let mut retained: Vec<String> = Vec::new();
    let mut k: usize = lo;
    while k < hi
        invariant
            lo <= k <= hi || (hi <= lo && k == lo),
            hi <= n,
            lo <= n,
            n == lines@.len(),
            lines.deep_view() == spec_lines(s@),
            retained.deep_view() =~= if lo <= k {
                lines.deep_view().subrange(lo as int, k as int)
            } else {
                Seq::<Seq<char>>::empty()
            },
        decreases hi - k,
    {
        let ghost dv0 = retained.deep_view();
        retained.push(lines[k].clone());
        proof {
            assert(retained.deep_view() =~= dv0.push(lines.deep_view()[k as int]));
            assert(retained.deep_view() =~= lines.deep_view().subrange(lo as int, k + 1 as int));
        }
        k = k + 1;
    }
    proof {
        assert(retained.deep_view() =~= spec_take_range(spec_lines(s@), range));
    }
    let shifted = shift_lines(&retained, shift);
    join_lines(&shifted)
}

/// Name captured by the leftmost anchor marker of the given form on a line,
/// if the line holds one: the marker literal, optional white space, then a
/// non-empty run of name characters.
pub open spec fn marker_match_at(l: Seq<char>, m: Seq<char>, i: int) -> bool {
    &&& 0 <= i
    &&& i + m.len() <= l.len()
    &&& l.subrange(i, i + m.len() as int) == m
    &&& {
        let j = ws_run_end(l, i + m.len() as int);
        j < l.len() && is_word_char(l[j])
    }
}

/// Position of the leftmost marker match at or after `i`, or `l.len()`.
pub open spec fn first_marker_pos(l: Seq<char>, m: Seq<char>, i: int) -> int
    decreases l.len() - i,
{
    if i < 0 || i >= l.len() {
        l.len() as int
    } else if marker_match_at(l, m, i) {
        i
    } else {
        first_marker_pos(l, m, i + 1)
    }
}

/// The name captured by the leftmost marker match on the line, if any.
pub open spec fn marker_name(l: Seq<char>, m: Seq<char>) -> Option<Seq<char>> {
    let i = first_marker_pos(l, m, 0);
    if i < l.len() {
        let j = ws_run_end(l, i + m.len() as int);
        Some(l.subrange(j, word_run_end(l, j)))
    } else {
        None
    }
}

/// The collect phase of anchor extraction: lines are kept until the first
/// line bearing an end marker whose captured name is the anchor; marker
/// lines of either form are dropped rather than emitted.
pub open spec fn anchored_collect(lines: Seq<Seq<char>>, anchor: Seq<char>, i: int) -> Seq<
    Seq<char>,
>
    decreases lines.len() - i,
{
    if i < 0 || i >= lines.len() {
        Seq::empty()
    } else {
        let l = lines[i];
        match marker_name(l, marker_of(true)) {
            Some(nm) => if nm == anchor {
                Seq::empty()
            } else {
                anchored_collect(lines, anchor, i + 1)
            },
            None => if marker_name(l, marker_of(false)) is Some {
                anchored_collect(lines, anchor, i + 1)
            } else {
                seq![l] + anchored_collect(lines, anchor, i + 1)
            },
        }
    }
}

/// The seek phase of anchor extraction: lines are scanned for the first
/// start marker whose captured name is the anchor; collection starts on the
/// following line. Without such a marker nothing is selected.
pub open spec fn anchored_seek(lines: Seq<Seq<char>>, anchor: Seq<char>, i: int) -> Seq<Seq<char>>
    decreases lines.len() - i,
{
    if i < 0 || i >= lines.len() {
        Seq::empty()
    } else if marker_name(lines[i], marker_of(false)) == Some(anchor) {
        anchored_collect(lines, anchor, i + 1)
    } else {
        anchored_seek(lines, anchor, i + 1)
    }
}

/// What an anchored extraction with a shift returns, as one joined string.
pub open spec fn spec_take_anchored_lines_with_shift(
    s: Seq<char>,
    anchor: Seq<char>,
    shift: Shift,
) -> Seq<char> {
    spec_join_lines(spec_shift_lines(anchored_seek(spec_lines(s), anchor, 0), shift))
}

/// Take anchored lines from a string, shifting all lines left or right.
/// Lines containing an anchor marker are dropped, not emitted.
pub fn take_anchored_lines_with_shift(s: &str, anchor: &str, shift: Shift) -> (r: String)
    ensures
        r@ == spec_take_anchored_lines_with_shift(s@, anchor@, shift),
{
    let lines = split_lines(s);
    let n = lines.len();
    let mut retained: Vec<String> = Vec::new();
    let mut found = false;
    let mut done = false;
    let mut i: usize = 0;
    while i < n && !done
        invariant
            0 <= i <= n,
            n == lines@.len(),
            lines.deep_view() == spec_lines(s@),
            anchored_seek(spec_lines(s@), anchor@, 0) =~= retained.deep_view() + (if done {
                Seq::<Seq<char>>::empty()
            } else if found {
                anchored_collect(lines.deep_view(), anchor@, i as int)
            } else {
                anchored_seek(lines.deep_view(), anchor@, i as int)
            }),
            !found ==> retained@.len() == 0,
        decreases n - i,
    {
        let l = &lines[i];
        if found {
            match find_marker_name(l.as_str(), true) {
                Some(nm) => {
                    if str_eq(nm.as_str(), anchor) {
                        done = true;
                    }
                },
                None => {
                    if find_marker_name(l.as_str(), false).is_none() {
                        let ghost dv0 = retained.deep_view();
                        retained.push(l.clone());
                        proof {
                            assert(retained.deep_view() =~= dv0.push(
                                lines.deep_view()[i as int],
                            ));
                        }
                    }
                },
            }
        } else {
            if let Some(nm) = find_marker_name(l.as_str(), false) {
                if str_eq(nm.as_str(), anchor) {
                    found = true;
                }
            }
        }
        i = i + 1;
    }
    proof {
        assert(retained.deep_view() =~= anchored_seek(spec_lines(s@), anchor@, 0));
    }
    let shifted = shift_lines(&retained, shift);
    join_lines(&shifted)
}

/// A right shift followed by a left shift of the same amount returns every
/// line unchanged: the left shift removes exactly the spaces the right
/// shift put in front, never any pre-existing content.
pub proof fn lemma_shift_right_then_left(lines: Seq<Seq<char>>, n: usize)
    ensures
        spec_shift_lines(spec_shift_lines(lines, Shift::Right(n)), Shift::Left(n)) == lines,
{
    let r = spec_shift_lines(lines, Shift::Right(n));
    let r2 = spec_shift_lines(r, Shift::Left(n));
    assert forall|i: int| 0 <= i < lines.len() implies r2[i] == lines[i] by {
        assert(r[i] == spaces(n as int) + lines[i]);
        assert((spaces(n as int) + lines[i]).skip(n as int) =~= lines[i]);
    }
    assert(r2 =~~= lines);
}

/// An automatic shift over lines with no common leading white space is a
/// no-op.
pub proof fn lemma_auto_shift_noop(lines: Seq<Seq<char>>)
    requires
        spec_common_ws(lines) == Seq::<char>::empty(),
    ensures
        spec_shift_lines(lines, Shift::Auto) == lines,
{
    assert(vstd::utf8::encode_utf8(Seq::<char>::empty()).len() == 0);
    let r = spec_shift_lines(lines, Shift::Auto);
    assert forall|i: int| 0 <= i < lines.len() implies r[i] == lines[i] by {
        assert(lines[i].skip(0) =~= lines[i]);
    }
    assert(r =~~= lines);
}

/// A reversed range, its start at or past its end, selects nothing from any
/// file: the result is the empty string, never an error.
pub proof fn lemma_reversed_range_empty(s: Seq<char>, a: usize, b: usize, shift: Shift)
    requires
        b <= a,
    ensures
        spec_take_range(spec_lines(s), LineRange::Range(a, b)) == Seq::<Seq<char>>::empty(),
        spec_take_lines_with_shift(s, LineRange::Range(a, b), shift) == Seq::<char>::empty(),
{
    let lines = spec_lines(s);
    assert(spec_take_range(lines, LineRange::Range(a, b)) =~~= Seq::<Seq<char>>::empty());
    assert(spec_shift_lines(Seq::<Seq<char>>::empty(), shift) =~~= Seq::<Seq<char>>::empty());
}

/// Extracting a bounded range from a file gives the same lines as
/// extracting the whole file and slicing its line list by that range.
pub proof fn lemma_range_round_trip(s: Seq<char>, a: usize, b: usize)
    requires
        a <= b,
        b <= spec_lines(s).len(),
        spec_lines(s).len() <= usize::MAX,
    ensures
        spec_take_range(spec_lines(s), LineRange::Range(a, b)) == spec_take_range(
            spec_lines(s),
            LineRange::Range(0, spec_lines(s).len() as usize),
        ).subrange(a as int, b as int),
{
    let lines = spec_lines(s);
    assert(spec_take_range(lines, LineRange::Range(0, lines.len() as usize)) =~~= lines);
    assert(spec_take_range(lines, LineRange::Range(a, b)) =~~= lines.subrange(a as int, b as int));
}

/// The collect phase keeps every remaining line when no marker line of
/// either form follows.
proof fn lemma_collect_no_markers(lines: Seq<Seq<char>>, anchor: Seq<char>, i: int)
    requires
        0 <= i,
        forall|j: int|
            i <= j < lines.len() ==> (#[trigger] marker_name(lines[j], marker_of(true))) is None
                && marker_name(lines[j], marker_of(false)) is None,
    ensures
        anchored_collect(lines, anchor, i) == lines.skip(if i <= lines.len() {
            i
        } else {
            lines.len() as int
        }),
    decreases lines.len() - i,
{
    if i >= lines.len() {
        assert(lines.skip(lines.len() as int) =~~= Seq::<Seq<char>>::empty());
    } else {
        lemma_collect_no_markers(lines, anchor, i + 1);
        assert(seq![lines[i]] + lines.skip(i + 1) =~~= lines.skip(i));
    }
}

/// The seek phase passes over every line before the first start marker that
/// captures the anchor.
proof fn lemma_seek_to(lines: Seq<Seq<char>>, anchor: Seq<char>, i: int, k: int)
    requires
        0 <= i <= k < lines.len(),
        marker_name(lines[k], marker_of(false)) == Some(anchor),
        forall|j: int|
            i <= j < k ==> (#[trigger] marker_name(lines[j], marker_of(false))) != Some(anchor),
    ensures
        anchored_seek(lines, anchor, i) == anchored_collect(lines, anchor, k + 1),
    decreases k - i,
{
    if i < k {
        lemma_seek_to(lines, anchor, i + 1, k);
    }
}

/// A start marker for the anchor with no matching end marker selects every
/// line after the marker line, to the end of the file.
pub proof fn lemma_anchor_unclosed(lines: Seq<Seq<char>>, anchor: Seq<char>, k: int)
    requires
        0 <= k < lines.len(),
        marker_name(lines[k], marker_of(false)) == Some(anchor),
        forall|j: int|
            0 <= j < k ==> (#[trigger] marker_name(lines[j], marker_of(false))) != Some(anchor),
        forall|j: int|
            k < j < lines.len() ==> (#[trigger] marker_name(lines[j], marker_of(true))) is None
                && marker_name(lines[j], marker_of(false)) is None,
    ensures
        anchored_seek(lines, anchor, 0) == lines.skip(k + 1),
{
    lemma_seek_to(lines, anchor, 0, k);
    lemma_collect_no_markers(lines, anchor, k + 1);
}

/// Whether the marker literal of the given form stands at `i` of the line.
fn marker_lit_at_exec(l: &str, i: usize, end_form: bool) -> (r: bool)
    requires
        i <= l@.len(),
    ensures
        r == (i + marker_of(end_form).len() <= l@.len() && l@.subrange(
            i as int,
            i + marker_of(end_form).len(),
        ) == marker_of(end_form)),
{
    let n = l.unicode_len();
    let m = if end_form {
        11
    } else {
        7
    };
    if n - i < m {
        return false;
    }
    let head = l.get_char(i) == 'A' && l.get_char(i + 1) == 'N' && l.get_char(i + 2) == 'C'
        && l.get_char(i + 3) == 'H' && l.get_char(i + 4) == 'O' && l.get_char(i + 5) == 'R';
    let r = if end_form {
        head && l.get_char(i + 6) == '_' && l.get_char(i + 7) == 'E' && l.get_char(i + 8) == 'N'
            && l.get_char(i + 9) == 'D' && l.get_char(i + 10) == ':'
    } else {
        head && l.get_char(i + 6) == ':'
    };
    proof {
        if r {
            assert(l@.subrange(i as int, i + marker_of(end_form).len()) =~= marker_of(end_form));
        } else {
            assert(l@.subrange(i as int, i + marker_of(end_form).len()) != marker_of(end_form));
        }
    }
    r
}

/// The name captured by the leftmost anchor marker of the given form on the
/// line, if the line holds one.
pub fn find_marker_name(l: &str, end_form: bool) -> (r: Option<String>)
    ensures
        match marker_name(l@, marker_of(end_form)) {
            Some(nm) => r matches Some(x) && x@ == nm,
            None => r is None,
        },
{
    let ghost m = marker_of(end_form);
    let mlen: usize = if end_form {
        11
    } else {
        7
    };
    let n = l.unicode_len();
    let mut i: usize = 0;
    while i < n
        invariant
            0 <= i <= n,
            n == l@.len(),
            mlen == marker_of(end_form).len(),
            m == marker_of(end_form),
            first_marker_pos(l@, m, 0) == first_marker_pos(l@, m, i as int),
        decreases n - i,
    {
        if marker_lit_at_exec(l, i, end_form) {
            let j = ws_run_to(l, i + mlen);
            if j < n && is_word(l.get_char(j)) {
                let wend = word_run_to(l, j);
                let nm = String::from_str(l.substring_char(j, wend));
                proof {
                    assert(marker_match_at(l@, m, i as int));
                    assert(first_marker_pos(l@, m, i as int) == i as int);
                }
                return Some(nm);
            }
        }
        proof {
            assert(!marker_match_at(l@, m, i as int));
        }
        i = i + 1;
    }
    None
}

} // verus!
