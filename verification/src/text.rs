//! Character classes and elementary text searches shared by the directive
//! scanner, the selector parser and the line extractors.

use vstd::prelude::*;

verus! {

/// The Unicode white-space code points, as `char::is_whitespace` reports them.
pub open spec fn is_ws_char(c: char) -> bool {
    let u = c as u32;
    u == 0x20 || (0x09 <= u && u <= 0x0D) || u == 0x85 || u == 0xA0 || u == 0x1680 || (0x2000 <= u
        && u <= 0x200A) || u == 0x2028 || u == 0x2029 || u == 0x202F || u == 0x205F || u == 0x3000
}

/// ASCII decimal digit.
pub open spec fn is_digit_char(c: char) -> bool {
    0x30 <= (c as u32) && (c as u32) <= 0x39
}

/// A character of a directive name: ASCII alphanumeric or underscore.
pub open spec fn is_name_char(c: char) -> bool {
    let u = c as u32;
    (0x30 <= u && u <= 0x39) || (0x41 <= u && u <= 0x5A) || (0x61 <= u && u <= 0x7A) || u == 0x5F
}

/// A character of an anchor name: ASCII alphanumeric, underscore or hyphen.
pub open spec fn is_word_char(c: char) -> bool {
    is_name_char(c) || c == '-'
}

pub fn is_ws(c: char) -> (r: bool)
    ensures
        r == is_ws_char(c),
{
    let u = c as u32;
    u == 0x20 || (0x09 <= u && u <= 0x0D) || u == 0x85 || u == 0xA0 || u == 0x1680 || (0x2000 <= u
        && u <= 0x200A) || u == 0x2028 || u == 0x2029 || u == 0x202F || u == 0x205F || u == 0x3000
}

pub fn is_digit(c: char) -> (r: bool)
    ensures
        r == is_digit_char(c),
{
    let u = c as u32;
    0x30 <= u && u <= 0x39
}

pub fn is_name(c: char) -> (r: bool)
    ensures
        r == is_name_char(c),
{
    let u = c as u32;
    (0x30 <= u && u <= 0x39) || (0x41 <= u && u <= 0x5A) || (0x61 <= u && u <= 0x7A) || u == 0x5F
}

pub fn is_word(c: char) -> (r: bool)
    ensures
        r == is_word_char(c),
{
    is_name(c) || c == '-'
}

/// Index of the first occurrence of `c` at or after `i`, or `s.len()` if none.
pub open spec fn find_from(s: Seq<char>, i: int, c: char) -> int
    decreases s.len() - i,
{
    if i < 0 || i >= s.len() {
        s.len() as int
    } else if s[i] == c {
        i
    } else {
        find_from(s, i + 1, c)
    }
}

pub proof fn lemma_find_from(s: Seq<char>, i: int, c: char)
    requires
        0 <= i <= s.len(),
    ensures
        i <= find_from(s, i, c) <= s.len(),
        find_from(s, i, c) < s.len() ==> s[find_from(s, i, c)] == c,
        forall|j: int| i <= j < find_from(s, i, c) ==> s[j] != c,
    decreases s.len() - i,
{
    if i < s.len() && s[i] != c {
        lemma_find_from(s, i + 1, c);
    }
}

pub fn find_char(s: &str, from: usize, c: char) -> (r: usize)
    requires
        from <= s@.len(),
    ensures
        r == find_from(s@, from as int, c),
{
    let n = s.unicode_len();
    let mut i = from;
    while i < n
        invariant
            from <= i <= n,
            n == s@.len(),
            find_from(s@, from as int, c) == find_from(s@, i as int, c),
        decreases n - i,
    {
        if s.get_char(i) == c {
            return i;
        }
        i = i + 1;
    }
    i
}

/// End of the run of characters satisfying `p` that starts at `i`.
pub open spec fn run_end(s: Seq<char>, i: int, p: spec_fn(char) -> bool) -> int
    decreases s.len() - i,
{
    if i < 0 || i >= s.len() {
        s.len() as int
    } else if p(s[i]) {
        run_end(s, i + 1, p)
    } else {
        i
    }
}

pub proof fn lemma_run_end(s: Seq<char>, i: int, p: spec_fn(char) -> bool)
    requires
        0 <= i <= s.len(),
    ensures
        i <= run_end(s, i, p) <= s.len(),
        forall|j: int| i <= j < run_end(s, i, p) ==> p(s[j]),
        run_end(s, i, p) < s.len() ==> !p(s[run_end(s, i, p)]),
    decreases s.len() - i,
{
    if i < s.len() && p(s[i]) {
        lemma_run_end(s, i + 1, p);
    }
}

/// A run end is the one position bounding a maximal run: this pins it.
pub proof fn lemma_run_end_is(s: Seq<char>, i: int, e: int, p: spec_fn(char) -> bool)
    requires
        0 <= i <= e <= s.len(),
        forall|j: int| i <= j < e ==> p(s[j]),
        e < s.len() ==> !p(s[e]),
    ensures
        run_end(s, i, p) == e,
    decreases e - i,
{
    if i < e {
        lemma_run_end_is(s, i + 1, e, p);
    }
}

pub open spec fn ws_run_end(s: Seq<char>, i: int) -> int {
    run_end(s, i, |c: char| is_ws_char(c))
}

pub open spec fn nonws_run_end(s: Seq<char>, i: int) -> int {
    run_end(s, i, |c: char| !is_ws_char(c))
}

pub open spec fn name_run_end(s: Seq<char>, i: int) -> int {
    run_end(s, i, |c: char| is_name_char(c))
}

pub open spec fn word_run_end(s: Seq<char>, i: int) -> int {
    run_end(s, i, |c: char| is_word_char(c))
}

pub fn ws_run_to(s: &str, from: usize) -> (r: usize)
    requires
        from <= s@.len(),
    ensures
        r == ws_run_end(s@, from as int),
        from <= r <= s@.len(),
{
    proof {
        lemma_run_end(s@, from as int, |c: char| is_ws_char(c));
    }
    let n = s.unicode_len();
    let mut i = from;
    while i < n
        invariant
            from <= i <= n,
            n == s@.len(),
            ws_run_end(s@, from as int) == ws_run_end(s@, i as int),
        decreases n - i,
    {
        if !is_ws(s.get_char(i)) {
            return i;
        }
        i = i + 1;
    }
    i
}

pub fn nonws_run_to(s: &str, from: usize) -> (r: usize)
    requires
        from <= s@.len(),
    ensures
        r == nonws_run_end(s@, from as int),
        from <= r <= s@.len(),
{
    proof {
        lemma_run_end(s@, from as int, |c: char| !is_ws_char(c));
    }
    let n = s.unicode_len();
    let mut i = from;
    while i < n
        invariant
            from <= i <= n,
            n == s@.len(),
            nonws_run_end(s@, from as int) == nonws_run_end(s@, i as int),
        decreases n - i,
    {
        if is_ws(s.get_char(i)) {
            return i;
        }
        i = i + 1;
    }
    i
}

pub fn name_run_to(s: &str, from: usize) -> (r: usize)
    requires
        from <= s@.len(),
    ensures
        r == name_run_end(s@, from as int),
        from <= r <= s@.len(),
{
    proof {
        lemma_run_end(s@, from as int, |c: char| is_name_char(c));
    }
    let n = s.unicode_len();
    let mut i = from;
    while i < n
        invariant
            from <= i <= n,
            n == s@.len(),
            name_run_end(s@, from as int) == name_run_end(s@, i as int),
        decreases n - i,
    {
        if !is_name(s.get_char(i)) {
            return i;
        }
        i = i + 1;
    }
    i
}

pub fn word_run_to(s: &str, from: usize) -> (r: usize)
    requires
        from <= s@.len(),
    ensures
        r == word_run_end(s@, from as int),
        from <= r <= s@.len(),
{
    proof {
        lemma_run_end(s@, from as int, |c: char| is_word_char(c));
    }
    let n = s.unicode_len();
    let mut i = from;
    while i < n
        invariant
            from <= i <= n,
            n == s@.len(),
            word_run_end(s@, from as int) == word_run_end(s@, i as int),
        decreases n - i,
    {
        if !is_word(s.get_char(i)) {
            return i;
        }
        i = i + 1;
    }
    i
}

/// The literal of an anchor marker: the end form closes a region that the
/// start form opened.
pub open spec fn marker_of(end_form: bool) -> Seq<char> {
    if end_form {
        seq!['A', 'N', 'C', 'H', 'O', 'R', '_', 'E', 'N', 'D', ':']
    } else {
        seq!['A', 'N', 'C', 'H', 'O', 'R', ':']
    }
}

/// Compare two string slices character by character.
pub fn str_eq(a: &str, b: &str) -> (r: bool)
    ensures
        r == (a@ == b@),
{
    let n = a.unicode_len();
    if n != b.unicode_len() {
        return false;
    }
    let mut i: usize = 0;
    while i < n
        invariant
            0 <= i <= n,
            n == a@.len(),
            n == b@.len(),
            forall|j: int| 0 <= j < i ==> a@[j] == b@[j],
        decreases n - i,
    {
        if a.get_char(i) != b.get_char(i) {
            return false;
        }
        i = i + 1;
    }
    proof {
        assert(a@ =~= b@);
    }
    true
}

/// A line as `str::lines` yields it: a trailing carriage return is dropped.
pub open spec fn strip_cr(l: Seq<char>) -> Seq<char> {
    if l.len() > 0 && l.last() == '\r' {
        l.drop_last()
    } else {
        l
    }
}

/// The lines of `s` from position `i` on, split at line feeds, the line
/// feeds themselves excluded; a final line feed does not open an empty last
/// line, and only a line that a line feed ended loses a trailing carriage
/// return.
pub open spec fn spec_lines_from(s: Seq<char>, i: int) -> Seq<Seq<char>>
    decreases s.len() - i,
        via spec_lines_from_dec
{
    if i < 0 || i >= s.len() {
        Seq::empty()
    } else {
        let j = find_from(s, i, '\n');
        if j >= s.len() {
            seq![s.subrange(i, s.len() as int)]
        } else {
            seq![strip_cr(s.subrange(i, j))] + spec_lines_from(s, j + 1)
        }
    }
}

#[via_fn]
proof fn spec_lines_from_dec(s: Seq<char>, i: int) {
    if 0 <= i < s.len() {
        lemma_find_from(s, i, '\n');
    }
}

/// The line list of a source string, as `str::lines` produces it.
pub open spec fn spec_lines(s: Seq<char>) -> Seq<Seq<char>> {
    spec_lines_from(s, 0)
}

/// Split a string into its lines.
pub fn split_lines(s: &str) -> (r: Vec<String>)
    ensures
        r.deep_view() == spec_lines(s@),
{
    let n = s.unicode_len();
    let mut out: Vec<String> = Vec::new();
    let mut i: usize = 0;
    while i < n
        invariant
            0 <= i <= n,
            n == s@.len(),
            spec_lines(s@) == out.deep_view() + spec_lines_from(s@, i as int),
        decreases n - i,
    {
        let ghost i0 = i as int;
        let j = find_char(s, i, '\n');
        proof {
            lemma_find_from(s@, i as int, '\n');
        }
        let end = if j < n && j > i && s.get_char(j - 1) == '\r' {
            j - 1
        } else {
            j
        };
        let line = String::from_str(s.substring_char(i, end));
        proof {
            if j < n {
                assert(line@ =~= strip_cr(s@.subrange(i0, j as int)));
            } else {
                assert(line@ =~= s@.subrange(i0, j as int));
            }
        }
        let ghost dv0 = out.deep_view();
        out.push(line);
        proof {
            assert(out.deep_view() =~= dv0.push(line@));
            assert(dv0 + spec_lines_from(s@, i0) =~~= out.deep_view() + spec_lines_from(
                s@,
                i0,
            ).drop_first());
        }
        if j == n {
            i = n;
        } else {
            i = j + 1;
        }
        proof {
            assert(spec_lines_from(s@, i0).drop_first() =~~= spec_lines_from(s@, i as int));
        }
    }
    proof {
        assert(spec_lines(s@) =~~= out.deep_view());
    }
    out
}

/// The lines joined by a line feed, with no trailing line feed.
pub open spec fn spec_join_lines(lines: Seq<Seq<char>>) -> Seq<char>
    decreases lines.len(),
{
    if lines.len() == 0 {
        Seq::empty()
    } else if lines.len() == 1 {
        lines[0]
    } else {
        lines[0] + seq!['\n'] + spec_join_lines(lines.drop_first())
    }
}

pub proof fn lemma_join_lines_push(lines: Seq<Seq<char>>, x: Seq<char>)
    ensures
        spec_join_lines(lines.push(x)) =~= if lines.len() == 0 {
            x
        } else {
            (spec_join_lines(lines) + seq!['\n'] + x)
        },
    decreases lines.len(),
{
    if lines.len() == 0 {
        assert(lines.push(x) =~~= seq![x]);
    } else {
        lemma_join_lines_push(lines.drop_first(), x);
        assert(lines.push(x).drop_first() =~~= lines.drop_first().push(x));
        assert(lines.push(x)[0] == lines[0]);
    }
}

/// Join lines with a line feed separator.
pub fn join_lines(lines: &Vec<String>) -> (r: String)
    ensures
        r@ == spec_join_lines(lines.deep_view()),
{
    let mut out = String::new();
    let n = lines.len();
    let mut k: usize = 0;
    while k < n
        invariant
            0 <= k <= n,
            n == lines@.len(),
            out@ == spec_join_lines(lines.deep_view().take(k as int)),
        decreases n - k,
    {
        if k > 0 {
            out.append("\n");
        }
        out.append(lines[k].as_str());
        proof {
            reveal_strlit("\n");
            lemma_join_lines_push(
                lines.deep_view().take(k as int),
                lines.deep_view()[k as int],
            );
            assert(lines.deep_view().take(k + 1) =~~= lines.deep_view().take(k as int).push(
                lines.deep_view()[k as int],
            ));
        }
        k = k + 1;
    }
    proof {
        assert(lines.deep_view().take(n as int) =~~= lines.deep_view());
    }
    out
}

} // verus!
