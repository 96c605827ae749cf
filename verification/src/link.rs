//! Directive links: the selector grammar (line ranges and anchors), the
//! path-plus-selector parser, and the scanner that locates directives in a
//! text block.

use vstd::prelude::*;

use crate::string::Shift;
use crate::text::{
    find_char, find_from, is_digit, is_digit_char, is_ws, is_ws_char, lemma_find_from,
    lemma_run_end, lemma_run_end_is, name_run_end, name_run_to, nonws_run_end, nonws_run_to,
    ws_run_end, ws_run_to,
};

verus! {

/// The digit part of a numeric field: an optional leading plus sign is
/// accepted, as `usize::from_str` accepts it.
pub open spec fn digits_of(s: Seq<char>) -> Seq<char> {
    if s.len() > 0 && s[0] == '+' {
        s.drop_first()
    } else {
        s
    }
}

pub open spec fn all_digits(s: Seq<char>) -> bool {
    forall|i: int| 0 <= i < s.len() ==> is_digit_char(s[i])
}

/// The value of a string of decimal digits.
pub open spec fn digits_val(s: Seq<char>) -> int
    decreases s.len(),
{
    if s.len() == 0 {
        0
    } else {
        digits_val(s.drop_last()) * 10 + (s.last() as u32 - 0x30)
    }
}

pub proof fn lemma_digits_val_nonneg(s: Seq<char>)
    requires
        all_digits(s),
    ensures
        digits_val(s) >= 0,
    decreases s.len(),
{
    if s.len() > 0 {
        assert(all_digits(s.drop_last()));
        lemma_digits_val_nonneg(s.drop_last());
    }
}

/// The number a numeric field denotes, if it is one: a non-empty digit
/// string after an optional plus sign, whose value fits a `usize`.
pub open spec fn spec_parse_usize(s: Seq<char>) -> Option<usize> {
    let d = digits_of(s);
    if d.len() > 0 && all_digits(d) && digits_val(d) <= usize::MAX as int {
        Some(digits_val(d) as usize)
    } else {
        None
    }
}

/// Parse a non-negative decimal number, as `str::parse::<usize>` does.
pub fn parse_usize(s: &str) -> (r: Option<usize>)
    ensures
        r == spec_parse_usize(s@),
{
    let n = s.unicode_len();
    let start: usize = if n > 0 && s.get_char(0) == '+' {
        1
    } else {
        0
    };
    proof {
        assert(digits_of(s@) =~= s@.subrange(start as int, n as int));
    }
    if n == start {
        return None;
    }
    let mut acc: usize = 0;
    let mut over = false;
    let mut i: usize = start;
    while i < n
        invariant
            start <= i <= n,
            n == s@.len(),
            digits_of(s@) =~= s@.subrange(start as int, n as int),
            all_digits(s@.subrange(start as int, i as int)),
            !over ==> acc == digits_val(s@.subrange(start as int, i as int)),
            over ==> digits_val(s@.subrange(start as int, i as int)) > usize::MAX as int,
        decreases n - i,
    {
        let c = s.get_char(i);
        if !is_digit(c) {
            proof {
                assert(!all_digits(digits_of(s@))) by {
                    assert(digits_of(s@)[i - start] == s@[i as int]);
                }
            }
            return None;
        }
        let dig = (c as u32 - 0x30) as usize;
        let ghost pre = s@.subrange(start as int, i as int);
        let ghost cur = s@.subrange(start as int, i + 1);
        proof {
            assert(cur.drop_last() =~= pre);
            assert(cur.last() == s@[i as int]);
            assert(all_digits(cur));
            assert(digits_val(cur) == digits_val(pre) * 10 + dig);
            lemma_digits_val_nonneg(pre);
        }
        if over {
            proof {
                assert(digits_val(pre) * 10 >= digits_val(pre)) by (nonlinear_arith)
                    requires
                        digits_val(pre) >= 0,
                ;
            }
        } else {
            let limit = usize::MAX / 10;
            if acc > limit {
                over = true;
                proof {
                    assert(digits_val(pre) * 10 + dig > usize::MAX as int) by (nonlinear_arith)
                        requires
                            digits_val(pre) == acc as int,
                            acc > usize::MAX / 10,
                    ;
                }
            } else {
                proof {
                    assert(acc * 10 <= usize::MAX as int) by (nonlinear_arith)
                        requires
                            0 <= acc <= usize::MAX / 10,
                    ;
                }
                let acc10 = acc * 10;
                if dig > usize::MAX - acc10 {
                    over = true;
                } else {
                    acc = acc10 + dig;
                }
            }
        }
        i = i + 1;
    }
    proof {
        assert(s@.subrange(start as int, n as int) == digits_of(s@));
    }
    if over {
        None
    } else {
        Some(acc)
    }
}

/// A range of lines specified with some inclusion directive. The four
/// shapes mirror the bounded, start-only, end-only and unbounded forms of
/// the selector grammar; bounds are 0-based, the end exclusive.
#[derive(PartialEq, Eq, Debug, Clone, Copy)]
pub enum LineRange {
    Range(usize, usize),
    RangeFrom(usize),
    RangeTo(usize),
    RangeFull,
}

/// The selector of a directive: either a line range or a named anchor.
#[derive(PartialEq, Eq, Debug, Clone)]
pub enum RangeOrAnchor {
    Range(LineRange),
    Anchor(String),
}

/// The mathematical shape of a selector.
pub enum SelectorView {
    Range(LineRange),
    Anchor(Seq<char>),
}

impl View for RangeOrAnchor {
    type V = SelectorView;

    open spec fn view(&self) -> SelectorView {
        match self {
            RangeOrAnchor::Range(r) => SelectorView::Range(*r),
            RangeOrAnchor::Anchor(a) => SelectorView::Anchor(a@),
        }
    }
}

/// A parsed directive: an escaped directive renders to itself with the
/// marker stripped; an inclusion carries a path, a selector and a shift.
#[derive(PartialEq, Eq, Debug, Clone)]
pub enum LinkType {
    Escaped,
    Include(String, RangeOrAnchor, Shift),
}

/// The mathematical shape of a parsed directive.
pub enum LinkTypeView {
    Escaped,
    Include(Seq<char>, SelectorView, Shift),
}

impl View for LinkType {
    type V = LinkTypeView;

    open spec fn view(&self) -> LinkTypeView {
        match self {
            LinkType::Escaped => LinkTypeView::Escaped,
            LinkType::Include(p, sel, shift) => LinkTypeView::Include(p@, sel@, *shift),
        }
    }
}

/// One located directive in a text block: its half-open character span in
/// the scanned text, the parsed directive, and the matched text itself.
#[derive(PartialEq, Eq, Debug, Clone)]
pub struct Link {
    pub start_index: usize,
    pub end_index: usize,
    pub link_type: LinkType,
    pub link_text: String,
}

/// The mathematical shape of a located directive.
pub struct LinkView {
    pub start_index: int,
    pub end_index: int,
    pub link_type: LinkTypeView,
    pub link_text: Seq<char>,
}

impl View for Link {
    type V = LinkView;

    open spec fn view(&self) -> LinkView {
        LinkView {
            start_index: self.start_index as int,
            end_index: self.end_index as int,
            link_type: self.link_type@,
            link_text: self.link_text@,
        }
    }
}

impl DeepView for Link {
    type V = LinkView;

    open spec fn deep_view(&self) -> LinkView {
        self@
    }
}

/// The selector a raw selector string denotes. The grammar is total:
/// malformed selectors degenerate to permissive ranges, never to errors.
/// A numeric first field is a 1-based line number taken to a 0-based index
/// (a lenient `0` is kept, not rejected); a non-numeric, non-empty first
/// field is an anchor name, and everything after it is ignored; at most two
/// colon-separated fields are read.
pub open spec fn spec_parse_selector(sel: Option<Seq<char>>) -> SelectorView {
    let s = match sel {
        Some(x) => x,
        None => Seq::empty(),
    };
    let i = find_from(s, 0, ':');
    let f1 = s.take(i);
    match spec_parse_usize(f1) {
        Some(v) => {
            let start = if v > 0 {
                (v - 1) as usize
            } else {
                0usize
            };
            if i == s.len() {
                SelectorView::Range(LineRange::Range(start, (start + 1) as usize))
            } else {
                let rest = s.skip(i + 1);
                let j = find_from(rest, 0, ':');
                let f2 = rest.take(j);
                match spec_parse_usize(f2) {
                    Some(e) => SelectorView::Range(LineRange::Range(start, e)),
                    None => SelectorView::Range(LineRange::RangeFrom(start)),
                }
            }
        },
        None => {
            if f1.len() == 0 {
                if i == s.len() {
                    SelectorView::Range(LineRange::RangeFull)
                } else {
                    let rest = s.skip(i + 1);
                    let j = find_from(rest, 0, ':');
                    let f2 = rest.take(j);
                    match spec_parse_usize(f2) {
                        Some(e) => SelectorView::Range(LineRange::RangeTo(e)),
                        None => SelectorView::Range(LineRange::RangeFull),
                    }
                }
            } else {
                SelectorView::Anchor(f1)
            }
        },
    }
}

/// Parse the selector part of a directive payload (what follows the first
/// colon after the path, when there is one).
pub fn parse_range_or_anchor(parts: Option<&str>) -> (r: RangeOrAnchor)
    ensures
        r@ == spec_parse_selector(parts.deep_view()),
{
    let s: &str = match parts {
        Some(x) => x,
        None => "",
    };
    proof {
        reveal_strlit("");
        assert(s@ == (match parts.deep_view() {
            Some(x) => x,
            None => Seq::<char>::empty(),
        }));
    }
    let n = s.unicode_len();
    let i = find_char(s, 0, ':');
    proof {
        lemma_find_from(s@, 0, ':');
    }
    let f1 = s.substring_char(0, i);
    proof {
        assert(f1@ =~= s@.take(i as int));
    }
    match parse_usize(f1) {
        Some(v) => {
            let start = if v > 0 {
                v - 1
            } else {
                0
            };
            if i == n {
                RangeOrAnchor::Range(LineRange::Range(start, start + 1))
            } else {
                let rest = s.substring_char(i + 1, n);
                proof {
                    assert(rest@ =~= s@.skip(i + 1));
                    lemma_find_from(rest@, 0, ':');
                }
                let j = find_char(rest, 0, ':');
                let f2 = rest.substring_char(0, j);
                proof {
                    assert(f2@ =~= rest@.take(j as int));
                }
                match parse_usize(f2) {
                    Some(e) => RangeOrAnchor::Range(LineRange::Range(start, e)),
                    None => RangeOrAnchor::Range(LineRange::RangeFrom(start)),
                }
            }
        },
        None => {
            if f1.unicode_len() == 0 {
                if i == n {
                    RangeOrAnchor::Range(LineRange::RangeFull)
                } else {
                    let rest = s.substring_char(i + 1, n);
                    proof {
                        assert(rest@ =~= s@.skip(i + 1));
                        lemma_find_from(rest@, 0, ':');
                    }
                    let j = find_char(rest, 0, ':');
                    let f2 = rest.substring_char(0, j);
                    proof {
                        assert(f2@ =~= rest@.take(j as int));
                    }
                    match parse_usize(f2) {
                        Some(e) => RangeOrAnchor::Range(LineRange::RangeTo(e)),
                        None => RangeOrAnchor::Range(LineRange::RangeFull),
                    }
                }
            } else {
                RangeOrAnchor::Anchor(String::from_str(f1))
            }
        },
    }
}

/// The directive an inclusion payload token denotes: the part before the
/// first colon is the path, the remainder the selector.
pub open spec fn spec_parse_link_path(s: Seq<char>) -> LinkTypeView {
    let i = find_from(s, 0, ':');
    let p = s.take(i);
    let sel = if i == s.len() {
        None
    } else {
        Some(s.skip(i + 1))
    };
    LinkTypeView::Include(p, spec_parse_selector(sel), Shift::Unchanged)
}

/// Split an inclusion payload token into path and selector and parse the
/// selector.
pub fn parse_include_path(path: &str) -> (r: LinkType)
    ensures
        r@ == spec_parse_link_path(path@),
{
    let n = path.unicode_len();
    let i = find_char(path, 0, ':');
    proof {
        lemma_find_from(path@, 0, ':');
    }
    let p = String::from_str(path.substring_char(0, i));
    proof {
        assert(p@ =~= path@.take(i as int));
    }
    let sel = if i == n {
        parse_range_or_anchor(None)
    } else {
        let rest = path.substring_char(i + 1, n);
        proof {
            assert(rest@ =~= path@.skip(i + 1));
        }
        parse_range_or_anchor(Some(rest))
    };
    LinkType::Include(p, sel, Shift::Unchanged)
}

/// The empty selector, the bare double-colon selector, and an absent
/// selector all mean the same thing: the whole file.
pub proof fn lemma_selector_equivalence()
    ensures
        spec_parse_selector(None) == SelectorView::Range(LineRange::RangeFull),
        spec_parse_selector(Some(Seq::<char>::empty())) == SelectorView::Range(
            LineRange::RangeFull,
        ),
        spec_parse_selector(Some(seq![':'])) == SelectorView::Range(LineRange::RangeFull),
{
    let e = Seq::<char>::empty();
    assert(find_from(e, 0, ':') == 0);
    assert(e.take(0) =~= e);
    assert(digits_of(e) =~= e);
    let c = seq![':'];
    assert(c[0] == ':');
    assert(find_from(c, 0, ':') == 0);
    assert(c.take(0) =~= e);
    assert(c.skip(1) =~= e);
}

/// Position of the last `}}` pair lying wholly inside `[from, limit)`, or -1.
pub open spec fn last_brace_pair(s: Seq<char>, from: int, limit: int) -> int
    recommends
        limit <= s.len(),
    decreases limit - from,
{
    if from < 0 || limit - 2 < from {
        -1
    } else if s[limit - 2] == '}' && s[limit - 1] == '}' {
        limit - 2
    } else {
        last_brace_pair(s, from, limit - 1)
    }
}

/// An escaped directive stands at `i`: the escape marker directly before the
/// open-brace directive syntax; the match runs to the last `}}` pair on the
/// same line.
pub open spec fn escaped_at(s: Seq<char>, i: int) -> bool {
    &&& 0 <= i
    &&& i + 4 <= s.len()
    &&& s[i] == crate::ESCAPE_CHAR
    &&& s[i + 1] == '{'
    &&& s[i + 2] == '{'
    &&& s[i + 3] == '#'
    &&& last_brace_pair(s, i + 4, find_from(s, i + 4, '\n')) >= 0
}

pub open spec fn escaped_end(s: Seq<char>, i: int) -> int {
    last_brace_pair(s, i + 4, find_from(s, i + 4, '\n')) + 2
}

/// Position of the `#` of a candidate directive at `i`: white space may
/// stand between the braces and the `#`.
pub open spec fn dir_hash(s: Seq<char>, i: int) -> int {
    ws_run_end(s, i + 2)
}

/// End of the directive-name token.
pub open spec fn dir_name_end(s: Seq<char>, i: int) -> int {
    name_run_end(s, dir_hash(s, i) + 1)
}

/// Position of the first closing brace after the name.
pub open spec fn dir_close(s: Seq<char>, i: int) -> int {
    find_from(s, dir_name_end(s, i), '}')
}

/// A directive form stands at `i`: two open braces, optional white space, a
/// `#`, a non-empty name, at least one white-space separator, a non-empty
/// brace-free payload, and a closing `}}`.
pub open spec fn directive_at(s: Seq<char>, i: int) -> bool {
    &&& 0 <= i
    &&& i + 2 <= s.len()
    &&& s[i] == '{'
    &&& s[i + 1] == '{'
    &&& dir_hash(s, i) < s.len()
    &&& s[dir_hash(s, i)] == '#'
    &&& dir_name_end(s, i) > dir_hash(s, i) + 1
    &&& dir_name_end(s, i) < s.len()
    &&& is_ws_char(s[dir_name_end(s, i)])
    &&& dir_close(s, i) - dir_name_end(s, i) >= 2
    &&& dir_close(s, i) + 1 < s.len()
    &&& s[dir_close(s, i) + 1] == '}'
}

pub open spec fn directive_end(s: Seq<char>, i: int) -> int {
    dir_close(s, i) + 2
}

pub open spec fn dir_name(s: Seq<char>, i: int) -> Seq<char> {
    s.subrange(dir_hash(s, i) + 1, dir_name_end(s, i))
}

pub open spec fn dir_payload(s: Seq<char>, i: int) -> Seq<char> {
    s.subrange(dir_name_end(s, i), dir_close(s, i))
}

/// The one directive name that is expanded; any other name is left as
/// literal text.
pub open spec fn include_name() -> Seq<char> {
    seq!['i', 'n', 'c', 'l', 'u', 'd', 'e']
}

/// The first white-space-delimited token of a payload, if there is one.
pub open spec fn first_ws_token(p: Seq<char>) -> Option<Seq<char>> {
    let a = ws_run_end(p, 0);
    if a < p.len() {
        Some(p.subrange(a, nonws_run_end(p, a)))
    } else {
        None
    }
}

/// The link a directive match denotes, if any: only the expanded name with a
/// non-empty first payload token yields one; the token is parsed as
/// path-plus-selector and anything after it is ignored.
pub open spec fn directive_link(s: Seq<char>, i: int) -> Option<LinkTypeView> {
    if dir_name(s, i) == include_name() {
        match first_ws_token(dir_payload(s, i)) {
            Some(tok) => Some(spec_parse_link_path(tok)),
            None => None,
        }
    } else {
        None
    }
}

/// The links of a text block from position `i` on, in left-to-right order:
/// at each position an escaped match is preferred, then a directive match;
/// a match is never re-entered, and a directive match that yields no link
/// is consumed silently.
pub open spec fn scan_from(s: Seq<char>, i: int) -> Seq<LinkView>
    decreases s.len() - i,
{
    if i < 0 || i >= s.len() {
        Seq::empty()
    } else if escaped_at(s, i) {
        let e0 = escaped_end(s, i);
        let e = if i + 1 <= e0 && e0 <= s.len() {
            e0
        } else {
            i + 1
        };
        seq![
            (LinkView {
                start_index: i,
                end_index: e,
                link_type: LinkTypeView::Escaped,
                link_text: s.subrange(i, e),
            }),
        ] + scan_from(s, e)
    } else if directive_at(s, i) {
        let e0 = directive_end(s, i);
        let e = if i + 1 <= e0 && e0 <= s.len() {
            e0
        } else {
            i + 1
        };
        match directive_link(s, i) {
            Some(lt) => seq![
                (LinkView {
                    start_index: i,
                    end_index: e,
                    link_type: lt,
                    link_text: s.subrange(i, e),
                }),
            ] + scan_from(s, e),
            None => scan_from(s, e),
        }
    } else {
        scan_from(s, i + 1)
    }
}

/// The links of a whole text block, in order.
pub open spec fn spec_find_links(s: Seq<char>) -> Seq<LinkView> {
    scan_from(s, 0)
}

/// Scanned links lie inside the block, are non-empty, carry the matched
/// text itself, and stand in left-to-right order without overlap.
pub proof fn lemma_scan_from_bounds(s: Seq<char>, i: int)
    requires
        0 <= i <= s.len(),
    ensures
        forall|k: int|
            0 <= k < scan_from(s, i).len() ==> {
                let lv = #[trigger] scan_from(s, i)[k];
                i <= lv.start_index && lv.start_index < lv.end_index && lv.end_index <= s.len()
                    && lv.link_text == s.subrange(lv.start_index, lv.end_index)
            },
        forall|k: int|
            0 <= k && k + 1 < scan_from(s, i).len() ==> (#[trigger] scan_from(s, i)[k]).end_index
                <= scan_from(s, i)[k + 1].start_index,
    decreases s.len() - i,
{
    if i < s.len() {
        if escaped_at(s, i) {
            let e0 = escaped_end(s, i);
            let e = if i + 1 <= e0 && e0 <= s.len() {
                e0
            } else {
                i + 1
            };
            lemma_scan_from_bounds(s, e);
        } else if directive_at(s, i) {
            let e0 = directive_end(s, i);
            let e = if i + 1 <= e0 && e0 <= s.len() {
                e0
            } else {
                i + 1
            };
            lemma_scan_from_bounds(s, e);
        } else {
            lemma_scan_from_bounds(s, i + 1);
        }
    }
}

fn try_escaped(s: &str, i: usize) -> (r: Option<usize>)
    requires
        i < s@.len(),
    ensures
        (match r {
            Some(e) => escaped_at(s@, i as int) && i < e <= s@.len() && e as int == escaped_end(
                s@,
                i as int,
            ),
            None => !escaped_at(s@, i as int),
        }),
{
    let n = s.unicode_len();
    if n - i < 4 {
        return None;
    }
    if !(s.get_char(i) == '\\' && s.get_char(i + 1) == '{' && s.get_char(i + 2) == '{'
        && s.get_char(i + 3) == '#') {
        return None;
    }
    let nl = find_char(s, i + 4, '\n');
    proof {
        lemma_find_from(s@, i + 4, '\n');
    }
    let mut limit = nl;
    while limit - i >= 6
        invariant
            i + 4 <= nl <= n,
            n == s@.len(),
            i + 4 <= limit <= nl,
            s@[i as int] == '\\' && s@[i + 1] == '{' && s@[i + 2] == '{' && s@[i + 3] == '#',
            nl == find_from(s@, i + 4, '\n'),
            last_brace_pair(s@, i + 4, nl as int) == last_brace_pair(s@, i + 4, limit as int),
        decreases limit,
    {
        if s.get_char(limit - 2) == '}' && s.get_char(limit - 1) == '}' {
            proof {
                assert(last_brace_pair(s@, i + 4, limit as int) == limit - 2);
            }
            return Some(limit);
        }
        limit = limit - 1;
    }
    proof {
        assert(last_brace_pair(s@, i + 4, limit as int) == -1);
    }
    None
}

fn is_include_str(name: &str) -> (r: bool)
    ensures
        r == (name@ == include_name()),
{
    let n = name.unicode_len();
    if n != 7 {
        return false;
    }
    let r = name.get_char(0) == 'i' && name.get_char(1) == 'n' && name.get_char(2) == 'c'
        && name.get_char(3) == 'l' && name.get_char(4) == 'u' && name.get_char(5) == 'd'
        && name.get_char(6) == 'e';
    proof {
        if r {
            assert(name@ =~= include_name());
        }
    }
    r
}

fn try_directive(s: &str, i: usize) -> (r: Option<(usize, Option<LinkType>)>)
    requires
        i < s@.len(),
    ensures
        (match r {
            Some((e, lt)) => directive_at(s@, i as int) && i < e <= s@.len() && e as int
                == directive_end(s@, i as int) && (match (lt, directive_link(s@, i as int)) {
                (Some(x), Some(v)) => x@ == v,
                (None, None) => true,
                _ => false,
            }),
            None => !directive_at(s@, i as int),
        }),
{
    let n = s.unicode_len();
    if n - i < 2 {
        return None;
    }
    if !(s.get_char(i) == '{' && s.get_char(i + 1) == '{') {
        return None;
    }
    let h = ws_run_to(s, i + 2);
    if h == n {
        return None;
    }
    if s.get_char(h) != '#' {
        return None;
    }
    let ne = name_run_to(s, h + 1);
    if ne == h + 1 || ne == n {
        return None;
    }
    if !is_ws(s.get_char(ne)) {
        return None;
    }
    let m = find_char(s, ne, '}');
    proof {
        lemma_find_from(s@, ne as int, '}');
    }
    if m - ne < 2 {
        return None;
    }
    if m >= n - 1 {
        return None;
    }
    if s.get_char(m + 1) != '}' {
        return None;
    }
    let ghost p = dir_payload(s@, i as int);
    let name = s.substring_char(h + 1, ne);
    proof {
        assert(name@ =~= dir_name(s@, i as int));
    }
    let lt: Option<LinkType> = if is_include_str(name) {
        let a = ws_run_to(s, ne);
        proof {
            lemma_run_end(s@, ne as int, |c: char| is_ws_char(c));
            assert(!is_ws_char('}'));
            assert(a <= m);
            lemma_run_end_is(p, 0, a - ne, |c: char| is_ws_char(c));
        }
        if a == m {
            proof {
                assert(first_ws_token(p) is None);
            }
            None
        } else {
            let b0 = nonws_run_to(s, a);
            proof {
                lemma_run_end(s@, a as int, |c: char| !is_ws_char(c));
            }
            let b = if b0 > m {
                m
            } else {
                b0
            };
            proof {
                lemma_run_end_is(p, a - ne, b - ne, |c: char| !is_ws_char(c));
            }
            let tok = s.substring_char(a, b);
            proof {
                assert(tok@ =~= p.subrange(a - ne, b - ne));
                assert(first_ws_token(p) == Some(tok@));
            }
            Some(parse_include_path(tok))
        }
    } else {
        None
    };
    Some((m + 2, lt))
}

/// Scan a text block for directive links, in left-to-right order.
pub fn find_links(contents: &str) -> (r: Vec<Link>)
    ensures
        r.deep_view() == spec_find_links(contents@),
{
    let n = contents.unicode_len();
    let mut out: Vec<Link> = Vec::new();
    let mut i: usize = 0;
    while i < n
        invariant
            0 <= i <= n,
            n == contents@.len(),
            spec_find_links(contents@) == out.deep_view() + scan_from(contents@, i as int),
        decreases n - i,
    {
        if let Some(e) = try_escaped(contents, i) {
            let text = String::from_str(contents.substring_char(i, e));
            let ghost dv0 = out.deep_view();
            let ghost head = scan_from(contents@, i as int)[0];
            out.push(
                Link {
                    start_index: i,
                    end_index: e,
                    link_type: LinkType::Escaped,
                    link_text: text,
                },
            );
            proof {
                assert(out.deep_view() =~= dv0.push(head));
                assert(dv0 + scan_from(contents@, i as int) =~= out.deep_view() + scan_from(
                    contents@,
                    e as int,
                ));
            }
            i = e;
        } else if let Some((e, lt)) = try_directive(contents, i) {
            match lt {
                Some(link_type) => {
                    let text = String::from_str(contents.substring_char(i, e));
                    let ghost dv0 = out.deep_view();
                    let ghost head = scan_from(contents@, i as int)[0];
                    out.push(
                        Link {
                            start_index: i,
                            end_index: e,
                            link_type,
                            link_text: text,
                        },
                    );
                    proof {
                        assert(out.deep_view() =~= dv0.push(head));
                        assert(out.deep_view() + scan_from(contents@, e as int) =~= dv0
                            + scan_from(contents@, i as int));
                    }
                },
                None => {
                    proof {
                        assert(scan_from(contents@, i as int) == scan_from(contents@, e as int));
                    }
                },
            }
            i = e;
        } else {
            proof {
                assert(scan_from(contents@, i as int) == scan_from(contents@, i + 1));
            }
            i = i + 1;
        }
    }
    proof {
        assert(out.deep_view() =~= spec_find_links(contents@));
    }
    out
}

} // verus!
