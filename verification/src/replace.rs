//! The resolver: walks the directive links of a text block left to right,
//! renders each against a table of file contents, recursively re-resolves
//! rendered content up to the depth ceiling, and splices the results back
//! into the surrounding text, keeping a failed directive's text visible.

use vstd::prelude::*;

use crate::link::{
    find_links, spec_find_links, lemma_scan_from_bounds, Link, LinkType, LinkTypeView, LinkView,
    RangeOrAnchor, SelectorView,
};
use crate::string::{
    spec_take_anchored_lines_with_shift, spec_take_lines_with_shift, take_anchored_lines_with_shift,
    take_lines_with_shift,
};
use crate::text::str_eq;
use crate::MAX_LINK_NESTED_DEPTH;

verus! {

/// A table of file contents, keyed by path. It stands in for the host's
/// "read a file as text, or fail" capability: the resolver consults it and
/// never touches the file system itself.
pub struct FileMap {
    pub entries: Vec<(String, String)>,
}

/// The content filed under the first entry with the given path, if any.
pub open spec fn lookup_file(entries: Seq<(Seq<char>, Seq<char>)>, path: Seq<char>) -> Option<
    Seq<char>,
>
    decreases entries.len(),
{
    if entries.len() == 0 {
        None
    } else if entries[0].0 == path {
        Some(entries[0].1)
    } else {
        lookup_file(entries.drop_first(), path)
    }
}

impl View for FileMap {
    type V = Seq<(Seq<char>, Seq<char>)>;

    open spec fn view(&self) -> Seq<(Seq<char>, Seq<char>)> {
        self.entries.deep_view()
    }
}

impl FileMap {
    pub fn new() -> (r: FileMap)
        ensures
            r@ == Seq::<(Seq<char>, Seq<char>)>::empty(),
    {
        let r = FileMap { entries: Vec::new() };
        proof {
            assert(r@ =~= Seq::<(Seq<char>, Seq<char>)>::empty());
        }
        r
    }

    /// File a content under a path.
    pub fn insert(&mut self, path: String, content: String)
        ensures
            final (self)@ == old(self)@.push((path@, content@)),
    {
        let ghost dv0 = self@;
        self.entries.push((path, content));
        proof {
            assert(self@ =~= dv0.push((self.entries@.last().0@, self.entries@.last().1@)));
        }
    }

    /// Read the content filed under a path, or fail.
    pub fn read(&self, path: &str) -> (r: Option<String>)
        ensures
            (match (r, lookup_file(self@, path@)) {
                (Some(c), Some(v)) => c@ == v,
                (None, None) => true,
                _ => false,
            }),
    {
        let n = self.entries.len();
        let mut k: usize = 0;
        proof {
            assert(self@.skip(0) =~= self@);
        }
        while k < n
            invariant
                0 <= k <= n,
                n == self.entries@.len(),
                lookup_file(self@, path@) == lookup_file(self@.skip(k as int), path@),
            decreases n - k,
        {
            let pair = &self.entries[k];
            if str_eq(pair.0.as_str(), path) {
                proof {
                    assert(self@.skip(k as int)[0] == self@[k as int]);
                }
                return Some(pair.1.clone());
            }
            proof {
                assert(self@.skip(k as int)[0] == self@[k as int]);
                assert(self@.skip(k as int).drop_first() =~= self@.skip(k + 1));
            }
            k = k + 1;
        }
        None
    }
}

/// A path joined onto a base directory: an absolute path stands alone, an
/// empty base contributes nothing, and otherwise the two are joined with a
/// single separator.
pub open spec fn spec_join_path(base: Seq<char>, rel: Seq<char>) -> Seq<char> {
    if rel.len() > 0 && rel[0] == '/' {
        rel
    } else if base.len() == 0 {
        rel
    } else if base.last() == '/' {
        base + rel
    } else {
        base + seq!['/'] + rel
    }
}

pub fn join_path(base: &str, rel: &str) -> (r: String)
    ensures
        r@ == spec_join_path(base@, rel@),
{
    let bn = base.unicode_len();
    let rn = rel.unicode_len();
    if rn > 0 && rel.get_char(0) == '/' {
        return String::from_str(rel);
    }
    if bn == 0 {
        return String::from_str(rel);
    }
    let mut out = String::from_str(base);
    if base.get_char(bn - 1) != '/' {
        out.append("/");
        proof {
            reveal_strlit("/");
        }
    }
    out.append(rel);
    proof {
        assert(out@ =~= spec_join_path(base@, rel@));
    }
    out
}

/// Index of the last occurrence of `c` before `limit`, or -1.
pub open spec fn rfind_before(s: Seq<char>, c: char, limit: int) -> int
    decreases limit,
{
    if limit <= 0 {
        -1
    } else if s[limit - 1] == c {
        limit - 1
    } else {
        rfind_before(s, c, limit - 1)
    }
}

/// The directory part of a path: everything before the last separator, the
/// root kept as itself, and the empty string where no separator occurs.
pub open spec fn spec_parent(p: Seq<char>) -> Seq<char> {
    let i = rfind_before(p, '/', p.len() as int);
    if i < 0 {
        Seq::empty()
    } else if i == 0 {
        p.take(1)
    } else {
        p.take(i)
    }
}

pub fn parent_dir(p: &str) -> (r: String)
    ensures
        r@ == spec_parent(p@),
{
    let n = p.unicode_len();
    let mut limit = n;
    while limit > 0
        invariant
            0 <= limit <= n,
            n == p@.len(),
            rfind_before(p@, '/', n as int) == rfind_before(p@, '/', limit as int),
        decreases limit,
    {
        if p.get_char(limit - 1) == '/' {
            let i = limit - 1;
            if i == 0 {
                let r = String::from_str(p.substring_char(0, 1));
                proof {
                    assert(r@ =~= p@.take(1));
                }
                return r;
            } else {
                let r = String::from_str(p.substring_char(0, i));
                proof {
                    assert(r@ =~= p@.take(i as int));
                }
                return r;
            }
        }
        limit = limit - 1;
    }
    String::new()
}

/// The directory that `relative`, resolved against `base`, lies in.
pub open spec fn spec_return_relative_path(base: Seq<char>, relative: Seq<char>) -> Seq<char> {
    spec_parent(spec_join_path(base, relative))
}

pub fn return_relative_path(base: &str, relative: &str) -> (r: String)
    ensures
        r@ == spec_return_relative_path(base@, relative@),
{
    let joined = join_path(base, relative);
    parent_dir(joined.as_str())
}

/// The base directory for resolving links found inside rendered content:
/// none for an escaped directive, the included file's directory otherwise.
pub open spec fn spec_relative_path(lt: LinkTypeView, base: Seq<char>) -> Option<Seq<char>> {
    match lt {
        LinkTypeView::Escaped => None,
        LinkTypeView::Include(p, _sel, _shift) => Some(spec_return_relative_path(base, p)),
    }
}

impl LinkType {
    /// The directory from which links inside this directive's rendered
    /// content resolve, when there is one.
    pub fn relative_path(&self, base: &str) -> (r: Option<String>)
        ensures
            (match (r, spec_relative_path(self@, base@)) {
                (Some(x), Some(v)) => x@ == v,
                (None, None) => true,
                _ => false,
            }),
    {
        match self {
            LinkType::Escaped => None,
            LinkType::Include(p, _sel, _shift) => Some(return_relative_path(base, p.as_str())),
        }
    }
}

/// A diagnostic the resolver emits while it keeps going: a failed file
/// read, or the depth ceiling reached on a branch of the expansion.
#[derive(PartialEq, Eq, Debug, Clone)]
pub enum Diagnostic {
    FileUnreadable { link_text: String, target: String },
    DepthExceeded { source: String },
}

/// The mathematical shape of a diagnostic.
pub enum DiagnosticView {
    FileUnreadable { link_text: Seq<char>, target: Seq<char> },
    DepthExceeded { source: Seq<char> },
}

impl View for Diagnostic {
    type V = DiagnosticView;

    open spec fn view(&self) -> DiagnosticView {
        match self {
            Diagnostic::FileUnreadable { link_text, target } => (DiagnosticView::FileUnreadable {
                link_text: link_text@,
                target: target@,
            }),
            Diagnostic::DepthExceeded { source } => (DiagnosticView::DepthExceeded {
                source: source@,
            }),
        }
    }
}

impl DeepView for Diagnostic {
    type V = DiagnosticView;

    open spec fn deep_view(&self) -> DiagnosticView {
        self@
    }
}

/// What rendering a directive returns: an escaped directive renders to its
/// own text with the escape marker dropped, with no file access at all; an
/// inclusion renders to the selected, shifted lines of the target file, and
/// fails exactly when the target is not in the file table.
pub open spec fn spec_render(
    lt: LinkTypeView,
    text: Seq<char>,
    base: Seq<char>,
    files: Seq<(Seq<char>, Seq<char>)>,
) -> Option<Seq<char>> {
    match lt {
        LinkTypeView::Escaped => Some(
            if text.len() >= 1 {
                text.skip(1)
            } else {
                text
            },
        ),
        LinkTypeView::Include(path, sel, shift) => {
            match lookup_file(files, spec_join_path(base, path)) {
                Some(content) => Some(
                    match sel {
                        SelectorView::Range(r) => spec_take_lines_with_shift(content, r, shift),
                        SelectorView::Anchor(a) => spec_take_anchored_lines_with_shift(
                            content,
                            a,
                            shift,
                        ),
                    },
                ),
                None => None,
            }
        },
    }
}

/// The target path a failed inclusion names in its diagnostic.
pub open spec fn spec_render_target(lt: LinkTypeView, base: Seq<char>) -> Seq<char> {
    match lt {
        LinkTypeView::Escaped => Seq::empty(),
        LinkTypeView::Include(path, _sel, _shift) => spec_join_path(base, path),
    }
}

impl Link {
    /// Render this directive against a base directory and a file table.
    pub fn render_with_path(&self, base: &str, files: &FileMap) -> (r: Result<String, Diagnostic>)
        ensures
            (match (r, spec_render(self@.link_type, self@.link_text, base@, files@)) {
                (Ok(t), Some(v)) => t@ == v,
                (Err(d), None) => d@ == (DiagnosticView::FileUnreadable {
                    link_text: self@.link_text,
                    target: spec_render_target(self@.link_type, base@),
                }),
                _ => false,
            }),
    {
        match &self.link_type {
            LinkType::Escaped => {
                let n = self.link_text.as_str().unicode_len();
                if n >= 1 {
                    Ok(String::from_str(self.link_text.as_str().substring_char(1, n)))
                } else {
                    Ok(self.link_text.clone())
                }
            },
            LinkType::Include(p, sel, shift) => {
                let target = join_path(base, p.as_str());
                match files.read(target.as_str()) {
                    Some(content) => {
                        let out = match sel {
                            RangeOrAnchor::Range(r) => take_lines_with_shift(
                                content.as_str(),
                                *r,
                                *shift,
                            ),
                            RangeOrAnchor::Anchor(a) => take_anchored_lines_with_shift(
                                content.as_str(),
                                a.as_str(),
                                *shift,
                            ),
                        };
                        Ok(out)
                    },
                    None => Err(
                        Diagnostic::FileUnreadable {
                            link_text: self.link_text.clone(),
                            target,
                        },
                    ),
                }
            },
        }
    }
}

/// The recursion depth with the ceiling applied; past the ceiling the
/// resolver behaves as at the ceiling itself.
pub open spec fn depth_clamp(depth: int) -> int {
    if 0 <= depth && depth <= MAX_LINK_NESTED_DEPTH as int {
        depth
    } else {
        MAX_LINK_NESTED_DEPTH as int
    }
}

/// The resolver's walk over the links of a block from link `k` on, with the
/// text emitted up to `cursor` already: intervening text is kept verbatim;
/// rendered content is recursively re-resolved from the included file's
/// directory while the depth is below the ceiling, and spliced in as it is,
/// with a cycle diagnostic, at the ceiling; a failed render leaves the
/// directive's own text in place, with a diagnostic.
#[verifier::opaque]
pub open spec fn spec_replace_links(
    s: Seq<char>,
    links: Seq<LinkView>,
    k: int,
    cursor: int,
    base: Seq<char>,
    source: Seq<char>,
    depth: int,
    files: Seq<(Seq<char>, Seq<char>)>,
) -> (Seq<char>, Seq<DiagnosticView>)
    decreases 10 - depth, links.len() - k,
{
    if k < 0 || k >= links.len() {
        (s.subrange(cursor, s.len() as int), Seq::empty())
    } else {
        let l = links[k];
        let pre = s.subrange(cursor, l.start_index);
        match spec_render(l.link_type, l.link_text, base, files) {
            Some(content) => {
                if depth < MAX_LINK_NESTED_DEPTH as int {
                    match spec_relative_path(l.link_type, base) {
                        Some(rel) => {
                            let rec = spec_replace(content, rel, source, depth + 1, files);
                            let rest = spec_replace_links(
                                s,
                                links,
                                k + 1,
                                l.end_index,
                                base,
                                source,
                                depth,
                                files,
                            );
                            (pre + rec.0 + rest.0, rec.1 + rest.1)
                        },
                        None => {
                            let rest = spec_replace_links(
                                s,
                                links,
                                k + 1,
                                l.end_index,
                                base,
                                source,
                                depth,
                                files,
                            );
                            (pre + content + rest.0, rest.1)
                        },
                    }
                } else {
                    let rest = spec_replace_links(
                        s,
                        links,
                        k + 1,
                        l.end_index,
                        base,
                        source,
                        depth,
                        files,
                    );
                    (
                        pre + content + rest.0,
                        seq![(DiagnosticView::DepthExceeded { source })] + rest.1,
                    )
                }
            },
            None => {
                let rest = spec_replace_links(
                    s,
                    links,
                    k + 1,
                    l.start_index,
                    base,
                    source,
                    depth,
                    files,
                );
                (
                    pre + rest.0,
                    seq![
                        (DiagnosticView::FileUnreadable {
                            link_text: l.link_text,
                            target: spec_render_target(l.link_type, base),
                        }),
                    ] + rest.1,
                )
            },
        }
    }
}

/// One whole pass of the resolver over a text block: scan, then walk.
pub open spec fn spec_replace(
    s: Seq<char>,
    base: Seq<char>,
    source: Seq<char>,
    depth: int,
    files: Seq<(Seq<char>, Seq<char>)>,
) -> (Seq<char>, Seq<DiagnosticView>)
    decreases 11 - depth_clamp(depth), 0int,
{
    spec_replace_links(s, spec_find_links(s), 0, 0, base, source, depth_clamp(depth), files)
}


/// One unfolding of the walk at a link whose render succeeds below the
/// ceiling with a recursive re-resolution.
proof fn lemma_links_step_rec(
    s: Seq<char>,
    links: Seq<LinkView>,
    k: int,
    cursor: int,
    base: Seq<char>,
    source: Seq<char>,
    depth: int,
    files: Seq<(Seq<char>, Seq<char>)>,
    content: Seq<char>,
    rel: Seq<char>,
)
    requires
        0 <= k < links.len(),
        spec_render(links[k].link_type, links[k].link_text, base, files) == Some(content),
        depth < MAX_LINK_NESTED_DEPTH as int,
        spec_relative_path(links[k].link_type, base) == Some(rel),
    ensures
        spec_replace_links(s, links, k, cursor, base, source, depth, files).0 == s.subrange(
            cursor,
            links[k].start_index,
        ) + spec_replace(content, rel, source, depth + 1, files).0 + spec_replace_links(
            s,
            links,
            k + 1,
            links[k].end_index,
            base,
            source,
            depth,
            files,
        ).0,
        spec_replace_links(s, links, k, cursor, base, source, depth, files).1 == spec_replace(
            content,
            rel,
            source,
            depth + 1,
            files,
        ).1 + spec_replace_links(s, links, k + 1, links[k].end_index, base, source, depth, files).1,
{
    reveal(spec_replace_links);
}

/// One unfolding of the walk at a link whose render succeeds below the
/// ceiling without a recursive re-resolution.
proof fn lemma_links_step_plain(
    s: Seq<char>,
    links: Seq<LinkView>,
    k: int,
    cursor: int,
    base: Seq<char>,
    source: Seq<char>,
    depth: int,
    files: Seq<(Seq<char>, Seq<char>)>,
    content: Seq<char>,
)
    requires
        0 <= k < links.len(),
        spec_render(links[k].link_type, links[k].link_text, base, files) == Some(content),
        depth < MAX_LINK_NESTED_DEPTH as int,
        spec_relative_path(links[k].link_type, base) is None,
    ensures
        spec_replace_links(s, links, k, cursor, base, source, depth, files).0 == s.subrange(
            cursor,
            links[k].start_index,
        ) + content + spec_replace_links(
            s,
            links,
            k + 1,
            links[k].end_index,
            base,
            source,
            depth,
            files,
        ).0,
        spec_replace_links(s, links, k, cursor, base, source, depth, files).1
            == spec_replace_links(s, links, k + 1, links[k].end_index, base, source, depth, files).1,
{
    reveal(spec_replace_links);
}

/// One unfolding of the walk at a link whose render succeeds with the depth
/// ceiling reached: the content is spliced in unexpanded, with a diagnostic.
proof fn lemma_links_step_ceiling(
    s: Seq<char>,
    links: Seq<LinkView>,
    k: int,
    cursor: int,
    base: Seq<char>,
    source: Seq<char>,
    depth: int,
    files: Seq<(Seq<char>, Seq<char>)>,
    content: Seq<char>,
)
    requires
        0 <= k < links.len(),
        spec_render(links[k].link_type, links[k].link_text, base, files) == Some(content),
        !(depth < MAX_LINK_NESTED_DEPTH as int),
    ensures
        spec_replace_links(s, links, k, cursor, base, source, depth, files).0 == s.subrange(
            cursor,
            links[k].start_index,
        ) + content + spec_replace_links(
            s,
            links,
            k + 1,
            links[k].end_index,
            base,
            source,
            depth,
            files,
        ).0,
        spec_replace_links(s, links, k, cursor, base, source, depth, files).1 == seq![
            (DiagnosticView::DepthExceeded { source }),
        ] + spec_replace_links(s, links, k + 1, links[k].end_index, base, source, depth, files).1,
{
    reveal(spec_replace_links);
}

/// One unfolding of the walk at a link whose render fails: the cursor stays
/// at the link's start, so its text reappears verbatim, with a diagnostic.
proof fn lemma_links_step_fail(
    s: Seq<char>,
    links: Seq<LinkView>,
    k: int,
    cursor: int,
    base: Seq<char>,
    source: Seq<char>,
    depth: int,
    files: Seq<(Seq<char>, Seq<char>)>,
)
    requires
        0 <= k < links.len(),
        spec_render(links[k].link_type, links[k].link_text, base, files) is None,
    ensures
        spec_replace_links(s, links, k, cursor, base, source, depth, files).0 == s.subrange(
            cursor,
            links[k].start_index,
        ) + spec_replace_links(
            s,
            links,
            k + 1,
            links[k].start_index,
            base,
            source,
            depth,
            files,
        ).0,
        spec_replace_links(s, links, k, cursor, base, source, depth, files).1 == seq![
            (DiagnosticView::FileUnreadable {
                link_text: links[k].link_text,
                target: spec_render_target(links[k].link_type, base),
            }),
        ] + spec_replace_links(s, links, k + 1, links[k].start_index, base, source, depth, files).1,
{
    reveal(spec_replace_links);
}

/// The walk past the last link: the rest of the block, and no diagnostics.
proof fn lemma_links_done(
    s: Seq<char>,
    links: Seq<LinkView>,
    k: int,
    cursor: int,
    base: Seq<char>,
    source: Seq<char>,
    depth: int,
    files: Seq<(Seq<char>, Seq<char>)>,
)
    requires
        k >= links.len(),
    ensures
        spec_replace_links(s, links, k, cursor, base, source, depth, files).0 == s.subrange(
            cursor,
            s.len() as int,
        ),
        spec_replace_links(s, links, k, cursor, base, source, depth, files).1
            == Seq::<DiagnosticView>::empty(),
{
    reveal(spec_replace_links);
}

/// On a text block without directive syntax, resolution is the identity
/// function and emits no diagnostics.
pub proof fn lemma_no_links_identity(
    s: Seq<char>,
    base: Seq<char>,
    source: Seq<char>,
    depth: int,
    files: Seq<(Seq<char>, Seq<char>)>,
)
    requires
        spec_find_links(s) == Seq::<LinkView>::empty(),
    ensures
        spec_replace(s, base, source, depth, files).0 == s,
        spec_replace(s, base, source, depth, files).1 == Seq::<DiagnosticView>::empty(),
{
    lemma_links_done(s, spec_find_links(s), 0, 0, base, source, depth_clamp(depth), files);
    assert(s.subrange(0, s.len() as int) =~= s);
}

/// Rendering an escaped directive drops exactly the one leading
/// escape-marker character, and consults no file table: every table yields
/// the same rendering.
pub proof fn lemma_escaped_render(
    text: Seq<char>,
    base: Seq<char>,
    f1: Seq<(Seq<char>, Seq<char>)>,
    f2: Seq<(Seq<char>, Seq<char>)>,
)
    requires
        text.len() >= 1,
    ensures
        spec_render(LinkTypeView::Escaped, text, base, f1) == Some(text.skip(1)),
        spec_render(LinkTypeView::Escaped, text, base, f1) == spec_render(
            LinkTypeView::Escaped,
            text,
            base,
            f2,
        ),
{
}

proof fn lemma_escaped_links_files(
    s: Seq<char>,
    links: Seq<LinkView>,
    k: int,
    cursor: int,
    base: Seq<char>,
    source: Seq<char>,
    depth: int,
    f1: Seq<(Seq<char>, Seq<char>)>,
    f2: Seq<(Seq<char>, Seq<char>)>,
)
    requires
        depth < MAX_LINK_NESTED_DEPTH as int,
        forall|j: int| 0 <= j < links.len() ==> (#[trigger] links[j].link_type) is Escaped,
    ensures
        spec_replace_links(s, links, k, cursor, base, source, depth, f1) == spec_replace_links(
            s,
            links,
            k,
            cursor,
            base,
            source,
            depth,
            f2,
        ),
        spec_replace_links(s, links, k, cursor, base, source, depth, f1).1
            == Seq::<DiagnosticView>::empty(),
    decreases links.len() - k,
{
    reveal(spec_replace_links);
    if 0 <= k && k < links.len() {
        lemma_escaped_links_files(s, links, k + 1, links[k].end_index, base, source, depth, f1, f2);
    }
}

/// A text block whose directives are all escaped resolves the same against
/// every file table — no file is read — and emits no diagnostics.
pub proof fn lemma_escaped_only_no_reads(
    s: Seq<char>,
    base: Seq<char>,
    source: Seq<char>,
    depth: int,
    f1: Seq<(Seq<char>, Seq<char>)>,
    f2: Seq<(Seq<char>, Seq<char>)>,
)
    requires
        0 <= depth < MAX_LINK_NESTED_DEPTH as int,
        forall|j: int|
            0 <= j < spec_find_links(s).len() ==> (#[trigger] spec_find_links(s)[j].link_type)
                is Escaped,
    ensures
        spec_replace(s, base, source, depth, f1) == spec_replace(s, base, source, depth, f2),
        spec_replace(s, base, source, depth, f1).1 == Seq::<DiagnosticView>::empty(),
{
    reveal(spec_replace_links);
    lemma_escaped_links_files(
        s,
        spec_find_links(s),
        0,
        0,
        base,
        source,
        depth_clamp(depth),
        f1,
        f2,
    );
}

/// One pass of the resolver is its walk from the first link, at the
/// clamped depth.
proof fn lemma_replace_start(
    s: Seq<char>,
    base: Seq<char>,
    source: Seq<char>,
    depth: int,
    files: Seq<(Seq<char>, Seq<char>)>,
)
    ensures
        spec_replace(s, base, source, depth, files) == spec_replace_links(
            s,
            spec_find_links(s),
            0,
            0,
            base,
            source,
            depth_clamp(depth),
            files,
        ),
{
    reveal(spec_replace_links);
}

/// Resolve every directive of a text block, collecting the diagnostics.
#[verifier::rlimit(100)]
pub fn replace_all_with_diags(
    s: &str,
    path: &str,
    source: &str,
    depth: usize,
    files: &FileMap,
) -> (r: (String, Vec<Diagnostic>))
    ensures
        r.0@ == spec_replace(s@, path@, source@, depth as int, files@).0,
        r.1.deep_view() == spec_replace(s@, path@, source@, depth as int, files@).1,
    decreases 11 - depth_clamp(depth as int), 0int,
{
    let links = find_links(s);
    proof {
        lemma_scan_from_bounds(s@, 0);
    }
    let n = s.unicode_len();
    let nlinks = links.len();
    let mut out = String::new();
    let mut diags: Vec<Diagnostic> = Vec::new();
    let mut cursor: usize = 0;
    let mut k: usize = 0;
    let ghost lv = spec_find_links(s@);
    let ghost d = depth_clamp(depth as int);
    let ghost goal = spec_replace(s@, path@, source@, depth as int, files@);
    proof {
        lemma_replace_start(s@, path@, source@, depth as int, files@);
        assert(goal.0 =~= out@ + spec_replace_links(s@, lv, 0, 0, path@, source@, d, files@).0);
        assert(goal.1 =~= diags.deep_view() + spec_replace_links(
            s@,
            lv,
            0,
            0,
            path@,
            source@,
            d,
            files@,
        ).1);
    }
    while k < nlinks
        invariant
            n == s@.len(),
            nlinks == links@.len(),
            links.deep_view() == lv,
            d == depth_clamp(depth as int),
            goal == spec_replace(s@, path@, source@, depth as int, files@),
            0 <= k <= nlinks,
            0 <= cursor <= n,
            k < nlinks ==> cursor <= lv[k as int].start_index,
            forall|q: int|
                0 <= q < lv.len() ==> {
                    let lq = #[trigger] lv[q];
                    0 <= lq.start_index && lq.start_index < lq.end_index && lq.end_index <= s@.len()
                        && lq.link_text == s@.subrange(lq.start_index, lq.end_index)
                },
            forall|q: int|
                0 <= q && q + 1 < lv.len() ==> (#[trigger] lv[q]).end_index <= lv[q
                    + 1].start_index,
            goal.0 == out@ + spec_replace_links(
                s@,
                lv,
                k as int,
                cursor as int,
                path@,
                source@,
                d,
                files@,
            ).0,
            goal.1 == diags.deep_view() + spec_replace_links(
                s@,
                lv,
                k as int,
                cursor as int,
                path@,
                source@,
                d,
                files@,
            ).1,
        decreases nlinks - k,
    {
        let ghost k0 = k as int;
        let ghost cursor0 = cursor as int;
        let ghost tail0 = spec_replace_links(s@, lv, k0, cursor0, path@, source@, d, files@);
        let ghost out0 = out@;
        let ghost diags0 = diags.deep_view();
        let ghost l = lv[k0];
        let ghost pre = s@.subrange(cursor0, l.start_index);
        let link = &links[k];
        proof {
            assert(link@ == lv[k0]);
        }
        out.append(s.substring_char(cursor, link.start_index));
        match link.render_with_path(path, files) {
            Ok(content) => {
                proof {
                    assert(spec_render(l.link_type, l.link_text, path@, files@) == Some(
                        content@,
                    ));
                }
                if depth < MAX_LINK_NESTED_DEPTH {
                    match link.link_type.relative_path(path) {
                        Some(rel) => {
                            let (rec_text, mut rec_diags) = replace_all_with_diags(
                                content.as_str(),
                                rel.as_str(),
                                source,
                                depth + 1,
                                files,
                            );
                            out.append(rec_text.as_str());
                            let ghost recd = rec_diags.deep_view();
                            diags.append(&mut rec_diags);
                            proof {
                                lemma_links_step_rec(
                                    s@,
                                    lv,
                                    k0,
                                    cursor0,
                                    path@,
                                    source@,
                                    d,
                                    files@,
                                    content@,
                                    rel@,
                                );
                                let rest = spec_replace_links(
                                    s@,
                                    lv,
                                    k0 + 1,
                                    l.end_index,
                                    path@,
                                    source@,
                                    d,
                                    files@,
                                );
                                assert(d == depth as int);
                                assert(diags.deep_view() =~= diags0 + recd);
                                assert(out0 + tail0.0 =~= out@ + rest.0);
                                assert(diags0 + tail0.1 =~= diags.deep_view() + rest.1);
                            }
                        },
                        None => {
                            out.append(content.as_str());
                            proof {
                                lemma_links_step_plain(
                                    s@,
                                    lv,
                                    k0,
                                    cursor0,
                                    path@,
                                    source@,
                                    d,
                                    files@,
                                    content@,
                                );
                                let rest = spec_replace_links(
                                    s@,
                                    lv,
                                    k0 + 1,
                                    l.end_index,
                                    path@,
                                    source@,
                                    d,
                                    files@,
                                );
                                assert(out0 + tail0.0 =~= out@ + rest.0);
                                assert(diags0 + tail0.1 =~= diags.deep_view() + rest.1);
                            }
                        },
                    }
                } else {
                    out.append(content.as_str());
                    let ghost dv = (DiagnosticView::DepthExceeded { source: source@ });
                    diags.push(Diagnostic::DepthExceeded { source: String::from_str(source) });
                    proof {
                        assert(!(d < MAX_LINK_NESTED_DEPTH as int));
                        lemma_links_step_ceiling(
                            s@,
                            lv,
                            k0,
                            cursor0,
                            path@,
                            source@,
                            d,
                            files@,
                            content@,
                        );
                        let rest = spec_replace_links(
                            s@,
                            lv,
                            k0 + 1,
                            l.end_index,
                            path@,
                            source@,
                            d,
                            files@,
                        );
                        assert(diags.deep_view() =~= diags0.push(dv));
                        assert(out0 + tail0.0 =~= out@ + rest.0);
                        assert(diags0 + tail0.1 =~= diags.deep_view() + rest.1);
                    }
                }
                cursor = link.end_index;
            },
            Err(diag) => {
                let ghost dv = diag@;
                diags.push(diag);
                proof {
                    assert(spec_render(l.link_type, l.link_text, path@, files@) is None);
                    lemma_links_step_fail(s@, lv, k0, cursor0, path@, source@, d, files@);
                    let rest = spec_replace_links(
                        s@,
                        lv,
                        k0 + 1,
                        l.start_index,
                        path@,
                        source@,
                        d,
                        files@,
                    );
                    assert(diags.deep_view() =~= diags0.push(dv));
                    assert(out0 + tail0.0 =~= out@ + rest.0);
                    assert(diags0 + tail0.1 =~= diags.deep_view() + rest.1);
                }
                cursor = link.start_index;
            },
        }
        k = k + 1;
    }
    out.append(s.substring_char(cursor, n));
    proof {
        lemma_links_done(s@, lv, nlinks as int, cursor as int, path@, source@, d, files@);
        assert(goal.0 =~= out@);
        assert(goal.1 =~= diags.deep_view());
    }
    (out, diags)
}

/// Resolve every directive of a text block; diagnostics are dropped.
pub fn replace_all(s: &str, path: &str, source: &str, depth: usize, files: &FileMap) -> (r: String)
    ensures
        r@ == spec_replace(s@, path@, source@, depth as int, files@).0,
{
    let (out, _diags) = replace_all_with_diags(s, path, source, depth, files);
    out
}

} // verus!
