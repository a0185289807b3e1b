//! X resource files: parsing with `#include` directives, lookups, and
//! setting a resource in the text of a user's resource file.
//!
//! Reading files is left to the caller. `XresourceLoader` holds the
//! decisions of parsing a resource file and the files it includes: it asks
//! for a path to be canonicalized, then (for a file not seen before) for
//! the file to be read, and parses what it is given, depth first.

use vstd::prelude::*;
use crate::config::ConfigError;
use crate::paths::{join_path, parent_of, path_join, path_parent};
use crate::text::{
    chars_of, copy_range, eq_chars, find_char, index_of, is_ws, join, join_chars, lacks, lemma_index_of,
    lemma_lines_lack_newline, lemma_lines_of_join, lemma_trim_end_keeps, lemma_trim_end_prefix, lemma_trim_fixed, lemma_trim_strip_cr, lines, lines_of,
    trim_end, trim_start,
    lower_chars, lowercase, starts_with, starts_with_chars, str_eq, string_of, trim, trim_char,
    trim_char_chars, trim_chars, views,
};

verus! {

/// What a resource entry holds, as values.
pub struct XresourceEntryView {
    pub key: Seq<char>,
    pub value: Seq<char>,
    pub file_path: Seq<char>,
    pub line_number: int,
}

/// One `key: value` line of a resource file.
#[derive(Debug)]
pub struct XresourceEntry {
    pub key: String,
    pub value: String,
    pub file_path: String,
    pub line_number: usize,
}

impl View for XresourceEntry {
    type V = XresourceEntryView;

    open spec fn view(&self) -> XresourceEntryView {
        XresourceEntryView {
            key: self.key@,
            value: self.value@,
            file_path: self.file_path@,
            line_number: self.line_number as int,
        }
    }
}

/// The views of entries.
pub open spec fn entry_views(v: Seq<XresourceEntry>) -> Seq<XresourceEntryView> {
    v.map_values(|e: XresourceEntry| e@)
}

/// What a line of a resource file is.
pub enum LineKind {
    /// Empty, a `!` comment, or no `:`.
    Skip,
    /// `#include` of the file named.
    Include(Seq<char>),
    /// `key: value`, both trimmed.
    Entry(Seq<char>, Seq<char>),
}

/// How a line of a resource file reads: trimmed, an empty line or one
/// starting with `!` is skipped; a line starting with `#include` includes
/// the file named after it (trimmed, without surrounding double quotes);
/// a line with a `:` is an entry split at its first `:`.
pub open spec fn classify(line: Seq<char>) -> LineKind {
    let t = trim(line);
    if t.len() == 0 || t[0] == '!' {
        LineKind::Skip
    } else if starts_with(t, "#include"@) {
        LineKind::Include(trim_char(trim(t.skip("#include"@.len() as int)), '"'))
    } else if index_of(t, ':') >= 0 {
        LineKind::Entry(trim(t.take(index_of(t, ':'))), trim(t.skip(index_of(t, ':') + 1)))
    } else {
        LineKind::Skip
    }
}

/// An include target made absolute against the including file's directory.
pub open spec fn resolve_target(target: Seq<char>, dir: Seq<char>) -> Seq<char> {
    if starts_with(target, "/"@) {
        target
    } else {
        path_join(dir, target)
    }
}

/// The entries of lines of one file, without following includes.
pub open spec fn file_entries(ls: Seq<Seq<char>>, path: Seq<char>) -> Seq<XresourceEntryView>
    decreases ls.len(),
{
    if ls.len() == 0 {
        seq![]
    } else {
        file_entries(ls.drop_last(), path) + match classify(ls.last()) {
            LineKind::Entry(k, v) => seq![XresourceEntryView { key: k, value: v, file_path: path, line_number: ls.len() as int }],
            _ => seq![],
        }
    }
}

/// The first entry with exactly `key`.
pub open spec fn first_with_key(es: Seq<XresourceEntryView>, key: Seq<char>) -> Option<XresourceEntryView>
    decreases es.len(),
{
    if es.len() == 0 {
        None
    } else if es[0].key == key {
        Some(es[0])
    } else {
        first_with_key(es.drop_first(), key)
    }
}

/// The entries of a set of resource files.
#[derive(Debug)]
pub struct XresourceConfig {
    entries: Vec<XresourceEntry>,
}

impl XresourceConfig {
    /// The entries, in the order the files and lines gave them.
    pub closed spec fn entries_view(&self) -> Seq<XresourceEntryView> {
        entry_views(self.entries@)
    }

    /// All entries.
    pub fn get_all_entries(&self) -> (r: &[XresourceEntry])
        ensures
            entry_views(r@) == self.entries_view(),
    {
        self.entries.as_slice()
    }

    /// The first entry whose key is exactly `key` (case matters).
    pub fn get_entry(&self, key: &str) -> (r: Option<&XresourceEntry>)
        ensures
            match r {
                Some(e) => first_with_key(self.entries_view(), key@) == Some(e@),
                None => first_with_key(self.entries_view(), key@) is None,
            },
    {
        let ghost all = self.entries_view();
        let mut i: usize = 0;
        assert(all.skip(0) =~= all);
        while i < self.entries.len()
            invariant
                0 <= i <= all.len(),
                all == self.entries_view(),
                first_with_key(all, key@) == first_with_key(all.skip(i as int), key@),
            decreases all.len() - i,
        {
            let ghost rest = all.skip(i as int);
            assert(rest[0] == self.entries@[i as int]@);
            if str_eq(self.entries[i].key.as_str(), key) {
                return Some(&self.entries[i]);
            }
            assert(rest.drop_first() =~= all.skip(i + 1));
            i = i + 1;
        }
        None
    }
}

enum Line {
    Skip,
    Include(Vec<char>),
    Entry(Vec<char>, Vec<char>),
}

fn classify_exec(line: &Vec<char>, inc: &Vec<char>) -> (r: Line)
    requires
        inc@ == "#include"@,
    ensures
        match r {
            Line::Skip => classify(line@) == LineKind::Skip,
            Line::Include(t) => classify(line@) == LineKind::Include(t@),
            Line::Entry(k, v) => classify(line@) == LineKind::Entry(k@, v@),
        },
{
    let t = trim_chars(line.as_slice());
    if t.len() == 0 || t[0] == '!' {
        return Line::Skip;
    }
    if starts_with_chars(t.as_slice(), inc.as_slice()) {
        let rest = copy_range(t.as_slice(), inc.len(), t.len());
        let rest_t = trim_chars(rest.as_slice());
        let target = trim_char_chars(rest_t.as_slice(), '"');
        return Line::Include(target);
    }
    match find_char(t.as_slice(), ':') {
        Some(i) => {
            let k = copy_range(t.as_slice(), 0, i);
            let v = copy_range(t.as_slice(), i + 1, t.len());
            assert(k@ =~= t@.take(i as int));
            assert(v@ =~= t@.skip(i + 1));
            Line::Entry(trim_chars(k.as_slice()), trim_chars(v.as_slice()))
        },
        None => Line::Skip,
    }
}

/// A file being parsed: its path, directory, lines and the next line.
pub struct FrameView {
    pub path: Seq<char>,
    pub dir: Seq<char>,
    pub lines: Seq<Seq<char>>,
    pub pos: int,
}

/// What the loader waits for.
pub enum Phase {
    /// The canonical form of this path.
    Resolve(Seq<char>),
    /// The contents of this file.
    Read(Seq<char>),
    /// Nothing: parsing is complete.
    Done,
}

/// How much parsing is left: lines not yet read, and one for each frame.
pub open spec fn work_left(stack: Seq<FrameView>) -> nat
    decreases stack.len(),
{
    if stack.len() == 0 {
        0
    } else {
        let top = stack.last();
        work_left(stack.drop_last()) + (if top.pos <= top.lines.len() {
            (top.lines.len() - top.pos) as nat
        } else {
            0
        }) + 1
    }
}

/// Parsing from a stack of files until an include is met or every file is
/// done: the new stack, the entries with those found appended, and what
/// is waited for next. A file whose lines are done is dropped and its
/// includer goes on after the include line.
pub open spec fn run(stack: Seq<FrameView>, entries: Seq<XresourceEntryView>) -> (Seq<FrameView>, Seq<XresourceEntryView>, Phase)
    decreases work_left(stack),
{
    if stack.len() == 0 {
        (stack, entries, Phase::Done)
    } else {
        let top = stack.last();
        if top.pos < 0 || top.pos >= top.lines.len() {
            run(stack.drop_last(), entries)
        } else {
            let line = top.lines[top.pos];
            let moved = FrameView { pos: top.pos + 1, ..top };
            let st = stack.drop_last().push(moved);
            proof {
                assert(st.drop_last() =~= stack.drop_last());
            }
            match classify(line) {
                LineKind::Skip => run(st, entries),
                LineKind::Entry(k, v) => run(
                    st,
                    entries.push(XresourceEntryView { key: k, value: v, file_path: top.path, line_number: top.pos + 1 }),
                ),
                LineKind::Include(t) => (st, entries, Phase::Resolve(resolve_target(t, top.dir))),
            }
        }
    }
}

/// Parsing only adds entries: the entries found before are kept, in
/// order, at the front of those that `run` gives.
pub proof fn lemma_run_extends_entries(stack: Seq<FrameView>, entries: Seq<XresourceEntryView>)
    ensures
        entries.is_prefix_of(run(stack, entries).1),
    decreases work_left(stack),
{
    if stack.len() == 0 {
        assert(entries.subrange(0, entries.len() as int) =~= entries);
    } else {
        let top = stack.last();
        if top.pos < 0 || top.pos >= top.lines.len() {
            assert(work_left(stack) >= work_left(stack.drop_last()) + 1);
            lemma_run_extends_entries(stack.drop_last(), entries);
        } else {
            let line = top.lines[top.pos];
            let moved = FrameView { pos: top.pos + 1, ..top };
            let st = stack.drop_last().push(moved);
            assert(st.drop_last() =~= stack.drop_last());
            assert(st.last() == moved);
            assert(work_left(st) < work_left(stack));
            match classify(line) {
                LineKind::Skip => {
                    lemma_run_extends_entries(st, entries);
                },
                LineKind::Entry(k, v) => {
                    let e2 = entries.push(
                        XresourceEntryView { key: k, value: v, file_path: top.path, line_number: top.pos + 1 },
                    );
                    lemma_run_extends_entries(st, e2);
                    let out = run(st, e2).1;
                    assert(out.subrange(0, entries.len() as int) =~= e2.subrange(0, e2.len() as int).subrange(
                        0,
                        entries.len() as int,
                    ));
                    assert(entries =~= e2.subrange(0, entries.len() as int));
                },
                LineKind::Include(_) => {
                    assert(entries.subrange(0, entries.len() as int) =~= entries);
                },
            }
        }
    }
}

/// The files being parsed are well placed: each one's directory is the
/// parent of its path, and its next line lies within its lines.
pub open spec fn frames_ok(stack: Seq<FrameView>) -> bool {
    forall|i: int|
        0 <= i < stack.len() ==> path_parent((#[trigger] stack[i]).path) == Some(stack[i].dir) && 0 <= stack[i].pos
            <= stack[i].lines.len()
}

/// Parsing asks for an included file relative to the file that includes
/// it: when it stops at an `#include` line, that line is the last one read
/// from the innermost file, and the path asked for is the target itself
/// when it starts with `/`, and otherwise the target joined to the parent
/// directory of that innermost file (not of the root file). The files
/// being parsed stay well placed.
pub proof fn lemma_include_resolved_in_including_file(stack: Seq<FrameView>, entries: Seq<XresourceEntryView>)
    requires
        frames_ok(stack),
    ensures
        frames_ok(run(stack, entries).0),
        match run(stack, entries).2 {
            Phase::Resolve(p) => {
                let s2 = run(stack, entries).0;
                &&& s2.len() > 0
                &&& 1 <= s2.last().pos <= s2.last().lines.len()
                &&& match classify(s2.last().lines[s2.last().pos - 1]) {
                    LineKind::Include(t) => p == (if starts_with(t, "/"@) {
                        t
                    } else {
                        path_join(path_parent(s2.last().path).unwrap(), t)
                    }),
                    _ => false,
                }
            },
            _ => true,
        },
    decreases work_left(stack),
{
    if stack.len() > 0 {
        let top = stack.last();
        assert(stack[stack.len() - 1] == top);
        let pre = stack.drop_last();
        assert forall|i: int| 0 <= i < pre.len() implies path_parent((#[trigger] pre[i]).path) == Some(pre[i].dir) && 0
            <= pre[i].pos <= pre[i].lines.len() by {
            assert(pre[i] == stack[i]);
        }
        if top.pos < 0 || top.pos >= top.lines.len() {
            assert(work_left(stack) >= work_left(pre) + 1);
            lemma_include_resolved_in_including_file(pre, entries);
        } else {
            let line = top.lines[top.pos];
            let moved = FrameView { pos: top.pos + 1, ..top };
            let st = pre.push(moved);
            assert(st.drop_last() =~= pre);
            assert(st.last() == moved);
            assert(work_left(st) < work_left(stack));
            assert forall|i: int| 0 <= i < st.len() implies path_parent((#[trigger] st[i]).path) == Some(st[i].dir) && 0
                <= st[i].pos <= st[i].lines.len() by {
                if i < pre.len() {
                    assert(st[i] == pre[i]);
                } else {
                    assert(st[i] == moved);
                }
            }
            match classify(line) {
                LineKind::Skip => {
                    lemma_include_resolved_in_including_file(st, entries);
                },
                LineKind::Entry(k, v) => {
                    lemma_include_resolved_in_including_file(
                        st,
                        entries.push(XresourceEntryView { key: k, value: v, file_path: top.path, line_number: top.pos + 1 }),
                    );
                },
                LineKind::Include(t) => {
                    assert(run(stack, entries).0 == st);
                    assert(moved.lines[moved.pos - 1] == line);
                },
            }
        }
    }
}

/// No path occurs twice.
pub open spec fn all_distinct(s: Seq<Seq<char>>) -> bool {
    forall|i: int, j: int| 0 <= i < s.len() && 0 <= j < s.len() && i != j ==> #[trigger] s[i] != #[trigger] s[j]
}

struct Frame {
    path: String,
    dir: String,
    lines: Vec<Vec<char>>,
    pos: usize,
}

impl View for Frame {
    type V = FrameView;

    closed spec fn view(&self) -> FrameView {
        FrameView { path: self.path@, dir: self.dir@, lines: views(self.lines@), pos: self.pos as int }
    }
}

spec fn frame_views(v: Seq<Frame>) -> Seq<FrameView> {
    v.map_values(|f: Frame| f@)
}

enum Waiting {
    Resolve(String),
    Read(String),
    Done,
}

/// What the loader asks its caller to do next.
#[derive(Debug)]
pub enum XresourceRequest {
    /// Canonicalize this path and hand the result to `canonicalized`.
    Canonicalize(String),
    /// Read this file and hand its contents to `file_read`.
    Read(String),
    /// Parsing is complete: call `finish`.
    Done,
}

/// The decisions of parsing a resource file and the files it includes.
pub struct XresourceLoader {
    stack: Vec<Frame>,
    seen: Vec<String>,
    entries: Vec<XresourceEntry>,
    waiting: Waiting,
}

impl XresourceLoader {
    /// The files being parsed, the innermost last.
    pub closed spec fn stack(&self) -> Seq<FrameView> {
        frame_views(self.stack@)
    }

    /// The canonical paths of the files parsed so far.
    pub closed spec fn seen(&self) -> Seq<Seq<char>> {
        self.seen@.map_values(|s: String| s@)
    }

    /// The entries found so far.
    pub closed spec fn entries(&self) -> Seq<XresourceEntryView> {
        entry_views(self.entries@)
    }

    /// What the loader waits for.
    pub closed spec fn phase(&self) -> Phase {
        match self.waiting {
            Waiting::Resolve(p) => Phase::Resolve(p@),
            Waiting::Read(p) => Phase::Read(p@),
            Waiting::Done => Phase::Done,
        }
    }

    /// Starts parsing at `root_path`.
    pub fn new(root_path: &str) -> (r: Self)
        ensures
            r.stack().len() == 0,
            r.seen().len() == 0,
            r.entries().len() == 0,
            r.phase() == Phase::Resolve(root_path@),
            frames_ok(r.stack()),
    {
        let r = XresourceLoader {
            stack: Vec::new(),
            seen: Vec::new(),
            entries: Vec::new(),
            waiting: Waiting::Resolve(root_path.to_owned()),
        };
        assert(r.seen() =~= Seq::<Seq<char>>::empty());
        assert(r.stack() =~= Seq::<FrameView>::empty());
        assert(r.entries() =~= Seq::<XresourceEntryView>::empty());
        r
    }

    /// What the caller is to do next.
    pub fn request(&self) -> (r: XresourceRequest)
        ensures
            match r {
                XresourceRequest::Canonicalize(p) => self.phase() == Phase::Resolve(p@),
                XresourceRequest::Read(p) => self.phase() == Phase::Read(p@),
                XresourceRequest::Done => self.phase() == Phase::Done,
            },
    {
        match &self.waiting {
            Waiting::Resolve(p) => XresourceRequest::Canonicalize(p.clone()),
            Waiting::Read(p) => XresourceRequest::Read(p.clone()),
            Waiting::Done => XresourceRequest::Done,
        }
    }

    fn advance(&mut self)
        ensures
            (final(self).stack(), final(self).entries(), final(self).phase()) == run(old(self).stack(), old(self).entries()),
            final(self).seen() == old(self).seen(),
    {
        let inc = chars_of("#include");
        let slash = chars_of("/");
        let ghost target = run(self.stack(), self.entries());
        loop
            invariant
                inc@ == "#include"@,
                slash@ == "/"@,
                run(self.stack(), self.entries()) == target,
                target == run(old(self).stack(), old(self).entries()),
                self.seen() == old(self).seen(),
            ensures
                (self.stack(), self.entries(), self.phase()) == target,
                self.seen() == old(self).seen(),
            decreases work_left(self.stack()),
        {
            let n = self.stack.len();
            if n == 0 {
                let ghost e0 = self.entries();
                let ghost s0 = self.stack();
                assert(s0.len() == 0);
                assert(run(s0, e0) == (s0, e0, Phase::Done));
                self.waiting = Waiting::Done;
                assert(self.stack() == s0);
                assert(self.entries() == e0);
                assert(self.phase() == Phase::Done);
                return;
            }
            let ghost st0 = self.stack();
            let mut top = self.stack.pop().unwrap();
            assert(st0.drop_last() =~= self.stack());
            assert(st0.last() == top@);
            if top.pos >= top.lines.len() {
                assert(run(st0, self.entries()) == run(st0.drop_last(), self.entries()));
                assert(work_left(st0) > work_left(st0.drop_last()));
                continue;
            }
            let pos = top.pos;
            let kind = classify_exec(&top.lines[pos], &inc);
            assert(views(top.lines@)[pos as int] == top.lines@[pos as int]@);
            top.pos = pos + 1;
            let ghost moved = top@;
            proof {
                let nst = st0.drop_last().push(moved);
                assert(nst.drop_last() =~= st0.drop_last());
                assert(work_left(nst) < work_left(st0));
            }
            match kind {
                Line::Skip => {
                    self.stack.push(top);
                    assert(self.stack() =~= st0.drop_last().push(moved));
                },
                Line::Entry(k, v) => {
                    let e = XresourceEntry {
                        key: string_of(k.as_slice()),
                        value: string_of(v.as_slice()),
                        file_path: top.path.clone(),
                        line_number: pos + 1,
                    };
                    let ghost ev = e@;
                    let ghost e0 = self.entries();
                    self.entries.push(e);
                    assert(self.entries() =~= e0.push(ev));
                    self.stack.push(top);
                    assert(self.stack() =~= st0.drop_last().push(moved));
                },
                Line::Include(t) => {
                    let resolved = if starts_with_chars(t.as_slice(), slash.as_slice()) {
                        string_of(t.as_slice())
                    } else {
                        let ts = string_of(t.as_slice());
                        join_path(top.dir.as_str(), ts.as_str())
                    };
                    self.stack.push(top);
                    assert(self.stack() =~= st0.drop_last().push(moved));
                    let ghost e0 = self.entries();
                    assert(run(st0, e0) == (self.stack(), e0, Phase::Resolve(resolved@)));
                    self.waiting = Waiting::Resolve(resolved);
                    return;
                },
            }
        }
    }

    /// Hands over the canonical form of the path asked for. A file already
    /// parsed is skipped and parsing goes on; a new one is remembered and
    /// its contents are asked for.
    pub fn canonicalized(&mut self, canonical: &str)
        requires
            old(self).phase() is Resolve,
        ensures
            old(self).seen().contains(canonical@) ==> {
                &&& (final(self).stack(), final(self).entries(), final(self).phase()) == run(old(self).stack(), old(self).entries())
                &&& final(self).seen() == old(self).seen()
            },
            all_distinct(old(self).seen()) ==> all_distinct(final(self).seen()),
            !old(self).seen().contains(canonical@) ==> {
                &&& final(self).seen() == old(self).seen().push(canonical@)
                &&& final(self).stack() == old(self).stack()
                &&& final(self).entries() == old(self).entries()
                &&& final(self).phase() == Phase::Read(old(self).phase()->Resolve_0)
            },
            old(self).seen().is_prefix_of(final(self).seen()),
            old(self).entries().is_prefix_of(final(self).entries()),
            frames_ok(old(self).stack()) ==> frames_ok(final(self).stack()),
    {
        proof {
            lemma_run_extends_entries(self.stack(), self.entries());
            if frames_ok(self.stack()) {
                lemma_include_resolved_in_including_file(self.stack(), self.entries());
            }
        }
        let mut i: usize = 0;
        let mut found = false;
        while i < self.seen.len()
            invariant
                0 <= i <= self.seen@.len(),
                found == (exists|k: int| 0 <= k < i && #[trigger] self.seen()[k] == canonical@),
            decreases self.seen@.len() - i,
        {
            if str_eq(self.seen[i].as_str(), canonical) {
                assert(self.seen()[i as int] == canonical@);
                found = true;
            }
            i = i + 1;
        }
        assert(found == self.seen().contains(canonical@));
        if found {
            self.advance();
        } else {
            let ghost s0 = self.seen();
            self.seen.push(canonical.to_owned());
            assert(self.seen() =~= s0.push(canonical@));
            proof {
                if all_distinct(s0) {
                    let s1 = self.seen();
                    assert forall|a: int, b: int| 0 <= a < s1.len() && 0 <= b < s1.len() && a != b implies #[trigger] s1[a]
                        != #[trigger] s1[b] by {
                        if a < s0.len() && b < s0.len() {
                            assert(s1[a] == s0[a] && s1[b] == s0[b]);
                        } else if a < s0.len() {
                            assert(s1[a] == s0[a]);
                        } else {
                            assert(s1[b] == s0[b]);
                        }
                    }
                }
            }
            let path = match &self.waiting {
                Waiting::Resolve(p) => p.clone(),
                _ => canonical.to_owned(),
            };
            self.waiting = Waiting::Read(path);
        }
    }

    /// Hands over the contents of the file asked for; parsing goes on in
    /// it.
    ///
    /// # Errors
    ///
    /// `NoParentDirectory` when the file's path has no parent directory.
    pub fn file_read(&mut self, content: &str) -> (r: Result<(), ConfigError>)
        requires
            old(self).phase() is Read,
        ensures
            ({
                let p = old(self).phase()->Read_0;
                match r {
                    Err(_) => path_parent(p) is None && final(self).stack() == old(self).stack() && final(self).entries()
                        == old(self).entries() && final(self).seen() == old(self).seen() && final(self).phase()
                        == old(self).phase(),
                    Ok(()) => path_parent(p) is Some && (final(self).stack(), final(self).entries(), final(self).phase())
                        == run(
                        old(self).stack().push(FrameView { path: p, dir: path_parent(p).unwrap(), lines: lines(content@), pos: 0 }),
                        old(self).entries(),
                    ) && final(self).seen() == old(self).seen(),
                }
            }),
            old(self).seen().is_prefix_of(final(self).seen()),
            old(self).entries().is_prefix_of(final(self).entries()),
            frames_ok(old(self).stack()) ==> frames_ok(final(self).stack()),
    {
        let path = match &self.waiting {
            Waiting::Read(p) => p.clone(),
            _ => String::new(),
        };
        let dir = match parent_of(path.as_str()) {
            Some(d) => d,
            None => return Err(ConfigError::NoParentDirectory),
        };
        let text = chars_of(content);
        let ls = lines_of(text.as_slice());
        let frame = Frame { path, dir, lines: ls, pos: 0 };
        let ghost fv = frame@;
        let ghost s0 = self.stack();
        self.stack.push(frame);
        assert(self.stack() =~= s0.push(fv));
        proof {
            lemma_run_extends_entries(self.stack(), self.entries());
            if frames_ok(s0) {
                assert(fv.dir == path_parent(fv.path).unwrap());
                assert forall|i: int| 0 <= i < self.stack().len() implies path_parent((#[trigger] self.stack()[i]).path)
                    == Some(self.stack()[i].dir) && 0 <= self.stack()[i].pos <= self.stack()[i].lines.len() by {
                    if i < s0.len() {
                        assert(self.stack()[i] == s0[i]);
                    }
                }
                lemma_include_resolved_in_including_file(self.stack(), self.entries());
            }
        }
        self.advance();
        proof {
            assert(old(self).seen().subrange(0, old(self).seen().len() as int) =~= old(self).seen());
        }
        Ok(())
    }

    /// The entries, once parsing is complete.
    pub fn finish(self) -> (r: XresourceConfig)
        requires
            self.phase() == Phase::Done,
        ensures
            r.entries_view() == self.entries(),
    {
        XresourceConfig { entries: self.entries }
    }
}

/// A trimmed line that can hold a setting: not empty, not a `!`
/// comment, not an `#include`, and with a `:`.
pub open spec fn is_setting(t: Seq<char>) -> bool {
    &&& t.len() > 0
    &&& t[0] != '!'
    &&& !starts_with(t, "#include"@)
    &&& index_of(t, ':') >= 0
}

/// The line sets `key`, compared in lower case.
pub open spec fn sets_key(line: Seq<char>, key: Seq<char>) -> bool {
    let t = trim(line);
    is_setting(t) && lowercase(trim(t.take(index_of(t, ':')))) == lowercase(key)
}

/// The index of the first line that sets `key`, or -1.
pub open spec fn first_setting(ls: Seq<Seq<char>>, key: Seq<char>) -> int
    decreases ls.len(),
{
    if ls.len() == 0 {
        -1
    } else if sets_key(ls[0], key) {
        0
    } else {
        let r = first_setting(ls.drop_first(), key);
        if r < 0 {
            -1
        } else {
            r + 1
        }
    }
}

proof fn lemma_first_setting(ls: Seq<Seq<char>>, key: Seq<char>, k: int)
    requires
        0 <= k <= ls.len(),
        forall|j: int| 0 <= j < k ==> !sets_key(#[trigger] ls[j], key),
        k == ls.len() || sets_key(ls[k], key),
    ensures
        first_setting(ls, key) == (if k == ls.len() {
            -1
        } else {
            k
        }),
    decreases k,
{
    if k > 0 {
        assert(!sets_key(ls[0], key));
        assert forall|j: int| 0 <= j < k - 1 implies !sets_key(#[trigger] ls.drop_first()[j], key) by {
            assert(ls.drop_first()[j] == ls[j + 1]);
        }
        lemma_first_setting(ls.drop_first(), key, k - 1);
    }
}

/// The line that sets `key` to `value`.
pub open spec fn setting_line(key: Seq<char>, value: Seq<char>) -> Seq<char> {
    key + ": "@ + value
}

/// The lines after setting `key` to `value`: the first line that sets the
/// key (in any case) is replaced; otherwise the setting is appended, after
/// an empty line when the last line is not blank.
pub open spec fn updated_lines(ls: Seq<Seq<char>>, key: Seq<char>, value: Seq<char>) -> Seq<Seq<char>> {
    let i = first_setting(ls, key);
    if i >= 0 {
        ls.update(i, setting_line(key, value))
    } else {
        let padded = if ls.len() > 0 && trim(ls.last()).len() > 0 {
            ls.push(seq![])
        } else {
            ls
        };
        padded.push(setting_line(key, value))
    }
}

/// The text of a resource file after setting `key` to `value`: the
/// updated lines joined with `\n`.
pub open spec fn updated_text(content: Seq<char>, key: Seq<char>, value: Seq<char>) -> Seq<char> {
    join(updated_lines(lines(content), key, value), '\n')
}

fn sets_key_exec(line: &Vec<char>, key_lower: &Vec<char>, inc: &Vec<char>) -> (r: bool)
    requires
        inc@ == "#include"@,
    ensures
        r == (is_setting(trim(line@)) && lowercase(trim(trim(line@).take(index_of(trim(line@), ':')))) == key_lower@),
{
    let t = trim_chars(line.as_slice());
    if t.len() == 0 || t[0] == '!' || starts_with_chars(t.as_slice(), inc.as_slice()) {
        return false;
    }
    match find_char(t.as_slice(), ':') {
        Some(c) => {
            let k = copy_range(t.as_slice(), 0, c);
            assert(k@ =~= t@.take(c as int));
            let kt = trim_chars(k.as_slice());
            let kl = lower_chars(kt.as_slice());
            eq_chars(kl.as_slice(), key_lower.as_slice())
        },
        None => false,
    }
}

/// Setting a key replaces at most one line, a line that reads as an entry
/// whose key is the given key in lower case: every other line of the file
/// is kept, unchanged and in its place (a line with a longer key that
/// merely starts with the given one included).
pub proof fn lemma_set_keeps_other_lines(content: Seq<char>, key: Seq<char>, value: Seq<char>)
    ensures
        lines(content).len() <= updated_lines(lines(content), key, value).len(),
        forall|j: int|
            0 <= j < lines(content).len() && !(match classify(#[trigger] lines(content)[j]) {
                LineKind::Entry(k, _) => lowercase(k) == lowercase(key),
                _ => false,
            }) ==> updated_lines(lines(content), key, value)[j] == lines(content)[j],
        forall|j1: int, j2: int|
            0 <= j1 < j2 < lines(content).len() && #[trigger] updated_lines(lines(content), key, value)[j1] != lines(
                content,
            )[j1] ==> #[trigger] updated_lines(lines(content), key, value)[j2] == lines(content)[j2],
{
    let ls = lines(content);
    lemma_first_setting_first(ls, key);
    let i = first_setting(ls, key);
    let u = updated_lines(ls, key, value);
    assert forall|j: int|
        0 <= j < ls.len() && !(match classify(#[trigger] ls[j]) {
            LineKind::Entry(k, _) => lowercase(k) == lowercase(key),
            _ => false,
        }) implies u[j] == ls[j] by {
        if j == i {
            assert(sets_key(ls[j], key));
        }
    }
}

/// The text of a resource file after setting `key` to `value`.
///
/// The first line whose key (the trimmed text before its first `:`)
/// matches `key` in lower case, among lines that are not blank, `!`
/// comments or `#include` directives, becomes `key: value`. With no such
/// line, `key: value` is appended as the last line, after an empty line
/// when the file's last line is not blank. Lines are joined with `\n`.
pub fn set_xresource_value(content: &str, key: &str, value: &str) -> (r: String)
    ensures
        r@ == updated_text(content@, key@, value@),
{
    let text = chars_of(content);
    let mut ls = lines_of(text.as_slice());
    let ghost all = views(ls@);
    let key_lower = lower_chars(chars_of(key).as_slice());
    let inc = chars_of("#include");
    let mut i: usize = 0;
    while i < ls.len()
        invariant
            0 <= i <= ls@.len(),
            all == views(ls@),
            key_lower@ == lowercase(key@),
            inc@ == "#include"@,
            forall|j: int| 0 <= j < i ==> !sets_key(#[trigger] all[j], key@),
        ensures
            0 <= i <= ls@.len(),
            i == ls@.len() || sets_key(all[i as int], key@),
            forall|j: int| 0 <= j < i ==> !sets_key(#[trigger] all[j], key@),
        decreases ls@.len() - i,
    {
        assert(all[i as int] == ls@[i as int]@);
        if sets_key_exec(&ls[i], &key_lower, &inc) {
            break;
        }
        i = i + 1;
    }
    let mut setting = chars_of(key);
    let sep = chars_of(": ");
    let vchars = chars_of(value);
    let ghost s0 = setting@;
    let mut j: usize = 0;
    while j < sep.len()
        invariant
            0 <= j <= sep@.len(),
            setting@ == s0 + sep@.take(j as int),
        decreases sep@.len() - j,
    {
        setting.push(sep[j]);
        j = j + 1;
    }
    let ghost s1 = setting@;
    let mut j: usize = 0;
    while j < vchars.len()
        invariant
            0 <= j <= vchars@.len(),
            setting@ == s1 + vchars@.take(j as int),
        decreases vchars@.len() - j,
    {
        setting.push(vchars[j]);
        j = j + 1;
    }
    assert(sep@.take(sep@.len() as int) =~= sep@);
    assert(vchars@.take(vchars@.len() as int) =~= vchars@);
    assert(setting@ =~= setting_line(key@, value@));
    if i < ls.len() {
        proof {
            lemma_first_setting(all, key@, i as int);
        }
        ls.set(i, setting);
        assert(views(ls@) =~= all.update(i as int, setting_line(key@, value@)));
    } else {
        proof {
            lemma_first_setting(all, key@, i as int);
        }
        let n = ls.len();
        if n > 0 {
            let last_t = trim_chars(ls[n - 1].as_slice());
            assert(all.last() == ls@[n - 1]@);
            if last_t.len() > 0 {
                ls.push(Vec::new());
            }
        }
        let ghost padded = views(ls@);
        ls.push(setting);
        assert(views(ls@) =~= padded.push(setting_line(key@, value@)));
        assert(padded =~= (if all.len() > 0 && trim(all.last()).len() > 0 {
            all.push(seq![])
        } else {
            all
        }));
    }
    let joined = join_chars(&ls, '\n');
    string_of(joined.as_slice())
}

// ---------------------------------------------------------------------
// Reading back what was set
// ---------------------------------------------------------------------

/// The line is an entry whose key is exactly `key`.
pub open spec fn entry_has_key(line: Seq<char>, key: Seq<char>) -> bool {
    match classify(line) {
        LineKind::Entry(k, _) => k == key,
        _ => false,
    }
}

/// A key that reads back as itself from its setting line: trimmed, on one
/// line, without `:`, and neither a `!` comment nor an `#include`.
pub open spec fn plain_key(key: Seq<char>) -> bool {
    &&& trim(key) == key
    &&& lacks(key, ':')
    &&& lacks(key, '\n')
    &&& !(key.len() > 0 && key[0] == '!')
    &&& !starts_with(key, "#include"@)
}

/// A value that reads back as itself: trimmed and on one line.
pub open spec fn plain_value(value: Seq<char>) -> bool {
    trim(value) == value && lacks(value, '\n')
}

proof fn lemma_first_with_key_concat(a: Seq<XresourceEntryView>, b: Seq<XresourceEntryView>, key: Seq<char>)
    ensures
        first_with_key(a + b, key) == (match first_with_key(a, key) {
            Some(e) => Some(e),
            None => first_with_key(b, key),
        }),
    decreases a.len(),
{
    if a.len() > 0 {
        assert((a + b)[0] == a[0]);
        assert((a + b).drop_first() =~= a.drop_first() + b);
        lemma_first_with_key_concat(a.drop_first(), b, key);
    } else {
        assert(a + b =~= b);
    }
}

proof fn lemma_no_entry_with_key(ls: Seq<Seq<char>>, path: Seq<char>, key: Seq<char>)
    requires
        forall|j: int| 0 <= j < ls.len() ==> !entry_has_key(#[trigger] ls[j], key),
    ensures
        first_with_key(file_entries(ls, path), key) is None,
    decreases ls.len(),
{
    if ls.len() > 0 {
        let pre = ls.drop_last();
        assert forall|j: int| 0 <= j < pre.len() implies !entry_has_key(#[trigger] pre[j], key) by {
            assert(pre[j] == ls[j]);
        }
        lemma_no_entry_with_key(pre, path, key);
        assert(!entry_has_key(ls[ls.len() - 1], key));
        let tail = match classify(ls.last()) {
            LineKind::Entry(k, v) => seq![XresourceEntryView { key: k, value: v, file_path: path, line_number: ls.len() as int }],
            _ => seq![],
        };
        assert(file_entries(ls, path) == file_entries(pre, path) + tail);
        lemma_first_with_key_concat(file_entries(pre, path), tail, key);
        if tail.len() > 0 {
            assert(tail[0].key != key);
            assert(tail.drop_first() =~= Seq::<XresourceEntryView>::empty());
            assert(first_with_key(tail.drop_first(), key) is None);
        }
    }
}

proof fn lemma_first_entry_with_key(ls: Seq<Seq<char>>, path: Seq<char>, key: Seq<char>, value: Seq<char>, i: int)
    requires
        0 <= i < ls.len(),
        classify(ls[i]) == LineKind::Entry(key, value),
        forall|j: int| 0 <= j < i ==> !entry_has_key(#[trigger] ls[j], key),
    ensures
        first_with_key(file_entries(ls, path), key) == Some(
            XresourceEntryView { key: key, value: value, file_path: path, line_number: i + 1 },
        ),
    decreases ls.len(),
{
    let pre = ls.drop_last();
    let tail = match classify(ls.last()) {
        LineKind::Entry(k, v) => seq![XresourceEntryView { key: k, value: v, file_path: path, line_number: ls.len() as int }],
        _ => seq![],
    };
    lemma_first_with_key_concat(file_entries(pre, path), tail, key);
    if i == ls.len() - 1 {
        assert forall|j: int| 0 <= j < pre.len() implies !entry_has_key(#[trigger] pre[j], key) by {
            assert(pre[j] == ls[j]);
        }
        lemma_no_entry_with_key(pre, path, key);
    } else {
        assert(pre[i] == ls[i]);
        assert forall|j: int| 0 <= j < i implies !entry_has_key(#[trigger] pre[j], key) by {
            assert(pre[j] == ls[j]);
        }
        lemma_first_entry_with_key(pre, path, key, value, i);
    }
}

proof fn lemma_first_setting_first(ls: Seq<Seq<char>>, key: Seq<char>)
    ensures
        -1 <= first_setting(ls, key) < ls.len(),
        first_setting(ls, key) >= 0 ==> sets_key(ls[first_setting(ls, key)], key),
        forall|j: int| 0 <= j < (if first_setting(ls, key) < 0 { ls.len() as int } else { first_setting(ls, key) })
            ==> !sets_key(#[trigger] ls[j], key),
    decreases ls.len(),
{
    if ls.len() > 0 && !sets_key(ls[0], key) {
        lemma_first_setting_first(ls.drop_first(), key);
        assert forall|j: int| 0 <= j < (if first_setting(ls, key) < 0 { ls.len() as int } else { first_setting(ls, key) })
            implies !sets_key(#[trigger] ls[j], key) by {
            if j > 0 {
                assert(ls[j] == ls.drop_first()[j - 1]);
            }
        }
        if first_setting(ls, key) >= 0 {
            assert(ls[first_setting(ls, key)] == ls.drop_first()[first_setting(ls.drop_first(), key)]);
        }
    }
}

/// The trimmed setting line starts with the key and a `:`, the first `:`
/// in it, and holds neither a `!` comment nor an `#include`.
proof fn lemma_setting_head(key: Seq<char>, value: Seq<char>)
    requires
        plain_key(key),
    ensures
        ({
            let t = trim(setting_line(key, value));
            &&& key.len() < t.len()
            &&& t == trim_end(setting_line(key, value))
            &&& t == setting_line(key, value).take(t.len() as int)
            &&& t.take(key.len() as int) == key
            &&& index_of(t, ':') == key.len()
            &&& t[0] != '!'
            &&& !starts_with(t, "#include"@)
        }),
{
    reveal_strlit(": ");
    let s = setting_line(key, value);
    let n = key.len() as int;
    assert(s[n] == ':');
    if n > 0 {
        lemma_trim_fixed(key);
        assert(s[0] == key[0]);
    }
    assert(!is_ws(s[0]));
    assert(trim_start(s) == s);
    lemma_trim_end_keeps(s, n);
    let t = trim(s);
    assert(t == trim_end(s));
    assert forall|j: int| 0 <= j < n implies #[trigger] t[j] != ':' by {
        assert(t[j] == s[j]);
        assert(s[j] == key[j]);
    }
    assert(t[n] == s[n]);
    lemma_index_of(t, ':', n);
    assert(t.take(n) =~= key);
    assert(t[0] == s[0]);
    assert(!starts_with(t, "#include"@)) by {
        reveal_strlit("#include");
        if starts_with(t, "#include"@) {
            if n < 8 {
                assert(t.take(8)[n] == t[n]);
                assert("#include"@[n] != ':');
            } else {
                assert(key.take(8) =~= t.take(8));
            }
        }
    }
}

/// The setting line sets its key.
proof fn lemma_setting_line_sets_key(key: Seq<char>, value: Seq<char>)
    requires
        plain_key(key),
    ensures
        sets_key(setting_line(key, value), key),
{
    lemma_setting_head(key, value);
}

/// With a plain value, the setting line reads back as the entry it sets.
#[verifier::spinoff_prover]
proof fn lemma_setting_line_entry(key: Seq<char>, value: Seq<char>)
    requires
        plain_key(key),
        plain_value(value),
    ensures
        classify(setting_line(key, value)) == LineKind::Entry(key, value),
{
    reveal_strlit(": ");
    lemma_setting_head(key, value);
    let s = setting_line(key, value);
    let n = key.len() as int;
    let t = trim(s);
    let rest = t.skip(n + 1);
    if value.len() > 0 {
        lemma_trim_fixed(value);
        assert(s.last() == value.last());
        lemma_trim_end_keeps(s, s.len() - 1);
        assert(t.len() == s.len());
        assert(rest =~= seq![' '] + value);
        assert(rest.drop_first() =~= value);
        assert(trim_start(rest) == trim_start(value));
    } else {
        assert(s.last() == ' ');
        assert(t.len() == n + 1) by {
            lemma_trim_end_keeps(s, n);
            lemma_trim_end_prefix(s);
            if t.len() > n + 1 {
                assert(t[n + 1] == s[n + 1]);
                assert(t.last() == s[n + 1]);
            }
        }
        assert(rest =~= Seq::<char>::empty());
    }
    assert(trim(rest) == value);
}

/// The shape of the text that setting a plain key produces, read back as
/// lines: some line `idx` is the setting line, and no line before it sets
/// the key (in any case) or holds an entry with exactly the key.
proof fn lemma_updated_shape(content: Seq<char>, key: Seq<char>, value: Seq<char>) -> (idx: int)
    requires
        plain_key(key),
        lacks(value, '\n'),
        value.len() == 0 || value.last() != '\r',
    ensures
        0 <= idx < lines(updated_text(content, key, value)).len(),
        lines(updated_text(content, key, value))[idx] == setting_line(key, value),
        forall|j: int|
            0 <= j < idx ==> !sets_key(#[trigger] lines(updated_text(content, key, value))[j], key) && !entry_has_key(
                lines(updated_text(content, key, value))[j],
                key,
            ),
{
    let ls0 = lines(content);
    lemma_lines_lack_newline(content);
    lemma_first_setting_first(ls0, key);
    let i = first_setting(ls0, key);
    let u = updated_lines(ls0, key, value);
    let setting = setting_line(key, value);
    let idx = if i >= 0 {
        i
    } else {
        u.len() - 1
    };
    assert(lacks(setting, '\n')) by {
        reveal_strlit(": ");
        assert forall|j: int| 0 <= j < setting.len() implies #[trigger] setting[j] != '\n' by {
            if j < key.len() {
                assert(setting[j] == key[j]);
            } else if j >= key.len() + 2 {
                assert(setting[j] == value[j - key.len() - 2]);
            }
        }
    }
    assert(u[idx] == setting);
    assert(setting.len() >= 2 && setting.last() != '\r') by {
        reveal_strlit(": ");
        if value.len() > 0 {
            assert(setting.last() == value.last());
        } else {
            assert(setting.last() == ' ');
        }
    }
    assert forall|k: int| 0 <= k < u.len() implies lacks(#[trigger] u[k], '\n') by {
        if k != idx {
            if k < ls0.len() {
                assert(u[k] == ls0[k]);
            } else {
                assert(u[k] =~= Seq::<char>::empty());
            }
        }
    }
    assert forall|j: int| 0 <= j < idx implies !sets_key(#[trigger] u[j], key) && !entry_has_key(u[j], key) by {
        if j < ls0.len() {
            assert(u[j] == ls0[j]);
            assert(!sets_key(ls0[j], key));
        } else {
            assert(u[j] =~= Seq::<char>::empty());
        }
    }
    let text = join(u, '\n');
    lemma_lines_of_join(u);
    let l = lines(text);
    assert(idx < l.len());
    assert(l[idx] == setting);
    assert forall|j: int| 0 <= j < idx implies !sets_key(#[trigger] l[j], key) && !entry_has_key(l[j], key) by {
        lemma_trim_strip_cr(u[j]);
        assert(trim(l[j]) == trim(u[j]));
        assert(classify(l[j]) == classify(u[j]));
    }
    idx
}

/// Setting a resource and reading the file back gives the value set.
///
/// When `key` and `value` are plain (trimmed, on one line, the key without
/// `:` and neither a comment nor an `#include`), the text that
/// `set_xresource_value` produces, parsed as a resource file, has as its
/// first entry with exactly `key` an entry of this file with `value`.
pub proof fn lemma_set_then_read(content: Seq<char>, key: Seq<char>, value: Seq<char>, path: Seq<char>)
    requires
        plain_key(key),
        plain_value(value),
    ensures
        match first_with_key(file_entries(lines(updated_text(content, key, value)), path), key) {
            Some(e) => e.key == key && e.value == value && e.file_path == path,
            None => false,
        },
{
    if value.len() > 0 {
        lemma_trim_fixed(value);
    }
    let idx = lemma_updated_shape(content, key, value);
    lemma_setting_line_entry(key, value);
    let l = lines(updated_text(content, key, value));
    lemma_first_entry_with_key(l, path, key, value, idx);
}

/// Setting a resource again to the same value changes nothing: once a
/// set has produced text whose lines, joined with `\n`, give it back, a
/// second set with the same plain key and a value on one line (without
/// carriage returns) leaves that text as it is.
pub proof fn lemma_set_twice(content: Seq<char>, key: Seq<char>, value: Seq<char>)
    requires
        plain_key(key),
        lacks(value, '\n'),
        lacks(value, '\r'),
        join(lines(updated_text(content, key, value)), '\n') == updated_text(content, key, value),
    ensures
        updated_text(updated_text(content, key, value), key, value) == updated_text(content, key, value),
{
    let c1 = updated_text(content, key, value);
    if value.len() > 0 {
        assert(value[value.len() - 1] != '\r');
    }
    let idx = lemma_updated_shape(content, key, value);
    lemma_setting_line_sets_key(key, value);
    let l = lines(c1);
    assert(sets_key(l[idx], key));
    lemma_first_setting(l, key, idx);
    assert(updated_lines(l, key, value) =~= l);
}

} // verus!
