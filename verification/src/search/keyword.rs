//! Keyword search over every line of a configuration.

use vstd::prelude::*;
use crate::config::full::FullConfig;
use crate::config::partial::ConfigPartial;
use crate::text::{
    chars_of, contains, contains_chars, decimal, decimal_chars, join, join_chars, lines, lines_of,
    lower_chars, lowercase, string_of, views,
};

verus! {

/// What a keyword match holds, as values.
pub struct KeywordDefView {
    pub file_path: Seq<char>,
    pub line_number: int,
    pub line_contents: Seq<char>,
}

/// A single line matching a keyword search.
#[derive(Debug)]
pub struct KeywordDef {
    /// Path to the file containing the match.
    pub file_path: String,
    /// Line number (1-indexed) of the match.
    pub line_number: usize,
    /// The full line contents.
    pub line_contents: String,
}

impl View for KeywordDef {
    type V = KeywordDefView;

    open spec fn view(&self) -> KeywordDefView {
        KeywordDefView {
            file_path: self.file_path@,
            line_number: self.line_number as int,
            line_contents: self.line_contents@,
        }
    }
}

/// Result of a keyword search.
#[derive(Debug)]
pub struct KeywordSearchResult(pub Vec<KeywordDef>);

/// The views of keyword matches.
pub open spec fn keyword_views(v: Seq<KeywordDef>) -> Seq<KeywordDefView> {
    v.map_values(|d: KeywordDef| d@)
}

/// The lines of one file whose lower-case form contains `needle`, with
/// 1-based line numbers.
pub open spec fn matching_lines(ls: Seq<Seq<char>>, file: Seq<char>, needle: Seq<char>) -> Seq<KeywordDefView>
    decreases ls.len(),
{
    if ls.len() == 0 {
        seq![]
    } else {
        matching_lines(ls.drop_last(), file, needle) + if contains(lowercase(ls.last()), needle) {
            seq![KeywordDefView { file_path: file, line_number: ls.len() as int, line_contents: ls.last() }]
        } else {
            seq![]
        }
    }
}

/// The matching lines of all files, in file order.
pub open spec fn matching_lines_all(ps: Seq<ConfigPartial>, needle: Seq<char>) -> Seq<KeywordDefView>
    decreases ps.len(),
{
    if ps.len() == 0 {
        seq![]
    } else {
        matching_lines_all(ps.drop_last(), needle) + matching_lines(lines(ps.last().config@), ps.last().file_name@, needle)
    }
}

/// The lines that a search for `keyword` finds.
pub open spec fn keyword_matches(ps: Seq<ConfigPartial>, keyword: Seq<char>) -> Seq<KeywordDefView> {
    matching_lines_all(ps, lowercase(keyword))
}

/// Searching is case-insensitive: two keywords with the same lower-case
/// form find the same lines.
pub proof fn lemma_keyword_search_ignores_case(ps: Seq<ConfigPartial>, k1: Seq<char>, k2: Seq<char>)
    requires
        lowercase(k1) == lowercase(k2),
    ensures
        keyword_matches(ps, k1) == keyword_matches(ps, k2),
{
}

proof fn lemma_matching_line_is_line(ls: Seq<Seq<char>>, file: Seq<char>, needle: Seq<char>, k: int)
    requires
        0 <= k < matching_lines(ls, file, needle).len(),
    ensures
        exists|i: int|
            #![auto]
            0 <= i < ls.len() && contains(lowercase(ls[i]), needle) && matching_lines(ls, file, needle)[k]
                == (KeywordDefView { file_path: file, line_number: i + 1, line_contents: ls[i] }),
    decreases ls.len(),
{
    let pre = matching_lines(ls.drop_last(), file, needle);
    let all = matching_lines(ls, file, needle);
    if k < pre.len() {
        lemma_matching_line_is_line(ls.drop_last(), file, needle, k);
        let i = choose|i: int|
            #![auto]
            0 <= i < ls.drop_last().len() && contains(lowercase(ls.drop_last()[i]), needle) && pre[k]
                == (KeywordDefView { file_path: file, line_number: i + 1, line_contents: ls.drop_last()[i] });
        assert(ls.drop_last()[i] == ls[i]);
        assert(all[k] == pre[k]);
    } else {
        let i = ls.len() - 1;
        assert(all[k] == KeywordDefView { file_path: file, line_number: i + 1, line_contents: ls[i] });
    }
}

proof fn lemma_matching_lines_has(ls: Seq<Seq<char>>, file: Seq<char>, needle: Seq<char>, i: int)
    requires
        0 <= i < ls.len(),
        contains(lowercase(ls[i]), needle),
    ensures
        matching_lines(ls, file, needle).contains(KeywordDefView { file_path: file, line_number: i + 1, line_contents: ls[i] }),
    decreases ls.len(),
{
    let u = KeywordDefView { file_path: file, line_number: i + 1, line_contents: ls[i] };
    let pre = matching_lines(ls.drop_last(), file, needle);
    let all = matching_lines(ls, file, needle);
    if i < ls.len() - 1 {
        assert(ls.drop_last()[i] == ls[i]);
        lemma_matching_lines_has(ls.drop_last(), file, needle, i);
        let k = choose|k: int| 0 <= k < pre.len() && pre[k] == u;
        assert(all[k] == u);
    } else {
        assert(all[pre.len() as int] == u);
    }
}

proof fn lemma_match_is_line(ps: Seq<ConfigPartial>, needle: Seq<char>, k: int)
    requires
        0 <= k < matching_lines_all(ps, needle).len(),
    ensures
        exists|p: int, i: int|
            #![trigger lines(ps[p].config@)[i]]
            0 <= p < ps.len() && 0 <= i < lines(ps[p].config@).len() && contains(lowercase(lines(ps[p].config@)[i]), needle)
                && matching_lines_all(ps, needle)[k] == (KeywordDefView {
                file_path: ps[p].file_name@,
                line_number: i + 1,
                line_contents: lines(ps[p].config@)[i],
            }),
    decreases ps.len(),
{
    let pre = matching_lines_all(ps.drop_last(), needle);
    let all = matching_lines_all(ps, needle);
    if k < pre.len() {
        lemma_match_is_line(ps.drop_last(), needle, k);
        let (p, i) = choose|p: int, i: int|
            #![auto]
            0 <= p < ps.drop_last().len() && 0 <= i < lines(ps.drop_last()[p].config@).len() && contains(
                lowercase(lines(ps.drop_last()[p].config@)[i]),
                needle,
            ) && pre[k] == (KeywordDefView {
                file_path: ps.drop_last()[p].file_name@,
                line_number: i + 1,
                line_contents: lines(ps.drop_last()[p].config@)[i],
            });
        assert(ps.drop_last()[p] == ps[p]);
        assert(all[k] == pre[k]);
    } else {
        let last = ps.last();
        let ls = lines(last.config@);
        let fm = matching_lines(ls, last.file_name@, needle);
        lemma_matching_line_is_line(ls, last.file_name@, needle, k - pre.len());
        let i = choose|i: int|
            #![auto]
            0 <= i < ls.len() && contains(lowercase(ls[i]), needle) && fm[k - pre.len()]
                == (KeywordDefView { file_path: last.file_name@, line_number: i + 1, line_contents: ls[i] });
        assert(all[k] == fm[k - pre.len()]);
        let p = ps.len() - 1;
        assert(ps[p] == last);
        assert(all[k] == KeywordDefView { file_path: ps[p].file_name@, line_number: i + 1, line_contents: lines(ps[p].config@)[i] });
    }
}

proof fn lemma_line_is_match(ps: Seq<ConfigPartial>, needle: Seq<char>, p: int, i: int)
    requires
        0 <= p < ps.len(),
        0 <= i < lines(ps[p].config@).len(),
        contains(lowercase(lines(ps[p].config@)[i]), needle),
    ensures
        matching_lines_all(ps, needle).contains(
            KeywordDefView { file_path: ps[p].file_name@, line_number: i + 1, line_contents: lines(ps[p].config@)[i] },
        ),
    decreases ps.len(),
{
    let u = KeywordDefView { file_path: ps[p].file_name@, line_number: i + 1, line_contents: lines(ps[p].config@)[i] };
    let pre = matching_lines_all(ps.drop_last(), needle);
    let all = matching_lines_all(ps, needle);
    if p < ps.len() - 1 {
        assert(ps.drop_last()[p] == ps[p]);
        lemma_line_is_match(ps.drop_last(), needle, p, i);
        let k = choose|k: int| 0 <= k < pre.len() && pre[k] == u;
        assert(all[k] == u);
    } else {
        let last = ps.last();
        let fm = matching_lines(lines(last.config@), last.file_name@, needle);
        lemma_matching_lines_has(lines(last.config@), last.file_name@, needle, i);
        let k = choose|k: int| 0 <= k < fm.len() && fm[k] == u;
        assert(all[pre.len() + k] == u);
    }
}

/// Every line that a keyword search finds is a line of one of the files,
/// with that file's name and the line's 1-based number, whose lower-case
/// form contains the whole keyword in lower case.
pub proof fn lemma_keyword_match_contains_keyword(ps: Seq<ConfigPartial>, keyword: Seq<char>, k: int)
    requires
        0 <= k < keyword_matches(ps, keyword).len(),
    ensures
        exists|p: int, i: int|
            #![trigger lines(ps[p].config@)[i]]
            0 <= p < ps.len() && 0 <= i < lines(ps[p].config@).len() && contains(
                lowercase(lines(ps[p].config@)[i]),
                lowercase(keyword),
            ) && keyword_matches(ps, keyword)[k] == (KeywordDefView {
                file_path: ps[p].file_name@,
                line_number: i + 1,
                line_contents: lines(ps[p].config@)[i],
            }),
{
    lemma_match_is_line(ps, lowercase(keyword), k);
}

/// Every line of every file whose lower-case form contains the whole
/// keyword in lower case is found, with its file's name and 1-based number.
pub proof fn lemma_keyword_line_is_found(ps: Seq<ConfigPartial>, keyword: Seq<char>, p: int, i: int)
    requires
        0 <= p < ps.len(),
        0 <= i < lines(ps[p].config@).len(),
        contains(lowercase(lines(ps[p].config@)[i]), lowercase(keyword)),
    ensures
        keyword_matches(ps, keyword).contains(
            KeywordDefView { file_path: ps[p].file_name@, line_number: i + 1, line_contents: lines(ps[p].config@)[i] },
        ),
{
    lemma_line_is_match(ps, lowercase(keyword), p, i);
}

/// Searches for lines containing the given keyword.
///
/// Matching is case-insensitive substring matching. All lines in all
/// config partials are searched, in file order and line order.
pub fn search_keyword_result(keyword: &str, config: &FullConfig) -> (r: KeywordSearchResult)
    ensures
        keyword_views(r.0@) == keyword_matches(config.partials@, keyword@),
{
    let needle = lower_chars(chars_of(keyword).as_slice());
    let ghost ps = config.partials@;
    let mut out: Vec<KeywordDef> = Vec::new();
    let mut p: usize = 0;
    while p < config.partials.len()
        invariant
            0 <= p <= ps.len(),
            ps == config.partials@,
            needle@ == lowercase(keyword@),
            keyword_views(out@) == matching_lines_all(ps.take(p as int), needle@),
        decreases ps.len() - p,
    {
        let partial = &config.partials[p];
        let text = chars_of(partial.config.as_str());
        let ls = lines_of(text.as_slice());
        let ghost all = lines(partial.config@);
        let ghost base = keyword_views(out@);
        let mut i: usize = 0;
        while i < ls.len()
            invariant
                0 <= i <= ls@.len(),
                views(ls@) == all,
                needle@ == lowercase(keyword@),
                keyword_views(out@) == base + matching_lines(all.take(i as int), partial.file_name@, needle@),
            decreases ls@.len() - i,
        {
            let ghost next = all.take(i + 1);
            assert(next.drop_last() =~= all.take(i as int));
            assert(next.last() == ls@[i as int]@);
            let low = lower_chars(ls[i].as_slice());
            let ghost prev = keyword_views(out@);
            if contains_chars(low.as_slice(), needle.as_slice()) {
                let def = KeywordDef {
                    file_path: partial.file_name.clone(),
                    line_number: i + 1,
                    line_contents: string_of(ls[i].as_slice()),
                };
                let ghost dv = def@;
                out.push(def);
                assert(keyword_views(out@) =~= prev.push(dv));
                assert(keyword_views(out@) =~= base + matching_lines(next, partial.file_name@, needle@));
            } else {
                assert(keyword_views(out@) =~= base + matching_lines(next, partial.file_name@, needle@));
            }
            i = i + 1;
        }
        assert(all.take(ls@.len() as int) =~= all);
        assert(ps.take(p + 1).drop_last() =~= ps.take(p as int));
        assert(ps[p as int] == *partial);
        p = p + 1;
    }
    assert(ps.take(ps.len() as int) =~= ps);
    KeywordSearchResult(out)
}

/// How a keyword match reads: `file - Line n:` and, on the next line
/// after a tab, the line itself.
pub open spec fn keyword_def_text(d: KeywordDefView) -> Seq<char> {
    d.file_path + " - Line "@ + decimal(d.line_number as nat) + ":\n\t"@ + d.line_contents
}

/// How keyword matches read: one after another, separated by line breaks.
pub open spec fn keywords_text(ds: Seq<KeywordDefView>) -> Seq<char> {
    join(ds.map_values(|d: KeywordDefView| keyword_def_text(d)), '\n')
}

impl KeywordDef {
    /// The text that displays this match.
    pub fn to_display_string(&self) -> (r: String)
        ensures
            r@ == keyword_def_text(self@),
    {
        let mut s = self.file_path.clone();
        s.append(" - Line ");
        let n = string_of(decimal_chars(self.line_number).as_slice());
        s.append(n.as_str());
        s.append(":\n\t");
        s.append(self.line_contents.as_str());
        s
    }
}

impl KeywordSearchResult {
    /// The text that displays these matches.
    pub fn to_display_string(&self) -> (r: String)
        ensures
            r@ == keywords_text(keyword_views(self.0@)),
    {
        let ghost ds = keyword_views(self.0@);
        let mut parts: Vec<Vec<char>> = Vec::new();
        let mut i: usize = 0;
        while i < self.0.len()
            invariant
                0 <= i <= self.0@.len(),
                ds == keyword_views(self.0@),
                views(parts@) == ds.take(i as int).map_values(|d: KeywordDefView| keyword_def_text(d)),
            decreases self.0@.len() - i,
        {
            let t = self.0[i].to_display_string();
            let ghost prev = views(parts@);
            parts.push(chars_of(t.as_str()));
            assert(views(parts@) =~= ds.take(i + 1).map_values(|d: KeywordDefView| keyword_def_text(d))) by {
                assert(ds[i as int] == self.0@[i as int]@);
                assert(views(parts@) =~= prev.push(t@));
            }
            i = i + 1;
        }
        assert(ds.take(ds.len() as int) =~= ds);
        let joined = join_chars(&parts, '\n');
        string_of(joined.as_slice())
    }
}

} // verus!
