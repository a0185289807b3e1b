//! X resource search: where a resource is defined, used and overridden,
//! and which resources have similar names.

use vstd::prelude::*;
use crate::config::full::FullConfig;
use crate::config::partial::ConfigPartial;
use crate::config::xresources::{entry_views, XresourceConfig, XresourceEntryView};
use crate::text::{
    chars_of, contains, contains_chars, eq_chars, eq_ignore_ascii_case, eq_ignore_ascii_case_chars,
    decimal, decimal_chars, join, join_chars, less, less_chars, lemma_less_irreflexive, lemma_less_total,
    lemma_less_transitive, lines, lines_of, lower_chars, lowercase, string_of, trim, trim_chars,
    views, words, words_of,
};

verus! {

/// Edit distance up to which a resource name counts as similar.
pub const MAX_SIMILAR_EDIT_SCORE: usize = 10;

/// How many similar resource names a search reports at most.
pub const MAX_SIMILAR_RESULTS: usize = 5;

/// A `set_from_resource $variable resource default...` directive.
pub struct SetFromResourceView {
    pub resource_name: Seq<char>,
    pub variable_name: Seq<char>,
    pub default_value: Seq<char>,
}

struct SetFromResourceDef {
    resource_name: Vec<char>,
    variable_name: Vec<char>,
    default_value: Vec<char>,
}

impl View for SetFromResourceDef {
    type V = SetFromResourceView;

    closed spec fn view(&self) -> SetFromResourceView {
        SetFromResourceView {
            resource_name: self.resource_name@,
            variable_name: self.variable_name@,
            default_value: self.default_value@,
        }
    }
}

/// The directive that a line holds: its words are `set_from_resource`, a
/// variable, a resource, and at least one more word; the default value is
/// the remaining words joined with single spaces.
pub open spec fn parse_set_from_resource_spec(line: Seq<char>) -> Option<SetFromResourceView> {
    let w = words(line);
    if w.len() < 3 || w[0] != "set_from_resource"@ {
        None
    } else {
        let d = join(w.skip(3), ' ');
        if d.len() == 0 {
            None
        } else {
            Some(SetFromResourceView { resource_name: w[2], variable_name: w[1], default_value: d })
        }
    }
}

fn parse_set_from_resource(line: &Vec<char>, sfr: &Vec<char>) -> (r: Option<SetFromResourceDef>)
    requires
        sfr@ == "set_from_resource"@,
    ensures
        match r {
            Some(d) => parse_set_from_resource_spec(line@) == Some(d@),
            None => parse_set_from_resource_spec(line@) is None,
        },
{
    let w = words_of(line.as_slice());
    assert(views(w@).len() == w@.len());
    if w.len() < 3 {
        return None;
    }
    assert(views(w@)[0] == w@[0]@ && views(w@)[1] == w@[1]@ && views(w@)[2] == w@[2]@);
    if !eq_chars(w[0].as_slice(), sfr.as_slice()) {
        return None;
    }
    let mut rest: Vec<Vec<char>> = Vec::new();
    let mut i: usize = 3;
    while i < w.len()
        invariant
            3 <= i <= w@.len(),
            views(rest@) == views(w@).subrange(3, i as int),
        decreases w@.len() - i,
    {
        let ghost prev = views(rest@);
        let c = w[i].clone();
        assert(c@ =~= w@[i as int]@);
        rest.push(c);
        assert(views(rest@) =~= prev.push(views(w@)[i as int]));
        assert(views(rest@) =~= views(w@).subrange(3, i + 1));
        i = i + 1;
    }
    assert(views(w@).subrange(3, w@.len() as int) =~= views(w@).skip(3));
    let d = join_chars(&rest, ' ');
    if d.len() == 0 {
        return None;
    }
    Some(SetFromResourceDef { resource_name: w[2].clone(), variable_name: w[1].clone(), default_value: d })
}

/// The directives of the trimmed lines of one file, in order.
pub open spec fn line_directives(ls: Seq<Seq<char>>) -> Seq<SetFromResourceView>
    decreases ls.len(),
{
    if ls.len() == 0 {
        seq![]
    } else {
        line_directives(ls.drop_last()) + match parse_set_from_resource_spec(trim(ls.last())) {
            Some(d) => seq![d],
            None => seq![],
        }
    }
}

/// The directives of all files, in file order and line order.
pub open spec fn all_directives(ps: Seq<ConfigPartial>) -> Seq<SetFromResourceView>
    decreases ps.len(),
{
    if ps.len() == 0 {
        seq![]
    } else {
        all_directives(ps.drop_last()) + line_directives(lines(ps.last().config@))
    }
}

spec fn directive_views(v: Seq<SetFromResourceDef>) -> Seq<SetFromResourceView> {
    v.map_values(|d: SetFromResourceDef| d@)
}

fn collect_directives(config: &FullConfig) -> (r: Vec<SetFromResourceDef>)
    ensures
        directive_views(r@) == all_directives(config.partials@),
{
    let sfr = chars_of("set_from_resource");
    let ghost ps = config.partials@;
    let mut out: Vec<SetFromResourceDef> = Vec::new();
    let mut p: usize = 0;
    while p < config.partials.len()
        invariant
            0 <= p <= ps.len(),
            ps == config.partials@,
            sfr@ == "set_from_resource"@,
            directive_views(out@) == all_directives(ps.take(p as int)),
        decreases ps.len() - p,
    {
        let text = chars_of(config.partials[p].config.as_str());
        let ls = lines_of(text.as_slice());
        let ghost all = lines(ps[p as int].config@);
        let ghost base = directive_views(out@);
        let mut i: usize = 0;
        while i < ls.len()
            invariant
                0 <= i <= ls@.len(),
                views(ls@) == all,
                sfr@ == "set_from_resource"@,
                directive_views(out@) == base + line_directives(all.take(i as int)),
            decreases ls@.len() - i,
        {
            let ghost next = all.take(i + 1);
            assert(next.drop_last() =~= all.take(i as int));
            assert(next.last() == ls@[i as int]@);
            let t = trim_chars(ls[i].as_slice());
            let ghost prev = directive_views(out@);
            match parse_set_from_resource(&t, &sfr) {
                Some(d) => {
                    let ghost dv = d@;
                    out.push(d);
                    assert(directive_views(out@) =~= prev.push(dv));
                    assert(directive_views(out@) =~= base + line_directives(next));
                },
                None => {
                    assert(directive_views(out@) =~= base + line_directives(next));
                },
            }
            i = i + 1;
        }
        assert(all.take(ls@.len() as int) =~= all);
        assert(ps.take(p + 1).drop_last() =~= ps.take(p as int));
        p = p + 1;
    }
    assert(ps.take(ps.len() as int) =~= ps);
    out
}

// ---------------------------------------------------------------------
// Sorted sets of names
// ---------------------------------------------------------------------

/// Strictly increasing in code point order.
pub open spec fn strictly_sorted(s: Seq<Seq<char>>) -> bool {
    forall|i: int, j: int| 0 <= i < j < s.len() ==> less(#[trigger] s[i], #[trigger] s[j])
}

/// The names of a finite set in increasing order (the order in which a
/// `BTreeSet<String>` walks them).
pub open spec fn sorted_names(s: Set<Seq<char>>) -> Seq<Seq<char>> {
    choose|cs: Seq<Seq<char>>| strictly_sorted(cs) && cs.to_set() == s
}

/// Two increasing sequences with the same elements are equal.
pub proof fn lemma_sorted_unique(a: Seq<Seq<char>>, b: Seq<Seq<char>>)
    requires
        strictly_sorted(a),
        strictly_sorted(b),
        a.to_set() == b.to_set(),
    ensures
        a == b,
    decreases a.len(),
{
    if a.len() == 0 {
        if b.len() > 0 {
            assert(b.to_set().contains(b[0]));
        }
        assert(a =~= b);
    } else {
        assert(a.to_set().contains(a[0]));
        assert(b.len() > 0);
        assert(b.to_set().contains(b[0]));
        let ia = choose|i: int| 0 <= i < a.len() && a[i] == b[0];
        let ib = choose|i: int| 0 <= i < b.len() && b[i] == a[0];
        if ia > 0 && ib > 0 {
            assert(less(a[0], a[ia]));
            assert(less(b[0], b[ib]));
            lemma_less_total(a[0], b[0]);
        } else if ia > 0 {
            assert(less(a[0], a[ia]));
            lemma_less_irreflexive(a[0]);
        } else if ib > 0 {
            assert(less(b[0], b[ib]));
            lemma_less_irreflexive(b[0]);
        }
        assert(a[0] == b[0]);
        let a1 = a.drop_first();
        let b1 = b.drop_first();
        assert forall|x: Seq<char>| a1.to_set().contains(x) implies b1.to_set().contains(x) by {
            let i = choose|i: int| 0 <= i < a1.len() && a1[i] == x;
            assert(less(a[0], a[i + 1]));
            assert(b.to_set().contains(x));
            let j = choose|j: int| 0 <= j < b.len() && b[j] == x;
            if j == 0 {
                lemma_less_irreflexive(a[0]);
            }
            assert(b1[j - 1] == x);
        }
        assert forall|x: Seq<char>| b1.to_set().contains(x) implies a1.to_set().contains(x) by {
            let i = choose|i: int| 0 <= i < b1.len() && b1[i] == x;
            assert(less(b[0], b[i + 1]));
            assert(a.to_set().contains(x));
            let j = choose|j: int| 0 <= j < a.len() && a[j] == x;
            if j == 0 {
                lemma_less_irreflexive(b[0]);
            }
            assert(a1[j - 1] == x);
        }
        assert(a1.to_set() =~= b1.to_set());
        assert(strictly_sorted(a1)) by {
            assert forall|i: int, j: int| 0 <= i < j < a1.len() implies less(#[trigger] a1[i], #[trigger] a1[j]) by {
                assert(a1[i] == a[i + 1] && a1[j] == a[j + 1]);
            }
        }
        assert(strictly_sorted(b1)) by {
            assert forall|i: int, j: int| 0 <= i < j < b1.len() implies less(#[trigger] b1[i], #[trigger] b1[j]) by {
                assert(b1[i] == b[i + 1] && b1[j] == b[j + 1]);
            }
        }
        lemma_sorted_unique(a1, b1);
        assert(a =~= b) by {
            assert forall|i: int| 0 <= i < a.len() implies a[i] == b[i] by {
                if i > 0 {
                    assert(a[i] == a1[i - 1] && b[i] == b1[i - 1]);
                }
            }
        }
    }
}

/// An increasing sequence is the sorted form of its elements.
pub proof fn lemma_sorted_names(cs: Seq<Seq<char>>)
    requires
        strictly_sorted(cs),
    ensures
        sorted_names(cs.to_set()) == cs,
{
    let s = cs.to_set();
    assert(exists|x: Seq<Seq<char>>| strictly_sorted(x) && x.to_set() == s);
    let c = sorted_names(s);
    lemma_sorted_unique(c, cs);
}

fn insert_sorted(v: &mut Vec<Vec<char>>, x: Vec<char>)
    requires
        strictly_sorted(views(old(v)@)),
    ensures
        strictly_sorted(views(final(v)@)),
        views(final(v)@).to_set() == views(old(v)@).to_set().insert(x@),
{
    let ghost s0 = views(v@);
    let mut i: usize = 0;
    while i < v.len() && less_chars(v[i].as_slice(), x.as_slice())
        invariant
            0 <= i <= v@.len(),
            s0 == views(v@),
            forall|j: int| 0 <= j < i ==> less(#[trigger] s0[j], x@),
        decreases v@.len() - i,
    {
        i = i + 1;
    }
    if i < v.len() && eq_chars(v[i].as_slice(), x.as_slice()) {
        assert(s0[i as int] == x@);
        assert(s0.to_set().insert(x@) =~= s0.to_set());
        return;
    }
    let ghost xv = x@;
    v.insert(i, x);
    let ghost s1 = views(v@);
    assert(s1 =~= s0.insert(i as int, xv));
    proof {
        if i < s0.len() {
            assert(!less(s0[i as int], xv));
            assert(s0[i as int] != xv);
            lemma_less_total(s0[i as int], xv);
        }
        assert forall|a: int, b: int| 0 <= a < b < s1.len() implies less(#[trigger] s1[a], #[trigger] s1[b]) by {
            if b < i {
                assert(s1[a] == s0[a] && s1[b] == s0[b]);
            } else if b == i {
                assert(s1[a] == s0[a]);
            } else if a == i {
                assert(s1[b] == s0[b - 1]);
                if b - 1 > i {
                    assert(less(s0[i as int], s0[b - 1]));
                    lemma_less_transitive(xv, s0[i as int], s0[b - 1]);
                }
            } else if a < i {
                assert(s1[a] == s0[a] && s1[b] == s0[b - 1]);
                if b - 1 > i || (b - 1 == i) {
                }
            } else {
                assert(s1[a] == s0[a - 1] && s1[b] == s0[b - 1]);
            }
        }
        assert forall|y: Seq<char>| s1.to_set().contains(y) <==> s0.to_set().insert(xv).contains(y) by {
            if s1.to_set().contains(y) {
                let k = choose|k: int| 0 <= k < s1.len() && s1[k] == y;
                if k < i {
                    assert(s0[k] == y);
                } else if k > i {
                    assert(s0[k - 1] == y);
                }
            }
            if s0.to_set().contains(y) {
                let k = choose|k: int| 0 <= k < s0.len() && s0[k] == y;
                if k < i {
                    assert(s1[k] == y);
                } else {
                    assert(s1[k + 1] == y);
                }
            }
            if y == xv {
                assert(s1[i as int] == y);
            }
        }
        assert(s1.to_set() =~= s0.to_set().insert(xv));
    }
}

// ---------------------------------------------------------------------
// Similar names
// ---------------------------------------------------------------------

/// The Levenshtein distance: the least number of single-character
/// insertions, deletions and substitutions that turn `a` into `b`.
pub open spec fn levenshtein_distance(a: Seq<char>, b: Seq<char>) -> nat
    decreases a.len() + b.len(),
{
    if a.len() == 0 {
        b.len()
    } else if b.len() == 0 {
        a.len()
    } else {
        let substitute = levenshtein_distance(a.drop_first(), b.drop_first()) + if a[0] == b[0] {
            0nat
        } else {
            1nat
        };
        let delete = levenshtein_distance(a.drop_first(), b) + 1;
        let insert = levenshtein_distance(a, b.drop_first()) + 1;
        if substitute <= delete && substitute <= insert {
            substitute
        } else if delete <= insert {
            delete
        } else {
            insert
        }
    }
}

/// Calls `strsim::levenshtein`, which its documentation describes as the
/// minimum number of insertions, deletions and substitutions of characters
/// needed to change one string into the other.
#[verifier::external_body]
fn levenshtein(a: &str, b: &str) -> (r: usize)
    ensures
        r == levenshtein_distance(a@, b@),
{
    strsim::levenshtein(a, b)
}

/// The length of a string in UTF-8 bytes, as `str::len` gives it.
pub open spec fn byte_len(s: Seq<char>) -> int {
    (vstd::utf8::encode_utf8(s).len() as usize) as int
}

/// A candidate that resembles the query, with what ranks it.
pub struct ScoredView {
    pub name: Seq<char>,
    pub is_substring: bool,
    pub len_diff: int,
    pub distance: int,
}

/// How a candidate scores against the query, compared in lower case: the
/// query itself is left out, and so is a candidate that neither contains
/// the query nor lies within `MAX_SIMILAR_EDIT_SCORE` edits of it.
pub open spec fn score(c: Seq<char>, query: Seq<char>) -> Option<ScoredView> {
    let ql = lowercase(query);
    let cl = lowercase(c);
    if cl == ql {
        None
    } else {
        let sub = contains(cl, ql);
        let d = levenshtein_distance(ql, cl);
        if !sub && d > MAX_SIMILAR_EDIT_SCORE {
            None
        } else {
            Some(
                ScoredView {
                    name: c,
                    is_substring: sub,
                    len_diff: if byte_len(c) >= byte_len(query) {
                        byte_len(c) - byte_len(query)
                    } else {
                        byte_len(query) - byte_len(c)
                    },
                    distance: d as int,
                },
            )
        }
    }
}

/// The candidates that score, in candidate order.
pub open spec fn scored(cs: Seq<Seq<char>>, query: Seq<char>) -> Seq<ScoredView>
    decreases cs.len(),
{
    if cs.len() == 0 {
        seq![]
    } else {
        scored(cs.drop_last(), query) + match score(cs.last(), query) {
            Some(x) => seq![x],
            None => seq![],
        }
    }
}

/// `a` ranks before `b`: substrings first, then smaller length
/// difference, then smaller distance, then the name.
pub open spec fn ranks_before(a: ScoredView, b: ScoredView) -> bool {
    if a.is_substring != b.is_substring {
        a.is_substring
    } else if a.len_diff != b.len_diff {
        a.len_diff < b.len_diff
    } else if a.distance != b.distance {
        a.distance < b.distance
    } else {
        less(a.name, b.name)
    }
}

/// `picked` holds the best-ranked entries of `sc`, at most `k`, best first:
/// every entry left out ranks after all of them, and fewer than `k` are
/// picked only when nothing is left out.
pub open spec fn is_top_ranked(picked: Seq<ScoredView>, sc: Seq<ScoredView>, k: int) -> bool {
    &&& picked.len() <= k
    &&& forall|i: int, j: int| 0 <= i < j < picked.len() ==> ranks_before(#[trigger] picked[i], #[trigger] picked[j])
    &&& forall|i: int| 0 <= i < picked.len() ==> sc.contains(#[trigger] picked[i])
    &&& forall|x: ScoredView|
        sc.contains(x) ==> #[trigger] picked.contains(x) || (picked.len() == k && ranks_before(picked.last(), x))
}

/// The names of scored entries.
pub open spec fn scored_names(p: Seq<ScoredView>) -> Seq<Seq<char>> {
    p.map_values(|x: ScoredView| x.name)
}

/// Each scored entry is the score of one of the candidates.
proof fn lemma_scored_from(cs: Seq<Seq<char>>, query: Seq<char>, x: ScoredView)
    requires
        scored(cs, query).contains(x),
    ensures
        cs.contains(x.name),
        score(x.name, query) == Some(x),
    decreases cs.len(),
{
    let pre = scored(cs.drop_last(), query);
    if pre.contains(x) {
        lemma_scored_from(cs.drop_last(), query, x);
        let i = choose|i: int| 0 <= i < cs.drop_last().len() && cs.drop_last()[i] == x.name;
        assert(cs[i] == x.name);
    } else {
        let k = choose|k: int| 0 <= k < scored(cs, query).len() && scored(cs, query)[k] == x;
        if k < pre.len() {
            assert(pre[k] == x);
        }
        assert(score(cs.last(), query) == Some(x));
        assert(cs[cs.len() - 1] == x.name);
    }
}

/// Entries of `sc` with the same name are the same entry.
pub open spec fn names_identify(sc: Seq<ScoredView>) -> bool {
    forall|a: ScoredView, b: ScoredView| sc.contains(a) && sc.contains(b) && a.name == b.name ==> a == b
}

proof fn lemma_ranks_sorted_unique(a: Seq<ScoredView>, b: Seq<ScoredView>)
    requires
        forall|i: int, j: int| 0 <= i < j < a.len() ==> ranks_before(#[trigger] a[i], #[trigger] a[j]),
        forall|i: int, j: int| 0 <= i < j < b.len() ==> ranks_before(#[trigger] b[i], #[trigger] b[j]),
        a.to_set() == b.to_set(),
        forall|x: ScoredView, y: ScoredView| a.contains(x) && a.contains(y) && x.name == y.name ==> x == y,
    ensures
        a == b,
    decreases a.len(),
{
    if a.len() == 0 {
        if b.len() > 0 {
            assert(b.to_set().contains(b[0]));
        }
        assert(a =~= b);
    } else {
        assert(a.to_set().contains(a[0]));
        assert(b.len() > 0);
        assert(b.to_set().contains(b[0]));
        let ia = choose|i: int| 0 <= i < a.len() && a[i] == b[0];
        let ib = choose|i: int| 0 <= i < b.len() && b[i] == a[0];
        if a[0] != b[0] {
            assert(a.contains(b[0]));
            if a[0].name == b[0].name {
                assert(a.contains(a[0]));
            }
            assert(ia > 0 && ib > 0);
            assert(ranks_before(a[0], a[ia]));
            assert(ranks_before(b[0], b[ib]));
            lemma_ranks_total(a[0], b[0]);
        }
        let a1 = a.drop_first();
        let b1 = b.drop_first();
        assert forall|x: ScoredView| a1.to_set().contains(x) implies b1.to_set().contains(x) by {
            let i = choose|i: int| 0 <= i < a1.len() && a1[i] == x;
            assert(ranks_before(a[0], a[i + 1]));
            assert(b.to_set().contains(x));
            let j = choose|j: int| 0 <= j < b.len() && b[j] == x;
            if j == 0 {
                lemma_ranks_irreflexive(a[0]);
            }
            assert(b1[j - 1] == x);
        }
        assert forall|x: ScoredView| b1.to_set().contains(x) implies a1.to_set().contains(x) by {
            let i = choose|i: int| 0 <= i < b1.len() && b1[i] == x;
            assert(ranks_before(b[0], b[i + 1]));
            assert(a.to_set().contains(x));
            let j = choose|j: int| 0 <= j < a.len() && a[j] == x;
            if j == 0 {
                lemma_ranks_irreflexive(b[0]);
            }
            assert(a1[j - 1] == x);
        }
        assert(a1.to_set() =~= b1.to_set());
        assert forall|i: int, j: int| 0 <= i < j < a1.len() implies ranks_before(#[trigger] a1[i], #[trigger] a1[j]) by {
            assert(a1[i] == a[i + 1] && a1[j] == a[j + 1]);
        }
        assert forall|i: int, j: int| 0 <= i < j < b1.len() implies ranks_before(#[trigger] b1[i], #[trigger] b1[j]) by {
            assert(b1[i] == b[i + 1] && b1[j] == b[j + 1]);
        }
        assert forall|x: ScoredView, y: ScoredView| a1.contains(x) && a1.contains(y) && x.name == y.name implies x == y by {
            let i = choose|i: int| 0 <= i < a1.len() && a1[i] == x;
            let j = choose|j: int| 0 <= j < a1.len() && a1[j] == y;
            assert(a.contains(x) && a[i + 1] == x);
            assert(a.contains(y) && a[j + 1] == y);
        }
        lemma_ranks_sorted_unique(a1, b1);
        assert forall|i: int| 0 <= i < a.len() implies a[i] == b[i] by {
            if i > 0 {
                assert(a[i] == a1[i - 1] && b[i] == b1[i - 1]);
            }
        }
        assert(a =~= b);
    }
}

proof fn lemma_ranks_irreflexive(a: ScoredView)
    ensures
        !ranks_before(a, a),
{
    lemma_less_irreflexive(a.name);
}

/// There is one top-ranked pick: two picks of the best `k` entries of the
/// same scored candidates are the same.
pub proof fn lemma_top_ranked_unique(p1: Seq<ScoredView>, p2: Seq<ScoredView>, sc: Seq<ScoredView>, k: int)
    requires
        is_top_ranked(p1, sc, k),
        is_top_ranked(p2, sc, k),
        names_identify(sc),
    ensures
        p1 == p2,
{
    assert forall|x: ScoredView| p1.to_set().contains(x) implies p2.to_set().contains(x) by {
        lemma_top_ranked_contained(p1, p2, sc, k, x);
    }
    assert forall|x: ScoredView| p2.to_set().contains(x) implies p1.to_set().contains(x) by {
        lemma_top_ranked_contained(p2, p1, sc, k, x);
    }
    assert(p1.to_set() =~= p2.to_set());
    assert forall|x: ScoredView, y: ScoredView| p1.contains(x) && p1.contains(y) && x.name == y.name implies x == y by {
        let i = choose|i: int| 0 <= i < p1.len() && p1[i] == x;
        let j = choose|j: int| 0 <= j < p1.len() && p1[j] == y;
        assert(sc.contains(p1[i]) && sc.contains(p1[j]));
    }
    lemma_ranks_sorted_unique(p1, p2);
}

proof fn lemma_top_ranked_no_dup(p: Seq<ScoredView>, sc: Seq<ScoredView>, k: int)
    requires
        is_top_ranked(p, sc, k),
    ensures
        p.no_duplicates(),
{
    assert forall|i: int, j: int| 0 <= i < p.len() && 0 <= j < p.len() && i != j implies p[i] != p[j] by {
        if i < j {
            assert(ranks_before(p[i], p[j]));
        } else {
            assert(ranks_before(p[j], p[i]));
        }
        if p[i] == p[j] {
            lemma_ranks_irreflexive(p[i]);
        }
    }
}

proof fn lemma_top_ranked_contained(p1: Seq<ScoredView>, p2: Seq<ScoredView>, sc: Seq<ScoredView>, k: int, x: ScoredView)
    requires
        is_top_ranked(p1, sc, k),
        is_top_ranked(p2, sc, k),
        names_identify(sc),
        p1.to_set().contains(x),
    ensures
        p2.to_set().contains(x),
{
    let ix = choose|i: int| 0 <= i < p1.len() && p1[i] == x;
    assert(sc.contains(p1[ix]));
    if !p2.contains(x) {
        assert(p2.len() == k && ranks_before(p2.last(), x));
        // x ranks at or before the last of p1
        assert(ix == p1.len() - 1 || ranks_before(x, p1.last()));
        assert forall|y: ScoredView| p2.to_set().contains(y) implies p1.to_set().remove(x).contains(y) by {
            let iy = choose|i: int| 0 <= i < p2.len() && p2[i] == y;
            assert(sc.contains(p2[iy]));
            assert(iy == p2.len() - 1 || ranks_before(y, p2.last()));
            if iy < p2.len() - 1 {
                lemma_ranks_transitive(y, p2.last(), x);
            }
            assert(ranks_before(y, x));
            if y == x {
                lemma_ranks_irreflexive(x);
            }
            if !p1.contains(y) {
                assert(p1.len() == k && ranks_before(p1.last(), y));
                if ix < p1.len() - 1 {
                    lemma_ranks_transitive(x, p1.last(), y);
                }
                assert(ranks_before(x, y));
                lemma_ranks_transitive(x, y, x);
                lemma_ranks_irreflexive(x);
            }
        }
        lemma_top_ranked_no_dup(p1, sc, k);
        lemma_top_ranked_no_dup(p2, sc, k);
        p1.unique_seq_to_set();
        p2.unique_seq_to_set();
        vstd::seq_lib::seq_to_set_is_finite(p1);
        vstd::set_lib::lemma_len_subset(p2.to_set(), p1.to_set().remove(x));
        assert(p1.to_set().remove(x).len() == p1.to_set().len() - 1);
        assert(false);
    }
}

/// The scored candidates are named by their candidate: two entries with
/// the same name are the same.
pub proof fn lemma_scored_names_identify(cs: Seq<Seq<char>>, query: Seq<char>)
    ensures
        names_identify(scored(cs, query)),
{
    assert forall|a: ScoredView, b: ScoredView|
        scored(cs, query).contains(a) && scored(cs, query).contains(b) && a.name == b.name implies a == b by {
        lemma_scored_from(cs, query, a);
        lemma_scored_from(cs, query, b);
    }
}

/// The similar names that a search lists: at most `MAX_SIMILAR_RESULTS`,
/// none twice, each a candidate that differs from the query in lower case
/// and, in lower case, either contains the query or lies within
/// `MAX_SIMILAR_EDIT_SCORE` edits of it.
pub proof fn lemma_similar_names(picked: Seq<ScoredView>, cs: Seq<Seq<char>>, query: Seq<char>)
    requires
        is_top_ranked(picked, scored(cs, query), MAX_SIMILAR_RESULTS as int),
    ensures
        scored_names(picked).len() <= MAX_SIMILAR_RESULTS,
        forall|i: int, j: int|
            0 <= i < j < picked.len() ==> #[trigger] scored_names(picked)[i] != #[trigger] scored_names(picked)[j],
        forall|i: int|
            0 <= i < picked.len() ==> {
                let n = #[trigger] scored_names(picked)[i];
                &&& cs.contains(n)
                &&& lowercase(n) != lowercase(query)
                &&& (contains(lowercase(n), lowercase(query)) || levenshtein_distance(lowercase(query), lowercase(n))
                    <= MAX_SIMILAR_EDIT_SCORE)
            },
{
    let names = scored_names(picked);
    assert forall|i: int| 0 <= i < picked.len() implies {
        let n = #[trigger] scored_names(picked)[i];
        &&& cs.contains(n)
        &&& lowercase(n) != lowercase(query)
        &&& (contains(lowercase(n), lowercase(query)) || levenshtein_distance(lowercase(query), lowercase(n))
            <= MAX_SIMILAR_EDIT_SCORE)
    } by {
        assert(scored(cs, query).contains(picked[i]));
        lemma_scored_from(cs, query, picked[i]);
        assert(names[i] == picked[i].name);
    }
    assert forall|i: int, j: int| 0 <= i < j < picked.len() implies #[trigger] scored_names(picked)[i]
        != #[trigger] scored_names(picked)[j] by {
        assert(ranks_before(picked[i], picked[j]));
        assert(scored(cs, query).contains(picked[i]));
        assert(scored(cs, query).contains(picked[j]));
        lemma_scored_from(cs, query, picked[i]);
        lemma_scored_from(cs, query, picked[j]);
        if names[i] == names[j] {
            assert(picked[i] == picked[j]);
            lemma_less_irreflexive(picked[i].name);
        }
    }
}

proof fn lemma_ranks_total(a: ScoredView, b: ScoredView)
    requires
        a.name != b.name,
    ensures
        ranks_before(a, b) || ranks_before(b, a),
        !(ranks_before(a, b) && ranks_before(b, a)),
{
    lemma_less_total(a.name, b.name);
}

proof fn lemma_ranks_transitive(a: ScoredView, b: ScoredView, c: ScoredView)
    requires
        ranks_before(a, b),
        ranks_before(b, c),
    ensures
        ranks_before(a, c),
{
    if a.is_substring == b.is_substring && b.is_substring == c.is_substring && a.len_diff == b.len_diff
        && b.len_diff == c.len_diff && a.distance == b.distance && b.distance == c.distance {
        lemma_less_transitive(a.name, b.name, c.name);
    }
}

struct Scored {
    name: Vec<char>,
    is_substring: bool,
    len_diff: usize,
    distance: usize,
}

impl View for Scored {
    type V = ScoredView;

    closed spec fn view(&self) -> ScoredView {
        ScoredView {
            name: self.name@,
            is_substring: self.is_substring,
            len_diff: self.len_diff as int,
            distance: self.distance as int,
        }
    }
}

spec fn scored_views(v: Seq<Scored>) -> Seq<ScoredView> {
    v.map_values(|x: Scored| x@)
}

fn ranks_before_exec(a: &Scored, b: &Scored) -> (r: bool)
    ensures
        r == ranks_before(a@, b@),
{
    if a.is_substring != b.is_substring {
        a.is_substring
    } else if a.len_diff != b.len_diff {
        a.len_diff < b.len_diff
    } else if a.distance != b.distance {
        a.distance < b.distance
    } else {
        less_chars(a.name.as_slice(), b.name.as_slice())
    }
}

fn score_exec(c: &Vec<char>, query: &str, ql: &Vec<char>) -> (r: Option<Scored>)
    requires
        ql@ == lowercase(query@),
    ensures
        match r {
            Some(x) => score(c@, query@) == Some(x@),
            None => score(c@, query@) is None,
        },
{
    let cl = lower_chars(c.as_slice());
    if eq_chars(cl.as_slice(), ql.as_slice()) {
        return None;
    }
    let sub = contains_chars(cl.as_slice(), ql.as_slice());
    let ql_s = string_of(ql.as_slice());
    let cl_s = string_of(cl.as_slice());
    let d = levenshtein(ql_s.as_str(), cl_s.as_str());
    if !sub && d > MAX_SIMILAR_EDIT_SCORE {
        return None;
    }
    let c_s = string_of(c.as_slice());
    let cb = c_s.as_str().len();
    let qb = query.len();
    let len_diff = if cb >= qb {
        cb - qb
    } else {
        qb - cb
    };
    let name = c.clone();
    assert(name@ == c@);
    let x = Scored { name, is_substring: sub, len_diff, distance: d };
    assert(x@ == score(c@, query@).unwrap());
    Some(x)
}

/// The names among `candidates` most similar to `query`, best first: at
/// most `MAX_SIMILAR_RESULTS` of the candidates that score, ranked by
/// `ranks_before`. The candidates are given in increasing order, each
/// once (as a `BTreeSet<String>` walks them).
pub fn collect_similar_resources(query: &str, candidates: &Vec<Vec<char>>) -> (r: Vec<String>)
    requires
        strictly_sorted(views(candidates@)),
    ensures
        exists|picked: Seq<ScoredView>|
            is_top_ranked(picked, scored(views(candidates@), query@), MAX_SIMILAR_RESULTS as int)
                && #[trigger] scored_names(picked) == crate::text::string_views(r@),
{
    let ql = lower_chars(chars_of(query).as_slice());
    let ghost cs = views(candidates@);
    let mut items: Vec<Scored> = Vec::new();
    let mut i: usize = 0;
    while i < candidates.len()
        invariant
            0 <= i <= candidates@.len(),
            cs == views(candidates@),
            strictly_sorted(cs),
            ql@ == lowercase(query@),
            scored_views(items@) == scored(cs.take(i as int), query@),
            forall|a: int, b: int| 0 <= a < b < items@.len() ==> less(#[trigger] items@[a].name@, #[trigger] items@[b].name@),
            forall|a: int| 0 <= a < items@.len() ==> exists|k: int| 0 <= k < i && #[trigger] items@[a].name@ == cs[k],
        decreases candidates@.len() - i,
    {
        let ghost next = cs.take(i + 1);
        assert(next.drop_last() =~= cs.take(i as int));
        assert(next.last() == candidates@[i as int]@);
        let ghost prev = scored_views(items@);
        match score_exec(&candidates[i], query, &ql) {
            Some(x) => {
                let ghost xv = x@;
                assert(xv.name == cs[i as int]);
                let ghost old_items = items@;
                items.push(x);
                assert(scored_views(items@) =~= prev.push(xv));
                assert forall|a: int, b: int| 0 <= a < b < items@.len() implies less(#[trigger] items@[a].name@, #[trigger] items@[b].name@) by {
                    if b == items@.len() - 1 {
                        let k = choose|k: int| 0 <= k < i && #[trigger] old_items[a].name@ == cs[k];
                        assert(items@[a] == old_items[a]);
                        assert(less(cs[k], cs[i as int]));
                    } else {
                        assert(items@[a] == old_items[a] && items@[b] == old_items[b]);
                    }
                }
                assert forall|a: int| 0 <= a < items@.len() implies exists|k: int| 0 <= k < i + 1 && #[trigger] items@[a].name@ == cs[k] by {
                    if a == items@.len() - 1 {
                        assert(items@[a].name@ == cs[i as int]);
                    } else {
                        assert(items@[a] == old_items[a]);
                        let k = choose|k: int| 0 <= k < i && #[trigger] old_items[a].name@ == cs[k];
                    }
                }
            },
            None => {
                assert(scored_views(items@) =~= prev + Seq::<ScoredView>::empty());
            },
        }
        i = i + 1;
    }
    assert(cs.take(cs.len() as int) =~= cs);
    let ghost sc = scored_views(items@);
    assert(sc == scored(cs, query@));
    // Pick the best-ranked items one at a time.
    let n = items.len();
    let mut taken: Vec<bool> = Vec::new();
    let mut t: usize = 0;
    while t < n
        invariant
            0 <= t <= n == items@.len(),
            taken@.len() == t,
            forall|j: int| 0 <= j < t ==> !#[trigger] taken@[j],
        decreases n - t,
    {
        taken.push(false);
        t = t + 1;
    }
    let mut picked: Vec<usize> = Vec::new();
    let ghost mut pv: Seq<ScoredView> = seq![];
    loop
        invariant
            n == items@.len(),
            sc == scored_views(items@),
            taken@.len() == n,
            picked@.len() <= MAX_SIMILAR_RESULTS,
            pv.len() == picked@.len(),
            forall|a: int, b: int| 0 <= a < b < items@.len() ==> less(#[trigger] items@[a].name@, #[trigger] items@[b].name@),
            forall|q: int| 0 <= q < picked@.len() ==> (#[trigger] picked@[q]) < n && taken@[picked@[q] as int],
            forall|q: int| 0 <= q < picked@.len() ==> #[trigger] pv[q] == sc[picked@[q] as int],
            forall|j: int| 0 <= j < n && #[trigger] taken@[j] ==> exists|q: int| 0 <= q < picked@.len() && picked@[q] == j,
            forall|a: int, b: int| 0 <= a < b < pv.len() ==> ranks_before(#[trigger] pv[a], #[trigger] pv[b]),
            forall|j: int| 0 <= j < n && !#[trigger] taken@[j] && pv.len() > 0 ==> ranks_before(pv.last(), sc[j]),
        ensures
            is_top_ranked(pv, sc, MAX_SIMILAR_RESULTS as int),
            pv.len() == picked@.len(),
            forall|q: int| 0 <= q < picked@.len() ==> (#[trigger] picked@[q]) < n && pv[q] == sc[picked@[q] as int],
        decreases MAX_SIMILAR_RESULTS - picked@.len(),
    {
        let ghost distinct_names = forall|a: int, b: int| 0 <= a < n && 0 <= b < n && a != b ==> #[trigger] sc[a].name != #[trigger] sc[b].name;
        assert(distinct_names) by {
            assert forall|a: int, b: int| 0 <= a < n && 0 <= b < n && a != b implies #[trigger] sc[a].name != #[trigger] sc[b].name by {
                if a < b {
                    assert(less(items@[a].name@, items@[b].name@));
                    lemma_less_irreflexive(items@[a].name@);
                } else {
                    assert(less(items@[b].name@, items@[a].name@));
                    lemma_less_irreflexive(items@[b].name@);
                }
            }
        }
        if picked.len() == MAX_SIMILAR_RESULTS {
            proof {
                assert forall|x: ScoredView| sc.contains(x) implies #[trigger] pv.contains(x) || (pv.len() == MAX_SIMILAR_RESULTS
                    && ranks_before(pv.last(), x)) by {
                    let j = choose|j: int| 0 <= j < sc.len() && sc[j] == x;
                    if taken@[j] {
                        let q = choose|q: int| 0 <= q < picked@.len() && picked@[q] == j;
                        assert(pv[q] == x);
                    }
                }
                assert forall|q: int| 0 <= q < pv.len() implies sc.contains(#[trigger] pv[q]) by {
                    assert(sc[picked@[q] as int] == pv[q]);
                }
            }
            break;
        }
        let mut best: usize = n;
        let mut j: usize = 0;
        while j < n
            invariant
                0 <= j <= n == items@.len(),
                taken@.len() == n,
                sc == scored_views(items@),
                best == n || (best < j && !taken@[best as int]),
                best < n ==> forall|k: int| 0 <= k < j && !#[trigger] taken@[k] && k != best ==> ranks_before(sc[best as int], sc[k]),
                best == n ==> forall|k: int| 0 <= k < j ==> #[trigger] taken@[k],
                forall|a: int, b: int| 0 <= a < n && 0 <= b < n && a != b ==> #[trigger] sc[a].name != #[trigger] sc[b].name,
            decreases n - j,
        {
            if !taken[j] {
                if best == n {
                    best = j;
                } else if ranks_before_exec(&items[j], &items[best]) {
                    proof {
                        assert forall|k: int| 0 <= k < j + 1 && !#[trigger] taken@[k] && k != j implies ranks_before(sc[j as int], sc[k]) by {
                            if k != best {
                                lemma_ranks_transitive(sc[j as int], sc[best as int], sc[k]);
                            }
                        }
                    }
                    best = j;
                } else {
                    proof {
                        assert(sc[j as int].name != sc[best as int].name);
                        lemma_ranks_total(sc[j as int], sc[best as int]);
                    }
                }
            }
            j = j + 1;
        }
        if best == n {
            proof {
                assert forall|x: ScoredView| sc.contains(x) implies #[trigger] pv.contains(x) || (pv.len() == MAX_SIMILAR_RESULTS
                    && ranks_before(pv.last(), x)) by {
                    let k = choose|k: int| 0 <= k < sc.len() && sc[k] == x;
                    assert(taken@[k]);
                    let q = choose|q: int| 0 <= q < picked@.len() && picked@[q] == k;
                    assert(pv[q] == x);
                }
                assert forall|q: int| 0 <= q < pv.len() implies sc.contains(#[trigger] pv[q]) by {
                    assert(sc[picked@[q] as int] == pv[q]);
                }
            }
            break;
        }
        let ghost old_pv = pv;
        let ghost old_taken = taken@;
        let ghost old_picked = picked@;
        taken.set(best, true);
        picked.push(best);
        proof {
            pv = pv.push(sc[best as int]);
            assert forall|a: int, b: int| 0 <= a < b < pv.len() implies ranks_before(#[trigger] pv[a], #[trigger] pv[b]) by {
                if b == pv.len() - 1 {
                    if a == b - 1 {
                        assert(ranks_before(old_pv.last(), sc[best as int]));
                    } else {
                        assert(ranks_before(old_pv[a], old_pv.last()));
                        assert(ranks_before(old_pv.last(), sc[best as int]));
                        lemma_ranks_transitive(old_pv[a], old_pv.last(), sc[best as int]);
                    }
                } else {
                    assert(pv[a] == old_pv[a] && pv[b] == old_pv[b]);
                }
            }
            assert forall|k: int| 0 <= k < n && !#[trigger] taken@[k] && pv.len() > 0 implies ranks_before(pv.last(), sc[k]) by {
                assert(k != best);
                assert(!old_taken[k]);
            }
            assert forall|k: int| 0 <= k < n && #[trigger] taken@[k] implies exists|q: int| 0 <= q < picked@.len() && picked@[q] == k by {
                if k == best {
                    assert(picked@[picked@.len() - 1] == k);
                } else {
                    assert(old_taken[k]);
                    let q = choose|q: int| 0 <= q < old_picked.len() && old_picked[q] == k;
                    assert(picked@[q] == k);
                }
            }
            assert forall|q: int| 0 <= q < picked@.len() implies (#[trigger] picked@[q]) < n && taken@[picked@[q] as int] by {
                if q < old_picked.len() {
                    assert(picked@[q] == old_picked[q]);
                }
            }
            assert forall|q: int| 0 <= q < picked@.len() implies #[trigger] pv[q] == sc[picked@[q] as int] by {
                if q < old_picked.len() {
                    assert(picked@[q] == old_picked[q]);
                    assert(pv[q] == old_pv[q]);
                }
            }
        }
    }
    let mut out: Vec<String> = Vec::new();
    let mut q: usize = 0;
    while q < picked.len()
        invariant
            0 <= q <= picked@.len(),
            n == items@.len(),
            sc == scored_views(items@),
            pv.len() == picked@.len(),
            forall|k: int| 0 <= k < picked@.len() ==> (#[trigger] picked@[k]) < n && pv[k] == sc[picked@[k] as int],
            crate::text::string_views(out@) == scored_names(pv.take(q as int)),
        decreases picked@.len() - q,
    {
        let k = picked[q];
        let name = string_of(items[k].name.as_slice());
        let ghost prev = crate::text::string_views(out@);
        let ghost nv = name@;
        out.push(name);
        assert(pv[q as int] == sc[k as int]);
        assert(nv == pv[q as int].name);
        assert(crate::text::string_views(out@) =~= prev.push(nv));
        assert(crate::text::string_views(out@) =~= scored_names(pv.take(q + 1)));
        q = q + 1;
    }
    assert(pv.take(pv.len() as int) =~= pv);
    out
}

// ---------------------------------------------------------------------
// Candidates and matches
// ---------------------------------------------------------------------

/// The resource names that a search considers: those of the
/// `set_from_resource` directives, of the user's resource file, and of the
/// runtime resources, each among the first `k1`, `k2`, `k3` of its source.
pub open spec fn candidates_among(
    defs: Seq<SetFromResourceView>,
    k1: int,
    xs: Seq<XresourceEntryView>,
    k2: int,
    rt: Seq<(Seq<char>, Seq<char>)>,
    k3: int,
) -> Set<Seq<char>> {
    Set::new(
        |c: Seq<char>|
            (exists|i: int| 0 <= i < k1 && #[trigger] defs[i].resource_name == c) || (exists|i: int|
                0 <= i < k2 && #[trigger] xs[i].key == c) || (exists|i: int| 0 <= i < k3 && #[trigger] rt[i].0 == c),
    )
}

/// All the resource names that a search considers.
pub open spec fn candidate_set(
    defs: Seq<SetFromResourceView>,
    xs: Seq<XresourceEntryView>,
    rt: Seq<(Seq<char>, Seq<char>)>,
) -> Set<Seq<char>> {
    candidates_among(defs, defs.len() as int, xs, xs.len() as int, rt, rt.len() as int)
}

fn build_candidates(defs: &Vec<SetFromResourceDef>, xs: &[crate::config::xresources::XresourceEntry], rt: &crate::string_map::StringMap) -> (r: Vec<Vec<char>>)
    ensures
        strictly_sorted(views(r@)),
        views(r@).to_set() == candidate_set(directive_views(defs@), entry_views(xs@), rt.pairs()),
{
    let ghost dv = directive_views(defs@);
    let ghost xv = entry_views(xs@);
    let ghost rv = rt.pairs();
    let mut out: Vec<Vec<char>> = Vec::new();
    assert(views(out@).to_set() =~= candidates_among(dv, 0, xv, 0, rv, 0));
    let mut i: usize = 0;
    while i < defs.len()
        invariant
            0 <= i <= defs@.len(),
            dv == directive_views(defs@),
            strictly_sorted(views(out@)),
            views(out@).to_set() == candidates_among(dv, i as int, xv, 0, rv, 0),
        decreases defs@.len() - i,
    {
        let name = defs[i].resource_name.clone();
        assert(name@ == dv[i as int].resource_name);
        insert_sorted(&mut out, name);
        assert(candidates_among(dv, i + 1, xv, 0, rv, 0) =~= candidates_among(dv, i as int, xv, 0, rv, 0).insert(dv[i as int].resource_name));
        i = i + 1;
    }
    let mut i: usize = 0;
    while i < xs.len()
        invariant
            0 <= i <= xs@.len(),
            xv == entry_views(xs@),
            dv.len() == defs@.len(),
            strictly_sorted(views(out@)),
            views(out@).to_set() == candidates_among(dv, dv.len() as int, xv, i as int, rv, 0),
        decreases xs@.len() - i,
    {
        let key = chars_of(xs[i].key.as_str());
        assert(key@ == xv[i as int].key);
        insert_sorted(&mut out, key);
        assert(candidates_among(dv, dv.len() as int, xv, i + 1, rv, 0) =~= candidates_among(dv, dv.len() as int, xv, i as int, rv, 0).insert(xv[i as int].key));
        i = i + 1;
    }
    let n = rt.len();
    let mut i: usize = 0;
    while i < n
        invariant
            0 <= i <= n == rv.len(),
            rv == rt.pairs(),
            dv.len() == defs@.len(),
            xv.len() == xs@.len(),
            strictly_sorted(views(out@)),
            views(out@).to_set() == candidates_among(dv, dv.len() as int, xv, xv.len() as int, rv, i as int),
        decreases n - i,
    {
        let (k, _v) = rt.entry(i);
        let key = chars_of(k.as_str());
        assert(key@ == rv[i as int].0);
        insert_sorted(&mut out, key);
        assert(candidates_among(dv, dv.len() as int, xv, xv.len() as int, rv, i + 1) =~= candidates_among(dv, dv.len() as int, xv, xv.len() as int, rv, i as int).insert(rv[i as int].0));
        i = i + 1;
    }
    out
}

/// The names whose lower-case form contains `ql`, in order.
pub open spec fn names_containing(cs: Seq<Seq<char>>, ql: Seq<char>) -> Seq<Seq<char>>
    decreases cs.len(),
{
    if cs.len() == 0 {
        seq![]
    } else {
        names_containing(cs.drop_last(), ql) + if contains(lowercase(cs.last()), ql) {
            seq![cs.last()]
        } else {
            seq![]
        }
    }
}

/// The value of the first runtime resource whose name is `ql` in lower
/// case, in the order the resources were gathered.
pub open spec fn first_runtime_value(rt: Seq<(Seq<char>, Seq<char>)>, ql: Seq<char>) -> Option<Seq<char>>
    decreases rt.len(),
{
    if rt.len() == 0 {
        None
    } else if lowercase(rt[0].0) == ql {
        Some(rt[0].1)
    } else {
        first_runtime_value(rt.drop_first(), ql)
    }
}

/// The default value of the first directive for `resource`: named exactly,
/// or, when some candidate matches the query exactly, named the same up to
/// ASCII case.
pub open spec fn first_default(defs: Seq<SetFromResourceView>, resource: Seq<char>, exact: bool) -> Option<Seq<char>>
    decreases defs.len(),
{
    if defs.len() == 0 {
        None
    } else if defs[0].resource_name == resource || (exact && eq_ignore_ascii_case(defs[0].resource_name, resource)) {
        Some(defs[0].default_value)
    } else {
        first_default(defs.drop_first(), resource, exact)
    }
}

/// A directive whose variable counts as using the queried resource: with
/// an exact match, one whose resource is the query in lower case (the
/// match itself ignores case); otherwise one whose resource contains the
/// query in lower case or equals a matched name up to ASCII case.
pub open spec fn directive_related(
    d: SetFromResourceView,
    resource: Seq<char>,
    ql: Seq<char>,
    exact: bool,
    matched: Seq<Seq<char>>,
) -> bool {
    if exact {
        lowercase(d.resource_name) == ql
    } else {
        contains(lowercase(d.resource_name), ql) || exists|m: int|
            0 <= m < matched.len() && eq_ignore_ascii_case(#[trigger] matched[m], d.resource_name)
    }
}

/// A configuration line that uses the queried resource, by its trimmed
/// lower-case text: with an exact match, it contains the query or a
/// related variable name as written; otherwise it contains a matched name,
/// a related variable name (both in lower case) or the query.
pub open spec fn usage_matches(
    line: Seq<char>,
    defs: Seq<SetFromResourceView>,
    resource: Seq<char>,
    ql: Seq<char>,
    exact: bool,
    matched: Seq<Seq<char>>,
) -> bool {
    let ll = lowercase(trim(line));
    if exact {
        contains(ll, ql) || exists|i: int|
            0 <= i < defs.len() && directive_related(#[trigger] defs[i], resource, ql, exact, matched) && contains(
                ll,
                defs[i].variable_name,
            )
    } else {
        (exists|m: int| 0 <= m < matched.len() && contains(ll, lowercase(#[trigger] matched[m]))) || (exists|i: int|
            0 <= i < defs.len() && directive_related(#[trigger] defs[i], resource, ql, exact, matched) && contains(
                ll,
                lowercase(defs[i].variable_name),
            )) || contains(ll, ql)
    }
}

/// A line that uses a resource.
pub struct UsageView {
    pub file_path: Seq<char>,
    pub line_number: int,
    pub line_contents: Seq<char>,
}

/// The lines of one file that use the resource, with 1-based numbers.
pub open spec fn file_usages(
    ls: Seq<Seq<char>>,
    file: Seq<char>,
    defs: Seq<SetFromResourceView>,
    resource: Seq<char>,
    ql: Seq<char>,
    exact: bool,
    matched: Seq<Seq<char>>,
) -> Seq<UsageView>
    decreases ls.len(),
{
    if ls.len() == 0 {
        seq![]
    } else {
        file_usages(ls.drop_last(), file, defs, resource, ql, exact, matched) + if usage_matches(
            ls.last(),
            defs,
            resource,
            ql,
            exact,
            matched,
        ) {
            seq![UsageView { file_path: file, line_number: ls.len() as int, line_contents: ls.last() }]
        } else {
            seq![]
        }
    }
}

/// The lines of all files that use the resource, in file order.
pub open spec fn all_usages(
    ps: Seq<ConfigPartial>,
    defs: Seq<SetFromResourceView>,
    resource: Seq<char>,
    ql: Seq<char>,
    exact: bool,
    matched: Seq<Seq<char>>,
) -> Seq<UsageView>
    decreases ps.len(),
{
    if ps.len() == 0 {
        seq![]
    } else {
        all_usages(ps.drop_last(), defs, resource, ql, exact, matched) + file_usages(
            lines(ps.last().config@),
            ps.last().file_name@,
            defs,
            resource,
            ql,
            exact,
            matched,
        )
    }
}

/// An entry of the user's resource file that overrides the resource:
/// with an exact match, its key equals the query up to ASCII case;
/// otherwise its key contains the query in lower case or equals a matched
/// name up to ASCII case.
pub open spec fn override_matches(
    e: XresourceEntryView,
    resource: Seq<char>,
    ql: Seq<char>,
    exact: bool,
    matched: Seq<Seq<char>>,
) -> bool {
    if exact {
        eq_ignore_ascii_case(e.key, resource)
    } else {
        contains(lowercase(e.key), ql) || exists|m: int|
            0 <= m < matched.len() && eq_ignore_ascii_case(#[trigger] matched[m], e.key)
    }
}

proof fn lemma_file_usages_has(
    ls: Seq<Seq<char>>,
    file: Seq<char>,
    defs: Seq<SetFromResourceView>,
    resource: Seq<char>,
    ql: Seq<char>,
    exact: bool,
    matched: Seq<Seq<char>>,
    i: int,
)
    requires
        0 <= i < ls.len(),
        contains(lowercase(trim(ls[i])), ql),
    ensures
        file_usages(ls, file, defs, resource, ql, exact, matched).contains(
            UsageView { file_path: file, line_number: i + 1, line_contents: ls[i] },
        ),
    decreases ls.len(),
{
    let u = UsageView { file_path: file, line_number: i + 1, line_contents: ls[i] };
    let pre = file_usages(ls.drop_last(), file, defs, resource, ql, exact, matched);
    let all = file_usages(ls, file, defs, resource, ql, exact, matched);
    if i < ls.len() - 1 {
        assert(ls.drop_last()[i] == ls[i]);
        lemma_file_usages_has(ls.drop_last(), file, defs, resource, ql, exact, matched, i);
        let k = choose|k: int| 0 <= k < pre.len() && pre[k] == u;
        assert(all[k] == u);
    } else {
        assert(usage_matches(ls.last(), defs, resource, ql, exact, matched));
        assert(all[pre.len() as int] == u);
    }
}

/// Every configuration line that contains the query, both trimmed and in
/// lower case, is listed among the usages, with its file and 1-based line
/// number.
pub proof fn lemma_usages_hold_query_lines(
    ps: Seq<ConfigPartial>,
    defs: Seq<SetFromResourceView>,
    resource: Seq<char>,
    ql: Seq<char>,
    exact: bool,
    matched: Seq<Seq<char>>,
    p: int,
    i: int,
)
    requires
        0 <= p < ps.len(),
        0 <= i < lines(ps[p].config@).len(),
        contains(lowercase(trim(lines(ps[p].config@)[i])), ql),
    ensures
        all_usages(ps, defs, resource, ql, exact, matched).contains(
            UsageView { file_path: ps[p].file_name@, line_number: i + 1, line_contents: lines(ps[p].config@)[i] },
        ),
    decreases ps.len(),
{
    let u = UsageView { file_path: ps[p].file_name@, line_number: i + 1, line_contents: lines(ps[p].config@)[i] };
    let pre = all_usages(ps.drop_last(), defs, resource, ql, exact, matched);
    let all = all_usages(ps, defs, resource, ql, exact, matched);
    if p < ps.len() - 1 {
        assert(ps.drop_last()[p] == ps[p]);
        lemma_usages_hold_query_lines(ps.drop_last(), defs, resource, ql, exact, matched, p, i);
        let k = choose|k: int| 0 <= k < pre.len() && pre[k] == u;
        assert(all[k] == u);
    } else {
        let last = ps.last();
        let fu = file_usages(lines(last.config@), last.file_name@, defs, resource, ql, exact, matched);
        lemma_file_usages_has(lines(last.config@), last.file_name@, defs, resource, ql, exact, matched, i);
        let k = choose|k: int| 0 <= k < fu.len() && fu[k] == u;
        assert(all[pre.len() + k] == u);
    }
}

proof fn lemma_file_usage_is_line(
    ls: Seq<Seq<char>>,
    file: Seq<char>,
    defs: Seq<SetFromResourceView>,
    resource: Seq<char>,
    ql: Seq<char>,
    exact: bool,
    matched: Seq<Seq<char>>,
    k: int,
)
    requires
        0 <= k < file_usages(ls, file, defs, resource, ql, exact, matched).len(),
    ensures
        exists|i: int|
            #![auto]
            0 <= i < ls.len() && usage_matches(ls[i], defs, resource, ql, exact, matched) && file_usages(
                ls,
                file,
                defs,
                resource,
                ql,
                exact,
                matched,
            )[k] == (UsageView { file_path: file, line_number: i + 1, line_contents: ls[i] }),
    decreases ls.len(),
{
    let pre = file_usages(ls.drop_last(), file, defs, resource, ql, exact, matched);
    let all = file_usages(ls, file, defs, resource, ql, exact, matched);
    if k < pre.len() {
        lemma_file_usage_is_line(ls.drop_last(), file, defs, resource, ql, exact, matched, k);
        let i = choose|i: int|
            #![auto]
            0 <= i < ls.drop_last().len() && usage_matches(ls.drop_last()[i], defs, resource, ql, exact, matched) && pre[k]
                == (UsageView { file_path: file, line_number: i + 1, line_contents: ls.drop_last()[i] });
        assert(ls.drop_last()[i] == ls[i]);
        assert(all[k] == pre[k]);
    } else {
        let i = ls.len() - 1;
        assert(all[k] == UsageView { file_path: file, line_number: i + 1, line_contents: ls[i] });
    }
}

/// Every usage is a line of one of the files, with that file's name and
/// the line's 1-based number, and it is a line that uses the resource.
/// (Usages come file by file and, within a file, line by line.)
pub proof fn lemma_usages_are_lines(
    ps: Seq<ConfigPartial>,
    defs: Seq<SetFromResourceView>,
    resource: Seq<char>,
    ql: Seq<char>,
    exact: bool,
    matched: Seq<Seq<char>>,
    k: int,
)
    requires
        0 <= k < all_usages(ps, defs, resource, ql, exact, matched).len(),
    ensures
        exists|p: int, i: int|
            #![auto]
            0 <= p < ps.len() && 0 <= i < lines(ps[p].config@).len() && usage_matches(
                lines(ps[p].config@)[i],
                defs,
                resource,
                ql,
                exact,
                matched,
            ) && all_usages(ps, defs, resource, ql, exact, matched)[k] == (UsageView {
                file_path: ps[p].file_name@,
                line_number: i + 1,
                line_contents: lines(ps[p].config@)[i],
            }),
    decreases ps.len(),
{
    let pre = all_usages(ps.drop_last(), defs, resource, ql, exact, matched);
    let all = all_usages(ps, defs, resource, ql, exact, matched);
    if k < pre.len() {
        lemma_usages_are_lines(ps.drop_last(), defs, resource, ql, exact, matched, k);
        let (p, i) = choose|p: int, i: int|
            #![auto]
            0 <= p < ps.drop_last().len() && 0 <= i < lines(ps.drop_last()[p].config@).len() && usage_matches(
                lines(ps.drop_last()[p].config@)[i],
                defs,
                resource,
                ql,
                exact,
                matched,
            ) && pre[k] == (UsageView {
                file_path: ps.drop_last()[p].file_name@,
                line_number: i + 1,
                line_contents: lines(ps.drop_last()[p].config@)[i],
            });
        assert(ps.drop_last()[p] == ps[p]);
        assert(all[k] == pre[k]);
        assert(all[k] == UsageView { file_path: ps[p].file_name@, line_number: i + 1, line_contents: lines(ps[p].config@)[i] });
    } else {
        let last = ps.last();
        let ls = lines(last.config@);
        let fu = file_usages(ls, last.file_name@, defs, resource, ql, exact, matched);
        lemma_file_usage_is_line(ls, last.file_name@, defs, resource, ql, exact, matched, k - pre.len());
        let i = choose|i: int|
            #![auto]
            0 <= i < ls.len() && usage_matches(ls[i], defs, resource, ql, exact, matched) && fu[k - pre.len()]
                == (UsageView { file_path: last.file_name@, line_number: i + 1, line_contents: ls[i] });
        assert(all[k] == fu[k - pre.len()]);
        let p = ps.len() - 1;
        assert(ps[p] == last);
        assert(all[k] == UsageView { file_path: ps[p].file_name@, line_number: i + 1, line_contents: lines(ps[p].config@)[i] });
    }
}

/// A runtime value is found exactly when some runtime resource's name is
/// the query in lower case.
pub proof fn lemma_runtime_value_found(rt: Seq<(Seq<char>, Seq<char>)>, ql: Seq<char>)
    ensures
        first_runtime_value(rt, ql) is Some <==> exists|i: int| 0 <= i < rt.len() && lowercase(#[trigger] rt[i].0) == ql,
    decreases rt.len(),
{
    if rt.len() > 0 {
        lemma_runtime_value_found(rt.drop_first(), ql);
        if exists|i: int| 0 <= i < rt.len() && lowercase(#[trigger] rt[i].0) == ql {
            let i = choose|i: int| 0 <= i < rt.len() && lowercase(#[trigger] rt[i].0) == ql;
            if i > 0 {
                assert(rt.drop_first()[i - 1] == rt[i]);
            }
        }
        if exists|i: int| 0 <= i < rt.drop_first().len() && lowercase(#[trigger] rt.drop_first()[i].0) == ql {
            let i = choose|i: int| 0 <= i < rt.drop_first().len() && lowercase(#[trigger] rt.drop_first()[i].0) == ql;
            assert(rt[i + 1] == rt.drop_first()[i]);
        }
    }
}

/// A user override of a resource.
pub struct OverrideView {
    pub file_path: Seq<char>,
    pub line_number: int,
    pub value: Seq<char>,
}

/// The overriding entries, in order.
pub open spec fn overrides_of(
    es: Seq<XresourceEntryView>,
    resource: Seq<char>,
    ql: Seq<char>,
    exact: bool,
    matched: Seq<Seq<char>>,
) -> Seq<OverrideView>
    decreases es.len(),
{
    if es.len() == 0 {
        seq![]
    } else {
        overrides_of(es.drop_last(), resource, ql, exact, matched) + if override_matches(
            es.last(),
            resource,
            ql,
            exact,
            matched,
        ) {
            seq![OverrideView { file_path: es.last().file_path, line_number: es.last().line_number, value: es.last().value }]
        } else {
            seq![]
        }
    }
}

// ---------------------------------------------------------------------
// The search
// ---------------------------------------------------------------------

/// A line in a config file that uses a resource.
#[derive(Debug)]
pub struct ResourceUsageDef {
    /// Path to the file containing the usage.
    pub file_path: String,
    /// Line number (1-indexed) of the usage.
    pub line_number: usize,
    /// The full line contents.
    pub line_contents: String,
}

impl View for ResourceUsageDef {
    type V = UsageView;

    open spec fn view(&self) -> UsageView {
        UsageView { file_path: self.file_path@, line_number: self.line_number as int, line_contents: self.line_contents@ }
    }
}

/// A user override for a resource in their Xresources file.
#[derive(Debug)]
pub struct ResourceOverrideDef {
    /// Path to the Xresources file.
    pub file_path: String,
    /// Line number (1-indexed) of the override.
    pub line_number: usize,
    /// The override value.
    pub value: String,
}

impl View for ResourceOverrideDef {
    type V = OverrideView;

    open spec fn view(&self) -> OverrideView {
        OverrideView { file_path: self.file_path@, line_number: self.line_number as int, value: self.value@ }
    }
}

/// Result of a resource search.
#[derive(Debug)]
pub struct ResourceSearchResult {
    /// The queried resource name.
    pub resource_name: String,
    /// Whether an exact match was found.
    pub has_exact_match: bool,
    /// The current runtime value, if available.
    pub runtime_value: Option<String>,
    /// The default value from `set_from_resource`, if defined.
    pub default_value: Option<String>,
    /// All config lines that use this resource.
    pub usages: Vec<ResourceUsageDef>,
    /// User overrides in the Xresources file.
    pub overrides: Vec<ResourceOverrideDef>,
    /// All resources matching the query (substring match).
    pub matched_resources: Vec<String>,
    /// Similar resources (fuzzy match for typos).
    pub similar_resources: Vec<String>,
}

/// The views of usages.
pub open spec fn usage_views(v: Seq<ResourceUsageDef>) -> Seq<UsageView> {
    v.map_values(|u: ResourceUsageDef| u@)
}

/// The views of overrides.
pub open spec fn override_views(v: Seq<ResourceOverrideDef>) -> Seq<OverrideView> {
    v.map_values(|o: ResourceOverrideDef| o@)
}

/// The view of an optional string.
pub open spec fn opt_view(o: Option<String>) -> Option<Seq<char>> {
    match o {
        Some(s) => Some(s@),
        None => None,
    }
}

/// The entries of the user's resource file, when it could be read.
pub open spec fn user_entries(x: Option<&XresourceConfig>) -> Seq<XresourceEntryView> {
    match x {
        Some(c) => c.entries_view(),
        None => seq![],
    }
}

/// Some candidate equals the query in lower case.
pub open spec fn exact_match(cset: Set<Seq<char>>, ql: Seq<char>) -> bool {
    exists|c: Seq<char>| cset.contains(c) && lowercase(c) == ql
}

/// What a search for `resource` finds: the configuration's files `ps`,
/// the runtime resources `rt` in the order gathered, and the entries `xs`
/// of the user's resource file.
pub open spec fn is_resource_search_result(
    r: ResourceSearchResult,
    resource: Seq<char>,
    ps: Seq<ConfigPartial>,
    rt: Seq<(Seq<char>, Seq<char>)>,
    xs: Seq<XresourceEntryView>,
) -> bool {
    let ql = lowercase(resource);
    let defs = all_directives(ps);
    let cset = candidate_set(defs, xs, rt);
    let cs = sorted_names(cset);
    let exact = exact_match(cset, ql);
    let matched = names_containing(cs, ql);
    &&& r.resource_name@ == resource
    &&& r.has_exact_match == exact
    &&& crate::text::string_views(r.matched_resources@) == matched
    &&& opt_view(r.runtime_value) == first_runtime_value(rt, ql)
    &&& opt_view(r.default_value) == first_default(defs, resource, exact)
    &&& usage_views(r.usages@) == all_usages(ps, defs, resource, ql, exact, matched)
    &&& override_views(r.overrides@) == overrides_of(xs, resource, ql, exact, matched)
    &&& exists|picked: Seq<ScoredView>|
        is_top_ranked(picked, scored(cs, resource), MAX_SIMILAR_RESULTS as int) && #[trigger] scored_names(picked)
            == crate::text::string_views(r.similar_resources@)
}

proof fn lemma_first_default_is_first_named(defs: Seq<SetFromResourceView>, resource: Seq<char>, exact: bool)
    ensures
        match first_default(defs, resource, exact) {
            Some(v) => exists|i: int|
                0 <= i < defs.len() && (#[trigger] defs[i].resource_name == resource || (exact && eq_ignore_ascii_case(
                    defs[i].resource_name,
                    resource,
                ))) && defs[i].default_value == v && forall|j: int|
                    0 <= j < i ==> !(#[trigger] defs[j].resource_name == resource || (exact && eq_ignore_ascii_case(
                        defs[j].resource_name,
                        resource,
                    ))),
            None => forall|i: int|
                0 <= i < defs.len() ==> !(#[trigger] defs[i].resource_name == resource || (exact && eq_ignore_ascii_case(
                    defs[i].resource_name,
                    resource,
                ))),
        },
    decreases defs.len(),
{
    if defs.len() > 0 {
        let named0 = defs[0].resource_name == resource || (exact && eq_ignore_ascii_case(defs[0].resource_name, resource));
        if !named0 {
            let rest = defs.drop_first();
            lemma_first_default_is_first_named(rest, resource, exact);
            match first_default(rest, resource, exact) {
                Some(v) => {
                    let i = choose|i: int|
                        0 <= i < rest.len() && (#[trigger] rest[i].resource_name == resource || (exact && eq_ignore_ascii_case(
                            rest[i].resource_name,
                            resource,
                        ))) && rest[i].default_value == v && forall|j: int|
                            0 <= j < i ==> !(#[trigger] rest[j].resource_name == resource || (exact && eq_ignore_ascii_case(
                                rest[j].resource_name,
                                resource,
                            )));
                    assert(defs[i + 1] == rest[i]);
                    assert forall|j: int| 0 <= j < i + 1 implies !(#[trigger] defs[j].resource_name == resource || (exact
                        && eq_ignore_ascii_case(defs[j].resource_name, resource))) by {
                        if j > 0 {
                            assert(defs[j] == rest[j - 1]);
                        }
                    }
                },
                None => {
                    assert forall|i: int| 0 <= i < defs.len() implies !(#[trigger] defs[i].resource_name == resource || (exact
                        && eq_ignore_ascii_case(defs[i].resource_name, resource))) by {
                        if i > 0 {
                            assert(defs[i] == rest[i - 1]);
                        }
                    }
                },
            }
        }
    }
}

/// The default value a resource search reports is that of the first
/// `set_from_resource` directive, in file and line order, whose resource
/// is the queried name (or, when some candidate matches the query exactly,
/// the queried name up to ASCII case); with no such directive there is no
/// default, whatever other directives' names contain the query.
pub proof fn lemma_default_is_of_named_directive(
    r: ResourceSearchResult,
    resource: Seq<char>,
    ps: Seq<ConfigPartial>,
    rt: Seq<(Seq<char>, Seq<char>)>,
    xs: Seq<XresourceEntryView>,
)
    requires
        is_resource_search_result(r, resource, ps, rt, xs),
    ensures
        match opt_view(r.default_value) {
            Some(v) => exists|i: int|
                0 <= i < all_directives(ps).len() && (#[trigger] all_directives(ps)[i].resource_name == resource || (
                r.has_exact_match && eq_ignore_ascii_case(all_directives(ps)[i].resource_name, resource)))
                    && all_directives(ps)[i].default_value == v && forall|j: int|
                    0 <= j < i ==> !(#[trigger] all_directives(ps)[j].resource_name == resource || (r.has_exact_match
                        && eq_ignore_ascii_case(all_directives(ps)[j].resource_name, resource))),
            None => forall|i: int|
                0 <= i < all_directives(ps).len() ==> !(#[trigger] all_directives(ps)[i].resource_name == resource || (
                r.has_exact_match && eq_ignore_ascii_case(all_directives(ps)[i].resource_name, resource))),
        },
{
    lemma_first_default_is_first_named(all_directives(ps), resource, r.has_exact_match);
}

/// A resource search's result is determined by what it searches: two
/// results that meet the contract for the same query, files, runtime
/// resources and user entries agree field by field.
pub proof fn lemma_resource_result_unique(
    r1: ResourceSearchResult,
    r2: ResourceSearchResult,
    resource: Seq<char>,
    ps: Seq<ConfigPartial>,
    rt: Seq<(Seq<char>, Seq<char>)>,
    xs: Seq<XresourceEntryView>,
)
    requires
        is_resource_search_result(r1, resource, ps, rt, xs),
        is_resource_search_result(r2, resource, ps, rt, xs),
    ensures
        r1.resource_name@ == r2.resource_name@,
        r1.has_exact_match == r2.has_exact_match,
        crate::text::string_views(r1.matched_resources@) == crate::text::string_views(r2.matched_resources@),
        opt_view(r1.runtime_value) == opt_view(r2.runtime_value),
        opt_view(r1.default_value) == opt_view(r2.default_value),
        usage_views(r1.usages@) == usage_views(r2.usages@),
        override_views(r1.overrides@) == override_views(r2.overrides@),
        crate::text::string_views(r1.similar_resources@) == crate::text::string_views(r2.similar_resources@),
{
    let cs = sorted_names(candidate_set(all_directives(ps), xs, rt));
    let sc = scored(cs, resource);
    let p1 = choose|picked: Seq<ScoredView>|
        is_top_ranked(picked, sc, MAX_SIMILAR_RESULTS as int) && #[trigger] scored_names(picked)
            == crate::text::string_views(r1.similar_resources@);
    let p2 = choose|picked: Seq<ScoredView>|
        is_top_ranked(picked, sc, MAX_SIMILAR_RESULTS as int) && #[trigger] scored_names(picked)
            == crate::text::string_views(r2.similar_resources@);
    lemma_scored_names_identify(cs, resource);
    lemma_top_ranked_unique(p1, p2, sc, MAX_SIMILAR_RESULTS as int);
}

/// Whether a resource name has an exact match does not depend on its case.
pub proof fn lemma_exact_match_ignores_case(cset: Set<Seq<char>>, r1: Seq<char>, r2: Seq<char>)
    requires
        lowercase(r1) == lowercase(r2),
    ensures
        exact_match(cset, lowercase(r1)) == exact_match(cset, lowercase(r2)),
{
}

fn any_eq_ignore_ascii_case(matched: &Vec<Vec<char>>, name: &Vec<char>) -> (r: bool)
    ensures
        r == exists|m: int| 0 <= m < matched@.len() && eq_ignore_ascii_case(#[trigger] views(matched@)[m], name@),
{
    let mut i: usize = 0;
    while i < matched.len()
        invariant
            0 <= i <= matched@.len(),
            forall|m: int| 0 <= m < i ==> !eq_ignore_ascii_case(#[trigger] views(matched@)[m], name@),
        decreases matched@.len() - i,
    {
        if eq_ignore_ascii_case_chars(matched[i].as_slice(), name.as_slice()) {
            assert(eq_ignore_ascii_case(views(matched@)[i as int], name@));
            return true;
        }
        i = i + 1;
    }
    false
}

fn matched_and_exact(cands: &Vec<Vec<char>>, ql: &Vec<char>) -> (r: (Vec<Vec<char>>, bool))
    ensures
        views(r.0@) == names_containing(views(cands@), ql@),
        r.1 == exact_match(views(cands@).to_set(), ql@),
{
    let ghost cs = views(cands@);
    let mut matched: Vec<Vec<char>> = Vec::new();
    let mut exact = false;
    let mut i: usize = 0;
    while i < cands.len()
        invariant
            0 <= i <= cands@.len(),
            cs == views(cands@),
            views(matched@) == names_containing(cs.take(i as int), ql@),
            exact == exists|k: int| 0 <= k < i && lowercase(#[trigger] cs[k]) == ql@,
        decreases cands@.len() - i,
    {
        let ghost next = cs.take(i + 1);
        assert(next.drop_last() =~= cs.take(i as int));
        assert(next.last() == cands@[i as int]@);
        let low = lower_chars(cands[i].as_slice());
        if eq_chars(low.as_slice(), ql.as_slice()) {
            exact = true;
        }
        let ghost prev = views(matched@);
        if contains_chars(low.as_slice(), ql.as_slice()) {
            matched.push(cands[i].clone());
            assert(views(matched@) =~= prev.push(cs[i as int]));
        } else {
            assert(views(matched@) =~= prev + Seq::<Seq<char>>::empty());
        }
        i = i + 1;
    }
    assert(cs.take(cs.len() as int) =~= cs);
    assert(exact == exact_match(cs.to_set(), ql@)) by {
        if exact {
            let k = choose|k: int| 0 <= k < cs.len() && lowercase(#[trigger] cs[k]) == ql@;
            assert(cs.to_set().contains(cs[k]));
        }
        if exact_match(cs.to_set(), ql@) {
            let c = choose|c: Seq<char>| cs.to_set().contains(c) && lowercase(c) == ql@;
            let k = choose|k: int| 0 <= k < cs.len() && cs[k] == c;
            assert(lowercase(cs[k]) == ql@);
        }
    }
    (matched, exact)
}

fn find_runtime_value(rt: &crate::string_map::StringMap, ql: &Vec<char>) -> (r: Option<String>)
    ensures
        opt_view(r) == first_runtime_value(rt.pairs(), ql@),
{
    let ghost pairs = rt.pairs();
    let nr = rt.len();
    let mut i: usize = 0;
    assert(pairs.skip(0) =~= pairs);
    while i < nr
        invariant
            0 <= i <= nr == pairs.len(),
            pairs == rt.pairs(),
            first_runtime_value(pairs, ql@) == first_runtime_value(pairs.skip(i as int), ql@),
        decreases nr - i,
    {
        let (name, value) = rt.entry(i);
        let ghost rest = pairs.skip(i as int);
        assert(rest[0] == pairs[i as int]);
        let low = lower_chars(chars_of(name.as_str()).as_slice());
        if eq_chars(low.as_slice(), ql.as_slice()) {
            return Some(value.clone());
        }
        assert(rest.drop_first() =~= pairs.skip(i + 1));
        i = i + 1;
    }
    assert(pairs.skip(nr as int) =~= Seq::<(Seq<char>, Seq<char>)>::empty());
    None
}

fn find_default(defs: &Vec<SetFromResourceDef>, rchars: &Vec<char>, exact: bool) -> (r: Option<String>)
    ensures
        opt_view(r) == first_default(directive_views(defs@), rchars@, exact),
{
    let ghost dv = directive_views(defs@);
    let mut i: usize = 0;
    assert(dv.skip(0) =~= dv);
    while i < defs.len()
        invariant
            0 <= i <= defs@.len(),
            dv == directive_views(defs@),
            first_default(dv, rchars@, exact) == first_default(dv.skip(i as int), rchars@, exact),
        decreases defs@.len() - i,
    {
        let ghost rest = dv.skip(i as int);
        assert(rest[0] == defs@[i as int]@);
        let d = &defs[i];
        if eq_chars(d.resource_name.as_slice(), rchars.as_slice()) || (exact && eq_ignore_ascii_case_chars(
            d.resource_name.as_slice(),
            rchars.as_slice(),
        )) {
            return Some(string_of(d.default_value.as_slice()));
        }
        assert(rest.drop_first() =~= dv.skip(i + 1));
        i = i + 1;
    }
    assert(dv.skip(defs@.len() as int) =~= Seq::<SetFromResourceView>::empty());
    None
}

/// Which directives are related, and the form of each variable name that
/// lines are searched for.
spec fn related_forms_ok(
    related: Seq<bool>,
    forms: Seq<Vec<char>>,
    dv: Seq<SetFromResourceView>,
    resource: Seq<char>,
    ql: Seq<char>,
    exact: bool,
    mv: Seq<Seq<char>>,
) -> bool {
    &&& related.len() == dv.len()
    &&& forms.len() == dv.len()
    &&& forall|k: int| 0 <= k < dv.len() ==> #[trigger] related[k] == directive_related(dv[k], resource, ql, exact, mv)
    &&& forall|k: int| 0 <= k < dv.len() ==> #[trigger] forms[k]@ == (if exact {
        dv[k].variable_name
    } else {
        lowercase(dv[k].variable_name)
    })
}

fn related_variables(
    defs: &Vec<SetFromResourceDef>,
    rchars: &Vec<char>,
    ql: &Vec<char>,
    exact: bool,
    matched: &Vec<Vec<char>>,
) -> (r: (Vec<bool>, Vec<Vec<char>>))
    ensures
        related_forms_ok(r.0@, r.1@, directive_views(defs@), rchars@, ql@, exact, views(matched@)),
{
    let ghost dv = directive_views(defs@);
    let ghost mv = views(matched@);
    let mut related: Vec<bool> = Vec::new();
    let mut var_forms: Vec<Vec<char>> = Vec::new();
    let mut i: usize = 0;
    while i < defs.len()
        invariant
            0 <= i <= defs@.len(),
            dv == directive_views(defs@),
            mv == views(matched@),
            related@.len() == i,
            var_forms@.len() == i,
            forall|k: int| 0 <= k < i ==> #[trigger] related@[k] == directive_related(dv[k], rchars@, ql@, exact, mv),
            forall|k: int| 0 <= k < i ==> #[trigger] var_forms@[k]@ == (if exact {
                dv[k].variable_name
            } else {
                lowercase(dv[k].variable_name)
            }),
        decreases defs@.len() - i,
    {
        let d = &defs[i];
        assert(dv[i as int] == d@);
        let rl = lower_chars(d.resource_name.as_slice());
        let rel = if exact {
            eq_chars(rl.as_slice(), ql.as_slice())
        } else {
            contains_chars(rl.as_slice(), ql.as_slice()) || any_eq_ignore_ascii_case(matched, &d.resource_name)
        };
        related.push(rel);
        let form = if exact {
            d.variable_name.clone()
        } else {
            lower_chars(d.variable_name.as_slice())
        };
        var_forms.push(form);
        i = i + 1;
    }
    (related, var_forms)
}

fn lower_all(v: &Vec<Vec<char>>) -> (r: Vec<Vec<char>>)
    ensures
        r@.len() == v@.len(),
        forall|k: int| 0 <= k < v@.len() ==> #[trigger] r@[k]@ == lowercase(v@[k]@),
{
    let mut out: Vec<Vec<char>> = Vec::new();
    let mut i: usize = 0;
    while i < v.len()
        invariant
            0 <= i <= v@.len(),
            out@.len() == i,
            forall|k: int| 0 <= k < i ==> #[trigger] out@[k]@ == lowercase(v@[k]@),
        decreases v@.len() - i,
    {
        out.push(lower_chars(v[i].as_slice()));
        i = i + 1;
    }
    out
}

fn line_uses(
    line: &Vec<char>,
    dv: Ghost<Seq<SetFromResourceView>>,
    rchars: &Vec<char>,
    ql: &Vec<char>,
    exact: bool,
    matched: &Vec<Vec<char>>,
    matched_lower: &Vec<Vec<char>>,
    related: &Vec<bool>,
    var_forms: &Vec<Vec<char>>,
) -> (r: bool)
    requires
        related_forms_ok(related@, var_forms@, dv@, rchars@, ql@, exact, views(matched@)),
        matched_lower@.len() == matched@.len(),
        forall|k: int| 0 <= k < matched@.len() ==> #[trigger] matched_lower@[k]@ == lowercase(matched@[k]@),
    ensures
        r == usage_matches(line@, dv@, rchars@, ql@, exact, views(matched@)),
{
    let ghost mv = views(matched@);
    let t = trim_chars(line.as_slice());
    let ll = lower_chars(t.as_slice());
    let mut var_hit = false;
    let mut k: usize = 0;
    while k < var_forms.len()
        invariant
            0 <= k <= var_forms@.len(),
            var_forms@.len() == related@.len(),
            var_hit == exists|q: int| 0 <= q < k && #[trigger] related@[q] && contains(ll@, var_forms@[q]@),
        decreases var_forms@.len() - k,
    {
        if related[k] && contains_chars(ll.as_slice(), var_forms[k].as_slice()) {
            var_hit = true;
        }
        k = k + 1;
    }
    let ghost dvs = dv@;
    if exact {
        let m = contains_chars(ll.as_slice(), ql.as_slice()) || var_hit;
        proof {
            if var_hit {
                let q = choose|q: int| 0 <= q < var_forms@.len() && #[trigger] related@[q] && contains(ll@, var_forms@[q]@);
                assert(directive_related(dvs[q], rchars@, ql@, exact, mv));
            }
            if exists|q: int| 0 <= q < dvs.len() && directive_related(#[trigger] dvs[q], rchars@, ql@, exact, mv) && contains(ll@, dvs[q].variable_name) {
                let q = choose|q: int| 0 <= q < dvs.len() && directive_related(#[trigger] dvs[q], rchars@, ql@, exact, mv) && contains(ll@, dvs[q].variable_name);
                assert(related@[q]);
            }
        }
        m
    } else {
        let mut name_hit = false;
        let mut k: usize = 0;
        while k < matched_lower.len()
            invariant
                0 <= k <= matched_lower@.len(),
                name_hit == exists|q: int| 0 <= q < k && contains(ll@, #[trigger] matched_lower@[q]@),
            decreases matched_lower@.len() - k,
        {
            if contains_chars(ll.as_slice(), matched_lower[k].as_slice()) {
                name_hit = true;
            }
            k = k + 1;
        }
        let m = name_hit || var_hit || contains_chars(ll.as_slice(), ql.as_slice());
        proof {
            if var_hit {
                let q = choose|q: int| 0 <= q < var_forms@.len() && #[trigger] related@[q] && contains(ll@, var_forms@[q]@);
                assert(directive_related(dvs[q], rchars@, ql@, exact, mv));
            }
            if exists|q: int| 0 <= q < dvs.len() && directive_related(#[trigger] dvs[q], rchars@, ql@, exact, mv) && contains(ll@, lowercase(dvs[q].variable_name)) {
                let q = choose|q: int| 0 <= q < dvs.len() && directive_related(#[trigger] dvs[q], rchars@, ql@, exact, mv) && contains(ll@, lowercase(dvs[q].variable_name));
                assert(related@[q]);
            }
            if exists|q: int| 0 <= q < mv.len() && contains(ll@, lowercase(#[trigger] mv[q])) {
                let q = choose|q: int| 0 <= q < mv.len() && contains(ll@, lowercase(#[trigger] mv[q]));
                assert(matched_lower@[q]@ == lowercase(mv[q]));
            }
            if exists|q: int| 0 <= q < matched_lower@.len() && contains(ll@, #[trigger] matched_lower@[q]@) {
                let q = choose|q: int| 0 <= q < matched_lower@.len() && contains(ll@, #[trigger] matched_lower@[q]@);
                assert(mv[q] == matched@[q]@);
            }
        }
        m
    }
}

fn collect_usages(
    config: &FullConfig,
    dv: Ghost<Seq<SetFromResourceView>>,
    rchars: &Vec<char>,
    ql: &Vec<char>,
    exact: bool,
    matched: &Vec<Vec<char>>,
    matched_lower: &Vec<Vec<char>>,
    related: &Vec<bool>,
    var_forms: &Vec<Vec<char>>,
) -> (r: Vec<ResourceUsageDef>)
    requires
        related_forms_ok(related@, var_forms@, dv@, rchars@, ql@, exact, views(matched@)),
        matched_lower@.len() == matched@.len(),
        forall|k: int| 0 <= k < matched@.len() ==> #[trigger] matched_lower@[k]@ == lowercase(matched@[k]@),
    ensures
        usage_views(r@) == all_usages(config.partials@, dv@, rchars@, ql@, exact, views(matched@)),
{
    let ghost ps = config.partials@;
    let ghost mv = views(matched@);
    let mut usages: Vec<ResourceUsageDef> = Vec::new();
    let mut p: usize = 0;
    while p < config.partials.len()
        invariant
            0 <= p <= ps.len(),
            ps == config.partials@,
            mv == views(matched@),
            related_forms_ok(related@, var_forms@, dv@, rchars@, ql@, exact, mv),
            matched_lower@.len() == matched@.len(),
            forall|k: int| 0 <= k < matched@.len() ==> #[trigger] matched_lower@[k]@ == lowercase(matched@[k]@),
            usage_views(usages@) == all_usages(ps.take(p as int), dv@, rchars@, ql@, exact, mv),
        decreases ps.len() - p,
    {
        let partial = &config.partials[p];
        let text = chars_of(partial.config.as_str());
        let ls = lines_of(text.as_slice());
        let ghost all = lines(partial.config@);
        let ghost base = usage_views(usages@);
        let mut i: usize = 0;
        while i < ls.len()
            invariant
                0 <= i <= ls@.len(),
                views(ls@) == all,
                mv == views(matched@),
                related_forms_ok(related@, var_forms@, dv@, rchars@, ql@, exact, mv),
                matched_lower@.len() == matched@.len(),
                forall|k: int| 0 <= k < matched@.len() ==> #[trigger] matched_lower@[k]@ == lowercase(matched@[k]@),
                usage_views(usages@) == base + file_usages(all.take(i as int), partial.file_name@, dv@, rchars@, ql@, exact, mv),
            decreases ls@.len() - i,
        {
            let ghost next = all.take(i + 1);
            assert(next.drop_last() =~= all.take(i as int));
            assert(next.last() == ls@[i as int]@);
            let m = line_uses(&ls[i], dv, rchars, ql, exact, matched, matched_lower, related, var_forms);
            let ghost prev = usage_views(usages@);
            if m {
                let u = ResourceUsageDef {
                    file_path: partial.file_name.clone(),
                    line_number: i + 1,
                    line_contents: string_of(ls[i].as_slice()),
                };
                let ghost uv = u@;
                usages.push(u);
                assert(usage_views(usages@) =~= prev.push(uv));
            }
            assert(usage_views(usages@) =~= base + file_usages(next, partial.file_name@, dv@, rchars@, ql@, exact, mv));
            i = i + 1;
        }
        assert(all.take(ls@.len() as int) =~= all);
        assert(ps.take(p + 1).drop_last() =~= ps.take(p as int));
        assert(ps[p as int] == *partial);
        p = p + 1;
    }
    assert(ps.take(ps.len() as int) =~= ps);
    usages
}

fn collect_overrides(
    xentries: &[crate::config::xresources::XresourceEntry],
    rchars: &Vec<char>,
    ql: &Vec<char>,
    exact: bool,
    matched: &Vec<Vec<char>>,
) -> (r: Vec<ResourceOverrideDef>)
    ensures
        override_views(r@) == overrides_of(entry_views(xentries@), rchars@, ql@, exact, views(matched@)),
{
    let ghost xs = entry_views(xentries@);
    let ghost mv = views(matched@);
    let mut overrides: Vec<ResourceOverrideDef> = Vec::new();
    let mut i: usize = 0;
    while i < xentries.len()
        invariant
            0 <= i <= xentries@.len(),
            xs == entry_views(xentries@),
            mv == views(matched@),
            override_views(overrides@) == overrides_of(xs.take(i as int), rchars@, ql@, exact, mv),
        decreases xentries@.len() - i,
    {
        let e = &xentries[i];
        let ghost next = xs.take(i + 1);
        assert(next.drop_last() =~= xs.take(i as int));
        assert(next.last() == e@);
        let key = chars_of(e.key.as_str());
        let om = if exact {
            eq_ignore_ascii_case_chars(key.as_slice(), rchars.as_slice())
        } else {
            let kl = lower_chars(key.as_slice());
            contains_chars(kl.as_slice(), ql.as_slice()) || any_eq_ignore_ascii_case(matched, &key)
        };
        let ghost prev = override_views(overrides@);
        if om {
            let o = ResourceOverrideDef { file_path: e.file_path.clone(), line_number: e.line_number, value: e.value.clone() };
            let ghost ov = o@;
            overrides.push(o);
            assert(override_views(overrides@) =~= prev.push(ov));
        }
        assert(override_views(overrides@) =~= overrides_of(next, rchars@, ql@, exact, mv));
        i = i + 1;
    }
    assert(xs.take(xs.len() as int) =~= xs);
    overrides
}

fn strings_of(v: &Vec<Vec<char>>) -> (r: Vec<String>)
    ensures
        crate::text::string_views(r@) == views(v@),
{
    let mut out: Vec<String> = Vec::new();
    let mut i: usize = 0;
    while i < v.len()
        invariant
            0 <= i <= v@.len(),
            crate::text::string_views(out@) == views(v@).take(i as int),
        decreases v@.len() - i,
    {
        let ghost prev = crate::text::string_views(out@);
        let s = string_of(v[i].as_slice());
        let ghost sv = s@;
        out.push(s);
        assert(crate::text::string_views(out@) =~= prev.push(sv));
        assert(views(v@).take(i + 1) =~= views(v@).take(i as int).push(v@[i as int]@));
        i = i + 1;
    }
    assert(views(v@).take(v@.len() as int) =~= views(v@));
    out
}

/// Searches for information about an X resource.
///
/// Gathers the resource's runtime value (from `runtime_resources`), its
/// default value (from `set_from_resource` directives), the configuration
/// lines that use it, the user's overrides (from `user_xresources`, the
/// user's resource file when it could be read), the resource names that
/// contain the query, and the names most similar to it. Names are
/// compared in lower case.
pub fn search_resource_result(
    resource: &str,
    config: &FullConfig,
    runtime_resources: &crate::string_map::StringMap,
    user_xresources: Option<&XresourceConfig>,
) -> (r: ResourceSearchResult)
    ensures
        is_resource_search_result(r, resource@, config.partials@, runtime_resources.pairs(), user_entries(user_xresources)),
{
    let ql = lower_chars(chars_of(resource).as_slice());
    let rchars = chars_of(resource);
    let ghost xs = user_entries(user_xresources);
    let defs = collect_directives(config);
    let ghost dv = directive_views(defs@);
    let empty: Vec<crate::config::xresources::XresourceEntry> = Vec::new();
    let xentries: &[crate::config::xresources::XresourceEntry] = match user_xresources {
        Some(c) => c.get_all_entries(),
        None => empty.as_slice(),
    };
    assert(entry_views(xentries@) == xs) by {
        if user_xresources.is_none() {
            assert(entry_views(xentries@) =~= Seq::<XresourceEntryView>::empty());
        }
    }
    let cands = build_candidates(&defs, xentries, runtime_resources);
    proof {
        lemma_sorted_names(views(cands@));
    }
    let (matched, exact) = matched_and_exact(&cands, &ql);
    let runtime_value = find_runtime_value(runtime_resources, &ql);
    let default_value = find_default(&defs, &rchars, exact);
    let (related, var_forms) = related_variables(&defs, &rchars, &ql, exact, &matched);
    let matched_lower = lower_all(&matched);
    let usages = collect_usages(config, Ghost(dv), &rchars, &ql, exact, &matched, &matched_lower, &related, &var_forms);
    let overrides = collect_overrides(xentries, &rchars, &ql, exact, &matched);
    let similar_resources = collect_similar_resources(resource, &cands);
    let matched_resources = strings_of(&matched);
    ResourceSearchResult {
        resource_name: resource.to_owned(),
        has_exact_match: exact,
        runtime_value,
        default_value,
        usages,
        overrides,
        matched_resources,
        similar_resources,
    }
}

// ---------------------------------------------------------------------
// Display
// ---------------------------------------------------------------------

/// Items listed one per line, each as `  - item`.
pub open spec fn list_text(items: Seq<Seq<char>>) -> Seq<char>
    decreases items.len(),
{
    if items.len() == 0 {
        seq![]
    } else {
        list_text(items.drop_last()) + "  - "@ + items.last() + "\n"@
    }
}

/// Usages listed as `file - Line n` followed by the indented line.
pub open spec fn usages_text(us: Seq<UsageView>) -> Seq<char>
    decreases us.len(),
{
    if us.len() == 0 {
        seq![]
    } else {
        let u = us.last();
        usages_text(us.drop_last()) + u.file_path + " - Line "@ + decimal(u.line_number as nat) + "\n"@ + "    "@
            + u.line_contents + "\n"@
    }
}

/// The default value as displayed: marked as in use when there is no
/// runtime value.
pub open spec fn default_text(r: ResourceSearchResult) -> Seq<char> {
    match r.default_value {
        Some(v) => if r.runtime_value is None {
            v@ + " (In use)"@
        } else {
            v@
        },
        None => "Not found"@,
    }
}

/// The query and the matched names.
pub open spec fn head_text(r: ResourceSearchResult) -> Seq<char> {
    let matched = crate::text::string_views(r.matched_resources@);
    "Resource Query: "@ + r.resource_name@ + "\n"@ + (if matched.len() > 0 {
        "\n"@ + "Matched Resources:\n"@ + list_text(matched)
    } else {
        seq![]
    })
}

/// The runtime, default and override values.
pub open spec fn values_text(r: ResourceSearchResult) -> Seq<char> {
    "\n"@ + "Runtime Value: "@ + runtime_text(r) + "\n"@ + "Default Value: "@ + default_text(r) + "\n"@
        + "Custom Override: "@ + override_text(r) + "\n"@
}

/// The configuration lines that use the resource.
pub open spec fn usages_block(r: ResourceSearchResult) -> Seq<char> {
    "\n"@ + "Related Configuration Lines:\n"@ + usages_text(usage_views(r.usages@))
}

/// The override command (for an exact match) and the similar names.
pub open spec fn tail_text(r: ResourceSearchResult) -> Seq<char> {
    let similar = crate::text::string_views(r.similar_resources@);
    (if r.has_exact_match {
        "\n"@ + "To override this resource, run the following command:\n"@ + "regolith-configure set-resource "@
            + r.resource_name@ + " \"<custom_value>\"\n"@
    } else {
        seq![]
    }) + (if similar.len() > 0 {
        "\n"@ + "Similar Resources:\n"@ + list_text(similar)
    } else {
        seq![]
    })
}

/// How a resource search result reads.
pub open spec fn resource_result_text(r: ResourceSearchResult) -> Seq<char> {
    head_text(r) + values_text(r) + usages_block(r) + tail_text(r)
}

fn append_list(s: &mut String, items: &Vec<String>)
    ensures
        final(s)@ == old(s)@ + list_text(crate::text::string_views(items@)),
{
    let ghost base = s@;
    let ghost all = crate::text::string_views(items@);
    let mut i: usize = 0;
    while i < items.len()
        invariant
            0 <= i <= items@.len(),
            all == crate::text::string_views(items@),
            s@ == base + list_text(all.take(i as int)),
        decreases items@.len() - i,
    {
        let ghost next = all.take(i + 1);
        assert(next.drop_last() =~= all.take(i as int));
        assert(next.last() == items@[i as int]@);
        s.append("  - ");
        s.append(items[i].as_str());
        s.append("\n");
        assert(s@ =~= base + list_text(next));
        i = i + 1;
    }
    assert(all.take(items@.len() as int) =~= all);
}

fn append_head(s: &mut String, r: &ResourceSearchResult)
    ensures
        final(s)@ == old(s)@ + head_text(*r),
{
    let ghost base = s@;
    s.append("Resource Query: ");
    s.append(r.resource_name.as_str());
    s.append("\n");
    let ghost p1 = s@;
    if r.matched_resources.len() > 0 {
        s.append("\n");
        s.append("Matched Resources:\n");
        append_list(s, &r.matched_resources);
    }
    proof {
        let matched = crate::text::string_views(r.matched_resources@);
        assert(matched.len() == r.matched_resources@.len());
        assert(s@ =~= base + head_text(*r));
    }
}

/// The runtime value as displayed.
pub open spec fn runtime_text(r: ResourceSearchResult) -> Seq<char> {
    match opt_view(r.runtime_value) {
        Some(v) => v,
        None => "Not found"@,
    }
}

/// The first override as displayed.
pub open spec fn override_text(r: ResourceSearchResult) -> Seq<char> {
    if r.overrides@.len() > 0 {
        r.overrides@[0].value@
    } else {
        "Not found"@
    }
}

fn append_runtime(s: &mut String, r: &ResourceSearchResult)
    ensures
        final(s)@ == old(s)@ + runtime_text(*r),
{
    match &r.runtime_value {
        Some(v) => s.append(v.as_str()),
        None => s.append("Not found"),
    }
}

fn append_default(s: &mut String, r: &ResourceSearchResult)
    ensures
        final(s)@ == old(s)@ + default_text(*r),
{
    let ghost base = s@;
    match &r.default_value {
        Some(v) => {
            s.append(v.as_str());
            if r.runtime_value.is_none() {
                s.append(" (In use)");
            }
        },
        None => s.append("Not found"),
    }
    assert(s@ =~= base + default_text(*r));
}

fn append_override(s: &mut String, r: &ResourceSearchResult)
    ensures
        final(s)@ == old(s)@ + override_text(*r),
{
    if r.overrides.len() > 0 {
        s.append(r.overrides[0].value.as_str());
    } else {
        s.append("Not found");
    }
}

fn append_values(s: &mut String, r: &ResourceSearchResult)
    ensures
        final(s)@ == old(s)@ + values_text(*r),
{
    let ghost base = s@;
    s.append("\n");
    s.append("Runtime Value: ");
    append_runtime(s, r);
    s.append("\n");
    s.append("Default Value: ");
    append_default(s, r);
    s.append("\n");
    s.append("Custom Override: ");
    append_override(s, r);
    s.append("\n");
    assert(s@ =~= base + values_text(*r));
}

fn append_usages(s: &mut String, r: &ResourceSearchResult)
    ensures
        final(s)@ == old(s)@ + usages_block(*r),
{
    let ghost base = s@;
    s.append("\n");
    s.append("Related Configuration Lines:\n");
    let ghost p3 = s@;
    let ghost us = usage_views(r.usages@);
    let mut i: usize = 0;
    while i < r.usages.len()
        invariant
            0 <= i <= r.usages@.len(),
            us == usage_views(r.usages@),
            s@ == p3 + usages_text(us.take(i as int)),
        decreases r.usages@.len() - i,
    {
        let ghost next = us.take(i + 1);
        assert(next.drop_last() =~= us.take(i as int));
        assert(next.last() == r.usages@[i as int]@);
        let u = &r.usages[i];
        s.append(u.file_path.as_str());
        s.append(" - Line ");
        let n = string_of(decimal_chars(u.line_number).as_slice());
        s.append(n.as_str());
        s.append("\n");
        s.append("    ");
        s.append(u.line_contents.as_str());
        s.append("\n");
        assert(s@ =~= p3 + usages_text(next));
        i = i + 1;
    }
    assert(us.take(us.len() as int) =~= us);
    assert(s@ =~= base + usages_block(*r));
}

fn append_tail(s: &mut String, r: &ResourceSearchResult)
    ensures
        final(s)@ == old(s)@ + tail_text(*r),
{
    let ghost base = s@;
    if r.has_exact_match {
        s.append("\n");
        s.append("To override this resource, run the following command:\n");
        s.append("regolith-configure set-resource ");
        s.append(r.resource_name.as_str());
        s.append(" \"<custom_value>\"\n");
    }
    let ghost p5 = s@;
    if r.similar_resources.len() > 0 {
        s.append("\n");
        s.append("Similar Resources:\n");
        append_list(s, &r.similar_resources);
    }
    proof {
        let similar = crate::text::string_views(r.similar_resources@);
        assert(similar.len() == r.similar_resources@.len());
        assert(s@ =~= base + tail_text(*r));
    }
}

impl ResourceSearchResult {
    /// The text that displays this result.
    pub fn to_display_string(&self) -> (r: String)
        ensures
            r@ == resource_result_text(*self),
    {
        let mut s = String::new();
        append_head(&mut s, self);
        append_values(&mut s, self);
        append_usages(&mut s, self);
        append_tail(&mut s, self);
        assert(s@ =~= resource_result_text(*self));
        s
    }
}

} // verus!
