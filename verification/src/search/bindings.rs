//! Key binding normalization and search.

use vstd::prelude::*;
use crate::config::full::{all_bindings, all_bindings_terminate, all_variables, FullConfig};
use crate::config::partial::ConfigPartial;
use crate::string_map::to_map;
use crate::string_map::StringMap;
use crate::text::{
    chars_of, contains, contains_chars, copy_range, decimal, decimal_chars, eq_chars, join,
    join_chars, lacks, lemma_split_each_plain, lemma_split_join, lemma_split_lacks, lemma_split_single,
    lemma_trim_idempotent, lemma_trim_lacks, lower_chars, lowercase, split, split_chars, split_each,
    string_of, trim, trim_chars, views,
};

verus! {

/// One `+`-separated key after trimming: `$name` becomes the value of
/// variable `name` when that variable is defined.
pub open spec fn substitute_key(key: Seq<char>, vars: Map<Seq<char>, Seq<char>>) -> Seq<char> {
    if key.len() >= 2 && key[0] == '$' && vars.dom().contains(key.drop_first()) {
        vars[key.drop_first()]
    } else {
        key
    }
}

/// One round of variable substitution: every `+`-separated key is trimmed
/// and substituted, and the keys are joined with `+` again.
pub open spec fn substitute_round(s: Seq<char>, vars: Map<Seq<char>, Seq<char>>) -> Seq<char> {
    join(split(s, '+').map_values(|k: Seq<char>| substitute_key(trim(k), vars)), '+')
}

/// `s` holds a `$`.
pub open spec fn has_dollar(s: Seq<char>) -> bool {
    contains(s, seq!['$'])
}

/// Substitution rounds from `s`, at most `fuel` of them past the first:
/// they stop once no `$` is left or a round changes nothing. `None` when
/// the fuel runs out first.
pub open spec fn normalize_with_fuel(
    s: Seq<char>,
    vars: Map<Seq<char>, Seq<char>>,
    fuel: nat,
) -> Option<Seq<char>>
    decreases fuel,
{
    if !has_dollar(s) {
        Some(s)
    } else {
        let t = substitute_round(s, vars);
        if t == s {
            Some(s)
        } else if fuel == 0 {
            None
        } else {
            normalize_with_fuel(t, vars, (fuel - 1) as nat)
        }
    }
}

/// Substitution rounds on the trimmed binding come to a stop: variables
/// that refer to each other in a cycle, or grow without end, never do.
pub open spec fn normalization_terminates(binding: Seq<char>, vars: Map<Seq<char>, Seq<char>>) -> bool {
    exists|fuel: nat| #[trigger] normalize_with_fuel(trim(binding), vars, fuel) is Some
}

/// The binding with its variables resolved: where the rounds stop.
pub open spec fn normalized(binding: Seq<char>, vars: Map<Seq<char>, Seq<char>>) -> Seq<char> {
    normalize_with_fuel(
        trim(binding),
        vars,
        choose|fuel: nat| #[trigger] normalize_with_fuel(trim(binding), vars, fuel) is Some,
    ).unwrap()
}

/// More fuel gives the same result.
pub proof fn lemma_fuel_monotone(s: Seq<char>, vars: Map<Seq<char>, Seq<char>>, f1: nat, f2: nat)
    requires
        normalize_with_fuel(s, vars, f1) is Some,
        f1 <= f2,
    ensures
        normalize_with_fuel(s, vars, f2) == normalize_with_fuel(s, vars, f1),
    decreases f1,
{
    if has_dollar(s) && substitute_round(s, vars) != s && f1 > 0 {
        lemma_fuel_monotone(substitute_round(s, vars), vars, (f1 - 1) as nat, (f2 - 1) as nat);
    }
}

/// Rounds that stop within a bound stop at the normalized binding: what
/// `normalize_binding_within` finds is what `normalize_binding` gives.
pub proof fn lemma_within_gives_normalized(binding: Seq<char>, vars: Map<Seq<char>, Seq<char>>, rounds: nat)
    requires
        normalize_with_fuel(trim(binding), vars, rounds) is Some,
    ensures
        normalization_terminates(binding, vars),
        normalize_with_fuel(trim(binding), vars, rounds) == Some(normalized(binding, vars)),
{
    let s = trim(binding);
    assert(normalize_with_fuel(s, vars, rounds) is Some);
    let f = choose|fuel: nat| #[trigger] normalize_with_fuel(s, vars, fuel) is Some;
    if f <= rounds {
        lemma_fuel_monotone(s, vars, f, rounds);
    } else {
        lemma_fuel_monotone(s, vars, rounds, f);
    }
}

/// A result of the rounds is a fixed point: it holds no `$`, or one more
/// round leaves it unchanged.
pub proof fn lemma_fuel_result_stable(s: Seq<char>, vars: Map<Seq<char>, Seq<char>>, f: nat)
    requires
        normalize_with_fuel(s, vars, f) is Some,
    ensures
        ({
            let r = normalize_with_fuel(s, vars, f).unwrap();
            !has_dollar(r) || substitute_round(r, vars) == r
        }),
    decreases f,
{
    if has_dollar(s) && substitute_round(s, vars) != s {
        lemma_fuel_result_stable(substitute_round(s, vars), vars, (f - 1) as nat);
    }
}

fn substitute_key_exec(key: &Vec<char>, variables: &StringMap) -> (r: Vec<char>)
    ensures
        r@ == substitute_key(key@, variables@),
{
    if key.len() >= 2 && key[0] == '$' {
        let name_chars = copy_range(key.as_slice(), 1, key.len());
        assert(name_chars@ =~= key@.drop_first());
        let name = string_of(name_chars.as_slice());
        match variables.get(name.as_str()) {
            Some(v) => chars_of(v.as_str()),
            None => key.clone(),
        }
    } else {
        key.clone()
    }
}

fn substitute_round_exec(s: &Vec<char>, variables: &StringMap) -> (r: Vec<char>)
    ensures
        r@ == substitute_round(s@, variables@),
{
    let pieces = split_chars(s.as_slice(), '+');
    let ghost sp = split(s@, '+');
    let mut keys: Vec<Vec<char>> = Vec::new();
    let mut i: usize = 0;
    while i < pieces.len()
        invariant
            0 <= i <= pieces@.len(),
            views(pieces@) == sp,
            views(keys@) == sp.take(i as int).map_values(|k: Seq<char>| substitute_key(trim(k), variables@)),
        decreases pieces@.len() - i,
    {
        let t = trim_chars(pieces[i].as_slice());
        let k = substitute_key_exec(&t, variables);
        let ghost prev = views(keys@);
        let ghost kv = k@;
        keys.push(k);
        proof {
            let f = |k: Seq<char>| substitute_key(trim(k), variables@);
            assert(sp[i as int] == pieces@[i as int]@);
            assert(kv == f(sp[i as int]));
            assert(views(keys@) =~= prev.push(kv));
            assert(sp.take(i + 1).map_values(f) =~= sp.take(i as int).map_values(f).push(f(sp[i as int])));
        }
        i = i + 1;
    }
    assert(sp.take(pieces@.len() as int) =~= sp);
    join_chars(&keys, '+')
}

/// Runs at most `rounds` substitution rounds past the first on the trimmed
/// binding: the normalized binding when they come to a stop, `None`
/// otherwise.
pub fn normalize_binding_within(binding: &str, variables: &StringMap, rounds: usize) -> (r: Option<String>)
    ensures
        match r {
            Some(s) => normalize_with_fuel(trim(binding@), variables@, rounds as nat) == Some(s@),
            None => normalize_with_fuel(trim(binding@), variables@, rounds as nat) is None,
        },
{
    let ghost vars = variables@;
    let ghost target = normalize_with_fuel(trim(binding@), vars, rounds as nat);
    let chars = chars_of(binding);
    let mut cur = trim_chars(chars.as_slice());
    let dollar = vec!['$'];
    assert(dollar@ =~= seq!['$']);
    let mut left = rounds;
    loop
        invariant
            normalize_with_fuel(cur@, vars, left as nat) == target,
            target == normalize_with_fuel(trim(binding@), variables@, rounds as nat),
            dollar@ == seq!['$'],
            vars == variables@,
        decreases left,
    {
        if !contains_chars(cur.as_slice(), dollar.as_slice()) {
            return Some(string_of(cur.as_slice()));
        }
        let next = substitute_round_exec(&cur, variables);
        if eq_chars(next.as_slice(), cur.as_slice()) {
            return Some(string_of(cur.as_slice()));
        }
        if left == 0 {
            return None;
        }
        cur = next;
        left = left - 1;
    }
}

/// Resolves `$variable` references in a key binding.
///
/// The binding is trimmed; then, while it holds a `$`, each `+`-separated
/// key is trimmed and a `$name` key with a defined variable `name` is
/// replaced by its value, until no `$` is left or a round changes nothing.
/// Values may themselves refer to variables. The rounds must come to a
/// stop for this binding and these variables.
pub fn normalize_binding(binding: &str, variables: &StringMap) -> (r: String)
    requires
        normalization_terminates(binding@, variables@),
    ensures
        r@ == normalized(binding@, variables@),
        !has_dollar(r@) || substitute_round(r@, variables@) == r@,
{
    let ghost vars = variables@;
    let ghost start = trim(binding@);
    let ghost fuel = choose|fuel: nat| #[trigger] normalize_with_fuel(start, vars, fuel) is Some;
    let ghost result = normalize_with_fuel(start, vars, fuel);
    let chars = chars_of(binding);
    let mut cur = trim_chars(chars.as_slice());
    let dollar = vec!['$'];
    assert(dollar@ =~= seq!['$']);
    let ghost mut steps: nat = 0;
    loop
        invariant
            steps <= fuel,
            result is Some,
            normalize_with_fuel(cur@, vars, (fuel - steps) as nat) == result,
            dollar@ == seq!['$'],
            vars == variables@,
        ensures
            result == Some(cur@),
        decreases fuel - steps,
    {
        if !contains_chars(cur.as_slice(), dollar.as_slice()) {
            break;
        }
        let next = substitute_round_exec(&cur, variables);
        if eq_chars(next.as_slice(), cur.as_slice()) {
            break;
        }
        cur = next;
        proof {
            steps = steps + 1;
        }
    }
    proof {
        lemma_fuel_result_stable(start, vars, fuel);
    }
    string_of(cur.as_slice())
}

/// What a binding definition holds, as values.
pub struct BindingDefView {
    pub orig_binding: Seq<char>,
    pub normalized_binding: Seq<char>,
    pub src_config: ConfigPartial,
    pub line_no: int,
    pub line_contents: Seq<char>,
}

/// A key binding declared in a configuration file.
#[derive(Debug)]
pub struct BindingDef<'a> {
    /// The binding as written.
    pub orig_binding: String,
    /// The binding with its variables resolved.
    pub normalized_binding: String,
    /// The file that declares it.
    pub src_config: &'a ConfigPartial,
    /// Line number (1-indexed) of the declaration.
    pub line_no: usize,
    /// The full line contents.
    pub line_contents: String,
}

impl<'a> View for BindingDef<'a> {
    type V = BindingDefView;

    open spec fn view(&self) -> BindingDefView {
        BindingDefView {
            orig_binding: self.orig_binding@,
            normalized_binding: self.normalized_binding@,
            src_config: *self.src_config,
            line_no: self.line_no as int,
            line_contents: self.line_contents@,
        }
    }
}

/// The views of binding definitions.
pub open spec fn def_views<'a>(v: Seq<BindingDef<'a>>) -> Seq<BindingDefView> {
    v.map_values(|d: BindingDef<'a>| d@)
}

/// The bindings found by a search.
#[derive(Debug)]
pub struct BindingsSearchResult<'a>(pub Vec<BindingDef<'a>>);

impl<'a> From<Vec<BindingDef<'a>>> for BindingsSearchResult<'a> {
    fn from(value: Vec<BindingDef<'a>>) -> (r: Self) {
        BindingsSearchResult(value)
    }
}

impl<'a> vstd::std_specs::convert::FromSpecImpl<Vec<BindingDef<'a>>> for BindingsSearchResult<'a> {
    open spec fn obeys_from_spec() -> bool {
        true
    }

    open spec fn from_spec(v: Vec<BindingDef<'a>>) -> Self {
        BindingsSearchResult(v)
    }
}

/// The keys of `a` and `b` agree as far as both go.
pub open spec fn keys_agree(a: Seq<Seq<char>>, b: Seq<Seq<char>>) -> bool {
    forall|i: int| 0 <= i < a.len() && 0 <= i < b.len() ==> #[trigger] a[i] == b[i]
}

/// A binding matches a query when, compared without case, its resolved
/// keys agree with the query's keys as far as both go, or its binding as
/// written contains the query.
pub open spec fn binding_matches(d: BindingDefView, query: Seq<char>) -> bool {
    keys_agree(split(lowercase(d.normalized_binding), '+'), split(lowercase(query), '+'))
        || contains(lowercase(d.orig_binding), lowercase(query))
}

/// The definitions that match the query, in order.
pub open spec fn matching_bindings(ds: Seq<BindingDefView>, query: Seq<char>) -> Seq<BindingDefView>
    decreases ds.len(),
{
    if ds.len() == 0 {
        seq![]
    } else {
        matching_bindings(ds.drop_last(), query) + if binding_matches(ds.last(), query) {
            seq![ds.last()]
        } else {
            seq![]
        }
    }
}

/// A binding that a search for `query` accepts: its written binding
/// contains the query, or its resolved `+`-separated keys equal the
/// query's at every position that both have (the query's last key
/// included), all compared in lower case.
proof fn lemma_matching_bindings_member(ds: Seq<BindingDefView>, query: Seq<char>, k: int)
    requires
        0 <= k < matching_bindings(ds, query).len(),
    ensures
        ds.contains(matching_bindings(ds, query)[k]),
        binding_matches(matching_bindings(ds, query)[k], query),
    decreases ds.len(),
{
    let pre = matching_bindings(ds.drop_last(), query);
    if k < pre.len() {
        lemma_matching_bindings_member(ds.drop_last(), query, k);
        let i = choose|i: int| 0 <= i < ds.drop_last().len() && ds.drop_last()[i] == pre[k];
        assert(ds[i] == pre[k]);
        assert(matching_bindings(ds, query)[k] == pre[k]);
    } else {
        assert(matching_bindings(ds, query)[k] == ds.last());
        assert(ds[ds.len() - 1] == ds.last());
    }
}

proof fn lemma_matching_bindings_has(ds: Seq<BindingDefView>, query: Seq<char>, i: int)
    requires
        0 <= i < ds.len(),
        binding_matches(ds[i], query),
    ensures
        matching_bindings(ds, query).contains(ds[i]),
    decreases ds.len(),
{
    let pre = matching_bindings(ds.drop_last(), query);
    let all = matching_bindings(ds, query);
    if i < ds.len() - 1 {
        assert(ds.drop_last()[i] == ds[i]);
        lemma_matching_bindings_has(ds.drop_last(), query, i);
        let k = choose|k: int| 0 <= k < pre.len() && pre[k] == ds[i];
        assert(all[k] == ds[i]);
    } else {
        assert(all[pre.len() as int] == ds[i]);
    }
}

/// Every binding that a search returns is one of the definitions, and
/// either its written binding contains the query or its resolved keys
/// equal the query's keys at every position that both have, the query's
/// last key included, all in lower case: a binding resolving to
/// `Super+d` is never returned for `Super+Enter`.
pub proof fn lemma_binding_search_returns_matches(ds: Seq<BindingDefView>, query: Seq<char>, k: int)
    requires
        0 <= k < matching_bindings(ds, query).len(),
    ensures
        ds.contains(matching_bindings(ds, query)[k]),
        ({
            let d = matching_bindings(ds, query)[k];
            let dk = split(lowercase(d.normalized_binding), '+');
            let qk = split(lowercase(query), '+');
            contains(lowercase(d.orig_binding), lowercase(query)) || forall|p: int|
                0 <= p < dk.len() && 0 <= p < qk.len() ==> #[trigger] dk[p] == qk[p]
        }),
{
    lemma_matching_bindings_member(ds, query, k);
}

/// Every definition whose written binding contains the query, or whose
/// resolved keys equal the query's keys at every position that both have
/// (all in lower case), is returned by the search.
pub proof fn lemma_binding_search_finds_matches(ds: Seq<BindingDefView>, query: Seq<char>, i: int)
    requires
        0 <= i < ds.len(),
        ({
            let dk = split(lowercase(ds[i].normalized_binding), '+');
            let qk = split(lowercase(query), '+');
            contains(lowercase(ds[i].orig_binding), lowercase(query)) || forall|p: int|
                0 <= p < dk.len() && 0 <= p < qk.len() ==> #[trigger] dk[p] == qk[p]
        }),
    ensures
        matching_bindings(ds, query).contains(ds[i]),
{
    lemma_matching_bindings_has(ds, query, i);
}

/// The variables of a configuration given the runtime resources.
pub open spec fn config_variables_map(config: FullConfig, resources: Map<Seq<char>, Seq<char>>) -> Map<Seq<char>, Seq<char>> {
    to_map(all_variables(config.partials@, resources))
}

fn keys_agree_exec(a: &Vec<Vec<char>>, b: &Vec<Vec<char>>) -> (r: bool)
    ensures
        r == keys_agree(views(a@), views(b@)),
{
    let mut i: usize = 0;
    while i < a.len() && i < b.len()
        invariant
            0 <= i <= a@.len(),
            i <= b@.len(),
            forall|k: int| 0 <= k < i ==> #[trigger] views(a@)[k] == views(b@)[k],
        decreases a@.len() - i,
    {
        if !eq_chars(a[i].as_slice(), b[i].as_slice()) {
            assert(views(a@)[i as int] != views(b@)[i as int]);
            return false;
        }
        i = i + 1;
    }
    true
}

/// Searches the configuration's key bindings for a binding pattern.
///
/// Variables are resolved from the configuration's `set` and
/// `set_from_resource` lines, with `trawl_resources` supplying runtime
/// resource values. A binding matches when, ignoring case, its resolved
/// `+`-separated keys agree with the pattern's keys as far as both go, or
/// when its binding as written contains the pattern.
pub fn search_binding_result<'a>(
    binding: &str,
    config: &'a FullConfig,
    trawl_resources: &StringMap,
) -> (r: BindingsSearchResult<'a>)
    requires
        all_bindings_terminate(config.partials@, config_variables_map(*config, trawl_resources@)),
    ensures
        def_views(r.0@) == matching_bindings(
            all_bindings(config.partials@, config_variables_map(*config, trawl_resources@)),
            binding@,
        ),
{
    let variables = config.get_all_variables(trawl_resources);
    let all = config.get_all_bindings(&variables);
    let ghost ds = def_views(all.0@);
    let query = lower_chars(chars_of(binding).as_slice());
    let query_keys = split_chars(query.as_slice(), '+');
    let mut out: Vec<BindingDef<'a>> = Vec::new();
    let mut i: usize = 0;
    while i < all.0.len()
        invariant
            0 <= i <= all.0@.len(),
            ds == def_views(all.0@),
            query@ == lowercase(binding@),
            views(query_keys@) == split(lowercase(binding@), '+'),
            def_views(out@) == matching_bindings(ds.take(i as int), binding@),
        decreases all.0@.len() - i,
    {
        let d = &all.0[i];
        let norm = lower_chars(chars_of(d.normalized_binding.as_str()).as_slice());
        let norm_keys = split_chars(norm.as_slice(), '+');
        let orig = lower_chars(chars_of(d.orig_binding.as_str()).as_slice());
        let m = keys_agree_exec(&norm_keys, &query_keys) || contains_chars(orig.as_slice(), query.as_slice());
        let ghost next = ds.take(i + 1);
        assert(next.drop_last() =~= ds.take(i as int));
        assert(next.last() == d@);
        let ghost prev = def_views(out@);
        if m {
            let copy = BindingDef {
                orig_binding: d.orig_binding.clone(),
                normalized_binding: d.normalized_binding.clone(),
                src_config: d.src_config,
                line_no: d.line_no,
                line_contents: d.line_contents.clone(),
            };
            assert(copy@ == d@);
            out.push(copy);
            assert(def_views(out@) =~= prev.push(d@));
        } else {
            assert(prev + Seq::<BindingDefView>::empty() =~= prev);
        }
        i = i + 1;
    }
    assert(ds.take(ds.len() as int) =~= ds);
    BindingsSearchResult(out)
}

/// How a binding definition reads: `file - Line n:` and, on the next
/// line after a tab, the line itself.
pub open spec fn binding_def_text(d: BindingDefView) -> Seq<char> {
    d.src_config.file_name@ + " - Line "@ + decimal(d.line_no as nat) + ":\n\t"@ + d.line_contents
}

/// How bindings read: one after another, separated by line breaks.
pub open spec fn bindings_text(ds: Seq<BindingDefView>) -> Seq<char> {
    join(ds.map_values(|d: BindingDefView| binding_def_text(d)), '\n')
}

impl<'a> BindingDef<'a> {
    /// The text that displays this definition.
    pub fn to_display_string(&self) -> (r: String)
        ensures
            r@ == binding_def_text(self@),
    {
        let mut s = self.src_config.file_name.clone();
        s.append(" - Line ");
        let n = string_of(decimal_chars(self.line_no).as_slice());
        s.append(n.as_str());
        s.append(":\n\t");
        s.append(self.line_contents.as_str());
        s
    }
}

impl<'a> BindingsSearchResult<'a> {
    /// The text that displays these bindings.
    pub fn to_display_string(&self) -> (r: String)
        ensures
            r@ == bindings_text(def_views(self.0@)),
    {
        let ghost ds = def_views(self.0@);
        let mut parts: Vec<Vec<char>> = Vec::new();
        let mut i: usize = 0;
        while i < self.0.len()
            invariant
                0 <= i <= self.0@.len(),
                ds == def_views(self.0@),
                views(parts@) == ds.take(i as int).map_values(|d: BindingDefView| binding_def_text(d)),
            decreases self.0@.len() - i,
        {
            let t = self.0[i].to_display_string();
            let ghost prev = views(parts@);
            parts.push(chars_of(t.as_str()));
            assert(views(parts@) =~= ds.take(i + 1).map_values(|d: BindingDefView| binding_def_text(d))) by {
                assert(ds[i as int] == self.0@[i as int]@);
                assert(views(parts@) =~= prev.push(t@));
            }
            i = i + 1;
        }
        assert(ds.take(ds.len() as int) =~= ds);
        let joined = join_chars(&parts, '\n');
        string_of(joined.as_slice())
    }
}

// ---------------------------------------------------------------------
// When normalization stops
// ---------------------------------------------------------------------

/// The key refers to a defined variable: `$name` with `name` defined.
pub open spec fn refers_to_variable(key: Seq<char>, vars: Map<Seq<char>, Seq<char>>) -> bool {
    key.len() >= 2 && key[0] == '$' && vars.dom().contains(key.drop_first())
}

/// `rank` puts every variable that a value refers to (as one of its
/// `+`-separated keys) below the variable whose value it is.
pub open spec fn ranks_references(vars: Map<Seq<char>, Seq<char>>, rank: spec_fn(Seq<char>) -> nat) -> bool {
    forall|n: Seq<char>, p: int|
        vars.dom().contains(n) && 0 <= p < split(vars[n], '+').len() && refers_to_variable(
            trim(#[trigger] split(vars[n], '+')[p]),
            vars,
        ) ==> rank(trim(split(vars[n], '+')[p]).drop_first()) < rank(n)
}

/// No variable refers to itself, directly or through other variables.
pub open spec fn references_acyclic(vars: Map<Seq<char>, Seq<char>>) -> bool {
    exists|rank: spec_fn(Seq<char>) -> nat| ranks_references(vars, rank)
}

spec fn key_height(k: Seq<char>, vars: Map<Seq<char>, Seq<char>>, rank: spec_fn(Seq<char>) -> nat) -> nat {
    if refers_to_variable(k, vars) {
        rank(k.drop_first()) + 1
    } else {
        0
    }
}

spec fn pieces_height(ps: Seq<Seq<char>>, vars: Map<Seq<char>, Seq<char>>, rank: spec_fn(Seq<char>) -> nat) -> nat
    decreases ps.len(),
{
    if ps.len() == 0 {
        0
    } else {
        let a = pieces_height(ps.drop_last(), vars, rank);
        let b = key_height(trim(ps.last()), vars, rank);
        if a >= b {
            a
        } else {
            b
        }
    }
}

proof fn lemma_pieces_height_bound(ps: Seq<Seq<char>>, vars: Map<Seq<char>, Seq<char>>, rank: spec_fn(Seq<char>) -> nat, m: nat)
    requires
        forall|i: int| 0 <= i < ps.len() ==> key_height(trim(#[trigger] ps[i]), vars, rank) <= m,
    ensures
        pieces_height(ps, vars, rank) <= m,
    decreases ps.len(),
{
    if ps.len() > 0 {
        assert forall|i: int| 0 <= i < ps.drop_last().len() implies key_height(trim(#[trigger] ps.drop_last()[i]), vars, rank) <= m by {
            assert(ps.drop_last()[i] == ps[i]);
        }
        lemma_pieces_height_bound(ps.drop_last(), vars, rank, m);
        assert(key_height(trim(ps[ps.len() - 1]), vars, rank) <= m);
    }
}

proof fn lemma_pieces_height_above(ps: Seq<Seq<char>>, vars: Map<Seq<char>, Seq<char>>, rank: spec_fn(Seq<char>) -> nat, i: int)
    requires
        0 <= i < ps.len(),
    ensures
        key_height(trim(ps[i]), vars, rank) <= pieces_height(ps, vars, rank),
    decreases ps.len(),
{
    if i < ps.len() - 1 {
        lemma_pieces_height_above(ps.drop_last(), vars, rank, i);
        assert(ps.drop_last()[i] == ps[i]);
    }
}

proof fn lemma_split_each_bounded(
    parts: Seq<Seq<char>>,
    vars: Map<Seq<char>, Seq<char>>,
    rank: spec_fn(Seq<char>) -> nat,
    m: nat,
)
    requires
        forall|j: int, q: int|
            0 <= j < parts.len() && 0 <= q < split(parts[j], '+').len() ==> key_height(
                trim(#[trigger] split(parts[j], '+')[q]),
                vars,
                rank,
            ) <= m,
    ensures
        forall|i: int| 0 <= i < split_each(parts, '+').len() ==> key_height(trim(#[trigger] split_each(parts, '+')[i]), vars, rank) <= m,
    decreases parts.len(),
{
    if parts.len() > 0 {
        let rest = parts.drop_first();
        assert forall|j: int, q: int| 0 <= j < rest.len() && 0 <= q < split(rest[j], '+').len() implies key_height(
            trim(#[trigger] split(rest[j], '+')[q]),
            vars,
            rank,
        ) <= m by {
            assert(rest[j] == parts[j + 1]);
        }
        lemma_split_each_bounded(rest, vars, rank, m);
        let first = split(parts[0], '+');
        assert forall|i: int| 0 <= i < split_each(parts, '+').len() implies key_height(trim(#[trigger] split_each(parts, '+')[i]), vars, rank)
            <= m by {
            if i < first.len() {
                assert(split_each(parts, '+')[i] == first[i]);
            } else {
                assert(split_each(parts, '+')[i] == split_each(rest, '+')[i - first.len()]);
            }
        }
    }
}

/// One round lowers the height of the keys, and at height zero a round
/// only trims keys, after which rounds change nothing.
proof fn lemma_round_height(s: Seq<char>, vars: Map<Seq<char>, Seq<char>>, rank: spec_fn(Seq<char>) -> nat)
    requires
        ranks_references(vars, rank),
    ensures
        pieces_height(split(s, '+'), vars, rank) > 0 ==> pieces_height(split(substitute_round(s, vars), '+'), vars, rank)
            < pieces_height(split(s, '+'), vars, rank),
        pieces_height(split(s, '+'), vars, rank) == 0 ==> substitute_round(substitute_round(s, vars), vars)
            == substitute_round(s, vars),
{
    let ss = split(s, '+');
    let f = |k: Seq<char>| substitute_key(trim(k), vars);
    let parts = ss.map_values(f);
    let t = join(parts, '+');
    let h = pieces_height(ss, vars, rank);
    lemma_split_lacks(s, '+');
    assert(t == substitute_round(s, vars));
    lemma_split_join(parts, '+');
    let bound: nat = if h > 0 {
        (h - 1) as nat
    } else {
        0
    };
    assert forall|j: int, q: int| 0 <= j < parts.len() && 0 <= q < split(parts[j], '+').len() implies key_height(
        trim(#[trigger] split(parts[j], '+')[q]),
        vars,
        rank,
    ) <= bound by {
        let k = trim(ss[j]);
        lemma_pieces_height_above(ss, vars, rank, j);
        assert(parts[j] == f(ss[j]));
        if refers_to_variable(k, vars) {
            let name = k.drop_first();
            assert(parts[j] == vars[name]);
            let piece = split(vars[name], '+')[q];
            if refers_to_variable(trim(piece), vars) {
                assert(rank(trim(piece).drop_first()) < rank(name));
            }
        } else {
            assert(parts[j] == k);
            lemma_trim_lacks(ss[j], '+');
            lemma_split_single(k, '+');
            lemma_trim_idempotent(ss[j]);
            assert(split(parts[j], '+')[q] == k);
        }
    }
    lemma_split_each_bounded(parts, vars, rank, bound);
    lemma_pieces_height_bound(split(t, '+'), vars, rank, bound);
    if h == 0 {
        assert forall|j: int| 0 <= j < parts.len() implies parts[j] == trim(ss[j]) && lacks(#[trigger] parts[j], '+') by {
            lemma_pieces_height_above(ss, vars, rank, j);
            lemma_trim_lacks(ss[j], '+');
        }
        lemma_split_each_plain(parts, '+');
        assert(split(t, '+') == parts);
        assert(parts.map_values(f) =~= parts) by {
            assert forall|j: int| 0 <= j < parts.len() implies #[trigger] parts.map_values(f)[j] == parts[j] by {
                lemma_trim_idempotent(ss[j]);
                lemma_pieces_height_above(ss, vars, rank, j);
            }
        }
    }
}

proof fn lemma_fuel_enough(s: Seq<char>, vars: Map<Seq<char>, Seq<char>>, rank: spec_fn(Seq<char>) -> nat, fuel: nat)
    requires
        ranks_references(vars, rank),
        fuel >= pieces_height(split(s, '+'), vars, rank) + 1,
    ensures
        normalize_with_fuel(s, vars, fuel) is Some,
    decreases fuel,
{
    if has_dollar(s) {
        let t = substitute_round(s, vars);
        if t != s {
            lemma_round_height(s, vars, rank);
            if pieces_height(split(s, '+'), vars, rank) > 0 {
                lemma_fuel_enough(t, vars, rank, (fuel - 1) as nat);
            } else {
                assert(normalize_with_fuel(t, vars, (fuel - 1) as nat) is Some);
            }
        }
    }
}

/// Variables that do not refer to each other in a cycle let every binding
/// be normalized: the rounds of substitution come to a stop.
pub proof fn lemma_acyclic_terminates(binding: Seq<char>, vars: Map<Seq<char>, Seq<char>>)
    requires
        references_acyclic(vars),
    ensures
        normalization_terminates(binding, vars),
{
    let rank = choose|rank: spec_fn(Seq<char>) -> nat| ranks_references(vars, rank);
    let s = trim(binding);
    let fuel = pieces_height(split(s, '+'), vars, rank) + 1;
    lemma_fuel_enough(s, vars, rank, fuel);
    assert(normalize_with_fuel(trim(binding), vars, fuel) is Some);
}

} // verus!
