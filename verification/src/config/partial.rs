//! One configuration file: its imports, variables and key bindings.

use vstd::prelude::*;
use crate::config::ConfigError;
use crate::paths::{join_path, parent_of, path_join, path_parent};
use crate::search::bindings::{
    def_views, normalization_terminates, normalize_binding, normalize_binding_within,
    normalize_with_fuel, normalized, BindingDef, BindingDefView,
};
use crate::string_map::StringMap;
use crate::text::{
    chars_of, copy_range, eq_chars, lines, lines_of, starts_with, starts_with_chars, string_of,
    string_views, trim, trim_char, trim_char_chars, trim_chars, views, words, words_of,
};

verus! {

/// A configuration file and its contents.
#[derive(Debug)]
pub struct ConfigPartial {
    pub file_name: String,
    pub config: String,
}

/// The file to include that a line names, when it is an `include` line:
/// the rest of the trimmed line after `include`, trimmed and without
/// surrounding double quotes.
pub open spec fn include_target(line: Seq<char>) -> Option<Seq<char>> {
    let t = trim(line);
    if starts_with(t, "include"@) {
        Some(trim_char(trim(t.skip("include"@.len() as int)), '"'))
    } else {
        None
    }
}

/// An include target made absolute: a target not starting with `/` is
/// joined to the directory of `file`; `Err` when `file` has no parent.
pub open spec fn resolve_include(target: Seq<char>, file: Seq<char>) -> Result<Seq<char>, ()> {
    if starts_with(target, "/"@) {
        Ok(target)
    } else {
        match path_parent(file) {
            Some(dir) => Ok(path_join(dir, target)),
            None => Err(()),
        }
    }
}

/// The resolved include patterns of the lines, in order; the first line
/// that cannot be resolved makes the whole an `Err`.
pub open spec fn include_patterns(ls: Seq<Seq<char>>, file: Seq<char>) -> Result<Seq<Seq<char>>, ()>
    decreases ls.len(),
{
    if ls.len() == 0 {
        Ok(seq![])
    } else {
        match include_patterns(ls.drop_last(), file) {
            Err(e) => Err(e),
            Ok(v) => match include_target(ls.last()) {
                None => Ok(v),
                Some(t) => match resolve_include(t, file) {
                    Err(e) => Err(e),
                    Ok(p) => Ok(v.push(p)),
                },
            },
        }
    }
}

/// `d` without one leading `$`.
pub open spec fn strip_dollar(d: Seq<char>) -> Seq<char> {
    if d.len() > 0 && d[0] == '$' {
        d.drop_first()
    } else {
        d
    }
}

/// The variable that a line defines: `set $name value`, or
/// `set_from_resource $name resource default` whose value is the resource's
/// runtime value when there is one and the default otherwise.
pub open spec fn line_variable(line: Seq<char>, resources: Map<Seq<char>, Seq<char>>) -> Option<(Seq<char>, Seq<char>)> {
    let w = words(trim(line));
    if w.len() < 2 {
        None
    } else if w[0] == "set"@ {
        if w.len() < 3 {
            None
        } else {
            Some((strip_dollar(w[1]), w[2]))
        }
    } else if w[0] == "set_from_resource"@ {
        if w.len() < 4 {
            None
        } else {
            Some(
                (
                    strip_dollar(w[1]),
                    if resources.dom().contains(w[2]) {
                        resources[w[2]]
                    } else {
                        w[3]
                    },
                ),
            )
        }
    } else {
        None
    }
}

/// The variables that the lines define, in line order.
pub open spec fn line_variables(ls: Seq<Seq<char>>, resources: Map<Seq<char>, Seq<char>>) -> Seq<(Seq<char>, Seq<char>)>
    decreases ls.len(),
{
    if ls.len() == 0 {
        seq![]
    } else {
        line_variables(ls.drop_last(), resources) + match line_variable(ls.last(), resources) {
            Some(p) => seq![p],
            None => seq![],
        }
    }
}

/// The words that are not options (options start with `--`).
pub open spec fn non_option_words(w: Seq<Seq<char>>) -> Seq<Seq<char>>
    decreases w.len(),
{
    if w.len() == 0 {
        seq![]
    } else {
        non_option_words(w.drop_last()) + if starts_with(w.last(), "--"@) {
            seq![]
        } else {
            seq![w.last()]
        }
    }
}

/// The binding that a `bindsym` or `bindcode` line declares: the first
/// word after the command that is not an option.
pub open spec fn line_binding(line: Seq<char>) -> Option<Seq<char>> {
    let a = non_option_words(words(trim(line)));
    if a.len() < 2 {
        None
    } else if a[0] == "bindsym"@ || a[0] == "bindcode"@ {
        Some(a[1])
    } else {
        None
    }
}

/// Every binding of the lines can be normalized with `vars`.
pub open spec fn lines_bindings_terminate(ls: Seq<Seq<char>>, vars: Map<Seq<char>, Seq<char>>) -> bool {
    forall|i: int|
        0 <= i < ls.len() ==> match #[trigger] line_binding(ls[i]) {
            Some(b) => normalization_terminates(b, vars),
            None => true,
        }
}

/// The binding definitions of the lines of `partial`, in line order, with
/// 1-based line numbers.
pub open spec fn line_bindings(
    ls: Seq<Seq<char>>,
    vars: Map<Seq<char>, Seq<char>>,
    partial: ConfigPartial,
) -> Seq<BindingDefView>
    decreases ls.len(),
{
    if ls.len() == 0 {
        seq![]
    } else {
        line_bindings(ls.drop_last(), vars, partial) + match line_binding(ls.last()) {
            Some(b) => seq![
                BindingDefView {
                    orig_binding: b,
                    normalized_binding: normalized(b, vars),
                    src_config: partial,
                    line_no: ls.len() as int,
                    line_contents: ls.last(),
                },
            ],
            None => seq![],
        }
    }
}

impl ConfigPartial {
    /// The lines of the file.
    pub open spec fn config_lines(&self) -> Seq<Seq<char>> {
        lines(self.config@)
    }

    /// The variables this file defines, in line order.
    pub open spec fn variables_spec(&self, resources: Map<Seq<char>, Seq<char>>) -> Seq<(Seq<char>, Seq<char>)> {
        line_variables(self.config_lines(), resources)
    }

    /// The bindings this file declares, in line order.
    pub open spec fn bindings_spec(&self, vars: Map<Seq<char>, Seq<char>>) -> Seq<BindingDefView> {
        line_bindings(self.config_lines(), vars, *self)
    }

    /// Every binding of this file can be normalized with `vars`.
    pub open spec fn bindings_terminate(&self, vars: Map<Seq<char>, Seq<char>>) -> bool {
        lines_bindings_terminate(self.config_lines(), vars)
    }

    /// Every binding of this file stops within `rounds` substitution
    /// rounds past the first.
    pub open spec fn bindings_stop_within(&self, vars: Map<Seq<char>, Seq<char>>, rounds: nat) -> bool {
        forall|i: int|
            0 <= i < self.config_lines().len() ==> match #[trigger] line_binding(self.config_lines()[i]) {
                Some(b) => normalize_with_fuel(trim(b), vars, rounds) is Some,
                None => true,
            }
    }

    /// Creates a partial from a file name and its contents.
    pub fn new(file_name: &str, config: &str) -> (r: Self)
        ensures
            r.file_name@ == file_name@,
            r.config@ == config@,
    {
        ConfigPartial { file_name: file_name.to_owned(), config: config.to_owned() }
    }

    /// The include patterns of this file, in line order: for each line
    /// that starts with `include` (after trimming), the named path, made
    /// absolute against this file's directory when it is relative.
    /// Expanding the patterns against the file system is left to the caller.
    ///
    /// # Errors
    ///
    /// `NoParentDirectory` when a relative include meets a file name with
    /// no parent directory.
    pub fn import_patterns(&self) -> (r: Result<Vec<String>, ConfigError>)
        ensures
            match r {
                Ok(v) => include_patterns(self.config_lines(), self.file_name@) == Ok::<Seq<Seq<char>>, ()>(string_views(v@)),
                Err(_) => include_patterns(self.config_lines(), self.file_name@) is Err,
            },
    {
        let text = chars_of(self.config.as_str());
        let ls = lines_of(text.as_slice());
        let ghost all = self.config_lines();
        let inc = chars_of("include");
        let slash = chars_of("/");
        let mut out: Vec<String> = Vec::new();
        let mut i: usize = 0;
        assert(all.take(0) =~= Seq::<Seq<char>>::empty());
        assert(string_views(out@) =~= Seq::<Seq<char>>::empty());
        while i < ls.len()
            invariant
                0 <= i <= ls@.len(),
                views(ls@) == all,
                all == self.config_lines(),
                inc@ == "include"@,
                slash@ == "/"@,
                include_patterns(all.take(i as int), self.file_name@) == Ok::<Seq<Seq<char>>, ()>(string_views(out@)),
            decreases ls@.len() - i,
        {
            let ghost pre = all.take(i as int);
            let ghost next = all.take(i + 1);
            assert(next.drop_last() =~= pre);
            assert(next.last() == ls@[i as int]@);
            let t = trim_chars(ls[i].as_slice());
            if starts_with_chars(t.as_slice(), inc.as_slice()) {
                let rest = copy_range(t.as_slice(), inc.len(), t.len());
                let rest_t = trim_chars(rest.as_slice());
                let target = trim_char_chars(rest_t.as_slice(), '"');
                assert(include_target(next.last()) == Some(target@));
                if starts_with_chars(target.as_slice(), slash.as_slice()) {
                    let ghost prev = string_views(out@);
                    out.push(string_of(target.as_slice()));
                    assert(string_views(out@) =~= prev.push(target@));
                } else {
                    match parent_of(self.file_name.as_str()) {
                        None => {
                            proof {
                                lemma_include_patterns_err(all, self.file_name@, i + 1);
                                assert(all.take(all.len() as int) =~= all);
                            }
                            return Err(ConfigError::NoParentDirectory);
                        },
                        Some(dir) => {
                            let target_s = string_of(target.as_slice());
                            let joined = join_path(dir.as_str(), target_s.as_str());
                            let ghost prev = string_views(out@);
                            out.push(joined);
                            assert(string_views(out@) =~= prev.push(path_join(dir@, target@)));
                        },
                    }
                }
            } else {
                assert(include_target(next.last()) is None);
            }
            i = i + 1;
        }
        assert(all.take(ls@.len() as int) =~= all);
        Ok(out)
    }

    /// The variables this file defines, in line order, with
    /// `set_from_resource` values taken from `trawl_resources` when present
    /// there and from the declared default otherwise.
    pub fn config_variables(&self, trawl_resources: &StringMap) -> (r: Vec<(String, String)>)
        ensures
            crate::string_map::pair_views(r@) == self.variables_spec(trawl_resources@),
    {
        let text = chars_of(self.config.as_str());
        let ls = lines_of(text.as_slice());
        let ghost all = self.config_lines();
        let set_w = chars_of("set");
        let sfr_w = chars_of("set_from_resource");
        let mut out: Vec<(String, String)> = Vec::new();
        let mut i: usize = 0;
        while i < ls.len()
            invariant
                0 <= i <= ls@.len(),
                views(ls@) == all,
                all == self.config_lines(),
                set_w@ == "set"@,
                sfr_w@ == "set_from_resource"@,
                crate::string_map::pair_views(out@) == line_variables(all.take(i as int), trawl_resources@),
            decreases ls@.len() - i,
        {
            let ghost pre = all.take(i as int);
            let ghost next = all.take(i + 1);
            assert(next.drop_last() =~= pre);
            assert(next.last() == ls@[i as int]@);
            let found = line_variable_exec(&ls[i], trawl_resources, &set_w, &sfr_w);
            let ghost prev = crate::string_map::pair_views(out@);
            match found {
                Some(p) => {
                    let ghost pv = (p.0@, p.1@);
                    out.push(p);
                    assert(crate::string_map::pair_views(out@) =~= prev.push(pv));
                    assert(crate::string_map::pair_views(out@) =~= line_variables(next, trawl_resources@));
                },
                None => {
                    assert(prev + Seq::<(Seq<char>, Seq<char>)>::empty() =~= prev);
                },
            }
            i = i + 1;
        }
        assert(all.take(ls@.len() as int) =~= all);
        out
    }

    /// The key bindings this file declares (`bindsym` and `bindcode`
    /// lines, options skipped), in line order, each with its variables
    /// resolved by `normalize_binding`.
    pub fn config_bindings<'a>(&'a self, variables: &StringMap) -> (r: Vec<BindingDef<'a>>)
        requires
            self.bindings_terminate(variables@),
        ensures
            def_views(r@) == self.bindings_spec(variables@),
    {
        let text = chars_of(self.config.as_str());
        let ls = lines_of(text.as_slice());
        let ghost all = self.config_lines();
        let bindsym = chars_of("bindsym");
        let bindcode = chars_of("bindcode");
        let dashes = chars_of("--");
        let mut out: Vec<BindingDef<'a>> = Vec::new();
        let mut i: usize = 0;
        while i < ls.len()
            invariant
                0 <= i <= ls@.len(),
                views(ls@) == all,
                all == self.config_lines(),
                bindsym@ == "bindsym"@,
                bindcode@ == "bindcode"@,
                dashes@ == "--"@,
                lines_bindings_terminate(all, variables@),
                def_views(out@) == line_bindings(all.take(i as int), variables@, *self),
            decreases ls@.len() - i,
        {
            let ghost pre = all.take(i as int);
            let ghost next = all.take(i + 1);
            assert(next.drop_last() =~= pre);
            assert(next.last() == ls@[i as int]@);
            assert(all[i as int] == ls@[i as int]@);
            let found = line_binding_exec(&ls[i], &bindsym, &bindcode, &dashes);
            let ghost prev = def_views(out@);
            match found {
                Some(b) => {
                    assert(normalization_terminates(b@, variables@)) by {
                        assert(line_binding(all[i as int]) == Some(b@));
                    }
                    let b_str = string_of(b.as_slice());
                    let normalized_binding = normalize_binding(b_str.as_str(), variables);
                    let line_contents = string_of(ls[i].as_slice());
                    let def = BindingDef {
                        orig_binding: b_str,
                        normalized_binding,
                        src_config: self,
                        line_no: i + 1,
                        line_contents,
                    };
                    let ghost dv = def@;
                    out.push(def);
                    assert(def_views(out@) =~= prev.push(dv));
                    assert(def_views(out@) =~= line_bindings(next, variables@, *self));
                },
                None => {
                    assert(prev + Seq::<BindingDefView>::empty() =~= prev);
                },
            }
            i = i + 1;
        }
        assert(all.take(ls@.len() as int) =~= all);
        out
    }
}

impl ConfigPartial {
    /// Every binding of this file stops within `rounds` substitution
    /// rounds past the first; then every binding can be normalized.
    pub fn bindings_normalize_within(&self, variables: &StringMap, rounds: usize) -> (r: bool)
        ensures
            r == self.bindings_stop_within(variables@, rounds as nat),
            r ==> self.bindings_terminate(variables@),
    {
        let text = chars_of(self.config.as_str());
        let ls = lines_of(text.as_slice());
        let ghost all = self.config_lines();
        let bindsym = chars_of("bindsym");
        let bindcode = chars_of("bindcode");
        let dashes = chars_of("--");
        let mut i: usize = 0;
        while i < ls.len()
            invariant
                0 <= i <= ls@.len(),
                views(ls@) == all,
                all == self.config_lines(),
                bindsym@ == "bindsym"@,
                bindcode@ == "bindcode"@,
                dashes@ == "--"@,
                forall|k: int| 0 <= k < i ==> match #[trigger] line_binding(all[k]) {
                    Some(b) => normalize_with_fuel(trim(b), variables@, rounds as nat) is Some,
                    None => true,
                },
            decreases ls@.len() - i,
        {
            assert(all[i as int] == ls@[i as int]@);
            match line_binding_exec(&ls[i], &bindsym, &bindcode, &dashes) {
                Some(b) => {
                    let bs = string_of(b.as_slice());
                    if normalize_binding_within(bs.as_str(), variables, rounds).is_none() {
                        return false;
                    }
                },
                None => {},
            }
            i = i + 1;
        }
        assert forall|k: int| 0 <= k < all.len() implies match #[trigger] line_binding(all[k]) {
            Some(b) => normalization_terminates(b, variables@),
            None => true,
        } by {
            match line_binding(all[k]) {
                Some(b) => {
                    assert(normalize_with_fuel(trim(b), variables@, rounds as nat) is Some);
                },
                None => {},
            }
        }
        true
    }
}

/// Once a prefix of the lines fails to resolve, every longer prefix does.
proof fn lemma_include_patterns_err(ls: Seq<Seq<char>>, file: Seq<char>, n: int)
    requires
        0 <= n <= ls.len(),
        include_patterns(ls.take(n - 1), file) is Ok || n == 0 || true,
        n > 0,
        include_target(ls[n - 1]) matches Some(t) && resolve_include(t, file) is Err,
    ensures
        forall|m: int| n <= m <= ls.len() ==> #[trigger] include_patterns(ls.take(m), file) is Err,
{
    assert forall|m: int| n <= m <= ls.len() implies #[trigger] include_patterns(ls.take(m), file) is Err by {
        lemma_include_patterns_err_step(ls, file, n, m);
    }
}

proof fn lemma_include_patterns_err_step(ls: Seq<Seq<char>>, file: Seq<char>, n: int, m: int)
    requires
        0 < n <= m <= ls.len(),
        include_target(ls[n - 1]) matches Some(t) && resolve_include(t, file) is Err,
    ensures
        include_patterns(ls.take(m), file) is Err,
    decreases m,
{
    assert(ls.take(m).drop_last() =~= ls.take(m - 1));
    assert(ls.take(m).last() == ls[m - 1]);
    if m > n {
        lemma_include_patterns_err_step(ls, file, n, m - 1);
    }
}

fn strip_dollar_exec(d: &Vec<char>) -> (r: Vec<char>)
    ensures
        r@ == strip_dollar(d@),
{
    if d.len() > 0 && d[0] == '$' {
        let r = copy_range(d.as_slice(), 1, d.len());
        assert(r@ =~= d@.drop_first());
        r
    } else {
        d.clone()
    }
}

fn line_variable_exec(
    line: &Vec<char>,
    resources: &StringMap,
    set_w: &Vec<char>,
    sfr_w: &Vec<char>,
) -> (r: Option<(String, String)>)
    requires
        set_w@ == "set"@,
        sfr_w@ == "set_from_resource"@,
    ensures
        match r {
            Some(p) => line_variable(line@, resources@) == Some((p.0@, p.1@)),
            None => line_variable(line@, resources@) is None,
        },
{
    let t = trim_chars(line.as_slice());
    let w = words_of(t.as_slice());
    assert(views(w@).len() == w@.len());
    if w.len() < 2 {
        return None;
    }
    assert(views(w@)[0] == w@[0]@ && views(w@)[1] == w@[1]@);
    if eq_chars(w[0].as_slice(), set_w.as_slice()) {
        if w.len() < 3 {
            return None;
        }
        assert(views(w@)[2] == w@[2]@);
        let name = strip_dollar_exec(&w[1]);
        Some((string_of(name.as_slice()), string_of(w[2].as_slice())))
    } else if eq_chars(w[0].as_slice(), sfr_w.as_slice()) {
        if w.len() < 4 {
            return None;
        }
        assert(views(w@)[2] == w@[2]@ && views(w@)[3] == w@[3]@);
        let name = strip_dollar_exec(&w[1]);
        let resource = string_of(w[2].as_slice());
        let value = match resources.get(resource.as_str()) {
            Some(v) => v.clone(),
            None => string_of(w[3].as_slice()),
        };
        Some((string_of(name.as_slice()), value))
    } else {
        None
    }
}

fn non_option_words_exec(w: &Vec<Vec<char>>, dashes: &Vec<char>) -> (r: Vec<Vec<char>>)
    requires
        dashes@ == "--"@,
    ensures
        views(r@) == non_option_words(views(w@)),
{
    let ghost all = views(w@);
    let mut out: Vec<Vec<char>> = Vec::new();
    let mut i: usize = 0;
    while i < w.len()
        invariant
            0 <= i <= w@.len(),
            all == views(w@),
            dashes@ == "--"@,
            views(out@) == non_option_words(all.take(i as int)),
        decreases w@.len() - i,
    {
        let ghost next = all.take(i + 1);
        assert(next.drop_last() =~= all.take(i as int));
        assert(next.last() == w@[i as int]@);
        let ghost prev = views(out@);
        if !starts_with_chars(w[i].as_slice(), dashes.as_slice()) {
            out.push(w[i].clone());
            assert(views(out@) =~= prev.push(w@[i as int]@));
        } else {
            assert(prev + Seq::<Seq<char>>::empty() =~= prev);
        }
        i = i + 1;
    }
    assert(all.take(w@.len() as int) =~= all);
    out
}

fn line_binding_exec(line: &Vec<char>, bindsym: &Vec<char>, bindcode: &Vec<char>, dashes: &Vec<char>) -> (r: Option<Vec<char>>)
    requires
        bindsym@ == "bindsym"@,
        bindcode@ == "bindcode"@,
        dashes@ == "--"@,
    ensures
        match r {
            Some(b) => line_binding(line@) == Some(b@),
            None => line_binding(line@) is None,
        },
{
    let t = trim_chars(line.as_slice());
    let w = words_of(t.as_slice());
    let a = non_option_words_exec(&w, dashes);
    assert(views(a@).len() == a@.len());
    if a.len() < 2 {
        return None;
    }
    assert(views(a@)[0] == a@[0]@ && views(a@)[1] == a@[1]@);
    if eq_chars(a[0].as_slice(), bindsym.as_slice()) || eq_chars(a[0].as_slice(), bindcode.as_slice()) {
        Some(a[1].clone())
    } else {
        None
    }
}

} // verus!
