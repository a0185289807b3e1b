//! A whole configuration: the root file and every file it includes.
//!
//! Loading reads files, which the library leaves to its caller. The
//! decisions of loading stand here as `ConfigLoader`, which the caller
//! drives: it asks for the include patterns of the next file, the caller
//! expands them against the file system, the loader says which of the
//! matched paths are new, and the caller reads those and hands them back.
//! Files are taken breadth first and each path, the root's included, is
//! loaded once: an include that leads back to a loaded file is skipped.

use vstd::prelude::*;
use crate::cli_args::Session;
use crate::config::partial::{include_patterns, ConfigPartial};
use crate::config::ConfigError;
use crate::search::bindings::{def_views, BindingDef, BindingDefView, BindingsSearchResult};
use crate::string_map::{pair_views, to_map, StringMap};
use crate::text::{str_eq, string_views};

verus! {

/// Mapping from session types to their root config paths.
pub type SessionMappings = [(Session, &'static str)];

/// The root path that the first mapping for `session` names.
pub open spec fn root_path_of(mappings: Seq<(Session, &'static str)>, session: Session) -> Option<Seq<char>>
    decreases mappings.len(),
{
    if mappings.len() == 0 {
        None
    } else if mappings[0].0 == session {
        Some(mappings[0].1@)
    } else {
        root_path_of(mappings.drop_first(), session)
    }
}

/// The file names of partials.
pub open spec fn file_names(ps: Seq<ConfigPartial>) -> Seq<Seq<char>> {
    ps.map_values(|p: ConfigPartial| p.file_name@)
}

/// No name occurs twice.
pub open spec fn distinct(s: Seq<Seq<char>>) -> bool {
    forall|i: int, j: int| 0 <= i < s.len() && 0 <= j < s.len() && i != j ==> #[trigger] s[i] != #[trigger] s[j]
}

/// The matched paths that are neither in `seen` nor earlier in `matched`,
/// in order.
pub open spec fn fresh_paths(seen: Seq<Seq<char>>, matched: Seq<Seq<char>>) -> Seq<Seq<char>>
    decreases matched.len(),
{
    if matched.len() == 0 {
        seq![]
    } else {
        let prev = fresh_paths(seen, matched.drop_last());
        let x = matched.last();
        if seen.contains(x) || prev.contains(x) {
            prev
        } else {
            prev.push(x)
        }
    }
}

/// The variables that all files define, in file order and line order.
pub open spec fn all_variables(ps: Seq<ConfigPartial>, resources: Map<Seq<char>, Seq<char>>) -> Seq<(Seq<char>, Seq<char>)>
    decreases ps.len(),
{
    if ps.len() == 0 {
        seq![]
    } else {
        all_variables(ps.drop_last(), resources) + ps.last().variables_spec(resources)
    }
}

/// The bindings that all files declare, in file order and line order.
pub open spec fn all_bindings(ps: Seq<ConfigPartial>, vars: Map<Seq<char>, Seq<char>>) -> Seq<BindingDefView>
    decreases ps.len(),
{
    if ps.len() == 0 {
        seq![]
    } else {
        all_bindings(ps.drop_last(), vars) + ps.last().bindings_spec(vars)
    }
}

/// Every binding of every file can be normalized with `vars`.
pub open spec fn all_bindings_terminate(ps: Seq<ConfigPartial>, vars: Map<Seq<char>, Seq<char>>) -> bool {
    forall|i: int| 0 <= i < ps.len() ==> #[trigger] ps[i].bindings_terminate(vars)
}

/// A complete window manager configuration: the root file followed by
/// every file reached through `include` directives.
#[derive(Debug)]
pub struct FullConfig {
    /// The path of the root config file.
    pub _config_root: String,
    /// All discovered config partials, including the root config.
    pub partials: Vec<ConfigPartial>,
}

impl FullConfig {
    /// The root config path that `session_mappings` gives for `session`:
    /// the first mapping for that session.
    pub fn root_config_path(session: Session, session_mappings: &SessionMappings) -> (r: Option<String>)
        ensures
            match r {
                Some(p) => root_path_of(session_mappings@, session) == Some(p@),
                None => root_path_of(session_mappings@, session) is None,
            },
    {
        let ghost all = session_mappings@;
        let mut i: usize = 0;
        assert(all.skip(0) =~= all);
        while i < session_mappings.len()
            invariant
                0 <= i <= all.len(),
                all == session_mappings@,
                root_path_of(all, session) == root_path_of(all.skip(i as int), session),
            decreases all.len() - i,
        {
            let ghost rest = all.skip(i as int);
            assert(rest[0] == session_mappings@[i as int]);
            if session_mappings[i].0 == session {
                return Some(session_mappings[i].1.to_owned());
            }
            assert(rest.drop_first() =~= all.skip(i + 1));
            i = i + 1;
        }
        None
    }

    /// The variables defined across all partials, by `set` or
    /// `set_from_resource` directives; for `set_from_resource` the value
    /// comes from `trawl_resources`, or the default when the resource is
    /// absent there. A variable defined twice keeps its last value.
    pub fn get_all_variables(&self, trawl_resources: &StringMap) -> (r: StringMap)
        ensures
            r@ == to_map(all_variables(self.partials@, trawl_resources@)),
    {
        let mut vars = StringMap::new();
        let ghost ps = self.partials@;
        let mut i: usize = 0;
        while i < self.partials.len()
            invariant
                0 <= i <= ps.len(),
                ps == self.partials@,
                vars@ == to_map(all_variables(ps.take(i as int), trawl_resources@)),
            decreases ps.len() - i,
        {
            let pairs = self.partials[i].config_variables(trawl_resources);
            let ghost base = all_variables(ps.take(i as int), trawl_resources@);
            let ghost pv = pair_views(pairs@);
            let mut j: usize = 0;
            while j < pairs.len()
                invariant
                    0 <= j <= pairs@.len(),
                    pv == pair_views(pairs@),
                    vars@ == to_map(base + pv.take(j as int)),
                decreases pairs@.len() - j,
            {
                let (k, v) = (pairs[j].0.clone(), pairs[j].1.clone());
                vars.insert(k, v);
                assert((base + pv.take(j + 1)).drop_last() =~= base + pv.take(j as int));
                j = j + 1;
            }
            assert(ps.take(i + 1).drop_last() =~= ps.take(i as int));
            assert(pv.take(pairs@.len() as int) =~= pv);
            i = i + 1;
        }
        assert(ps.take(ps.len() as int) =~= ps);
        vars
    }

    /// Every binding of every partial stops within `rounds` substitution
    /// rounds past the first; then `get_all_bindings` may be called.
    /// Binding normalization does not stop for variables that refer to each
    /// other in a cycle; a caller that raises `rounds` until this holds
    /// waits exactly as long as normalization itself would.
    pub fn bindings_normalize_within(&self, variables: &StringMap, rounds: usize) -> (r: bool)
        ensures
            r == forall|k: int| 0 <= k < self.partials@.len() ==> #[trigger] self.partials@[k].bindings_stop_within(variables@, rounds as nat),
            r ==> all_bindings_terminate(self.partials@, variables@),
    {
        let mut i: usize = 0;
        while i < self.partials.len()
            invariant
                0 <= i <= self.partials@.len(),
                forall|k: int| 0 <= k < i ==> #[trigger] self.partials@[k].bindings_terminate(variables@),
                forall|k: int| 0 <= k < i ==> #[trigger] self.partials@[k].bindings_stop_within(variables@, rounds as nat),
            decreases self.partials@.len() - i,
        {
            if !self.partials[i].bindings_normalize_within(variables, rounds) {
                return false;
            }
            i = i + 1;
        }
        true
    }

    /// The key bindings declared across all partials, with their variables
    /// resolved against `variables`, in file order and line order.
    pub fn get_all_bindings(&self, variables: &StringMap) -> (r: BindingsSearchResult<'_>)
        requires
            all_bindings_terminate(self.partials@, variables@),
        ensures
            def_views(r.0@) == all_bindings(self.partials@, variables@),
    {
        let ghost ps = self.partials@;
        let mut out: Vec<BindingDef<'_>> = Vec::new();
        let mut i: usize = 0;
        while i < self.partials.len()
            invariant
                0 <= i <= ps.len(),
                ps == self.partials@,
                all_bindings_terminate(ps, variables@),
                def_views(out@) == all_bindings(ps.take(i as int), variables@),
            decreases ps.len() - i,
        {
            assert(ps[i as int].bindings_terminate(variables@));
            let mut defs = self.partials[i].config_bindings(variables);
            let ghost base = def_views(out@);
            let ghost dv = def_views(defs@);
            let ghost d0 = defs@;
            let ghost o0 = out@;
            out.append(&mut defs);
            assert(out@ =~= o0 + d0);
            assert(def_views(out@) =~= base + dv);
            assert(ps.take(i + 1).drop_last() =~= ps.take(i as int));
            i = i + 1;
        }
        assert(ps.take(ps.len() as int) =~= ps);
        BindingsSearchResult::from(out)
    }
}

/// The decisions of loading a configuration, one file at a time.
pub struct ConfigLoader {
    root: String,
    partials: Vec<ConfigPartial>,
    next: usize,
}

impl ConfigLoader {
    /// The files loaded so far, the root first.
    pub closed spec fn loaded(&self) -> Seq<ConfigPartial> {
        self.partials@
    }

    /// How many loaded files have had their includes handled.
    pub closed spec fn handled(&self) -> nat {
        self.next as nat
    }

    /// The path of the root file.
    pub closed spec fn root_path(&self) -> Seq<char> {
        self.root@
    }

    /// The paths loaded so far, the root among them: a path already
    /// loaded is never read again, so an include that leads back to a
    /// loaded file (a cycle) is skipped.
    pub open spec fn seen(&self) -> Seq<Seq<char>> {
        file_names(self.loaded())
    }

    /// The loader's own bookkeeping is consistent: the root is loaded,
    /// no more files are handled than loaded, and no path is loaded twice.
    pub closed spec fn wf(&self) -> bool {
        &&& 1 <= self.partials@.len()
        &&& self.next <= self.partials@.len()
        &&& distinct(file_names(self.partials@))
    }

    /// Starts loading from the root file and its contents.
    pub fn new(root_path: &str, root_config: &str) -> (r: Self)
        ensures
            r.wf(),
            r.loaded().len() == 1,
            r.loaded()[0].file_name@ == root_path@,
            r.loaded()[0].config@ == root_config@,
            r.handled() == 0,
            r.root_path() == root_path@,
    {
        let mut partials: Vec<ConfigPartial> = Vec::new();
        partials.push(ConfigPartial::new(root_path, root_config));
        assert(file_names(partials@) =~= seq![root_path@]);
        ConfigLoader { root: root_path.to_owned(), partials, next: 0 }
    }

    /// Every loaded file has had its includes handled.
    pub fn is_done(&self) -> (r: bool)
        requires
            self.wf(),
        ensures
            r == (self.handled() == self.loaded().len()),
    {
        self.next == self.partials.len()
    }

    /// The include patterns of the next file whose includes are to be
    /// handled, as `ConfigPartial::import_patterns` gives them.
    pub fn pending_patterns(&self) -> (r: Result<Vec<String>, ConfigError>)
        requires
            self.wf(),
            self.handled() < self.loaded().len(),
        ensures
            match r {
                Ok(v) => include_patterns(
                    self.loaded()[self.handled() as int].config_lines(),
                    self.loaded()[self.handled() as int].file_name@,
                ) == Ok::<Seq<Seq<char>>, ()>(string_views(v@)),
                Err(_) => include_patterns(
                    self.loaded()[self.handled() as int].config_lines(),
                    self.loaded()[self.handled() as int].file_name@,
                ) is Err,
            },
    {
        self.partials[self.next].import_patterns()
    }

    fn is_seen(&self, path: &str) -> (r: bool)
        requires
            self.wf(),
        ensures
            r == self.seen().contains(path@),
    {
        let mut i: usize = 0;
        while i < self.partials.len()
            invariant
                0 <= i <= self.partials@.len(),
                forall|k: int| 0 <= k < i ==> #[trigger] self.partials@[k].file_name@ != path@,
            decreases self.partials@.len() - i,
        {
            if str_eq(self.partials[i].file_name.as_str(), path) {
                assert(self.seen()[i as int] == path@);
                return true;
            }
            i = i + 1;
        }
        assert forall|k: int| 0 <= k < self.seen().len() implies #[trigger] self.seen()[k] != path@ by {
            assert(self.seen()[k] == self.partials@[k].file_name@);
        }
        false
    }

    /// The paths, among those that the patterns matched, that are still to
    /// be read: not loaded before, and each once, in the order matched.
    pub fn paths_to_read(&self, matched: &Vec<String>) -> (r: Vec<String>)
        requires
            self.wf(),
        ensures
            string_views(r@) == fresh_paths(self.seen(), string_views(matched@)),
    {
        let ghost m = string_views(matched@);
        let mut out: Vec<String> = Vec::new();
        let mut i: usize = 0;
        while i < matched.len()
            invariant
                0 <= i <= matched@.len(),
                self.wf(),
                m == string_views(matched@),
                string_views(out@) == fresh_paths(self.seen(), m.take(i as int)),
            decreases matched@.len() - i,
        {
            let p = matched[i].as_str();
            let ghost next = m.take(i + 1);
            assert(next.drop_last() =~= m.take(i as int));
            assert(next.last() == p@);
            let seen = self.is_seen(p);
            let mut dup = false;
            let mut k: usize = 0;
            while k < out.len()
                invariant
                    0 <= k <= out@.len(),
                    !dup ==> forall|q: int| 0 <= q < k ==> #[trigger] out@[q]@ != p@,
                    dup ==> string_views(out@).contains(p@),
                decreases out@.len() - k,
            {
                if str_eq(out[k].as_str(), p) {
                    dup = true;
                    assert(string_views(out@)[k as int] == p@);
                }
                k = k + 1;
            }
            if !dup {
                assert(!string_views(out@).contains(p@)) by {
                    assert forall|q: int| 0 <= q < out@.len() implies #[trigger] string_views(out@)[q] != p@ by {
                        assert(string_views(out@)[q] == out@[q]@);
                    }
                }
            }
            if !seen && !dup {
                let ghost prev = string_views(out@);
                out.push(matched[i].clone());
                assert(string_views(out@) =~= prev.push(p@));
            }
            i = i + 1;
        }
        assert(m.take(matched@.len() as int) =~= m);
        out
    }

    /// Hands over the files read for the next file's includes, as
    /// `(path, contents)` in the order `paths_to_read` gave them: they are
    /// queued as loaded files and the next file counts as handled.
    pub fn add_imports(&mut self, files: Vec<(String, String)>)
        requires
            old(self).wf(),
            old(self).handled() < old(self).loaded().len(),
            distinct(pair_views(files@).map_values(|f: (Seq<char>, Seq<char>)| f.0)),
            forall|i: int| 0 <= i < files@.len() ==> !old(self).seen().contains(#[trigger] files@[i].0@),
        ensures
            final(self).wf(),
            final(self).handled() == old(self).handled() + 1,
            final(self).root_path() == old(self).root_path(),
            final(self).loaded().len() == old(self).loaded().len() + files@.len(),
            final(self).loaded().take(old(self).loaded().len() as int) == old(self).loaded(),
            forall|i: int| 0 <= i < files@.len() ==> {
                &&& (#[trigger] final(self).loaded()[old(self).loaded().len() + i]).file_name@ == files@[i].0@
                &&& final(self).loaded()[old(self).loaded().len() + i].config@ == files@[i].1@
            },
    {
        let ghost old_ps = self.partials@;
        let n0 = self.partials.len();
        let ghost old_next = self.next;
        let ghost fnames = pair_views(files@).map_values(|f: (Seq<char>, Seq<char>)| f.0);
        let mut partials: Vec<ConfigPartial> = Vec::new();
        std::mem::swap(&mut partials, &mut self.partials);
        assert(partials@.take(old_ps.len() as int) =~= old_ps);
        let mut i: usize = 0;
        while i < files.len()
            invariant
                0 <= i <= files@.len(),
                1 <= old_ps.len(),
                partials@.len() == old_ps.len() + i,
                old_next < old_ps.len(),
                self.next == old_next,
                self.root == old(self).root,
                partials@.take(old_ps.len() as int) == old_ps,
                distinct(file_names(old_ps)),
                distinct(fnames),
                fnames == pair_views(files@).map_values(|f: (Seq<char>, Seq<char>)| f.0),
                forall|k: int| 0 <= k < files@.len() ==> !file_names(old_ps).contains(#[trigger] files@[k].0@),
                forall|k: int| 0 <= k < i ==> {
                    &&& (#[trigger] partials@[old_ps.len() + k]).file_name@ == files@[k].0@
                    &&& partials@[old_ps.len() + k].config@ == files@[k].1@
                },
                distinct(file_names(partials@)),
            decreases files@.len() - i,
        {
            let p = ConfigPartial::new(files[i].0.as_str(), files[i].1.as_str());
            let ghost prev = partials@;
            partials.push(p);
            proof {
                assert(partials@.take(old_ps.len() as int) =~= prev.take(old_ps.len() as int));
                let names = file_names(partials@);
                assert forall|a: int, b: int| 0 <= a < names.len() && 0 <= b < names.len() && a != b implies #[trigger] names[a]
                    != #[trigger] names[b] by {
                    let n = old_ps.len() as int;
                    let last = names.len() - 1;
                    if a == last || b == last {
                        let o = if a == last { b } else { a };
                        assert(names[last] == files@[i as int].0@);
                        if o < n {
                            assert(names[o] == partials@[o].file_name@);
                            assert(partials@[o] == old_ps[o]);
                            assert(file_names(old_ps)[o] == names[o]);
                        } else {
                            let k = o - n;
                            assert(names[o] == partials@[o].file_name@);
                            assert(partials@[o] == prev[n + k]);
                            assert(names[o] == files@[k].0@);
                            assert(fnames[k] == files@[k].0@ && fnames[i as int] == files@[i as int].0@);
                        }
                    } else {
                        assert(names[a] == file_names(prev)[a]);
                        assert(names[b] == file_names(prev)[b]);
                    }
                }
            }
            i = i + 1;
        }
        self.partials = partials;
        assert(self.next == old_next && old_next < n0);
        self.next = self.next + 1;
    }

    /// The configuration once every loaded file has been handled.
    pub fn finish(self) -> (r: FullConfig)
        requires
            self.wf(),
            self.handled() == self.loaded().len(),
        ensures
            r.partials@ == self.loaded(),
            r.partials@.len() >= 1,
            distinct(file_names(r.partials@)),
    {
        FullConfig { _config_root: self.root, partials: self.partials }
    }
}

} // verus!
