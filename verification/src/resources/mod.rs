//! Runtime X resources.
//!
//! A `ResourceProvider` gathers the current resource database; the
//! providers that talk to the display system live with the program. The
//! text that `xrdb -query` prints is parsed here.

use vstd::prelude::*;
use crate::string_map::{to_map, StringMap};
use crate::text::{chars_of, copy_range, find_char, index_of, lines, lines_of, string_of, trim, trim_chars, views};

verus! {

/// Why runtime resources could not be gathered.
#[derive(Debug)]
pub struct ResourceError {
    /// What went wrong.
    pub message: String,
}

/// Provider for X resources at runtime.
pub trait ResourceProvider {
    /// All available resources, by name; an error when they cannot be
    /// retrieved (the display server or the service is unavailable).
    fn get_all_resources(&self) -> Result<StringMap, ResourceError>;
}

/// The resource that one line of `xrdb -query` output sets: the line is
/// split at its first `:`, both sides trimmed, and a line with an empty
/// name sets nothing.
pub open spec fn xrdb_line(line: Seq<char>) -> Option<(Seq<char>, Seq<char>)> {
    let i = index_of(line, ':');
    if i < 0 {
        None
    } else {
        let key = trim(line.take(i));
        if key.len() == 0 {
            None
        } else {
            Some((key, trim(line.skip(i + 1))))
        }
    }
}

/// The resources that the lines set, in order.
pub open spec fn xrdb_pairs(ls: Seq<Seq<char>>) -> Seq<(Seq<char>, Seq<char>)>
    decreases ls.len(),
{
    if ls.len() == 0 {
        seq![]
    } else {
        xrdb_pairs(ls.drop_last()) + match xrdb_line(ls.last()) {
            Some(p) => seq![p],
            None => seq![],
        }
    }
}

/// The resources that `xrdb -query` printed; a resource printed twice
/// keeps its last value.
pub fn parse_xrdb_output(stdout: &str) -> (r: StringMap)
    ensures
        r@ == to_map(xrdb_pairs(lines(stdout@))),
{
    let text = chars_of(stdout);
    let ls = lines_of(text.as_slice());
    let ghost all = views(ls@);
    let mut out = StringMap::new();
    let mut i: usize = 0;
    while i < ls.len()
        invariant
            0 <= i <= ls@.len(),
            all == views(ls@),
            all == lines(stdout@),
            out@ == to_map(xrdb_pairs(all.take(i as int))),
        decreases ls@.len() - i,
    {
        let ghost next = all.take(i + 1);
        assert(next.drop_last() =~= all.take(i as int));
        assert(next.last() == ls@[i as int]@);
        let line = &ls[i];
        match find_char(line.as_slice(), ':') {
            Some(c) => {
                let k = copy_range(line.as_slice(), 0, c);
                let v = copy_range(line.as_slice(), c + 1, line.len());
                assert(k@ =~= line@.take(c as int));
                assert(v@ =~= line@.skip(c + 1));
                let key = trim_chars(k.as_slice());
                if key.len() > 0 {
                    let value = trim_chars(v.as_slice());
                    out.insert(string_of(key.as_slice()), string_of(value.as_slice()));
                    assert(xrdb_pairs(next) =~= xrdb_pairs(all.take(i as int)).push((key@, value@)));
                    assert(xrdb_pairs(next).drop_last() =~= xrdb_pairs(all.take(i as int)));
                } else {
                    assert(xrdb_pairs(next) =~= xrdb_pairs(all.take(i as int)));
                }
            },
            None => {
                assert(xrdb_pairs(next) =~= xrdb_pairs(all.take(i as int)));
            },
        }
        i = i + 1;
    }
    assert(all.take(ls@.len() as int) =~= all);
    out
}

} // verus!
