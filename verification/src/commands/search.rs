//! Configuration search.

use vstd::prelude::*;
use crate::cli_args::FilterType;
use crate::config::full::FullConfig;
use crate::config::xresources::XresourceConfig;
use crate::search::{is_search_result, search_can_run, search_config};
use crate::string_map::StringMap;

pub use crate::search::SearchResult;

verus! {

/// Executes a search on the configuration for entries matching the given
/// pattern (compared without case).
///
/// `runtime_resources` holds the runtime resource values, or `None` when
/// the resource provider failed; `user_xresources` holds the user's
/// resource file, when it could be read. Returns `None` only for a
/// bindings search whose resource provider failed.
pub fn execute_search<'a>(
    filter: FilterType,
    pattern: &str,
    config: &'a FullConfig,
    runtime_resources: Option<&StringMap>,
    user_xresources: Option<&XresourceConfig>,
) -> (r: Option<SearchResult<'a>>)
    requires
        search_can_run(filter, *config, runtime_resources),
    ensures
        is_search_result(r, filter, pattern@, *config, runtime_resources, user_xresources),
{
    search_config(filter, pattern, config, runtime_resources, user_xresources)
}

} // verus!
