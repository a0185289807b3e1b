//! Searching a configuration for bindings, keywords and resources.

pub mod bindings;
pub mod keyword;
pub mod resource;

use vstd::prelude::*;
use crate::cli_args::FilterType;
use crate::config::full::{all_bindings, all_bindings_terminate, FullConfig};
use crate::config::xresources::XresourceConfig;
use crate::string_map::StringMap;
use bindings::{
    bindings_text, config_variables_map, def_views, matching_bindings, search_binding_result,
    BindingsSearchResult,
};
use keyword::{keyword_matches, keyword_views, keywords_text, search_keyword_result, KeywordSearchResult};
use resource::{
    is_resource_search_result, resource_result_text, search_resource_result, user_entries,
    ResourceSearchResult,
};

verus! {

/// Result of a configuration search; the variant follows the filter.
#[derive(Debug)]
pub enum SearchResult<'a> {
    /// Results from a bindings search.
    Bindings(BindingsSearchResult<'a>),
    /// Results from a keyword search.
    Keyword(KeywordSearchResult),
    /// Results from a resource search.
    Resource(ResourceSearchResult),
}

/// How a search result reads.
pub open spec fn search_result_text<'a>(r: SearchResult<'a>) -> Seq<char> {
    match r {
        SearchResult::Bindings(b) => bindings_text(def_views(b.0@)),
        SearchResult::Keyword(k) => keywords_text(keyword_views(k.0@)),
        SearchResult::Resource(x) => resource_result_text(x),
    }
}

impl<'a> SearchResult<'a> {
    /// The text that displays this result.
    pub fn to_display_string(&self) -> (r: String)
        ensures
            r@ == search_result_text(*self),
    {
        match self {
            SearchResult::Bindings(b) => b.to_display_string(),
            SearchResult::Keyword(k) => k.to_display_string(),
            SearchResult::Resource(x) => x.to_display_string(),
        }
    }
}

/// The runtime resources in the order gathered; none when the provider
/// failed.
pub open spec fn runtime_pairs(runtime_resources: Option<&StringMap>) -> Seq<(Seq<char>, Seq<char>)> {
    match runtime_resources {
        Some(m) => m.pairs(),
        None => seq![],
    }
}

/// A resource provider that failed is searched as one that gave no
/// resources: with no runtime map, a search's result is exactly what it
/// is with an empty one.
pub proof fn lemma_failed_provider_searches_as_empty<'a>(
    r: Option<SearchResult<'a>>,
    filter: FilterType,
    pattern: Seq<char>,
    config: FullConfig,
    empty: &StringMap,
    user_xresources: Option<&XresourceConfig>,
)
    requires
        filter != FilterType::Binding,
        empty.pairs().len() == 0,
    ensures
        is_search_result(r, filter, pattern, config, None, user_xresources) == is_search_result(
            r,
            filter,
            pattern,
            config,
            Some(empty),
            user_xresources,
        ),
{
    assert(runtime_pairs(None) =~= runtime_pairs(Some(empty)));
}

/// Bindings can be normalized, when a bindings search needs them.
pub open spec fn search_can_run(filter: FilterType, config: FullConfig, runtime_resources: Option<&StringMap>) -> bool {
    filter == FilterType::Binding && runtime_resources is Some ==> all_bindings_terminate(
        config.partials@,
        config_variables_map(config, runtime_resources.unwrap()@),
    )
}

/// What a search returns for a filter and pattern.
pub open spec fn is_search_result<'a>(
    r: Option<SearchResult<'a>>,
    filter: FilterType,
    pattern: Seq<char>,
    config: FullConfig,
    runtime_resources: Option<&StringMap>,
    user_xresources: Option<&XresourceConfig>,
) -> bool {
    match filter {
        FilterType::Binding => match runtime_resources {
            None => r is None,
            Some(rt) => match r {
                Some(SearchResult::Bindings(b)) => def_views(b.0@) == matching_bindings(
                    all_bindings(config.partials@, config_variables_map(config, rt@)),
                    pattern,
                ),
                _ => false,
            },
        },
        FilterType::Keyword => match r {
            Some(SearchResult::Keyword(k)) => keyword_views(k.0@) == keyword_matches(config.partials@, pattern),
            _ => false,
        },
        FilterType::Resource => match r {
            Some(SearchResult::Resource(x)) => is_resource_search_result(
                x,
                pattern,
                config.partials@,
                runtime_pairs(runtime_resources),
                user_entries(user_xresources),
            ),
            _ => false,
        },
    }
}

/// Searches the configuration for entries matching `pattern`.
///
/// `runtime_resources` holds the runtime resource values, or `None` when
/// the resource provider failed; `user_xresources` holds the user's
/// resource file, when it could be read. A bindings search returns `None`
/// when the provider failed; a resource search then goes on without
/// runtime values.
pub fn search_config<'a>(
    filter: FilterType,
    pattern: &str,
    config: &'a FullConfig,
    runtime_resources: Option<&StringMap>,
    user_xresources: Option<&XresourceConfig>,
) -> (r: Option<SearchResult<'a>>)
    requires
        search_can_run(filter, *config, runtime_resources),
    ensures
        is_search_result(r, filter, pattern@, *config, runtime_resources, user_xresources),
{
    match filter {
        FilterType::Binding => match runtime_resources {
            None => None,
            Some(rt) => Some(SearchResult::Bindings(search_binding_result(pattern, config, rt))),
        },
        FilterType::Keyword => Some(SearchResult::Keyword(search_keyword_result(pattern, config))),
        FilterType::Resource => {
            let empty = StringMap::new();
            let rt = match runtime_resources {
                Some(m) => m,
                None => &empty,
            };
            Some(SearchResult::Resource(search_resource_result(pattern, config, rt, user_xresources)))
        },
    }
}

} // verus!
