//! The two operations offered to the interactive surface: a query and a
//! status report. Each takes the index as it was obtained from its lock, or
//! nothing where the lock could not be taken, and then answers with a safe
//! default.

use vstd::prelude::*;
use crate::indexer::FileIndex;
use crate::search::SearchResult;
use crate::search::is_ranking;
use crate::search::result_views;
use crate::search::sorted_descending;
use crate::search::MAX_RESULTS;

verus! {

/// The size of the catalog and whether a scan is running.
#[derive(Debug, Clone, Copy, PartialEq, Eq, Structural)]
pub struct IndexStatus {
    pub total_files: usize,
    pub is_indexing: bool,
}

/// Answers a query from the index, or with no results where there is no
/// index to read.
pub fn search_files(query: &str, index: Option<&FileIndex>) -> (results: Vec<SearchResult>)
    ensures
        results@.len() <= MAX_RESULTS,
        sorted_descending(result_views(results@)),
        match index {
            Some(idx) => {
                &&& query@.len() == 0 ==> results@.len() == 0
                &&& query@.len() > 0 ==> is_ranking(
                    query@,
                    idx.catalog().items(),
                    result_views(results@),
                )
            },
            None => results@.len() == 0,
        },
{
    match index {
        Some(idx) => crate::search::search_files(query, idx.get_entries()),
        None => Vec::new(),
    }
}

/// Reports the status of the index, or zero entries and no scan where there
/// is no index to read.
pub fn get_index_status(index: Option<&FileIndex>) -> (status: IndexStatus)
    ensures
        status == match index {
            Some(idx) => (IndexStatus { total_files: idx.total(), is_indexing: idx.indexing() }),
            None => (IndexStatus { total_files: 0, is_indexing: false }),
        },
{
    match index {
        Some(idx) => IndexStatus { total_files: idx.total_files(), is_indexing: idx.is_indexing() },
        None => IndexStatus { total_files: 0, is_indexing: false },
    }
}

} // verus!
