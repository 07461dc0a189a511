//! Ranked search: every catalog entry whose name matches the query, best
//! score first, cut off after the fiftieth.

use vstd::prelude::*;
use vstd::string::*;
use crate::indexer::Catalog;
use crate::indexer::EntryView;
use crate::indexer::FileEntry;
use crate::indexer::distinct_paths;
use crate::matcher::fuzzy_match;
use crate::matcher::fuzzy_score;

verus! {

/// The most results that a search returns.
pub const MAX_RESULTS: usize = 50;

/// An entry together with the score that its name reached.
#[derive(Debug)]
pub struct SearchResult {
    pub path: String,
    pub name: String,
    pub extension: String,
    pub size: u64,
    pub modified: u64,
    pub score: i32,
}

/// What a `SearchResult` holds, as plain values.
pub struct ResultView {
    pub path: Seq<char>,
    pub name: Seq<char>,
    pub extension: Seq<char>,
    pub size: u64,
    pub modified: u64,
    pub score: i32,
}

impl View for SearchResult {
    type V = ResultView;

    open spec fn view(&self) -> ResultView {
        ResultView {
            path: self.path@,
            name: self.name@,
            extension: self.extension@,
            size: self.size,
            modified: self.modified,
            score: self.score,
        }
    }
}

impl Clone for SearchResult {
    fn clone(&self) -> (copy: Self)
        ensures
            copy@ == self@,
    {
        SearchResult {
            path: self.path.clone(),
            name: self.name.clone(),
            extension: self.extension.clone(),
            size: self.size,
            modified: self.modified,
            score: self.score,
        }
    }
}

/// The result that carries `entry` with `score`.
pub open spec fn result_of(entry: EntryView, score: i32) -> ResultView {
    ResultView {
        path: entry.path,
        name: entry.name,
        extension: entry.extension,
        size: entry.size,
        modified: entry.modified,
        score,
    }
}

impl From<FileEntry> for SearchResult {
    fn from(entry: FileEntry) -> (result: SearchResult) {
        SearchResult {
            path: entry.path,
            name: entry.name,
            extension: entry.extension,
            size: entry.size,
            modified: entry.modified,
            score: 0,
        }
    }
}

impl vstd::std_specs::convert::FromSpecImpl<FileEntry> for SearchResult {
    open spec fn obeys_from_spec() -> bool {
        true
    }

    open spec fn from_spec(entry: FileEntry) -> SearchResult {
        SearchResult {
            path: entry.path,
            name: entry.name,
            extension: entry.extension,
            size: entry.size,
            modified: entry.modified,
            score: 0,
        }
    }
}

/// The views of a run of results.
pub open spec fn result_views(results: Seq<SearchResult>) -> Seq<ResultView> {
    Seq::new(results.len(), |j: int| results[j]@)
}

/// No result scores higher than one before it.
pub open spec fn sorted_descending(results: Seq<ResultView>) -> bool {
    forall|i: int, j: int| 0 <= i < j < results.len() ==> results[i].score >= results[j].score
}

/// The entry in slot `slot` matches with score `score`: it is among the
/// results, or fifty results are there that all score at least as high.
pub open spec fn covered(results: Seq<ResultView>, sources: Seq<int>, slot: int, score: int) -> bool {
    sources.contains(slot) || (results.len() == MAX_RESULTS && forall|j: int|
        0 <= j < results.len() ==> (#[trigger] results[j]).score >= score)
}

/// `results` rank the first `upto` slots of `items` for `query`, where
/// result `j` was made from slot `sources[j]`.
///
/// The results are at most fifty and sorted by falling score; each carries
/// the entry of its slot with the score of that entry's name; no slot is
/// used twice; and every matching slot is covered.
pub open spec fn placed(
    query: Seq<char>,
    items: Seq<EntryView>,
    results: Seq<ResultView>,
    sources: Seq<int>,
    upto: int,
) -> bool {
    &&& sources.len() == results.len()
    &&& results.len() <= MAX_RESULTS
    &&& 0 <= upto <= items.len()
    &&& sorted_descending(results)
    &&& forall|j: int|
        0 <= j < sources.len() ==> 0 <= #[trigger] sources[j] < upto && fuzzy_score(
            query,
            items[sources[j]].name,
        ) == Some(results[j].score as int) && results[j] == result_of(
            items[sources[j]],
            results[j].score,
        )
    &&& forall|j: int, k: int| 0 <= j < k < sources.len() ==> sources[j] != sources[k]
    &&& forall|k: int|
        0 <= k < upto && fuzzy_score(query, (#[trigger] items[k]).name) is Some ==> covered(
            results,
            sources,
            k,
            fuzzy_score(query, items[k].name)->0,
        )
}

/// `results` are a ranking of `items` for `query`: the best-scoring matches,
/// at most fifty, best first, each entry at most once.
pub open spec fn is_ranking(query: Seq<char>, items: Seq<EntryView>, results: Seq<ResultView>) -> bool {
    exists|sources: Seq<int>| placed(query, items, results, sources, items.len() as int)
}

/// `items` with `item` put in at `pos`, cut back to fifty.
pub open spec fn put<T>(items: Seq<T>, pos: int, item: T) -> Seq<T> {
    let longer = items.insert(pos, item);
    if longer.len() > MAX_RESULTS {
        longer.drop_last()
    } else {
        longer
    }
}

/// A slot that does not match, or that fifty results outscore, leaves the
/// ranking as it is.
proof fn lemma_skip(
    query: Seq<char>,
    items: Seq<EntryView>,
    results: Seq<ResultView>,
    sources: Seq<int>,
    upto: int,
)
    requires
        placed(query, items, results, sources, upto),
        upto < items.len(),
        match fuzzy_score(query, items[upto].name) {
            Some(score) => results.len() == MAX_RESULTS && forall|j: int|
                0 <= j < results.len() ==> (#[trigger] results[j]).score >= score,
            None => true,
        },
    ensures
        placed(query, items, results, sources, upto + 1),
{
}

/// Putting the result of a matching slot in behind the results that score
/// at least as high, and cutting back to fifty, ranks one slot more.
proof fn lemma_place(
    query: Seq<char>,
    items: Seq<EntryView>,
    results: Seq<ResultView>,
    sources: Seq<int>,
    upto: int,
    pos: int,
    result: ResultView,
)
    requires
        placed(query, items, results, sources, upto),
        upto < items.len(),
        0 <= pos <= results.len(),
        pos < MAX_RESULTS,
        fuzzy_score(query, items[upto].name) == Some(result.score as int),
        result == result_of(items[upto], result.score),
        forall|j: int| 0 <= j < pos ==> (#[trigger] results[j]).score >= result.score,
        pos < results.len() ==> results[pos].score < result.score,
    ensures
        placed(query, items, put(results, pos, result), put(sources, pos, upto), upto + 1),
{
    let longer = results.insert(pos, result);
    let longer_sources = sources.insert(pos, upto);
    let after = put(results, pos, result);
    let after_sources = put(sources, pos, upto);
    assert forall|j: int| 0 <= j < longer.len() implies (#[trigger] longer[j]) == (if j < pos {
        results[j]
    } else if j == pos {
        result
    } else {
        results[j - 1]
    }) && longer_sources[j] == (if j < pos {
        sources[j]
    } else if j == pos {
        upto
    } else {
        sources[j - 1]
    }) by {}
    assert forall|j: int| pos <= j < results.len() implies (#[trigger] results[j]).score
        < result.score by {
        if j > pos {
            assert(results[pos].score >= results[j].score);
        }
    }
    assert forall|i: int, j: int| 0 <= i < j < longer.len() implies longer[i].score
        >= longer[j].score by {
        if i < pos && j > pos {
            assert(results[i].score >= results[j - 1].score);
        } else if i < pos && j < pos {
            assert(results[i].score >= results[j].score);
        } else if i > pos {
            assert(results[i - 1].score >= results[j - 1].score);
        }
    }
    assert(sorted_descending(longer));
    assert forall|j: int| 0 <= j < after.len() implies (#[trigger] after[j]) == longer[j]
        && after_sources[j] == longer_sources[j] by {}
    assert(sorted_descending(after));
    assert forall|j: int, k: int| 0 <= j < k < after_sources.len() implies after_sources[j]
        != after_sources[k] by {
        let a = if j < pos { j } else { j - 1 };
        let b = if k < pos { k } else { k - 1 };
        if j != pos {
            assert(0 <= sources[a] < upto);
        }
        if k != pos {
            assert(0 <= sources[b] < upto);
        }
    }
    assert forall|j: int| 0 <= j < after_sources.len() implies 0 <= #[trigger] after_sources[j]
        < upto + 1 && fuzzy_score(query, items[after_sources[j]].name) == Some(
        after[j].score as int,
    ) && after[j] == result_of(items[after_sources[j]], after[j].score) by {
        if j < pos {
            assert(0 <= sources[j] < upto);
        } else if j > pos {
            assert(0 <= sources[j - 1] < upto);
        }
    }
    assert forall|k: int|
        0 <= k < upto + 1 && fuzzy_score(query, (#[trigger] items[k]).name) is Some implies covered(
        after,
        after_sources,
        k,
        fuzzy_score(query, items[k].name)->0,
    ) by {
        let score = fuzzy_score(query, items[k].name)->0;
        if k == upto {
            assert(after_sources[pos] == upto);
        } else {
            assert(covered(results, sources, k, score));
            if sources.contains(k) {
                let j = choose|j: int| 0 <= j < sources.len() && sources[j] == k;
                let moved = if j < pos { j } else { j + 1 };
                assert(longer_sources[moved] == k);
                if moved < after.len() {
                    assert(after_sources[moved] == k);
                } else {
                    assert(longer[moved].score == score);
                    assert forall|i: int| 0 <= i < after.len() implies (#[trigger] after[i]).score
                        >= score by {
                        assert(longer[i].score >= longer[moved].score);
                    }
                }
            } else {
                assert(results[pos].score >= score);
                assert forall|i: int| 0 <= i < after.len() implies (#[trigger] after[i]).score
                    >= score by {
                    if i < pos {
                        assert(results[i].score >= score);
                    } else if i > pos {
                        assert(results[i - 1].score >= score);
                    }
                }
            }
        }
    }
}

/// The first position whose result scores below `score`.
fn slot_for(results: &Vec<SearchResult>, score: i32) -> (pos: usize)
    ensures
        pos <= results@.len(),
        forall|j: int| 0 <= j < pos ==> (#[trigger] results@[j]).score >= score,
        pos < results@.len() ==> results@[pos as int].score < score,
{
    let mut pos: usize = 0;
    while pos < results.len() && results[pos].score >= score
        invariant
            pos <= results@.len(),
            forall|j: int| 0 <= j < pos ==> (#[trigger] results@[j]).score >= score,
        decreases results@.len() - pos,
    {
        pos += 1;
    }
    pos
}

/// The result that carries a copy of `entry` with `score`.
pub fn make_result(entry: &FileEntry, score: i32) -> (result: SearchResult)
    ensures
        result@ == result_of(entry@, score),
{
    let mut result = SearchResult::from(entry.clone());
    result.score = score;
    result
}

/// Ranks the entries of `entries` whose name matches `query`. An empty query
/// matches nothing.
pub fn search_files(query: &str, entries: &Catalog) -> (results: Vec<SearchResult>)
    ensures
        query@.len() == 0 ==> results@.len() == 0,
        query@.len() > 0 ==> is_ranking(query@, entries.items(), result_views(results@)),
        results@.len() <= MAX_RESULTS,
        sorted_descending(result_views(results@)),
{
    let mut results: Vec<SearchResult> = Vec::new();
    if query.is_empty() {
        return results;
    }
    let ghost mut sources: Seq<int> = Seq::empty();
    let total: usize = entries.len();
    let mut at: usize = 0;
    while at < total
        invariant
            at <= total,
            total == entries.items().len(),
            placed(query@, entries.items(), result_views(results@), sources, at as int),
        decreases total - at,
    {
        let entry = entries.entry(at);
        match fuzzy_match(query, entry.name.as_str()) {
            Some(score) => {
                let pos: usize = slot_for(&results, score);
                let ghost before = result_views(results@);
                if pos < MAX_RESULTS {
                    let result = make_result(entry, score);
                    let ghost placed_view = result@;
                    results.insert(pos, result);
                    if results.len() > MAX_RESULTS {
                        results.pop();
                    }
                    proof {
                        lemma_place(
                            query@,
                            entries.items(),
                            before,
                            sources,
                            at as int,
                            pos as int,
                            placed_view,
                        );
                        assert(result_views(results@) =~= put(before, pos as int, placed_view));
                        sources = put(sources, pos as int, at as int);
                    }
                } else {
                    proof {
                        lemma_skip(query@, entries.items(), before, sources, at as int);
                    }
                }
            },
            None => {
                proof {
                    lemma_skip(query@, entries.items(), result_views(results@), sources, at as int);
                }
            },
        }
        at += 1;
    }
    results
}

/// `result` carries one of `items` with the score of that item's name.
pub open spec fn comes_from(query: Seq<char>, items: Seq<EntryView>, result: ResultView) -> bool {
    exists|i: int|
        0 <= i < items.len() && fuzzy_score(query, (#[trigger] items[i]).name) == Some(
            result.score as int,
        ) && result == result_of(items[i], result.score)
}

/// A ranking of a catalog with unique paths holds no path twice, holds
/// every matching entry where it has fewer than fifty results, and holds
/// nothing but matching entries with their scores.
pub proof fn lemma_ranking_has_each_entry_once(
    query: Seq<char>,
    items: Seq<EntryView>,
    results: Seq<ResultView>,
)
    requires
        distinct_paths(items),
        is_ranking(query, items, results),
    ensures
        forall|j: int, k: int|
            0 <= j < k < results.len() ==> results[j].path != results[k].path,
        results.len() < MAX_RESULTS ==> forall|i: int|
            0 <= i < items.len() && fuzzy_score(query, (#[trigger] items[i]).name) is Some
                ==> results.contains(
                result_of(items[i], fuzzy_score(query, items[i].name)->0 as i32),
            ),
        forall|j: int| 0 <= j < results.len() ==> comes_from(query, items, #[trigger] results[j]),
{
    let sources = choose|sources: Seq<int>|
        placed(query, items, results, sources, items.len() as int);
    assert forall|j: int, k: int| 0 <= j < k < results.len() implies results[j].path
        != results[k].path by {
        assert(0 <= sources[j] < items.len());
        assert(0 <= sources[k] < items.len());
        assert(sources[j] != sources[k]);
    }
    if results.len() < MAX_RESULTS {
        assert forall|i: int|
            0 <= i < items.len() && fuzzy_score(
                query,
                (#[trigger] items[i]).name,
            ) is Some implies results.contains(
            result_of(items[i], fuzzy_score(query, items[i].name)->0 as i32),
        ) by {
            let score = fuzzy_score(query, items[i].name)->0;
            assert(covered(results, sources, i, score));
            let j = choose|j: int| 0 <= j < sources.len() && sources[j] == i;
            assert(0 <= sources[j] < items.len());
            assert(results[j] == result_of(items[i], results[j].score));
        }
    }
    assert forall|j: int| 0 <= j < results.len() implies comes_from(
        query,
        items,
        #[trigger] results[j],
    ) by {
        assert(0 <= sources[j] < items.len());
        assert(results[j] == result_of(items[sources[j]], results[j].score));
    }
}

} // verus!
