use glasslight::commands::get_index_status;
use glasslight::commands::IndexStatus;
use glasslight::indexer::Catalog;
use glasslight::indexer::FileEntry;
use glasslight::indexer::FileIndex;
use glasslight::search::make_result;
use glasslight::search::search_files;
use glasslight::search::SearchResult;
use glasslight::search::MAX_RESULTS;

fn file(name: &str) -> FileEntry {
    FileEntry {
        path: format!("/home/user/{}", name),
        name: name.to_string(),
        extension: String::new(),
        size: 7,
        modified: 1700000000,
    }
}

fn catalog_of(names: &[&str]) -> Catalog {
    let mut catalog = Catalog::new();
    for name in names {
        catalog.insert(file(name));
    }
    catalog
}

fn names_of(results: &Vec<SearchResult>) -> Vec<String> {
    results.iter().map(|r| r.name.clone()).collect()
}

#[test]
fn query_returns_matching_entries_only() {
    let catalog = catalog_of(&["Report.pdf", "report_final.docx", "budget.xlsx"]);
    let results = search_files("rep", &catalog);
    assert_eq!(results.len(), 2);
    let names = names_of(&results);
    assert!(names.contains(&"Report.pdf".to_string()));
    assert!(names.contains(&"report_final.docx".to_string()));
    assert!(!names.contains(&"budget.xlsx".to_string()));
    assert_eq!(results[0].score, 1000);
    assert_eq!(results[1].score, 1000);
}

#[test]
fn earlier_match_ranks_first() {
    let catalog = catalog_of(&["xxrep", "rep", "budget", "xrep"]);
    let results = search_files("REP", &catalog);
    assert_eq!(names_of(&results), vec!["rep", "xrep", "xxrep"]);
    let scores: Vec<i32> = results.iter().map(|r| r.score).collect();
    assert_eq!(scores, vec![1000, 999, 998]);
}

#[test]
fn substring_match_ranks_above_subsequence_match() {
    let catalog = catalog_of(&["r_p_t.txt", "my_rpt.txt"]);
    let results = search_files("rpt", &catalog);
    assert_eq!(names_of(&results), vec!["my_rpt.txt", "r_p_t.txt"]);
    assert_eq!(results[0].score, 997);
    assert_eq!(results[1].score, 25);
}

#[test]
fn empty_query_yields_nothing() {
    let catalog = catalog_of(&["Report.pdf", "report_final.docx", "budget.xlsx"]);
    assert!(search_files("", &catalog).is_empty());
    assert!(search_files("", &Catalog::new()).is_empty());
}

#[test]
fn search_of_empty_catalog_yields_nothing() {
    assert!(search_files("rep", &Catalog::new()).is_empty());
}

#[test]
fn results_are_sorted_and_cut_to_fifty() {
    let mut catalog = Catalog::new();
    for k in 0..60usize {
        let shifted = (k * 37) % 60;
        catalog.insert(file(&format!("{}z", "a".repeat(shifted))));
    }
    assert_eq!(catalog.len(), 60);
    let results = search_files("z", &catalog);
    assert_eq!(results.len(), MAX_RESULTS);
    assert_eq!(results.len(), 50);
    for j in 0..results.len() {
        assert_eq!(results[j].score, 1000 - j as i32);
    }
    for j in 1..results.len() {
        assert!(results[j - 1].score >= results[j].score);
    }
}

#[test]
fn match_is_on_name_not_on_path_or_extension() {
    let mut catalog = Catalog::new();
    catalog.insert(FileEntry {
        path: "/needle/plain".to_string(),
        name: "plain".to_string(),
        extension: "needle".to_string(),
        size: 1,
        modified: 2,
    });
    assert!(search_files("needle", &catalog).is_empty());
    assert_eq!(search_files("plain", &catalog).len(), 1);
}

#[test]
fn result_carries_the_entry() {
    let mut catalog = Catalog::new();
    catalog.insert(FileEntry {
        path: "/docs/Notes.TXT".to_string(),
        name: "Notes.TXT".to_string(),
        extension: "TXT".to_string(),
        size: 4096,
        modified: 1650000000,
    });
    let results = search_files("notes", &catalog);
    assert_eq!(results.len(), 1);
    assert_eq!(results[0].path, "/docs/Notes.TXT");
    assert_eq!(results[0].name, "Notes.TXT");
    assert_eq!(results[0].extension, "TXT");
    assert_eq!(results[0].size, 4096);
    assert_eq!(results[0].modified, 1650000000);
    assert_eq!(results[0].score, 1000);
}

#[test]
fn result_from_entry_starts_with_score_zero() {
    let entry = file("a.txt");
    let result = SearchResult::from(entry.clone());
    assert_eq!(result.path, entry.path);
    assert_eq!(result.name, "a.txt");
    assert_eq!(result.score, 0);
    let scored = make_result(&entry, -12);
    assert_eq!(scored.name, "a.txt");
    assert_eq!(scored.size, 7);
    assert_eq!(scored.score, -12);
    let copy = scored.clone();
    assert_eq!(copy.score, -12);
    assert_eq!(copy.path, scored.path);
}

#[test]
fn commands_answer_from_the_index() {
    let mut index = FileIndex::new();
    index.update_entries(catalog_of(&["Report.pdf", "budget.xlsx"]));
    index.set_indexing(true);
    let status = get_index_status(Some(&index));
    assert_eq!(status, IndexStatus { total_files: 2, is_indexing: true });
    let results = glasslight::commands::search_files("bud", Some(&index));
    assert_eq!(names_of(&results), vec!["budget.xlsx"]);
}

#[test]
fn commands_degrade_without_an_index() {
    let status = get_index_status(None);
    assert_eq!(status, IndexStatus { total_files: 0, is_indexing: false });
    assert!(glasslight::commands::search_files("bud", None).is_empty());
}
