use po_library::library::{HASH_FILE, META_DIRECTORY};
use po_library::{
    FileHash, IndexError, Library, SortAction, SortBatch, SortError, SortEvent, SortPolicy,
    UnsortedFile,
};

fn candidate(content: &[u8], path: &str) -> UnsortedFile {
    UnsortedFile { hash: FileHash::from_file(content), path: path.to_string() }
}

fn empty_library(root: &str) -> Library {
    Library::read_from_disk(root.to_string(), None).unwrap()
}

fn entries(library: &Library) -> Vec<(String, String)> {
    library.files().iter().map(|f| (f.hash.encode(), f.path_in_library.clone())).collect()
}

fn paths(files: &[UnsortedFile]) -> Vec<String> {
    files.iter().map(|f| f.path.clone()).collect()
}

fn expect_move(step: Result<SortAction, SortError>) -> (String, String, Option<String>) {
    match step {
        Ok(SortAction::MoveFile { from, to, directory }) => (from, to, directory),
        other => panic!("expected a move, got {:?}", other),
    }
}

#[test]
fn names_of_the_meta_files() {
    assert_eq!(META_DIRECTORY, "_pometa");
    assert_eq!(HASH_FILE, "hashes");
    assert_eq!(Library::hash_file_of("out"), "out/_pometa/hashes");
    assert_eq!(Library::hash_file_of("/srv/photos/"), "/srv/photos/_pometa/hashes");
}

#[test]
fn a_new_library_is_empty() {
    let library = empty_library("out");
    assert_eq!(library.files().len(), 0);
    assert_eq!(library.output_root(), "out");
    let stored = library.persist_to_disk();
    assert_eq!(stored.path, "out/_pometa/hashes");
    assert_eq!(stored.content, "1\n--START-CONTENT--\n");
}

#[test]
fn loading_reads_the_index() {
    let hash = FileHash::from_file(b"abc");
    let text = format!("1\n--START-CONTENT--\n{} a.jpg\n", hash.encode());
    let library = Library::read_from_disk("out".to_string(), Some(&text)).unwrap();
    assert_eq!(entries(&library), vec![(hash.encode(), "a.jpg".to_string())]);
    assert!(library.contains(&hash));
    assert!(!library.contains(&FileHash::from_file(b"abd")));
}

#[test]
fn loading_fails_as_the_index_does() {
    let error = Library::read_from_disk("out".to_string(), Some("3\n--START-CONTENT--\n"));
    assert_eq!(error.unwrap_err(), IndexError::UnsupportedVersion { found: 3 });
    assert!(Library::read_from_disk("out".to_string(), Some("")).is_err());
}

#[test]
fn known_content_is_left_out_whatever_its_name() {
    let hash = FileHash::from_file(b"photo A");
    let text = format!("1\n--START-CONTENT--\n{} a.jpg\n", hash.encode());
    let mut library = Library::read_from_disk("out".to_string(), Some(&text)).unwrap();
    let inputs = vec![
        candidate(b"photo B", "in/b.jpg"),
        candidate(b"photo A", "in/copy of a.jpg"),
        candidate(b"photo C", "in/c.jpg"),
        candidate(b"photo A", "in/a.jpg"),
    ];
    let new_files = library.process_inputs(inputs);
    assert_eq!(paths(&new_files), vec!["in/b.jpg".to_string(), "in/c.jpg".to_string()]);
    assert!(new_files[0].hash == FileHash::from_file(b"photo B"));
    assert_eq!(entries(&library), vec![(hash.encode(), "a.jpg".to_string())]);
}

#[test]
fn new_content_is_given_back_once_for_each_time_it_was_given() {
    let mut library = empty_library("out");
    let inputs = vec![candidate(b"same", "in/1.jpg"), candidate(b"same", "in/2.jpg")];
    let new_files = library.process_inputs(inputs);
    assert_eq!(paths(&new_files), vec!["in/1.jpg".to_string(), "in/2.jpg".to_string()]);
    assert_eq!(library.process_inputs(Vec::new()).len(), 0);
}

#[test]
fn new_file_is_moved_to_root_and_found_after_reload() {
    let mut library = empty_library("out");
    assert_eq!(library.files().len(), 0);
    let new_files = library.process_inputs(vec![candidate(b"photo A", "in/fileA.jpg")]);
    assert_eq!(paths(&new_files), vec!["in/fileA.jpg".to_string()]);

    let mut batch = SortBatch::new(new_files, SortPolicy::MoveToRoot);
    let (from, to, directory) = expect_move(library.sort_files(&mut batch, SortEvent::Started));
    assert_eq!(from, "in/fileA.jpg");
    assert_eq!(to, "out/fileA.jpg");
    assert_eq!(directory, None);
    // Nothing is recorded before the move is reported.
    assert_eq!(library.files().len(), 0);
    assert_eq!(batch.sorted(), 0);
    let step = library.sort_files(&mut batch, SortEvent::Moved);
    assert!(matches!(step, Ok(SortAction::Finished)));
    assert_eq!(batch.sorted(), 1);

    let hash = FileHash::from_file(b"photo A").encode();
    assert_eq!(entries(&library), vec![(hash.clone(), "fileA.jpg".to_string())]);
    let stored = library.persist_to_disk();
    assert_eq!(stored.path, "out/_pometa/hashes");
    let reloaded = Library::read_from_disk("out".to_string(), Some(&stored.content)).unwrap();
    assert_eq!(entries(&reloaded), vec![(hash, "fileA.jpg".to_string())]);
}

#[test]
fn copy_of_known_file_is_not_new() {
    let mut library = empty_library("out");
    let mut batch =
        SortBatch::new(vec![candidate(b"photo A", "in/fileA.jpg")], SortPolicy::MoveToRoot);
    expect_move(library.sort_files(&mut batch, SortEvent::Started));
    assert!(matches!(library.sort_files(&mut batch, SortEvent::Moved), Ok(SortAction::Finished)));
    let before = entries(&library);

    let new_files = library.process_inputs(vec![candidate(b"photo A", "elsewhere/fileA_copy.jpg")]);
    assert_eq!(new_files.len(), 0);
    assert_eq!(entries(&library), before);
    // A batch of no file asks for nothing.
    let mut batch = SortBatch::new(new_files, SortPolicy::MoveToRoot);
    assert!(matches!(library.sort_files(&mut batch, SortEvent::Started), Ok(SortAction::Finished)));
    assert_eq!(entries(&library), before);
}

#[test]
fn date_policy_places_by_day() {
    let mut library = empty_library("out");
    let mut batch =
        SortBatch::new(vec![candidate(b"photo A", "in/holiday.jpg")], SortPolicy::Date);
    match library.sort_files(&mut batch, SortEvent::Started) {
        Ok(SortAction::ReadCreationTime { path }) => assert_eq!(path, "in/holiday.jpg"),
        other => panic!("expected a question for the time, got {:?}", other),
    }
    // 2024-03-05 13:45:10 UTC
    let step = library.sort_files(&mut batch, SortEvent::CreatedAt { seconds: 1_709_646_310 });
    let (from, to, directory) = expect_move(step);
    assert_eq!(from, "in/holiday.jpg");
    assert_eq!(to, "out/2024/3/5/holiday.jpg");
    assert_eq!(directory, Some("out/2024/3/5".to_string()));
    assert_eq!(library.files().len(), 0);
    assert!(matches!(library.sort_files(&mut batch, SortEvent::Moved), Ok(SortAction::Finished)));
    let hash = FileHash::from_file(b"photo A").encode();
    assert_eq!(entries(&library), vec![(hash, "2024/3/5/holiday.jpg".to_string())]);
}

#[test]
fn files_are_sorted_in_their_order() {
    let mut library = empty_library("/lib/");
    let files = vec![
        candidate(b"1", "in/one.jpg"),
        candidate(b"2", "other/two.jpg"),
        candidate(b"3", "three.jpg"),
    ];
    let mut batch = SortBatch::new(files, SortPolicy::MoveToRoot);
    let mut event = SortEvent::Started;
    let mut moves = Vec::new();
    loop {
        match library.sort_files(&mut batch, event) {
            Ok(SortAction::Finished) => break,
            Ok(SortAction::MoveFile { from, to, directory }) => {
                assert_eq!(directory, None);
                assert_eq!(library.files().len(), moves.len());
                moves.push((from, to));
                event = SortEvent::Moved;
            },
            other => panic!("unexpected step {:?}", other),
        }
    }
    assert_eq!(
        moves,
        vec![
            ("in/one.jpg".to_string(), "/lib/one.jpg".to_string()),
            ("other/two.jpg".to_string(), "/lib/two.jpg".to_string()),
            ("three.jpg".to_string(), "/lib/three.jpg".to_string()),
        ]
    );
    let names: Vec<String> = library.files().iter().map(|f| f.path_in_library.clone()).collect();
    assert_eq!(names, vec!["one.jpg", "two.jpg", "three.jpg"]);
    assert!(library.contains(&FileHash::from_file(b"2")));
    assert_eq!(batch.sorted(), 3);
}

#[test]
fn a_failed_move_leaves_the_earlier_files_recorded() {
    let mut library = empty_library("out");
    let files = vec![candidate(b"1", "in/one.jpg"), candidate(b"2", "in/two.jpg")];
    let mut batch = SortBatch::new(files, SortPolicy::MoveToRoot);
    expect_move(library.sort_files(&mut batch, SortEvent::Started));
    let (from, _, _) = expect_move(library.sort_files(&mut batch, SortEvent::Moved));
    assert_eq!(from, "in/two.jpg");
    // The second move fails: the caller stops, and persists what there is.
    assert_eq!(batch.sorted(), 1);
    let stored = library.persist_to_disk();
    let expected =
        format!("1\n--START-CONTENT--\n{} one.jpg\n", FileHash::from_file(b"1").encode());
    assert_eq!(stored.content, expected);
}

#[test]
fn a_report_that_answers_nothing_changes_nothing() {
    let mut library = empty_library("out");
    let mut batch = SortBatch::new(vec![candidate(b"1", "in/one.jpg")], SortPolicy::Date);
    assert_eq!(
        library.sort_files(&mut batch, SortEvent::Moved).unwrap_err(),
        SortError::UnexpectedEvent
    );
    assert_eq!(
        library.sort_files(&mut batch, SortEvent::CreatedAt { seconds: 0 }).unwrap_err(),
        SortError::UnexpectedEvent
    );
    assert!(matches!(
        library.sort_files(&mut batch, SortEvent::Started),
        Ok(SortAction::ReadCreationTime { .. })
    ));
    assert_eq!(
        library.sort_files(&mut batch, SortEvent::Started).unwrap_err(),
        SortError::UnexpectedEvent
    );
    assert_eq!(
        library.sort_files(&mut batch, SortEvent::Moved).unwrap_err(),
        SortError::UnexpectedEvent
    );
    expect_move(library.sort_files(&mut batch, SortEvent::CreatedAt { seconds: 0 }));
    assert_eq!(
        library.sort_files(&mut batch, SortEvent::CreatedAt { seconds: 0 }).unwrap_err(),
        SortError::UnexpectedEvent
    );
    assert_eq!(library.files().len(), 0);
    assert!(matches!(library.sort_files(&mut batch, SortEvent::Moved), Ok(SortAction::Finished)));
    assert_eq!(library.files()[0].path_in_library, "1970/1/1/one.jpg");
}

#[test]
fn a_path_without_file_name_stops_the_sorting() {
    let mut library = empty_library("out");
    let mut batch = SortBatch::new(vec![candidate(b"1", "in/")], SortPolicy::MoveToRoot);
    assert_eq!(
        library.sort_files(&mut batch, SortEvent::Started).unwrap_err(),
        SortError::MissingFileName
    );
    let mut batch = SortBatch::new(vec![candidate(b"1", "in/..")], SortPolicy::Date);
    assert!(library.sort_files(&mut batch, SortEvent::Started).is_ok());
    assert_eq!(
        library.sort_files(&mut batch, SortEvent::CreatedAt { seconds: 0 }).unwrap_err(),
        SortError::MissingFileName
    );
    assert_eq!(library.files().len(), 0);
}

#[test]
fn a_time_beyond_the_calendar_stops_the_sorting() {
    let mut library = empty_library("out");
    let mut batch = SortBatch::new(vec![candidate(b"1", "in/one.jpg")], SortPolicy::Date);
    assert!(library.sort_files(&mut batch, SortEvent::Started).is_ok());
    assert_eq!(
        library.sort_files(&mut batch, SortEvent::CreatedAt { seconds: u64::MAX }).unwrap_err(),
        SortError::DateOutOfRange
    );
    // The batch still waits for a time that the calendar holds.
    expect_move(library.sort_files(&mut batch, SortEvent::CreatedAt { seconds: 86_400 }));
}

#[test]
fn distinct_new_files_leave_no_hash_twice() {
    let text = format!("1\n--START-CONTENT--\n{} old.jpg\n", FileHash::from_file(b"old").encode());
    let mut library = Library::read_from_disk("out".to_string(), Some(&text)).unwrap();
    let inputs = vec![
        candidate(b"a", "in/a.jpg"),
        candidate(b"old", "in/old again.jpg"),
        candidate(b"b", "in/b.jpg"),
    ];
    let new_files = library.process_inputs(inputs);
    let mut batch = SortBatch::new(new_files, SortPolicy::MoveToRoot);
    let mut event = SortEvent::Started;
    while let Ok(SortAction::MoveFile { .. }) = library.sort_files(&mut batch, event) {
        event = SortEvent::Moved;
    }
    let mut hashes: Vec<String> = library.files().iter().map(|f| f.hash.encode()).collect();
    assert_eq!(hashes.len(), 3);
    hashes.sort();
    hashes.dedup();
    assert_eq!(hashes.len(), 3);
}

fn library_of(paths: &[&str]) -> Library {
    let mut text = String::from("1\n--START-CONTENT--\n");
    for path in paths {
        text.push_str(&format!("{} {}\n", FileHash::from_file(path.as_bytes()).encode(), path));
    }
    Library::read_from_disk("out".to_string(), Some(&text)).unwrap()
}

fn line_of(path: &str) -> String {
    format!("{} {}", FileHash::from_file(path.as_bytes()).encode(), path)
}

#[test]
fn select_lists_the_marked_files_in_order() {
    let library = library_of(&["a.jpg", "2024/3/5/b.jpg", "c.png"]);
    assert_eq!(library.select(&vec![true, false, true]), vec![line_of("a.jpg"), line_of("c.png")]);
    assert_eq!(library.select(&vec![false, true]), vec![line_of("2024/3/5/b.jpg")]);
    assert_eq!(library.select(&vec![false, false, false, true]), Vec::<String>::new());
    assert_eq!(library.select(&Vec::new()), Vec::<String>::new());
}

#[test]
fn query_lists_the_files_that_the_glob_matches() {
    let library = library_of(&["a.jpg", "2024/3/5/b.jpg", "2024/3/6/c.png", "2025/10/d.jpeg"]);
    assert_eq!(library.query("2024/3/5/*.jpg"), vec![line_of("2024/3/5/b.jpg")]);
    assert_eq!(
        library.query("2024/**"),
        vec![line_of("2024/3/5/b.jpg"), line_of("2024/3/6/c.png")]
    );
    assert_eq!(library.query("*.jpg"), vec![line_of("a.jpg")]);
    assert_eq!(library.query("2025/10/*.jpeg"), vec![line_of("2025/10/d.jpeg")]);
    assert_eq!(library.query("nothing"), Vec::<String>::new());
}

#[test]
fn no_file_is_put_in_the_place_of_another() {
    let mut library = empty_library("out");
    let files = vec![candidate(b"1", "in/same.jpg"), candidate(b"2", "other/same.jpg")];
    let mut batch = SortBatch::new(files, SortPolicy::MoveToRoot);
    expect_move(library.sort_files(&mut batch, SortEvent::Started));
    // The first file is recorded, the second is refused for its place.
    assert_eq!(
        library.sort_files(&mut batch, SortEvent::Moved).unwrap_err(),
        SortError::PathTaken
    );
    assert_eq!(library.files().len(), 1);
    assert_eq!(batch.sorted(), 1);
    assert!(library.holds_path(&"same.jpg".to_string()));
    assert!(!library.holds_path(&"other.jpg".to_string()));
    assert_eq!(
        library.sort_files(&mut batch, SortEvent::Started).unwrap_err(),
        SortError::PathTaken
    );

    let mut library = library_of(&["2024/3/5/same.jpg"]);
    let mut batch = SortBatch::new(vec![candidate(b"3", "in/same.jpg")], SortPolicy::Date);
    assert!(library.sort_files(&mut batch, SortEvent::Started).is_ok());
    assert_eq!(
        library.sort_files(&mut batch, SortEvent::CreatedAt { seconds: 1_709_596_800 }).unwrap_err(),
        SortError::PathTaken
    );
    // On another day the name is free.
    let step = library.sort_files(&mut batch, SortEvent::CreatedAt { seconds: 1_709_683_200 });
    let (_, to, _) = expect_move(step);
    assert_eq!(to, "out/2024/3/6/same.jpg");
}
