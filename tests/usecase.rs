use shiori::bookmark::Bookmark;
use shiori::dao::BookmarkDao;
use shiori::path::MockPathOps;
use shiori::storage::MemoryStorage;
use shiori::repository::{BookmarkRepository, IBookmarkRepository, MockBookmarkRepository};
use shiori::selector::{FuzzyBookmarkSelector, MockBookmarkSelector, SelectError, Selector};
use shiori::usecase::{
    add_bookmark, validate_target, delete_bookmark, list_bookmarks, prune_bookmarks, prune_plan,
    search_bookmark, select_bookmark, UsecaseError,
};
use std::cell::RefCell;
use std::rc::Rc;

fn paths(bookmarks: &[Bookmark]) -> Vec<String> {
    bookmarks.iter().map(|b| b.get_path().to_string()).collect()
}

#[test]
fn test_add_bookmark() {
    let path = Some("/path/to/dir".to_string());
    let tags = vec!["tag1".to_string(), "tag2".to_string()];

    let mut repo = MockBookmarkRepository::new(&[]);
    let mut path_ops = MockPathOps::new();
    path_ops.add_dir("/path/to/dir");

    let result = add_bookmark(&mut repo, &path_ops, path, tags.clone());
    assert!(result.is_ok());
    assert_eq!(
        repo.find_all().unwrap(),
        vec![Bookmark::new("/path/to/dir", tags)]
    );
}

#[test]
fn test_add_bookmark_with_empty_path() {
    let tags = vec!["tag1".to_string(), "tag2".to_string()];
    let mut repo = MockBookmarkRepository::new(&[]);
    let mut path_ops = MockPathOps::new();
    path_ops.set_current_dir("/current/dir");
    path_ops.add_dir("/current/dir");

    let result = add_bookmark(&mut repo, &path_ops, Some("".to_string()), tags.clone());
    assert!(result.is_ok());
    assert_eq!(
        repo.find_all().unwrap(),
        vec![Bookmark::new("/current/dir", tags)]
    );
}

#[test]
fn test_add_bookmark_with_none_path() {
    let tags = vec!["tag1".to_string(), "tag2".to_string()];
    let mut repo = MockBookmarkRepository::new(&[]);
    let mut path_ops = MockPathOps::new();
    path_ops.set_current_dir("/current/dir");
    path_ops.add_dir("/current/dir");

    let result = add_bookmark(&mut repo, &path_ops, None, tags.clone());
    assert!(result.is_ok());
    assert_eq!(
        repo.find_all().unwrap(),
        vec![Bookmark::new("/current/dir", tags)]
    );
}

#[test]
fn test_add_bookmark_without_current_dir() {
    let mut repo = MockBookmarkRepository::new(&[]);
    let path_ops = MockPathOps::new();

    let result = add_bookmark(&mut repo, &path_ops, None, vec![]);
    match result {
        Err(UsecaseError::Io(e)) => assert_eq!(e.kind(), std::io::ErrorKind::NotFound),
        other => panic!("unexpected result: {:?}", other),
    }
    assert!(repo.find_all().unwrap().is_empty());
}

#[test]
fn test_add_bookmark_with_nonexistent_path() {
    let path = Some("/nonexistent/path".to_string());

    let mut repo = MockBookmarkRepository::new(&[]);
    let path_ops = MockPathOps::new();

    let result = add_bookmark(&mut repo, &path_ops, path, vec![]);
    assert!(result.is_err());
}

#[test]
fn test_add_bookmark_with_non_dir_path() {
    let path = Some("/file".to_string());

    let mut repo = MockBookmarkRepository::new(&[]);
    let mut path_ops = MockPathOps::new();
    path_ops.add_file("/file");

    let result = add_bookmark(&mut repo, &path_ops, path, vec![]);
    assert!(result.is_err());
}

#[test]
fn add_validation_reports_missing_path_and_writes_nothing() {
    let existing = vec![Bookmark::new("/kept", vec![])];
    let mut repo = MockBookmarkRepository::new(&existing);
    let path_ops = MockPathOps::new();

    let result = add_bookmark(&mut repo, &path_ops, Some("/missing".to_string()), vec![]);
    match result {
        Err(UsecaseError::PathDoesNotExist(p)) => assert_eq!(p, "/missing"),
        other => panic!("unexpected result: {:?}", other),
    }
    assert_eq!(repo.find_all().unwrap(), existing);
}

#[test]
fn add_validation_reports_non_directory_and_writes_nothing() {
    let existing = vec![Bookmark::new("/kept", vec![])];
    let mut repo = MockBookmarkRepository::new(&existing);
    let mut path_ops = MockPathOps::new();
    path_ops.add_file("/file");

    let result = add_bookmark(&mut repo, &path_ops, Some("/file".to_string()), vec![]);
    match result {
        Err(UsecaseError::NotADirectory(p)) => assert_eq!(p, "/file"),
        other => panic!("unexpected result: {:?}", other),
    }
    assert_eq!(repo.find_all().unwrap(), existing);
}

#[test]
fn validate_target_tests_existence_first() {
    match validate_target("/x".to_string(), false, true) {
        Err(UsecaseError::PathDoesNotExist(p)) => assert_eq!(p, "/x"),
        other => panic!("unexpected result: {:?}", other),
    }
    match validate_target("/x".to_string(), false, false) {
        Err(UsecaseError::PathDoesNotExist(p)) => assert_eq!(p, "/x"),
        other => panic!("unexpected result: {:?}", other),
    }
    match validate_target("/x".to_string(), true, false) {
        Err(UsecaseError::NotADirectory(p)) => assert_eq!(p, "/x"),
        other => panic!("unexpected result: {:?}", other),
    }
    assert_eq!(validate_target("/x".to_string(), true, true).unwrap(), "/x");
}

#[test]
fn test_delete_bookmark() {
    let bookmark = Bookmark::new("/path/to/dir", vec![]);

    let mut repo = MockBookmarkRepository::new(&[bookmark.clone()]);
    let selector = MockBookmarkSelector::new(Ok(Some(0)));

    let result = delete_bookmark(&mut repo, &selector);
    assert!(result.is_ok());
    assert!(repo.find_all().unwrap().is_empty());
}

#[test]
fn test_delete_bookmark_no_match() {
    let bookmark = Bookmark::new("/path/to/dir", vec![]);

    let mut repo = MockBookmarkRepository::new(&[bookmark.clone()]);
    let selector = MockBookmarkSelector::new(Ok(None));

    let result = delete_bookmark(&mut repo, &selector);
    assert!(result.is_ok());
    assert_eq!(repo.find_all().unwrap(), vec![bookmark]);
}

#[test]
fn delete_reports_chooser_failure_and_keeps_bookmarks() {
    let bookmark = Bookmark::new("/path/to/dir", vec![]);
    let mut repo = MockBookmarkRepository::new(&[bookmark.clone()]);
    let selector = MockBookmarkSelector::new(Err("no terminal".to_string()));

    match delete_bookmark(&mut repo, &selector) {
        Err(UsecaseError::Interaction(e)) => assert_eq!(e.message, "no terminal"),
        other => panic!("unexpected result: {:?}", other),
    }
    assert_eq!(repo.find_all().unwrap(), vec![bookmark]);
}

#[test]
fn test_search_bookmark() {
    let bookmarks = vec![Bookmark::new("/path/to/dir", vec![])];

    let mut repo = MockBookmarkRepository::new(&bookmarks);
    let selector = MockBookmarkSelector::new(Ok(Some(0)));

    let result = search_bookmark(&mut repo, &selector);
    assert!(result.is_ok());
    assert_eq!(result.unwrap(), Some(Bookmark::new("/path/to/dir", vec![])));
}

#[test]
fn test_search_bookmark_no_bookmarks() {
    let mut repo = MockBookmarkRepository::new(&[]);
    let selector = MockBookmarkSelector::new(Ok(None));

    let result = search_bookmark(&mut repo, &selector);
    assert!(result.is_ok());
    assert_eq!(result.unwrap(), None);
}

#[test]
fn search_with_empty_store_does_not_ask_the_chooser() {
    let mut repo = MockBookmarkRepository::new(&[]);
    let selector = MockBookmarkSelector::new(Err("no terminal".to_string()));

    let result = search_bookmark(&mut repo, &selector);
    assert_eq!(result.unwrap(), None);
}

#[test]
fn test_list_bookmarks() {
    let bookmarks = vec![
        Bookmark::new("/path/to/dir1", vec![]),
        Bookmark::new("/path/to/dir2", vec![]),
    ];

    let mut repo = MockBookmarkRepository::new(&bookmarks);

    let result = list_bookmarks(&mut repo);
    assert!(result.is_ok());
    assert_eq!(result.unwrap(), bookmarks);
}

#[test]
fn test_list_bookmarks_empty() {
    let mut repo = MockBookmarkRepository::new(&[]);

    let result = list_bookmarks(&mut repo);
    assert!(result.is_ok());
    assert!(result.unwrap().is_empty());
}

#[test]
fn prune_removes_missing_directories() {
    let a = Bookmark::new("/a", vec![]);
    let b = Bookmark::new("/b", vec![]);
    let c = Bookmark::new("/c", vec![]);
    let mut repo = MockBookmarkRepository::new(&[a.clone(), b.clone(), c.clone()]);
    let mut path_ops = MockPathOps::new();
    path_ops.add_dir("/a");

    let removed = prune_bookmarks(&mut repo, &path_ops).unwrap();
    assert_eq!(removed, vec![b, c]);
    assert_eq!(repo.find_all().unwrap(), vec![a]);
}

#[test]
fn prune_with_nothing_missing_removes_nothing() {
    let a = Bookmark::new("/a", vec!["x".to_string()]);
    let mut repo = MockBookmarkRepository::new(&[a.clone()]);
    let mut path_ops = MockPathOps::new();
    path_ops.add_dir("/a");

    assert!(prune_bookmarks(&mut repo, &path_ops).unwrap().is_empty());
    assert_eq!(repo.find_all().unwrap(), vec![a]);
}

#[test]
fn prune_plan_keeps_order_of_missing() {
    let bs = vec![
        Bookmark::new("/1", vec![]),
        Bookmark::new("/2", vec![]),
        Bookmark::new("/3", vec![]),
    ];
    let plan = prune_plan(&bs, &vec![false, true, false]);
    assert_eq!(paths(&plan), vec!["/1", "/3"]);
}

#[test]
fn end_to_end_add_list_delete() {
    let mut repo = MockBookmarkRepository::new(&[]);
    let mut path_ops = MockPathOps::new();
    path_ops.add_dir("/tmp/proj");

    add_bookmark(&mut repo, &path_ops, Some("/tmp/proj".to_string()), vec![]).unwrap();
    assert_eq!(paths(&list_bookmarks(&mut repo).unwrap()), vec!["/tmp/proj"]);

    add_bookmark(&mut repo, &path_ops, Some("/tmp/proj".to_string()), vec![]).unwrap();
    assert_eq!(paths(&list_bookmarks(&mut repo).unwrap()), vec!["/tmp/proj"]);

    let selector = MockBookmarkSelector::new(Ok(Some(0)));
    delete_bookmark(&mut repo, &selector).unwrap();
    assert!(list_bookmarks(&mut repo).unwrap().is_empty());
}

struct RecordingSelector {
    answer: usize,
    prompts: Rc<RefCell<Vec<String>>>,
}

impl Selector for RecordingSelector {
    fn select(&self, items: &[String], prompt: &str) -> Result<usize, SelectError> {
        assert!(!items.is_empty());
        self.prompts.borrow_mut().push(prompt.to_string());
        Ok(self.answer)
    }
}

#[test]
fn select_bookmark_uses_the_bookmark_prompt() {
    let prompts = Rc::new(RefCell::new(vec![]));
    let widget = RecordingSelector { answer: 1, prompts: prompts.clone() };
    let selector = FuzzyBookmarkSelector::new(widget);
    let items = vec![
        Bookmark::new("/one", vec![]),
        Bookmark::new("/two", vec!["t".to_string()]),
    ];
    let picked = select_bookmark(&selector, &items).unwrap();
    assert_eq!(picked, Some(Bookmark::new("/two", vec!["t".to_string()])));
    let seen = prompts.borrow();
    assert_eq!(seen.len(), 1);
    let text = " Select a bookmark (type to filter): ";
    assert!(seen[0] == format!("\u{1f516}{}", text) || seen[0] == text);
}

#[test]
fn end_to_end_over_line_storage() {
    let mut repo = BookmarkRepository::new(BookmarkDao::new(MemoryStorage::new(vec![])));
    let mut path_ops = MockPathOps::new();
    path_ops.add_dir("/tmp/proj");

    add_bookmark(&mut repo, &path_ops, Some("/tmp/proj".to_string()), vec!["w".to_string()])
        .unwrap();
    add_bookmark(&mut repo, &path_ops, Some("/tmp/proj".to_string()), vec![]).unwrap();
    assert_eq!(list_bookmarks(&mut repo).unwrap(), vec![Bookmark::new("/tmp/proj", vec![])]);

    let selector = MockBookmarkSelector::new(Ok(Some(0)));
    delete_bookmark(&mut repo, &selector).unwrap();
    assert!(list_bookmarks(&mut repo).unwrap().is_empty());
}
