use shiori::bookmark::Bookmark;
use shiori::dao::{plan_delete, plan_save, BookmarkDao, IBookmarkDao, MockBookmarkDao, StoreWrite};
use shiori::repository::{BookmarkRepository, IBookmarkRepository};
use shiori::storage::{MemoryStorage, Storage};
use shiori::store::{contains_path, format_lines, parse_lines, remove_path, upsert};

fn bms(paths: &[&str]) -> Vec<Bookmark> {
    paths.iter().map(|p| Bookmark::new(p, vec![])).collect()
}

fn strings(v: &[&str]) -> Vec<String> {
    v.iter().map(|s| s.to_string()).collect()
}

#[test]
fn save_bookmark_adds_new() {
    let dao = MockBookmarkDao::new(&bms(&["path1", "path2"]));
    let mut repo = BookmarkRepository::new(dao);
    repo.save(&Bookmark::new("path3", vec![])).unwrap();
    assert_eq!(repo.find_all().unwrap(), bms(&["path1", "path2", "path3"]));
}

#[test]
fn save_bookmark_existing_is_not_duplicated() {
    let dao = MockBookmarkDao::new(&bms(&["path1", "path2"]));
    let mut repo = BookmarkRepository::new(dao);
    repo.save(&Bookmark::new("path2", vec![])).unwrap();
    assert_eq!(repo.find_all().unwrap(), bms(&["path1", "path2"]));
}

#[test]
fn delete_bookmark_removes_it() {
    let dao = MockBookmarkDao::new(&bms(&["path1", "path2"]));
    let mut repo = BookmarkRepository::new(dao);
    repo.delete("path2").unwrap();
    assert_eq!(repo.find_all().unwrap(), bms(&["path1"]));
}

#[test]
fn delete_absent_bookmark_changes_nothing() {
    let dao = MockBookmarkDao::new(&bms(&["path1", "path2"]));
    let mut repo = BookmarkRepository::new(dao);
    repo.delete("path3").unwrap();
    assert_eq!(repo.find_all().unwrap(), bms(&["path1", "path2"]));
}

#[test]
fn find_all_bookmarks() {
    let dao = MockBookmarkDao::new(&bms(&["path1", "path2"]));
    let mut repo = BookmarkRepository::new(dao);
    assert_eq!(repo.find_all().unwrap(), bms(&["path1", "path2"]));
}

#[test]
fn save_twice_keeps_one() {
    let mut dao = MockBookmarkDao::new(&vec![]);
    let b = Bookmark::new("/p", vec![]);
    dao.save(&b).unwrap();
    dao.save(&b).unwrap();
    assert_eq!(dao.find_all().unwrap(), vec![b]);
}

#[test]
fn resave_replaces_tags() {
    let mut dao = MockBookmarkDao::new(&bms(&["/a", "/p", "/z"]));
    dao.save(&Bookmark::new("/p", strings(&["old"]))).unwrap();
    dao.save(&Bookmark::new("/p", strings(&["new"]))).unwrap();
    let all = dao.find_all().unwrap();
    assert_eq!(
        all,
        vec![
            Bookmark::new("/a", vec![]),
            Bookmark::new("/z", vec![]),
            Bookmark::new("/p", strings(&["new"])),
        ]
    );
}

#[test]
fn file_dao_appends_new_line() {
    let storage = MemoryStorage::new(strings(&["/a #x"]));
    let mut dao = BookmarkDao::new(storage);
    dao.save(&Bookmark::new("/b", strings(&["t"]))).unwrap();
    assert_eq!(
        dao.find_all().unwrap(),
        vec![Bookmark::new("/a", strings(&["x"])), Bookmark::new("/b", strings(&["t"]))]
    );
}

#[test]
fn file_dao_rewrites_on_resave_and_delete() {
    let storage = MemoryStorage::new(strings(&["/a #x", "/b", "/c"]));
    let mut dao = BookmarkDao::new(storage);
    dao.save(&Bookmark::new("/a", strings(&["y"]))).unwrap();
    assert_eq!(
        dao.find_all().unwrap(),
        vec![
            Bookmark::new("/b", vec![]),
            Bookmark::new("/c", vec![]),
            Bookmark::new("/a", strings(&["y"])),
        ]
    );
    dao.delete("/c").unwrap();
    dao.delete("/nothing").unwrap();
    assert_eq!(
        dao.find_all().unwrap(),
        vec![Bookmark::new("/b", vec![]), Bookmark::new("/a", strings(&["y"]))]
    );
}

#[test]
fn plan_save_appends_or_overwrites() {
    let current = vec![Bookmark::new("/a", strings(&["x"]))];
    match plan_save(&current, &Bookmark::new("/b", strings(&["t"]))) {
        StoreWrite::Append(line) => assert_eq!(line, "/b #t"),
        StoreWrite::Overwrite(_) => panic!("expected an append"),
    }
    match plan_save(&current, &Bookmark::new("/a", vec![])) {
        StoreWrite::Overwrite(lines) => assert_eq!(lines, strings(&["/a"])),
        StoreWrite::Append(_) => panic!("expected an overwrite"),
    }
}

#[test]
fn plan_delete_rewrites_remaining() {
    let current = vec![Bookmark::new("/a", strings(&["x"])), Bookmark::new("/b", vec![])];
    assert_eq!(plan_delete(&current, "/b"), strings(&["/a #x"]));
    assert_eq!(plan_delete(&current, "/z"), strings(&["/a #x", "/b"]));
}

#[test]
fn memory_storage_reads_appends_overwrites() {
    let mut storage = MemoryStorage::new(strings(&["one"]));
    storage.append("two").unwrap();
    let mut lines = strings(&["zero"]);
    storage.read_lines(&mut lines).unwrap();
    assert_eq!(lines, strings(&["zero", "one", "two"]));
    storage.overwrite(&strings(&["three"])).unwrap();
    assert_eq!(storage.lines, strings(&["three"]));
}

#[test]
fn list_helpers() {
    let bs = vec![Bookmark::new("/a", vec![]), Bookmark::new("/b", strings(&["t"]))];
    assert!(contains_path(&bs, "/b"));
    assert!(!contains_path(&bs, "/c"));
    assert_eq!(remove_path(&bs, "/a"), vec![Bookmark::new("/b", strings(&["t"]))]);
    assert_eq!(
        upsert(&bs, &Bookmark::new("/a", strings(&["n"]))),
        vec![Bookmark::new("/b", strings(&["t"])), Bookmark::new("/a", strings(&["n"]))]
    );
    assert_eq!(format_lines(&bs), strings(&["/a", "/b #t"]));
    assert_eq!(parse_lines(&strings(&["/a", "/b #t"])), bs);
}

#[test]
fn file_dao_path_with_space_reads_back_first_token() {
    let storage = MemoryStorage::new(vec![]);
    let mut dao = BookmarkDao::new(storage);
    dao.save(&Bookmark::new("/my dir", strings(&["t"]))).unwrap();
    assert_eq!(dao.find_all().unwrap(), vec![Bookmark::new("/my", strings(&["t"]))]);
}

#[test]
fn file_dao_blank_line_reads_as_empty_bookmark() {
    let storage = MemoryStorage::new(strings(&["", "/a"]));
    let mut dao = BookmarkDao::new(storage);
    assert_eq!(dao.find_all().unwrap(), vec![Bookmark::new("", vec![]), Bookmark::new("/a", vec![])]);
}
