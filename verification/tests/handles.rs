use dbfs::fs::{conclude, same_name, worth_committing};
use dbfs::{DbFileSystem, Dir, Error, File, SafeDb};
use std::sync::Arc;

fn settle<T>(tx: jammdb::Tx, outcome: Result<T, Error>) -> Result<T, Error> {
    if worth_committing(&outcome) {
        conclude(outcome, tx.commit())
    } else {
        outcome
    }
}

trait FileHandle {
    fn read(&self, offset: u32, size: u32) -> Result<Vec<u8>, Error>;
    fn write(&self, offset: u32, w_data: &[u8]) -> Result<u32, Error>;
    fn clear(&self) -> Result<(), Error>;
    fn size(&self) -> Result<u32, Error>;
}

impl FileHandle for File {
    fn read(&self, offset: u32, size: u32) -> Result<Vec<u8>, Error> {
        let tx = self.db().0.tx(false)?;
        self.read_in(&tx, offset, size)
    }

    fn write(&self, offset: u32, w_data: &[u8]) -> Result<u32, Error> {
        let mut tx = self.db().0.tx(true)?;
        let outcome = self.write_in(&mut tx, offset, w_data);
        settle(tx, outcome)
    }

    fn clear(&self) -> Result<(), Error> {
        let mut tx = self.db().0.tx(true)?;
        let outcome = self.clear_in(&mut tx);
        settle(tx, outcome)
    }

    fn size(&self) -> Result<u32, Error> {
        let tx = self.db().0.tx(false)?;
        self.size_in(&tx)
    }
}

trait DirHandle {
    fn create_dir(&self, name: &str) -> Result<(), Error>;
    fn create_file(&self, name: &str) -> Result<(), Error>;
    fn delete_dir(&self, name: &str) -> Result<(), Error>;
    fn delete_file(&self, name: &str) -> Result<(), Error>;
    fn cd(&self, name: &str) -> Result<Arc<Dir>, Error>;
    fn open(&self, name: &str) -> Result<Arc<File>, Error>;
    fn list(&self) -> Result<Vec<String>, Error>;
    fn rename_file(&self, old_name: &str, new_name: &str) -> Result<(), Error>;
    fn rename_dir(&self, old_name: &str, new_name: &str) -> Result<(), Error>;
}

impl DirHandle for Dir {
    fn create_dir(&self, name: &str) -> Result<(), Error> {
        let mut tx = self.db().0.tx(true)?;
        let outcome = self.create_dir_in(&mut tx, name);
        settle(tx, outcome)
    }

    fn create_file(&self, name: &str) -> Result<(), Error> {
        let mut tx = self.db().0.tx(true)?;
        let outcome = self.create_file_in(&mut tx, name);
        settle(tx, outcome)
    }

    fn delete_dir(&self, name: &str) -> Result<(), Error> {
        let mut tx = self.db().0.tx(true)?;
        let outcome = self.delete_dir_in(&mut tx, name);
        settle(tx, outcome)
    }

    fn delete_file(&self, name: &str) -> Result<(), Error> {
        let mut tx = self.db().0.tx(true)?;
        let outcome = self.delete_file_in(&mut tx, name);
        settle(tx, outcome)
    }

    fn cd(&self, name: &str) -> Result<Arc<Dir>, Error> {
        let tx = self.db().0.tx(false)?;
        self.cd_in(&tx, name)
    }

    fn open(&self, name: &str) -> Result<Arc<File>, Error> {
        let tx = self.db().0.tx(false)?;
        self.open_in(&tx, name)
    }

    fn list(&self) -> Result<Vec<String>, Error> {
        let tx = self.db().0.tx(false)?;
        self.list_in(&tx)
    }

    fn rename_file(&self, old_name: &str, new_name: &str) -> Result<(), Error> {
        if same_name(old_name, new_name) {
            return Ok(());
        }
        let mut tx = self.db().0.tx(true)?;
        let outcome = self.rename_file_in(&mut tx, old_name, new_name);
        settle(tx, outcome)
    }

    fn rename_dir(&self, old_name: &str, new_name: &str) -> Result<(), Error> {
        if same_name(old_name, new_name) {
            return Ok(());
        }
        let mut tx = self.db().0.tx(true)?;
        let outcome = self.rename_dir_in(&mut tx, old_name, new_name);
        settle(tx, outcome)
    }
}

trait FileSystemHandle {
    fn root(&self) -> Result<Arc<Dir>, Error>;
}

impl FileSystemHandle for DbFileSystem {
    fn root(&self) -> Result<Arc<Dir>, Error> {
        let mut tx = self.db().0.tx(true)?;
        let outcome = self.root_in(&mut tx);
        settle(tx, outcome)
    }
}

fn fresh(dir: &tempfile::TempDir) -> DbFileSystem {
    DbFileSystem::new(jammdb::DB::open(dir.path().join("fs.db")).unwrap())
}

fn sorted(mut names: Vec<String>) -> Vec<String> {
    names.sort();
    names
}

#[test]
fn root_is_the_root_bucket() {
    let tmp = tempfile::tempdir().unwrap();
    let fs = fresh(&tmp);
    let root = fs.root().unwrap();
    assert_eq!(root.path(), b"root-d");
    assert_eq!(root.list().unwrap(), Vec::<String>::new());
}

#[test]
fn root_twice_keeps_the_children() {
    let tmp = tempfile::tempdir().unwrap();
    let fs = fresh(&tmp);
    fs.root().unwrap().create_file("kept").unwrap();
    let again = fs.root().unwrap();
    assert_eq!(again.list().unwrap(), vec!["kept".to_string()]);
    assert!(again.open("kept").is_ok());
}

#[test]
fn store_walkthrough() {
    let tmp = tempfile::tempdir().unwrap();
    let fs = fresh(&tmp);
    let root = fs.root().unwrap();
    for i in 0..10 {
        root.create_file(format!("file{}", i).as_str()).unwrap();
    }
    let expected: Vec<String> = (0..10).map(|i| format!("file{}", i)).collect();
    assert_eq!(sorted(root.list().unwrap()), expected);

    let file = root.open("file1").unwrap();
    assert_eq!(file.path(), b"root/file1-f");
    assert_eq!(file.write(0, b"hello world").unwrap(), 11);
    assert_eq!(file.read(0, 20).unwrap(), b"hello world".to_vec());
    assert_eq!(file.write(20, b"hello world").unwrap(), 11);
    let data = file.read(0, 31).unwrap();
    assert_eq!(data.len(), 31);
    assert_eq!(&data[0..11], b"hello world");
    assert_eq!(&data[11..20], &[0u8; 9]);
    assert_eq!(&data[20..31], b"hello world");

    for i in 0..10 {
        root.rename_file(format!("file{}", i).as_str(), format!("new_file{}", i).as_str())
            .unwrap();
    }
    let new_file = root.open("new_file1").unwrap();
    assert_eq!(new_file.size().unwrap(), 31);
    assert_eq!(new_file.read(0, 31).unwrap(), data);
    let renamed: Vec<String> = (0..10).map(|i| format!("new_file{}", i)).collect();
    assert_eq!(sorted(root.list().unwrap()), renamed);

    for i in 0..9 {
        root.delete_file(format!("new_file{}", i).as_str()).unwrap();
    }
    assert_eq!(root.list().unwrap(), vec!["new_file9".to_string()]);
}

#[test]
fn a_name_is_taken_once() {
    let tmp = tempfile::tempdir().unwrap();
    let root = fresh(&tmp).root().unwrap();
    assert!(root.create_file("a").is_ok());
    assert!(matches!(root.create_file("a"), Err(Error::AlreadyExists)));
    assert!(root.create_dir("d").is_ok());
    assert!(matches!(root.create_dir("d"), Err(Error::AlreadyExists)));
    assert_eq!(sorted(root.list().unwrap()), vec!["a".to_string(), "d".to_string()]);
}

#[test]
fn a_file_and_a_directory_may_share_a_name() {
    let tmp = tempfile::tempdir().unwrap();
    let root = fresh(&tmp).root().unwrap();
    root.create_file("x").unwrap();
    root.create_dir("x").unwrap();
    assert_eq!(root.list().unwrap(), vec!["x".to_string(), "x".to_string()]);
    assert_eq!(root.open("x").unwrap().path(), b"root/x-f");
    assert_eq!(root.cd("x").unwrap().path(), b"root/x-d");
    root.delete_dir("x").unwrap();
    assert_eq!(root.list().unwrap(), vec!["x".to_string()]);
    assert!(root.open("x").is_ok());
    assert!(matches!(root.cd("x"), Err(Error::NotFound)));
}

#[test]
fn missing_names_are_not_found() {
    let tmp = tempfile::tempdir().unwrap();
    let root = fresh(&tmp).root().unwrap();
    root.create_file("f").unwrap();
    root.create_dir("d").unwrap();
    assert!(matches!(root.delete_file("nope"), Err(Error::NotFound)));
    assert!(matches!(root.delete_dir("nope"), Err(Error::NotFound)));
    assert!(matches!(root.delete_dir("f"), Err(Error::NotFound)));
    assert!(matches!(root.delete_file("d"), Err(Error::NotFound)));
    assert!(matches!(root.open("nope"), Err(Error::NotFound)));
    assert!(matches!(root.open("d"), Err(Error::NotFound)));
    assert!(matches!(root.cd("nope"), Err(Error::NotFound)));
    assert!(matches!(root.cd("f"), Err(Error::NotFound)));
    assert!(matches!(root.rename_file("nope", "other"), Err(Error::NotFound)));
    assert!(matches!(root.rename_dir("nope", "other"), Err(Error::NotFound)));
    assert_eq!(sorted(root.list().unwrap()), vec!["d".to_string(), "f".to_string()]);
}

#[test]
fn delete_then_create_gives_an_empty_file() {
    let tmp = tempfile::tempdir().unwrap();
    let root = fresh(&tmp).root().unwrap();
    root.create_file("n").unwrap();
    root.open("n").unwrap().write(0, b"old content").unwrap();
    root.delete_file("n").unwrap();
    assert!(matches!(root.open("n"), Err(Error::NotFound)));
    root.create_file("n").unwrap();
    let file = root.open("n").unwrap();
    assert_eq!(file.size().unwrap(), 0);
    assert_eq!(file.read(0, 100).unwrap(), Vec::<u8>::new());
    assert_eq!(root.list().unwrap(), vec!["n".to_string()]);
}

#[test]
fn rename_moves_the_content() {
    let tmp = tempfile::tempdir().unwrap();
    let root = fresh(&tmp).root().unwrap();
    root.create_file("a").unwrap();
    root.open("a").unwrap().write(0, b"payload").unwrap();
    root.rename_file("a", "b").unwrap();
    assert!(matches!(root.open("a"), Err(Error::NotFound)));
    let moved = root.open("b").unwrap();
    assert_eq!(moved.read(0, 100).unwrap(), b"payload".to_vec());
    assert_eq!(moved.size().unwrap(), 7);
    assert_eq!(root.list().unwrap(), vec!["b".to_string()]);
}

#[test]
fn rename_onto_a_taken_name_changes_nothing() {
    let tmp = tempfile::tempdir().unwrap();
    let root = fresh(&tmp).root().unwrap();
    root.create_file("a").unwrap();
    root.create_file("b").unwrap();
    root.open("a").unwrap().write(0, b"A").unwrap();
    root.open("b").unwrap().write(0, b"BB").unwrap();
    assert!(matches!(root.rename_file("a", "b"), Err(Error::AlreadyExists)));
    assert_eq!(root.open("a").unwrap().read(0, 9).unwrap(), b"A".to_vec());
    assert_eq!(root.open("b").unwrap().read(0, 9).unwrap(), b"BB".to_vec());
    root.create_dir("c").unwrap();
    root.create_dir("d").unwrap();
    assert!(matches!(root.rename_dir("c", "d"), Err(Error::AlreadyExists)));
}

#[test]
fn rename_to_the_same_name_always_goes_through() {
    let tmp = tempfile::tempdir().unwrap();
    let root = fresh(&tmp).root().unwrap();
    assert!(root.rename_file("ghost", "ghost").is_ok());
    assert!(root.rename_dir("ghost", "ghost").is_ok());
    assert_eq!(root.list().unwrap(), Vec::<String>::new());
    root.create_file("real").unwrap();
    root.open("real").unwrap().write(0, b"xyz").unwrap();
    assert!(root.rename_file("real", "real").is_ok());
    assert_eq!(root.open("real").unwrap().read(0, 3).unwrap(), b"xyz".to_vec());
    assert_eq!(root.list().unwrap(), vec!["real".to_string()]);
}

#[test]
fn rename_to_the_same_name_needs_no_directory() {
    let tmp = tempfile::tempdir().unwrap();
    let db = Arc::new(SafeDb(jammdb::DB::open(tmp.path().join("fs.db")).unwrap()));
    let nowhere = Dir::new(db, "nowhere-d".to_string());
    assert!(nowhere.rename_file("a", "a").is_ok());
    assert!(nowhere.rename_dir("a", "a").is_ok());
    assert!(matches!(nowhere.rename_file("a", "b"), Err(Error::NotFound)));
    assert!(matches!(nowhere.rename_dir("a", "b"), Err(Error::NotFound)));
}

#[test]
fn directories_nest() {
    let tmp = tempfile::tempdir().unwrap();
    let root = fresh(&tmp).root().unwrap();
    root.create_dir("a").unwrap();
    let a = root.cd("a").unwrap();
    assert_eq!(a.path(), b"root/a-d");
    assert_eq!(a.list().unwrap(), Vec::<String>::new());
    a.create_dir("b").unwrap();
    a.create_file("f").unwrap();
    let b = a.cd("b").unwrap();
    assert_eq!(b.path(), b"root/a/b-d");
    b.create_file("f").unwrap();
    b.open("f").unwrap().write(0, b"deep").unwrap();
    assert_eq!(a.open("f").unwrap().size().unwrap(), 0);
    assert_eq!(b.open("f").unwrap().read(0, 10).unwrap(), b"deep".to_vec());
    assert_eq!(sorted(a.list().unwrap()), vec!["b".to_string(), "f".to_string()]);
    assert_eq!(root.list().unwrap(), vec!["a".to_string()]);
    root.create_file("f").unwrap();
    assert_eq!(root.open("f").unwrap().path(), b"root/f-f");
}

#[test]
fn a_renamed_directory_arrives_empty() {
    let tmp = tempfile::tempdir().unwrap();
    let root = fresh(&tmp).root().unwrap();
    root.create_dir("old").unwrap();
    let old = root.cd("old").unwrap();
    old.create_file("child").unwrap();
    assert_eq!(old.list().unwrap(), vec!["child".to_string()]);
    root.rename_dir("old", "new").unwrap();
    assert!(matches!(root.cd("old"), Err(Error::NotFound)));
    let new = root.cd("new").unwrap();
    assert_eq!(new.path(), b"root/new-d");
    assert_eq!(new.list().unwrap(), Vec::<String>::new());
    assert!(matches!(new.open("child"), Err(Error::NotFound)));
    assert_eq!(root.list().unwrap(), vec!["new".to_string()]);
    assert!(matches!(old.list(), Err(Error::NotFound)));
    new.create_file("child").unwrap();
    assert_eq!(new.open("child").unwrap().size().unwrap(), 0);
}

#[test]
fn a_handle_on_a_deleted_file_is_not_found() {
    let tmp = tempfile::tempdir().unwrap();
    let root = fresh(&tmp).root().unwrap();
    root.create_file("gone").unwrap();
    let file = root.open("gone").unwrap();
    root.delete_file("gone").unwrap();
    assert!(matches!(file.read(0, 1), Err(Error::NotFound)));
    assert!(matches!(file.write(0, b"x"), Err(Error::NotFound)));
    assert!(matches!(file.size(), Err(Error::NotFound)));
    assert!(matches!(file.clear(), Err(Error::NotFound)));
    assert_eq!(root.list().unwrap(), Vec::<String>::new());
}

#[test]
fn a_handle_on_a_deleted_directory_is_not_found() {
    let tmp = tempfile::tempdir().unwrap();
    let root = fresh(&tmp).root().unwrap();
    root.create_dir("gone").unwrap();
    let dir = root.cd("gone").unwrap();
    root.delete_dir("gone").unwrap();
    assert!(matches!(dir.list(), Err(Error::NotFound)));
    assert!(matches!(dir.create_file("x"), Err(Error::NotFound)));
    assert!(matches!(dir.create_dir("x"), Err(Error::NotFound)));
    assert!(matches!(dir.delete_file("x"), Err(Error::NotFound)));
    assert!(matches!(dir.delete_dir("x"), Err(Error::NotFound)));
    assert!(matches!(dir.open("x"), Err(Error::NotFound)));
    assert!(matches!(dir.cd("x"), Err(Error::NotFound)));
    assert!(matches!(dir.rename_file("x", "y"), Err(Error::NotFound)));
    assert!(matches!(dir.rename_dir("x", "y"), Err(Error::NotFound)));
    assert!(dir.rename_file("x", "x").is_ok());
}

#[test]
fn a_directory_without_its_index_fails_in_the_store() {
    let tmp = tempfile::tempdir().unwrap();
    let db = jammdb::DB::open(tmp.path().join("fs.db")).unwrap();
    let fs = DbFileSystem::new(db.clone());
    let root = fs.root().unwrap();
    root.create_file("f").unwrap();
    let odd = Dir::new(Arc::new(SafeDb(db)), "root/f-f".to_string());
    assert!(matches!(odd.list(), Err(Error::DBError(_))));
    assert!(matches!(odd.create_file("x"), Err(Error::DBError(_))));
    assert!(matches!(odd.delete_file("x"), Err(Error::DBError(_))));
    assert!(matches!(odd.open("x"), Err(Error::DBError(_))));
    assert!(matches!(odd.rename_dir("x", "y"), Err(Error::DBError(_))));
}

#[test]
fn a_file_handle_on_a_directory_is_unclassified() {
    let tmp = tempfile::tempdir().unwrap();
    let fs = fresh(&tmp);
    let root = fs.root().unwrap();
    root.create_dir("d").unwrap();
    let db = Arc::new(SafeDb(jammdb::DB::open(tmp.path().join("other.db")).unwrap()));
    DbFileSystem::new(db.0.clone()).root().unwrap();
    let odd = File::new(db, "root-d");
    assert_eq!(odd.path(), b"root-d");
    assert!(matches!(odd.read(0, 1), Err(Error::Other)));
    assert!(matches!(odd.size(), Err(Error::Other)));
    assert!(matches!(odd.write(0, b"x"), Err(Error::Other)));
    assert!(matches!(odd.clear(), Err(Error::DBError(_))));
}

#[test]
fn clear_empties_a_file() {
    let tmp = tempfile::tempdir().unwrap();
    let root = fresh(&tmp).root().unwrap();
    root.create_file("f").unwrap();
    let file = root.open("f").unwrap();
    file.write(0, b"some bytes").unwrap();
    assert_eq!(file.size().unwrap(), 10);
    file.clear().unwrap();
    assert_eq!(file.size().unwrap(), 0);
    assert_eq!(file.read(0, 10).unwrap(), Vec::<u8>::new());
    assert_eq!(file.write(3, b"ab").unwrap(), 2);
    assert_eq!(file.read(0, 10).unwrap(), vec![0u8, 0, 0, 97, 98]);
}

#[test]
fn reads_are_clamped() {
    let tmp = tempfile::tempdir().unwrap();
    let root = fresh(&tmp).root().unwrap();
    root.create_file("f").unwrap();
    let file = root.open("f").unwrap();
    file.write(0, b"0123456789").unwrap();
    assert_eq!(file.read(10, 5).unwrap(), Vec::<u8>::new());
    assert_eq!(file.read(11, 5).unwrap(), Vec::<u8>::new());
    assert_eq!(file.read(u32::MAX, u32::MAX).unwrap(), Vec::<u8>::new());
    assert_eq!(file.read(7, 5).unwrap(), b"789".to_vec());
    assert_eq!(file.read(2, 3).unwrap(), b"234".to_vec());
    assert_eq!(file.read(0, u32::MAX).unwrap(), b"0123456789".to_vec());
}

#[test]
fn writes_append_whatever_the_offset() {
    let tmp = tempfile::tempdir().unwrap();
    let root = fresh(&tmp).root().unwrap();
    root.create_file("f").unwrap();
    let file = root.open("f").unwrap();
    assert_eq!(file.write(0, b"abc").unwrap(), 3);
    assert_eq!(file.write(0, b"de").unwrap(), 2);
    assert_eq!(file.write(1, b"").unwrap(), 0);
    assert_eq!(file.read(0, 100).unwrap(), b"abcde".to_vec());
    assert_eq!(file.size().unwrap(), 5);
}

#[test]
fn names_may_be_any_text() {
    let tmp = tempfile::tempdir().unwrap();
    let root = fresh(&tmp).root().unwrap();
    root.create_file("").unwrap();
    root.create_file("päivä").unwrap();
    root.create_file("a-d").unwrap();
    root.create_dir("a").unwrap();
    assert_eq!(
        sorted(root.list().unwrap()),
        vec!["".to_string(), "a".to_string(), "a-d".to_string(), "päivä".to_string()]
    );
    assert!(root.open("päivä").is_ok());
    assert!(root.open("").is_ok());
    assert_eq!(root.open("a-d").unwrap().path(), b"root/a-d-f");
}

#[test]
fn what_commits_is_there_for_a_new_handle() {
    let tmp = tempfile::tempdir().unwrap();
    let path = tmp.path().join("fs.db");
    {
        let fs = DbFileSystem::new(jammdb::DB::open(&path).unwrap());
        let root = fs.root().unwrap();
        root.create_file("kept").unwrap();
        root.open("kept").unwrap().write(0, b"still here").unwrap();
    }
    let fs = DbFileSystem::new(jammdb::DB::open(&path).unwrap());
    let root = fs.root().unwrap();
    assert_eq!(root.list().unwrap(), vec!["kept".to_string()]);
    assert_eq!(root.open("kept").unwrap().read(0, 64).unwrap(), b"still here".to_vec());
}

#[test]
fn an_index_with_foreign_keys_is_not_listed() {
    let tmp = tempfile::tempdir().unwrap();
    let db = jammdb::DB::open(tmp.path().join("fs.db")).unwrap();
    let fs = DbFileSystem::new(db.clone());
    let root = fs.root().unwrap();
    root.create_file("fine").unwrap();
    {
        let tx = db.tx(true).unwrap();
        let index = tx.get_bucket("root-d").unwrap().get_bucket("data").unwrap();
        index.put("zz", "").unwrap();
        tx.commit().unwrap();
    }
    assert!(matches!(root.list(), Err(Error::Other)));
    assert!(root.open("fine").is_ok());
}

#[test]
fn an_index_with_a_nested_bucket_is_not_listed() {
    let tmp = tempfile::tempdir().unwrap();
    let db = jammdb::DB::open(tmp.path().join("fs.db")).unwrap();
    let fs = DbFileSystem::new(db.clone());
    let root = fs.root().unwrap();
    {
        let tx = db.tx(true).unwrap();
        let index = tx.get_bucket("root-d").unwrap().get_bucket("data").unwrap();
        index.create_bucket("odd-f").unwrap();
        tx.commit().unwrap();
    }
    assert!(matches!(root.list(), Err(Error::Other)));
    assert!(matches!(root.open("odd"), Err(Error::NotFound)));
    assert!(matches!(root.create_file("odd"), Err(Error::DBError(_))));
    assert!(matches!(root.list(), Err(Error::Other)));
}

#[test]
fn an_index_with_a_name_that_is_no_text_is_not_listed() {
    let tmp = tempfile::tempdir().unwrap();
    let db = jammdb::DB::open(tmp.path().join("fs.db")).unwrap();
    let fs = DbFileSystem::new(db.clone());
    let root = fs.root().unwrap();
    {
        let tx = db.tx(true).unwrap();
        let index = tx.get_bucket("root-d").unwrap().get_bucket("data").unwrap();
        index.put(vec![0xffu8, 0xfe, 45, 102], "").unwrap();
        tx.commit().unwrap();
    }
    assert!(matches!(root.list(), Err(Error::Other)));
}

#[test]
fn a_failed_creation_leaves_no_trace() {
    let tmp = tempfile::tempdir().unwrap();
    let db = jammdb::DB::open(tmp.path().join("fs.db")).unwrap();
    let fs = DbFileSystem::new(db.clone());
    let root = fs.root().unwrap();
    {
        let tx = db.tx(true).unwrap();
        tx.create_bucket("root/taken-f").unwrap();
        tx.commit().unwrap();
    }
    assert!(matches!(root.create_file("taken"), Err(Error::DBError(_))));
    assert_eq!(root.list().unwrap(), Vec::<String>::new());
    assert!(matches!(root.open("taken"), Err(Error::NotFound)));
}

#[test]
fn store_errors_convert() {
    assert!(matches!(Error::from(jammdb::Error::BucketMissing), Error::DBError(jammdb::Error::BucketMissing)));
    assert!(matches!(Error::from(jammdb::Error::ReadOnlyTx), Error::DBError(jammdb::Error::ReadOnlyTx)));
}

#[test]
fn deleting_a_directory_takes_all_that_lies_below_it() {
    let tmp = tempfile::tempdir().unwrap();
    let root = fresh(&tmp).root().unwrap();
    root.create_dir("d").unwrap();
    let d = root.cd("d").unwrap();
    d.create_file("f").unwrap();
    d.open("f").unwrap().write(0, b"not left behind").unwrap();
    d.create_dir("sub").unwrap();
    let sub = d.cd("sub").unwrap();
    sub.create_file("deep").unwrap();
    sub.open("deep").unwrap().write(0, b"deep down").unwrap();
    let stale = sub.open("deep").unwrap();
    assert_eq!(root.delete_dir("d").unwrap(), ());
    assert_eq!(root.list().unwrap(), Vec::<String>::new());
    assert!(matches!(stale.read(0, 1), Err(Error::NotFound)));
    assert!(matches!(sub.list(), Err(Error::NotFound)));
    assert_eq!(root.create_dir("d").unwrap(), ());
    let again = root.cd("d").unwrap();
    assert_eq!(again.list().unwrap(), Vec::<String>::new());
    assert!(matches!(again.open("f"), Err(Error::NotFound)));
    assert_eq!(again.create_file("f").unwrap(), ());
    assert_eq!(again.open("f").unwrap().size().unwrap(), 0);
    assert_eq!(again.create_dir("sub").unwrap(), ());
    let sub_again = again.cd("sub").unwrap();
    assert_eq!(sub_again.list().unwrap(), Vec::<String>::new());
    assert_eq!(sub_again.create_file("deep").unwrap(), ());
    assert_eq!(sub_again.open("deep").unwrap().read(0, 9).unwrap(), Vec::<u8>::new());
    assert_eq!(sorted(again.list().unwrap()), vec!["f".to_string(), "sub".to_string()]);
}

#[test]
fn deleting_a_directory_spares_its_neighbours() {
    let tmp = tempfile::tempdir().unwrap();
    let root = fresh(&tmp).root().unwrap();
    for name in ["d", "da", "d-d", "c"] {
        root.create_dir(name).unwrap();
        root.cd(name).unwrap().create_file("kept").unwrap();
        root.cd(name).unwrap().open("kept").unwrap().write(0, name.as_bytes()).unwrap();
    }
    root.create_file("d").unwrap();
    root.open("d").unwrap().write(0, b"a file").unwrap();
    root.delete_dir("d").unwrap();
    for name in ["da", "d-d", "c"] {
        let dir = root.cd(name).unwrap();
        assert_eq!(dir.list().unwrap(), vec!["kept".to_string()]);
        assert_eq!(dir.open("kept").unwrap().read(0, 9).unwrap(), name.as_bytes().to_vec());
    }
    assert_eq!(root.open("d").unwrap().read(0, 9).unwrap(), b"a file".to_vec());
    assert!(matches!(root.cd("d"), Err(Error::NotFound)));
}

#[test]
fn deleting_a_directory_takes_a_slash_named_file_that_lies_below_it() {
    let tmp = tempfile::tempdir().unwrap();
    let root = fresh(&tmp).root().unwrap();
    root.create_dir("a").unwrap();
    root.create_file("a/x").unwrap();
    let file = root.open("a/x").unwrap();
    assert_eq!(file.path(), b"root/a/x-f");
    root.delete_dir("a").unwrap();
    assert_eq!(root.list().unwrap(), vec!["a/x".to_string()]);
    assert!(matches!(file.read(0, 1), Err(Error::NotFound)));
}

#[test]
fn names_with_a_slash_reach_into_other_directories() {
    let tmp = tempfile::tempdir().unwrap();
    let root = fresh(&tmp).root().unwrap();
    root.create_dir("a").unwrap();
    root.create_file("a/x").unwrap();
    assert_eq!(root.open("a/x").unwrap().path(), b"root/a/x-f");
    let a = root.cd("a").unwrap();
    assert!(matches!(a.open("x"), Err(Error::NotFound)));
    assert!(matches!(a.create_file("x"), Err(Error::DBError(jammdb::Error::BucketExists))));
    assert_eq!(a.list().unwrap(), Vec::<String>::new());
    assert_eq!(sorted(root.list().unwrap()), vec!["a".to_string(), "a/x".to_string()]);
}

#[test]
fn the_same_name_in_two_directories() {
    let tmp = tempfile::tempdir().unwrap();
    let root = fresh(&tmp).root().unwrap();
    root.create_dir("a").unwrap();
    root.create_dir("b").unwrap();
    let a = root.cd("a").unwrap();
    let b = root.cd("b").unwrap();
    a.create_file("same").unwrap();
    b.create_file("same").unwrap();
    root.create_file("same").unwrap();
    a.open("same").unwrap().write(0, b"in a").unwrap();
    b.open("same").unwrap().write(0, b"in b").unwrap();
    assert_eq!(a.open("same").unwrap().read(0, 9).unwrap(), b"in a".to_vec());
    assert_eq!(b.open("same").unwrap().read(0, 9).unwrap(), b"in b".to_vec());
    assert_eq!(root.open("same").unwrap().size().unwrap(), 0);
    a.delete_file("same").unwrap();
    assert_eq!(b.open("same").unwrap().read(0, 9).unwrap(), b"in b".to_vec());
}

#[test]
fn listing_comes_in_the_order_of_the_keys() {
    let tmp = tempfile::tempdir().unwrap();
    let root = fresh(&tmp).root().unwrap();
    for name in ["pear", "apple", "fig", "apple pie", "Zebra"] {
        root.create_file(name).unwrap();
    }
    root.create_dir("apple").unwrap();
    assert_eq!(
        root.list().unwrap(),
        vec![
            "Zebra".to_string(),
            "apple pie".to_string(),
            "apple".to_string(),
            "apple".to_string(),
            "fig".to_string(),
            "pear".to_string()
        ]
    );
}
