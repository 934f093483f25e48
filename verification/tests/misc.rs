use elfshaker::atomicfile::{
    can_be_stale, create_step, create_temp_path, lock_name, open_error, parent_dir,
    temp_file_error, CreateStep, TEMP_PREFIX,
};
use elfshaker::bytes::{bytes_equal, bytes_less};
use elfshaker::ioerror::{IoError, IoErrorKind};
use elfshaker::log::{measure, measure_ok, measure_some, Level, Logger};
use elfshaker::lookup::PositionTable;
use elfshaker::paths::{
    components, extension, file_name, file_stem, is_parts_less, join, normalize, parent,
    starts_with, with_extension,
};
use elfshaker::split::{split_bytes, split_fields, split_lines, split_list};
use elfshaker::text::{
    contains, decimal, decode_text, octal, replace, signed_decimal, text_bytes, text_equal,
    to_chars, trimmed_len,
};

#[test]
fn paths_have_components() {
    assert_eq!(
        vec![b"/".to_vec(), b"a".to_vec(), b"b".to_vec()],
        components(b"/a//./b/")
    );
    assert_eq!(b"/a/b".to_vec(), join(b"/a", b"b"));
    assert_eq!(b"/a/b".to_vec(), join(b"/a/", b"b"));
    assert_eq!(b"/b".to_vec(), join(b"/a", b"/b"));
    assert_eq!(b"b".to_vec(), join(b"", b"b"));
    assert_eq!(Some(b"b.c".to_vec()), file_name(b"/a/b.c"));
    assert_eq!(None, file_name(b"/a/.."));
    assert_eq!(Some(b"b.c".to_vec()), file_stem(b"/a/b.c.d"));
    assert_eq!(Some(b"d".to_vec()), extension(b"/a/b.c.d"));
    assert_eq!(None, extension(b"/a/.d"));
    assert_eq!(b"/a/b.pack".to_vec(), with_extension(b"/a/b.x", b"pack"));
    assert_eq!(b"/a/b".to_vec(), with_extension(b"/a/b.x", b""));
    assert_eq!(Some(b"/a".to_vec()), parent(b"/a/b"));
    assert_eq!(Some(b"".to_vec()), parent(b"a"));
    assert_eq!(None, parent(b"/"));
    assert!(starts_with(&components(b"/a/b"), &components(b"/a")));
    assert!(!starts_with(&components(b"/ab"), &components(b"/a")));
}

#[test]
fn paths_agree_with_std() {
    let paths = [
        "", "/", "a", "a/", "/a", "/a/b.c", "a/./b", "./a", ".", "..", "a/..", "a//b", ".a", "a.b.",
        "a/.b.c", "/.", "//a",
    ];
    for p in paths {
        let path = std::path::Path::new(p);
        let text = |s: Option<&std::path::Path>| s.map(|s| s.to_str().unwrap().into());
        assert_eq!(text(path.parent()), parent(p.as_bytes()), "parent of {:?}", p);
        let name = path.file_name().map(|s| s.to_str().unwrap().into());
        assert_eq!(name, file_name(p.as_bytes()), "file name of {:?}", p);
        let stem = path.file_stem().map(|s| s.to_str().unwrap().into());
        assert_eq!(stem, file_stem(p.as_bytes()), "file stem of {:?}", p);
        let ext = path.extension().map(|s| s.to_str().unwrap().into());
        assert_eq!(ext, extension(p.as_bytes()), "extension of {:?}", p);
        for q in paths {
            let other = std::path::Path::new(q);
            let joined: Vec<u8> = path.join(other).to_str().unwrap().into();
            assert_eq!(joined, join(p.as_bytes(), q.as_bytes()), "{:?} and {:?}", p, q);
            assert_eq!(
                path.starts_with(other),
                starts_with(&components(p.as_bytes()), &components(q.as_bytes())),
                "{:?} and {:?}",
                p,
                q
            );
            assert_eq!(
                path < other,
                is_parts_less(&components(p.as_bytes()), &components(q.as_bytes())),
                "{:?} and {:?}",
                p,
                q
            );
            assert_eq!(
                path == other,
                normalize(p.as_bytes()) == normalize(q.as_bytes()),
                "{:?} and {:?}",
                p,
                q
            );
        }
    }
}

#[test]
fn text_is_cut_and_joined() {
    assert_eq!("120", decimal(120));
    assert_eq!("0", decimal(0));
    assert_eq!("755", octal(0o755));
    assert_eq!("-131072", signed_decimal(-131072));
    assert_eq!("-2147483648", signed_decimal(i32::MIN));
    assert!(contains("abc", "bc"));
    assert!(contains("abc", ""));
    assert!(!contains("abc", "cb"));
    assert_eq!("xbxb", replace("abab", "a", "x"));
    assert_eq!("ba", replace("aaa", "aa", "b"));
    assert_eq!(2, trimmed_len(&to_chars("ab \n")));
    assert_eq!("é".as_bytes().to_vec(), text_bytes("é"));
    assert_eq!(Some("é".to_string()), decode_text("é".as_bytes().to_vec()));
    assert_eq!(None, decode_text(vec![0xc3]));
    assert!(text_equal("a", "a"));
    assert!(!text_equal("a", "b"));
}

#[test]
fn bytes_are_split() {
    assert_eq!(
        vec![b"a".to_vec(), b"".to_vec(), b"b".to_vec(), b"".to_vec()],
        split_bytes(b"a,,b,", b',')
    );
    assert_eq!(vec![b"a".to_vec(), b"b".to_vec()], split_list(b"a,,b,", b','));
    assert_eq!(
        vec![b"a".to_vec(), b"".to_vec(), b"b".to_vec()],
        split_lines(b"a\r\n\nb\n")
    );
    assert_eq!(
        vec![vec!['a'], vec!['b', 'c']],
        split_fields("a \t bc")
    );
}

#[test]
fn bytes_are_compared() {
    assert!(bytes_equal(b"ab", b"ab"));
    assert!(!bytes_equal(b"ab", b"ac"));
    assert!(bytes_less(b"a", b"ab"));
    assert!(bytes_less(b"a", b"b"));
    assert!(!bytes_less(b"b", b"ab"));
}

#[test]
fn last_position_wins() {
    let mut t = PositionTable::new();
    t.push(b"a".to_vec());
    t.push(b"b".to_vec());
    t.push(b"a".to_vec());
    assert_eq!(Some(2), t.find_last(b"a"));
    assert_eq!(Some(1), t.find_last(b"b"));
    assert_eq!(None, t.find_last(b"c"));
    assert!(t.contains(b"b"));
    assert!(!t.contains(b""));
}

#[test]
fn new_files_are_locked() {
    assert!(matches!(create_step(Ok(()), "f"), CreateStep::Lock));
    let fail = |kind| create_step(Err(IoError::new(kind, "reason")), "f");
    assert!(matches!(fail(IoErrorKind::NotFound), CreateStep::MakeParents));
    assert!(matches!(
        fail(IoErrorKind::AlreadyExists),
        CreateStep::Prune(e) if e.message == "reason"
    ));
    assert!(matches!(
        fail(IoErrorKind::PermissionDenied),
        CreateStep::Fail(e) if e.message == "couldn't open f for writing"
    ));
    assert_eq!("couldn't open f for writing", open_error(IoErrorKind::Other, "f").message);
    assert!(can_be_stale(true, 0));
    assert!(!can_be_stale(true, 1));
    assert!(!can_be_stale(false, 0));
}

#[test]
fn locks_belong_to_the_name() {
    assert!(lock_name("f", 7, 7).is_ok());
    let e = lock_name("f", 7, 8).unwrap_err();
    assert_eq!(IoErrorKind::WouldBlock, e.kind);
    assert_eq!("file lock for f acquired by a different process", e.message);
}

#[test]
fn temporary_files_are_beside_the_file() {
    assert_eq!(b"/a".to_vec(), parent_dir(b"/a/b"));
    assert_eq!(b"/".to_vec(), parent_dir(b"/"));
    let path = create_temp_path(b"/a");
    let prefix = format!("/a/{}", TEMP_PREFIX);
    assert!(path.starts_with(prefix.as_bytes()));
    assert_eq!(prefix.len() + 32, path.len());
    assert_eq!(
        "couldn't create temporary file x",
        temp_file_error(IoErrorKind::Other, "x").message
    );
}

#[test]
fn log_lines_name_level_and_thread() {
    let logger = Logger::init(Level::Info);
    assert!(logger.enabled(Level::Error));
    assert!(!logger.enabled(Level::Debug));
    let line = logger.log(Level::Info, "main", "1.5s", "done").unwrap();
    assert_eq!(format!("[{} (main) 1.5s]: done", Level::Info.name()), line);
    assert!(logger.log(Level::Trace, "main", "1.5s", "done").is_none());
}

#[test]
fn measured_calls_keep_their_result() {
    let (_, r) = measure(|| 5);
    assert_eq!(5, r);
    let (_, r) = measure_ok(|| Ok::<i32, ()>(6)).unwrap();
    assert_eq!(6, r);
    assert_eq!(Some(7), measure_ok(|| Err::<(), i32>(7)).err());
    assert!(measure_some(|| None::<i32>).is_none());
    assert_eq!(Some(8), measure_some(|| Some(8)).map(|p| p.1));
}
