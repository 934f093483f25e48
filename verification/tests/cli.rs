use elfshaker::cli::commands::{
    check_compression_level, check_gc_options, check_level_in, distinct_packs, extract_summary, file_source,
    get_frame_size_hint, head_after_pack, is_already_extracted, loose_snapshot, pack_source,
    pack_to_explode, prepare_pack, read_files_list, select_entries, snapshot_list, thread_count,
    FileSource, PackSource, PrepareError,
};
use elfshaker::cli::progress::{
    create_progress_bar, percentage, PercentagePrinter, DEFAULT_PROGRESS_BAR_WIDTH,
};
use elfshaker::cli::rows::{
    find_rows, format_file_row, format_pack_row, format_snapshot_row, is_file_size_required,
    print_files, print_packs, print_snapshots, snapshot_rows, sort_lines, ListedPack,
};
use elfshaker::cli::size::format_size;
use elfshaker::cli::table::print_table;
use elfshaker::packidx::{FileEntry, ObjectMetadata, PackError, PackIndexV1};
use elfshaker::progress::Checkpoint;
use elfshaker::repo::search::TaggedPack;
use elfshaker::repo::{Error, ExtractResult, IdError, PackId, SnapshotId};

fn pack(s: &str) -> PackId {
    PackId::from_str(s).unwrap()
}

fn snapshot(s: &str) -> SnapshotId {
    SnapshotId::from_str(s).unwrap()
}

fn entry(path: &str, n: u8) -> FileEntry {
    FileEntry::new(
        path.into(),
        [n; 20],
        ObjectMetadata { offset: 0, size: n as u64 * 1000 },
    )
}

fn index(snapshots: &[(&str, &[(&str, u8)])]) -> PackIndexV1 {
    let mut index = PackIndexV1::new();
    for (tag, files) in snapshots.iter() {
        let entries = files.iter().map(|(p, n)| entry(p, *n)).collect();
        index.push_snapshot(tag.to_string(), entries).unwrap();
    }
    index
}

#[test]
fn sizes_are_in_mebibytes() {
    assert_eq!("0.000MiB", format_size(0));
    assert_eq!("1.000MiB", format_size(1024 * 1024));
    assert_eq!("1.500MiB", format_size(1536 * 1024));
    for bytes in [1, 524, 525, 1049, 123456789, 987654321987, u64::MAX, (1 << 53) + 1] {
        let expected = format!("{:.3}MiB", bytes as f64 / 1024.0 / 1024.0);
        assert_eq!(expected, format_size(bytes));
    }
}

#[test]
fn sizes_are_rounded_like_floating_point() {
    for i in 0..100000u64 {
        let bytes = i.wrapping_mul(0x9e3779b97f4a7c15) >> (i % 64);
        let expected = format!("{:.3}MiB", bytes as f64 / 1024.0 / 1024.0);
        assert_eq!(expected, format_size(bytes));
    }
}

#[test]
fn progress_bars() {
    assert_eq!("[==> ]", create_progress_bar(50, 4));
    assert_eq!("[>]", create_progress_bar(0, 1));
    assert_eq!("[>]", create_progress_bar(100, 1));
    assert_eq!("[>   ]", create_progress_bar(0, 4));
    assert_eq!("[===>]", create_progress_bar(100, 4));
    assert_eq!("[>]", create_progress_bar(50, 0));
    assert_eq!("[>]", create_progress_bar(50, -7));
    assert_eq!(33, percentage(1, 2));
    assert_eq!(0, percentage(0, 0));
    assert_eq!(100, percentage(7, 0));
}

fn at(done: usize, remaining: Option<usize>) -> Checkpoint {
    Checkpoint { done, remaining }
}

#[test]
fn progress_is_printed_in_steps() {
    let mut p = PercentagePrinter::new("Packing", 10, false);
    assert_eq!(
        Some("\rPacking [>                        ] 0% [0/100]".to_string()),
        p.report(&at(0, Some(100)), None)
    );
    assert_eq!(None, p.report(&at(9, Some(91)), None));
    assert_eq!(
        Some("\rPacking [===>                     ] 10% [10/100]: file".to_string()),
        p.report(&at(10, Some(90)), Some("file"))
    );
    assert_eq!(
        Some("\rPacking [100/100]\n".to_string()),
        p.report(&at(100, Some(0)), None)
    );
    assert_eq!(
        Some("Packing... [5/?]\n".to_string()),
        p.report(&at(5, None), None)
    );
}

#[test]
fn progress_bars_are_as_wide_as_asked_for() {
    for width in 1..=60 {
        for percent in 0..=100 {
            let bar = create_progress_bar(percent, width);
            let inner = bar.strip_prefix('[').unwrap().strip_suffix(']').unwrap();
            assert_eq!(width as usize, inner.len());
            assert!(inner.trim_start_matches('=').trim_end_matches(' ') == ">");
        }
    }
}

#[test]
fn progress_bars_are_rounded_like_floating_point() {
    let width = DEFAULT_PROGRESS_BAR_WIDTH;
    for percent in 0..=100 {
        let full = ((percent as f32 / 100f32) * width as f32).round() as usize;
        let bar = create_progress_bar(percent, width);
        assert_eq!(full.min(width as usize - 1), bar.find('>').unwrap() - 1);
    }
}

#[test]
fn progress_refreshes_the_line() {
    let mut p = PercentagePrinter::new("M", 100, true);
    for _ in 0..2 {
        assert_eq!(
            Some(
                "\x1b[2K\r\x1b[1m\x1b[36;1mM\x1b[32;0m [=============>           ] 50% [1/2]"
                    .to_string()
            ),
            p.report(&at(1, Some(1)), None)
        );
    }
}

#[test]
fn tables_are_aligned() {
    let text = |s: &str| s.to_string();
    let rows = vec![vec![text("a"), text("bbb")], vec![text("cc"), text("d")]];
    let (header, lines) = print_table(Some(vec![text("X"), text("LONG")]), &rows);
    assert_eq!("X  LONG \n", header);
    assert_eq!("a  bbb  \ncc d    \n", lines);
    let (header, lines) = print_table(None, &rows);
    assert_eq!("", header);
    assert_eq!("a  bbb \ncc d   \n", lines);
    let (header, lines) = print_table(Some(vec![text("X"), text("Y")]), &[]);
    assert_eq!("X Y \n", header);
    assert_eq!("", lines);
}

#[test]
fn snapshot_rows_follow_the_format() {
    assert_eq!(
        "P:t t 1.000MiB 1048576 7",
        format_snapshot_row("%s %t %h %b %n", &pack("P"), "t", 1048576, 7)
    );
    assert!(is_file_size_required("%s %h"));
    assert!(is_file_size_required("%b"));
    assert!(!is_file_size_required("%s %n"));
    let idx = index(&[("one", &[("a", 1), ("b", 2)]), ("two", &[("a", 1)])]);
    assert_eq!(
        vec!["P:one 3000 2", "P:two 1000 1"],
        snapshot_rows("%s %b %n", &pack("P"), &idx).unwrap()
    );
    assert_eq!(
        vec!["one 2", "two 1"],
        snapshot_rows("%t %n", &pack("P"), &idx).unwrap()
    );
    let other = index(&[("a", &[("x", 1)])]);
    assert_eq!(
        vec!["P:one", "P:two", "Q:a"],
        print_snapshots("%s", &[pack("Q"), pack("P")], &[other, idx]).unwrap()
    );
}

#[test]
fn file_rows_follow_the_format() {
    assert_eq!(
        "0101010101010101010101010101010101010101 a/b 0.001MiB 1024 755",
        format_file_row("%o %f %h %b %p", &[1; 20], b"a/b", 1024, 0o755)
    );
    assert_eq!(
        "\u{fffd}",
        format_file_row("%f", &[1; 20], b"\xff", 0, 0)
    );
    let entries = [entry("z", 1), entry("a", 2)];
    assert_eq!(vec!["a 2000", "z 1000"], print_files("%f %b", &entries));
}

#[test]
fn pack_rows_follow_the_format() {
    assert_eq!(
        "P 3 1024 0.001MiB",
        format_pack_row("%p %c %b %h", &pack("P"), 3, 1024)
    );
    let packs = [
        ListedPack { id: pack("b"), snapshot_count: 1, size: 2 },
        ListedPack { id: pack("a"), snapshot_count: 3, size: 4 },
    ];
    assert_eq!(vec!["a 3", "b 1"], print_packs("%p %c", &packs));
    let lines = ["b".to_string(), "a".to_string(), "a".to_string()];
    assert_eq!(vec!["a", "a", "b"], sort_lines(&lines));
}

#[test]
fn snapshots_are_found_by_part_of_the_tag() {
    let packs = [
        TaggedPack { id: pack("P"), tags: vec!["abc".to_string(), "xyz".to_string()] },
        TaggedPack { id: pack("Q"), tags: vec!["bcd".to_string()] },
    ];
    let rows = find_rows("bc", &packs);
    assert_eq!(2, rows.len());
    assert!(rows[0].contains(&"abc".to_string()));
    assert!(rows[1].contains(&"Q".to_string()));
    assert!(find_rows("nothing", &packs).is_empty());
}

#[test]
fn threads_default_to_physical_cores() {
    assert_eq!(8, thread_count(0, 8));
    assert_eq!(3, thread_count(3, 8));
}

#[test]
fn compression_levels_are_checked() {
    assert!(check_compression_level(1).is_ok());
    assert!(check_compression_level(22).is_ok());
    assert!(check_compression_level(-131072).is_ok());
    assert_eq!(
        "Invalid compression level 23 (value must be between -131072 and 22)!",
        check_compression_level(23).unwrap_err()
    );
    assert!(check_compression_level(-131073).is_err());
    assert!(check_level_in(5, 5, 5).is_ok());
    assert!(check_level_in(4, 5, 5).is_err());
    let range = zstd::compression_level_range();
    assert_eq!((-131072, 22), (*range.start(), *range.end()));
}

#[test]
fn options_of_pack_exclude_each_other() {
    assert_eq!(Ok(PackSource::Lines), pack_source(true, false, false));
    assert_eq!(Ok(PackSource::NulSeparated), pack_source(false, true, false));
    assert_eq!(Ok(PackSource::Indexes), pack_source(false, false, true));
    assert_eq!(Ok(PackSource::LoosePacks), pack_source(false, false, false));
    assert!(pack_source(true, true, false).is_err());
    assert!(pack_source(true, false, true).is_err());
    assert_eq!(
        Err("Invalid options!".to_string()),
        pack_source(false, true, true)
    );
}

#[test]
fn options_of_store_exclude_each_other() {
    assert_eq!(Ok(FileSource::List(b'\n')), file_source(true, false));
    assert_eq!(Ok(FileSource::List(0)), file_source(false, true));
    assert_eq!(Ok(FileSource::Everything), file_source(false, false));
    assert!(file_source(true, true).is_err());
    assert!(check_gc_options(true, false).is_ok());
    assert!(check_gc_options(false, false).is_err());
}

#[test]
fn lists_are_split_at_the_separator() {
    assert_eq!(
        vec![b"a".to_vec(), b"b\nc".to_vec()],
        read_files_list(b"a\0\0b\nc\0", 0)
    );
    let (list, error) = snapshot_list(b"one\n\ntwo", b'\n');
    assert_eq!(vec!["one", "two"], list);
    assert!(error.is_none());
    let (list, error) = snapshot_list(b"one\n\xff\ntwo", b'\n');
    assert_eq!(vec!["one"], list);
    match error {
        Some(Error::IOError(e)) => assert_eq!(
            "Unable to decode snapshot list: invalid utf-8 sequence of 1 bytes from index 0",
            e.message
        ),
        e => panic!("unexpected error: {:?}", e),
    }
}

#[test]
fn frames_depend_on_the_size() {
    assert_eq!(0, get_frame_size_hint(0));
    assert_eq!(1, get_frame_size_hint(1));
    assert_eq!(1, get_frame_size_hint(536870912));
    assert_eq!(2, get_frame_size_hint(536870913));
    assert_eq!(2, get_frame_size_hint(1073741824));
}

#[test]
fn packs_are_prepared() {
    let indexes = [index(&[("a", &[("x", 1)])]), index(&[("b", &[("y", 2)])])];
    let p = prepare_pack(&indexes, 9, 4, 0).unwrap();
    assert_eq!(&vec!["a", "b"], p.index.snapshot_tags());
    assert_eq!(9, p.options.compression_level);
    assert_eq!(28, p.options.compression_window_log);
    assert_eq!(4, p.options.num_workers);
    assert_eq!(1, p.options.num_frames);
    let p = prepare_pack(&indexes, 9, 4, 3).unwrap();
    assert_eq!(3, p.options.num_frames);
    let e = prepare_pack(&[], 9, 4, 3).err().unwrap();
    assert_eq!("There are no loose snapshots!", e.message());
}

#[test]
fn packs_of_huge_objects_are_not_prepared() {
    let huge = |n: u8| {
        let metadata = ObjectMetadata { offset: 0, size: u64::MAX };
        FileEntry::new(vec![n], [n; 20], metadata)
    };
    let mut idx = PackIndexV1::new();
    idx.push_snapshot("t".to_string(), vec![huge(1), huge(2)]).unwrap();
    let e = prepare_pack(&[idx], 9, 4, 0).err().unwrap();
    assert!(matches!(e, PrepareError::TooLarge));
    assert_eq!("The objects are too large!", e.message());
}

#[test]
fn packs_of_broken_indexes_are_not_prepared() {
    let mut parts = index(&[("a", &[("x", 1)]), ("b", &[("y", 2)])]).to_parts();
    parts.deltas[1].0 = vec![(9, 0)];
    parts.deltas[1].1 = vec![];
    let broken = PackIndexV1::from_parts(parts).unwrap();
    assert!(broken.is_walkable());
    assert!(matches!(
        prepare_pack(&[broken], 9, 4, 0),
        Err(PrepareError::PackError(PackError::PathNotFound(9)))
    ));
}

#[test]
fn snapshots_with_the_same_tag_are_not_packed() {
    let indexes = [
        index(&[("b", &[("z", 3)])]),
        index(&[("a", &[("x", 1)]), ("b", &[("y", 2)]), ("c", &[])]),
    ];
    let e = prepare_pack(&indexes, 9, 4, 0).err().unwrap();
    assert!(matches!(
        &e,
        PrepareError::PackError(PackError::SnapshotAlreadyExists(_, tag)) if tag == "b"
    ));
    assert_eq!(
        "A snapshot with the tag 'b' is already present in the pack '<unknown>'!",
        e.message()
    );
    // The first fault counts.
    let mut parts = index(&[("a", &[("x", 1)]), ("b", &[("y", 2)]), ("c", &[])]).to_parts();
    parts.deltas[2].0 = vec![(9, 0)];
    let broken = PackIndexV1::from_parts(parts).unwrap();
    let indexes = [index(&[("b", &[("z", 3)])]), broken];
    assert!(matches!(
        prepare_pack(&indexes, 9, 4, 0),
        Err(PrepareError::PackError(PackError::SnapshotAlreadyExists(_, _)))
    ));
}

#[test]
fn packs_are_listed_once() {
    let ids = [pack("a"), pack("b"), pack("a"), pack("c"), pack("b")];
    let names: Vec<String> = distinct_packs(&ids)
        .iter()
        .map(|p| p.as_str().to_string())
        .collect();
    assert_eq!(vec!["a", "b", "c"], names);
}

#[test]
fn head_moves_into_the_pack() {
    let head = snapshot("loose/t:t");
    let moved = head_after_pack(&head, &[pack("x"), pack("loose/t")], &pack("P"));
    assert_eq!("P:t", moved.unwrap().to_text());
    assert!(head_after_pack(&head, &[pack("x")], &pack("P")).is_none());
}

#[test]
fn extraction_of_the_head_is_skipped() {
    let id = snapshot("P:t");
    assert!(is_already_extracted(&Some(id.clone()), &id, false));
    assert!(!is_already_extracted(&Some(id.clone()), &id, true));
    assert!(!is_already_extracted(&None, &id, false));
    let result = ExtractResult {
        modified_file_count: 1,
        added_file_count: 2,
        removed_file_count: 3,
    };
    assert_eq!(
        "A \t2 files\nD \t3 files\nM \t1 files\nExtracted 'P:t'\n",
        extract_summary(&result, &id)
    );
}

#[test]
fn loose_snapshots_have_their_own_pack() {
    assert_eq!("loose/t:t", loose_snapshot("t").unwrap().to_text());
    assert!(matches!(
        loose_snapshot("a b"),
        Err(IdError::InvalidSnapshot(_))
    ));
}

#[test]
fn entries_are_selected_by_path() {
    let entries = [entry("a", 1), entry("b", 2)];
    let selected = select_entries(&entries, &[b"b".to_vec()]).unwrap();
    assert_eq!(1, selected.len());
    assert_eq!(b"b".to_vec(), selected[0].path);
    assert_eq!(
        "Some of the paths did not match files in the snapshot!",
        select_entries(&entries, &[b"c".to_vec()]).unwrap_err()
    );
}

#[test]
fn exploding_needs_a_pack() {
    assert_eq!("P", pack_to_explode(Ok(Some(pack("P"))), "P").unwrap().as_str());
    assert!(matches!(
        pack_to_explode(Ok(None), "P"),
        Err(Error::PackNotFound(p)) if p == "P"
    ));
    let e = IdError::InvalidPack("?".to_string());
    assert!(matches!(pack_to_explode(Err(e), "?"), Err(Error::IdError(_))));
}
