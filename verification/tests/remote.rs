use elfshaker::repo::remote::{
    accept_pack, accept_pack_index, content_length, format_http_date, is_remote_index,
    is_up_to_date, matches_checksum, pack_index_target, reify, resource_status, RemoteIndex,
    RemotePack, ResourceStatus,
};
use elfshaker::repo::Error;

#[test]
fn test_format_http_date_works() {
    assert_eq!(
        format_http_date(0).unwrap(),
        "Thu, 01 Jan 1970 00:00:00 GMT"
    );
}

#[test]
fn test_remote_index_read_works() -> Result<(), Error> {
    let r = RemoteIndex::read(
        "\
meta\tv1
url   https://github.com/elfshaker/releases/download/index.esi
90765d432f15eda9b42e0ed747ceaa9b5f8237de 3fc6c1b427b19217cdd9c4eecf0c74943fa4adb2\thttps://gitlab.com/elfshaker/releases/download/A.pack
f3a50129b7ac872b63585f884f1a73e013d51f85\td8a41c1859d6276f0dd74fdd7e4513d89f68600f  B.pack"
            .as_bytes(),
    )?;

    assert_eq!(r.meta, "v1");
    assert_eq!(
        r.url,
        "https://github.com/elfshaker/releases/download/index.esi"
    );
    assert_eq!(r.packs.len(), 2);
    assert_eq!(
        r.packs[0].url,
        "https://gitlab.com/elfshaker/releases/download/A.pack"
    );
    assert_eq!(
        r.packs[0].index_checksum.to_vec(),
        hex::decode(b"90765d432f15eda9b42e0ed747ceaa9b5f8237de").unwrap()
    );
    assert_eq!(
        r.packs[0].pack_checksum.to_vec(),
        hex::decode(b"3fc6c1b427b19217cdd9c4eecf0c74943fa4adb2").unwrap()
    );
    assert_eq!(
        r.packs[1].url,
        "https://github.com/elfshaker/releases/download/B.pack"
    );
    assert_eq!(
        r.packs[1].index_checksum.to_vec(),
        hex::decode(b"f3a50129b7ac872b63585f884f1a73e013d51f85").unwrap()
    );
    assert_eq!(
        r.packs[1].pack_checksum.to_vec(),
        hex::decode(b"d8a41c1859d6276f0dd74fdd7e4513d89f68600f").unwrap()
    );

    Ok(())
}

#[test]
fn test_remote_index_no_packs_read_works() -> Result<(), Error> {
    let r = RemoteIndex::read(
        "\
meta\tv1
url\thttps://github.com/elfshaker/releases/download/index.esi"
            .as_bytes(),
    )?;

    assert_eq!(r.meta, "v1");
    assert_eq!(
        r.url,
        "https://github.com/elfshaker/releases/download/index.esi"
    );
    assert_eq!(r.packs.len(), 0);

    Ok(())
}

#[test]
fn test_remote_index_bad_meta_read_fails() {
    let _no_meta = RemoteIndex::read(
        "url\thttps://github.com/elfshaker/releases/download/index.esi".as_bytes(),
    )
    .expect_err("no meta");
    let _no_meta_value = RemoteIndex::read(
        "meta\nurl\thttps://github.com/elfshaker/releases/download/index.esi".as_bytes(),
    )
    .expect_err("no meta value");
    let _bad_meta_delimiter = RemoteIndex::read(
        "meta_v1\nurl\thttps://github.com/elfshaker/releases/download/index.esi".as_bytes(),
    )
    .expect_err("no meta delimiter");
}

#[test]
fn test_remote_index_bad_url_read_fails() {
    let _no_url = RemoteIndex::read("meta\tv1".as_bytes()).unwrap_err();
    let _no_url_value =
        RemoteIndex::read("meta\tv1\nurl".as_bytes()).unwrap_err();
    // The bad delimiter case is covered by the meta delimiter test.
}

#[test]
fn test_remote_index_bad_checksum_fails() {
    let _bad_checksum = RemoteIndex::read(
        "meta\tv1\nurl\thttps://\nCH3kS0M\thttps://asd".as_bytes(),
    )
    .unwrap_err();
}

#[test]
fn test_remote_index_bad_pack_url_fails() {
    let _no_pack_url = RemoteIndex::read(
        "meta\tv1\nurl\thttps://\nf3a50129b7ac872b63585f884f1a73e013d51f85\t".as_bytes(),
    )
    .unwrap_err();
    let _bad_pack_url = RemoteIndex::read(
        "meta\tv1\nurl\thttps://\nf3a50129b7ac872b63585f884f1a73e013d51f85\thttps://"
            .as_bytes(),
    )
    .unwrap_err();
}

#[test]
fn test_remote_index_bad_pack_delimiter_fails() {
    let _no_pack_url = RemoteIndex::read(
        "meta\tv1\nurl\thttps://\nf3a50129b7ac872b63585f884f1a73e013d51f85 https://".as_bytes(),
    )
    .unwrap_err();
}

const INDEX: &str = "meta\tv1\nurl\thttps://host/dir/index.esi\n\
90765d432f15eda9b42e0ed747ceaa9b5f8237de\t3fc6c1b427b19217cdd9c4eecf0c74943fa4adb2\tA.pack\n\
f3a50129b7ac872b63585f884f1a73e013d51f85\td8a41c1859d6276f0dd74fdd7e4513d89f68600f\thttps://x/B.pack\n";

fn message(e: Error) -> String {
    match e {
        Error::BadRemoteIndexFormat(f) => f.message,
        e => panic!("unexpected error: {:?}", e),
    }
}

#[test]
fn remote_pack_urls_are_resolved() {
    let r = RemoteIndex::read(INDEX.as_bytes()).unwrap();
    assert_eq!(2, r.packs().len());
    assert_eq!("https://host/dir/A.pack", r.packs()[0].url);
    assert_eq!("A.pack", r.packs()[0].file_name());
    assert_eq!("https://x/B.pack", r.packs()[1].url);
    assert_eq!("https://x/B.pack", r.find_pack("B").unwrap().url);
    assert!(r.find_pack("C").is_none());
}

#[test]
fn remote_index_name_is_the_file_stem() {
    let r = RemoteIndex::load(b"/r/remotes/origin.esi", INDEX.as_bytes(), "origin.esi").unwrap();
    assert_eq!(Some(b"/r/remotes/origin.esi".as_slice()), r.path());
    assert_eq!(Some("origin".to_string()), r.name());
    assert_eq!("origin (https://host/dir/index.esi)", r.to_text());
    let r = RemoteIndex::new("https://host/index.esi".to_string());
    assert_eq!(None, r.name());
    assert_eq!("https://host (https://host/index.esi)", r.to_text());
    assert_eq!("v1", r.meta);
}

#[test]
fn remote_index_name_that_is_not_text() {
    let r = RemoteIndex::load(b"/r/\xff.esi", INDEX.as_bytes(), "x").unwrap();
    assert_eq!(Some("\u{fffd}".to_string()), r.name());
}

#[test]
fn remote_index_that_is_not_text_fails() {
    let e = RemoteIndex::read(b"meta\tv1\nurl\thttps://host/i\n\xff\n").unwrap_err();
    assert!(matches!(
        e,
        Error::IOError(e) if e.message == "stream did not contain valid UTF-8"
    ));
}

#[test]
fn remote_index_empty_fails() {
    message(RemoteIndex::read(b"").unwrap_err());
}

#[test]
fn reify_keeps_an_unspecified_source() {
    let e = RemoteIndex::load(b"/x.esi", b"nothing", "display").unwrap_err();
    match reify(e, "other") {
        Error::BadRemoteIndexFormat(f) => {
            assert!(f.source.is_none());
            assert!(f.text().ends_with("(source=(unspecified))"));
        }
        e => panic!("unexpected error: {:?}", e),
    }
}

#[test]
fn remote_index_extension() {
    assert!(is_remote_index(b"/r/remotes/origin.esi"));
    assert!(!is_remote_index(b"/r/remotes/origin.txt"));
    assert!(!is_remote_index(b"/r/remotes/.esi"));
}

#[test]
fn content_length_defaults_to_zero() {
    assert_eq!(1234, content_length(Some("1234")));
    assert_eq!(0, content_length(Some("12a")));
    assert_eq!(0, content_length(None));
}

#[test]
fn status_codes() {
    assert!(matches!(resource_status(200), Ok(ResourceStatus::Content)));
    assert!(matches!(
        resource_status(304),
        Ok(ResourceStatus::NotModified)
    ));
    assert!(matches!(
        resource_status(404),
        Err(Error::HttpError(m)) if m == "Response status code 404 indicates failure!"
    ));
}

fn abc_pack() -> RemotePack {
    // SHA-1 of "abc".
    let mut pack_checksum = [0; 20];
    let bytes = hex::decode("a9993e364706816aba3e25717850c26c9cd0d89d").unwrap();
    pack_checksum.copy_from_slice(&bytes);
    RemotePack {
        index_checksum: [1; 20],
        pack_checksum,
        url: "https://host/dir/A.pack".to_string(),
    }
}

#[test]
fn downloads_are_checked() {
    let p = abc_pack();
    assert!(accept_pack(&p, b"abc").is_ok());
    assert!(matches!(accept_pack(&p, b"abd"), Err(Error::CorruptPack)));
    assert!(matches_checksum(b"abc", &p.pack_checksum));
    assert!(is_up_to_date(Some(&b"abc".to_vec()), &p.pack_checksum));
    assert!(!is_up_to_date(Some(&b"".to_vec()), &p.pack_checksum));
    assert!(!is_up_to_date(None, &p.pack_checksum));
    assert!(!accept_pack_index(b"not an index"));
}

#[test]
fn pack_index_is_beside_the_pack() {
    let (url, name) = pack_index_target(&abc_pack()).unwrap();
    assert_eq!("https://host/dir/A.pack.idx", url);
    assert_eq!("A.pack.idx", name);
}

#[test]
fn http_dates() {
    assert_eq!(
        Some("Sun, 06 Nov 1994 08:49:37 GMT".to_string()),
        format_http_date(784111777)
    );
    assert_eq!(None, format_http_date(i64::MAX));
}
