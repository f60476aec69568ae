use photo_sword::paths::{split_path, Format, RegisterError};
use photo_sword::photos::PhotoCollection;
use photo_sword::serializers::{content_digest, SerializableHash};
use std::cell::Cell;

fn foobar_digest() -> SerializableHash {
    let mut hasher = blake3::Hasher::new();
    hasher.update(b"foobarindeadbeef");
    SerializableHash::from_bytes(*hasher.finalize().as_bytes())
}

#[test]
fn test_add_jpg_file() {
    let mut phc = PhotoCollection::new();
    phc.add_file("C:\\Chuj\\W\\Dupę\\Policji.jpg", 4096).unwrap();

    assert_eq!(phc.get_entries_number() == 0, false);
    let element = phc.get_element("Policji").unwrap();
    assert_eq!(element.stem, "Policji");
    assert_eq!(element.jpg.as_ref().unwrap().path, "C:\\Chuj\\W\\Dupę\\Policji.jpg");
    assert_eq!(element.jpg.as_ref().unwrap().size, 4096);
    assert_eq!(phc.get_entries_number(), 1);
    assert_eq!(phc.get_duplicates_number(), 0);
}

#[test]
fn test_add_raw_file() {
    let mut phc = PhotoCollection::new();
    phc.add_file("C:\\Chuj\\W\\Dupę\\Policji.nef", 8192).unwrap();

    assert_eq!(phc.get_entries_number() == 0, false);
    let element = phc.get_element("Policji").unwrap();
    assert_eq!(element.stem, "Policji");
    assert_eq!(element.raw.as_ref().unwrap().path, "C:\\Chuj\\W\\Dupę\\Policji.nef");
    assert_eq!(element.raw.as_ref().unwrap().size, 8192);
    assert_eq!(phc.get_entries_number(), 1);
    assert_eq!(phc.get_duplicates_number(), 0);
}

#[test]
fn test_add_jpg_duplicate() {
    let mut phc = PhotoCollection::new();
    phc.add_file("C:\\Chuj\\W\\Dupę\\Policji.jpg", 4096).unwrap();
    phc.add_file("C:\\Kij\\W\\Oko\\Policji.jpg", 4096).unwrap();

    assert_eq!(phc.get_entries_number() == 0, false);
    let element = phc.get_element("Policji").unwrap();
    assert_eq!(element.stem, "Policji");
    assert_eq!(element.jpg.as_ref().unwrap().path, "C:\\Chuj\\W\\Dupę\\Policji.jpg");
    assert_eq!(element.jpg.as_ref().unwrap().size, 4096);

    let opt_dupl_vec = phc.get_duplicates("Policji");
    assert!(opt_dupl_vec.is_some());
    let dupl_vec = opt_dupl_vec.unwrap();
    assert_eq!(dupl_vec.len(), 1);
    assert_eq!(phc.get_entries_number(), 1);
    assert_eq!(phc.get_duplicates_number(), 1);
}

#[test]
fn test_obtain_hashes() {
    let mut phc = PhotoCollection::new();
    phc.add_file("C:\\Chuj\\W\\Dupę\\Policji.jpg", 4096).unwrap();
    phc.add_file("C:\\Kij\\W\\Oko\\Policji.jpg", 4096).unwrap();

    phc.obtain_hashes(|path: &String| {
        assert!(path == "C:\\Chuj\\W\\Dupę\\Policji.jpg" || path == "C:\\Kij\\W\\Oko\\Policji.jpg");
        foobar_digest()
    });

    let expected = foobar_digest().0;
    let element = phc.get_element("Policji").unwrap();
    assert_eq!(element.jpg.as_ref().unwrap().hash.unwrap().0, expected);

    let dupl_vec = phc.get_duplicates("Policji").unwrap();
    assert_eq!(dupl_vec[0].jpg.as_ref().unwrap().hash.unwrap().0, expected);
}

#[test]
fn fresh_stems_each_add_one_entry() {
    let mut phc = PhotoCollection::new();
    phc.add_file("/a/IMG_0001.jpg", 1).unwrap();
    assert_eq!((phc.get_entries_number(), phc.get_duplicates_number()), (1, 0));
    phc.add_file("/a/IMG_0002.NEF", 2).unwrap();
    assert_eq!((phc.get_entries_number(), phc.get_duplicates_number()), (2, 0));
    phc.add_file("IMG_0003.JpG", 3).unwrap();
    assert_eq!((phc.get_entries_number(), phc.get_duplicates_number()), (3, 0));
}

#[test]
fn single_jpg_registration() {
    let mut phc = PhotoCollection::new();
    phc.add_file("/a/IMG_0001.jpg", 4096).unwrap();
    assert_eq!(phc.get_entries_number(), 1);
    assert_eq!(phc.get_duplicates_number(), 0);
    let e = phc.get_element("IMG_0001").unwrap();
    let jpg = e.jpg.as_ref().unwrap();
    assert_eq!(jpg.size, 4096);
    assert!(jpg.hash.is_none());
    assert!(e.raw.is_none());
    assert!(phc.get_duplicates("IMG_0001").is_none());
}

#[test]
fn same_stem_same_format_goes_to_duplicates() {
    let mut phc = PhotoCollection::new();
    phc.add_file("/a/IMG_0001.jpg", 10).unwrap();
    phc.add_file("/b/IMG_0001.jpg", 20).unwrap();
    assert_eq!(phc.get_entries_number(), 1);
    assert_eq!(phc.get_duplicates_number(), 1);
    assert_eq!(phc.get_duplicates("IMG_0001").unwrap().len(), 1);
    let primary = phc.get_element("IMG_0001").unwrap();
    assert_eq!(primary.jpg.as_ref().unwrap().path, "/a/IMG_0001.jpg");
    assert_eq!(primary.jpg.as_ref().unwrap().size, 10);
    let dup = &phc.get_duplicates("IMG_0001").unwrap()[0];
    assert_eq!(dup.stem, "IMG_0001");
    assert_eq!(dup.jpg.as_ref().unwrap().path, "/b/IMG_0001.jpg");
    assert_eq!(dup.jpg.as_ref().unwrap().size, 20);
    assert!(dup.raw.is_none());
}

#[test]
fn repeated_collisions_count_one_stem() {
    let mut phc = PhotoCollection::new();
    phc.add_file("/a/X.nef", 1).unwrap();
    phc.add_file("/b/X.nef", 2).unwrap();
    phc.add_file("/c/X.NEF", 3).unwrap();
    assert_eq!(phc.get_entries_number(), 1);
    assert_eq!(phc.get_duplicates_number(), 1);
    let dups = phc.get_duplicates("X").unwrap();
    assert_eq!(dups.len(), 2);
    assert_eq!(dups[0].raw.as_ref().unwrap().size, 2);
    assert_eq!(dups[1].raw.as_ref().unwrap().size, 3);
    assert_eq!(phc.get_element("X").unwrap().raw.as_ref().unwrap().size, 1);
}

#[test]
fn same_stem_other_format_fills_the_free_slot() {
    let mut phc = PhotoCollection::new();
    phc.add_file("/a/IMG_0001.jpg", 100).unwrap();
    phc.add_file("/a/IMG_0001.nef", 200).unwrap();
    assert_eq!(phc.get_entries_number(), 1);
    assert_eq!(phc.get_duplicates_number(), 0);
    let e = phc.get_element("IMG_0001").unwrap();
    assert_eq!(e.jpg.as_ref().unwrap().size, 100);
    assert_eq!(e.raw.as_ref().unwrap().size, 200);
}

#[test]
fn fixed_digest_reaches_every_slot() {
    let mut phc = PhotoCollection::new();
    phc.add_file("/a/P.jpg", 1).unwrap();
    phc.add_file("/a/P.nef", 2).unwrap();
    phc.add_file("/b/P.nef", 3).unwrap();
    phc.add_file("/a/Q.jpg", 4).unwrap();
    let fixed = SerializableHash::from_bytes([7u8; 32]);
    phc.obtain_hashes(|_path: &String| fixed);
    let p = phc.get_element("P").unwrap();
    assert_eq!(p.jpg.as_ref().unwrap().hash.unwrap().0, [7u8; 32]);
    assert_eq!(p.raw.as_ref().unwrap().hash.unwrap().0, [7u8; 32]);
    let q = phc.get_element("Q").unwrap();
    assert_eq!(q.jpg.as_ref().unwrap().hash.unwrap().0, [7u8; 32]);
    let d = &phc.get_duplicates("P").unwrap()[0];
    assert_eq!(d.raw.as_ref().unwrap().hash.unwrap().0, [7u8; 32]);
}

#[test]
fn hashing_twice_calls_the_hasher_once_per_file() {
    let mut phc = PhotoCollection::new();
    phc.add_file("/a/P.jpg", 1).unwrap();
    phc.add_file("/a/P.nef", 2).unwrap();
    phc.add_file("/b/P.jpg", 3).unwrap();
    let calls = Cell::new(0u32);
    let hasher = |path: &String| {
        calls.set(calls.get() + 1);
        content_digest(path.as_bytes())
    };
    phc.obtain_hashes(&hasher);
    assert_eq!(calls.get(), 3);
    let first = phc.get_element("P").unwrap().jpg.as_ref().unwrap().hash.unwrap().0;
    phc.obtain_hashes(&hasher);
    assert_eq!(calls.get(), 3);
    let again = phc.get_element("P").unwrap().jpg.as_ref().unwrap().hash.unwrap().0;
    assert_eq!(first, again);
    assert_eq!(first, *blake3::hash(b"/a/P.jpg").as_bytes());
}

#[test]
fn path_without_extension_is_refused() {
    let mut phc = PhotoCollection::new();
    phc.add_file("/a/IMG_0001.jpg", 1).unwrap();
    assert_eq!(phc.add_file("/a/IMG_0002", 5), Err(RegisterError::UnsupportedFormat));
    assert_eq!(phc.add_file("/a/IMG_0001", 5), Err(RegisterError::UnsupportedFormat));
    assert_eq!(phc.get_entries_number(), 1);
    assert_eq!(phc.get_duplicates_number(), 0);
    assert!(phc.get_element("IMG_0002").is_none());
    assert!(phc.get_element("IMG_0001").unwrap().raw.is_none());
}

#[test]
fn path_without_file_name_is_refused() {
    let mut phc = PhotoCollection::new();
    assert_eq!(phc.add_file("", 1), Err(RegisterError::InvalidPath));
    assert_eq!(phc.add_file("/a/photos/", 1), Err(RegisterError::InvalidPath));
    assert_eq!(phc.add_file("/a/..", 1), Err(RegisterError::InvalidPath));
    assert_eq!(phc.add_file("C:\\a\\.", 1), Err(RegisterError::InvalidPath));
    assert_eq!(phc.get_entries_number(), 0);
}

#[test]
fn unsupported_extension_is_refused() {
    let mut phc = PhotoCollection::new();
    assert_eq!(phc.add_file("/a/IMG_0001.png", 1), Err(RegisterError::UnsupportedFormat));
    assert_eq!(phc.add_file("/a/IMG_0001.jpeg", 1), Err(RegisterError::UnsupportedFormat));
    assert_eq!(phc.add_file("/a/.jpg", 1), Err(RegisterError::UnsupportedFormat));
    assert_eq!(phc.add_file("/a/IMG_0001.", 1), Err(RegisterError::UnsupportedFormat));
    assert_eq!(phc.get_entries_number(), 0);
}

#[test]
fn split_path_takes_stem_and_format() {
    let (stem, f) = split_path("/photos/2020/trip.day1.JPG").unwrap();
    assert_eq!(stem, "trip.day1");
    assert_eq!(f, Format::Lossy);
    let (stem, f) = split_path("D:\\raw\\Żółw.Nef").unwrap();
    assert_eq!(stem, "Żółw");
    assert_eq!(f, Format::Raw);
    let (stem, _) = split_path("mixed/dir\\name.jpg").unwrap();
    assert_eq!(stem, "name");
}

#[test]
fn content_digest_is_blake3() {
    let d = content_digest(b"foobarindeadbeef");
    assert_eq!(d.0, foobar_digest().0);
    assert_eq!(content_digest(b"").0, *blake3::hash(b"").as_bytes());
    assert_ne!(content_digest(b"a").0, content_digest(b"b").0);
}
