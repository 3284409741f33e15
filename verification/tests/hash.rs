use pathit::hash::digest_length;
use pathit::hash::dir_hash;
use pathit::hash::hash_file;
use pathit::hash::FileHasher;
use pathit::hash::HashEvent;
use pathit::hash::HashStep;
use pathit::hash::MAX_CONTENT;

type Step = HashStep<&'static str>;

fn start(is_dir: bool) -> Step {
    hash_file(FileHasher::new(), HashEvent::Start { is_dir })
}

fn feed(hasher: FileHasher, chunk: &[u8]) -> Step {
    hash_file(hasher, HashEvent::Chunk(chunk))
}

fn digest_of(chunks: &[&[u8]]) -> String {
    let mut step = start(false);
    for chunk in chunks.iter() {
        step = match step {
            HashStep::Read(hasher) => feed(hasher, chunk),
            _ => panic!("the hasher stopped before the end of the file"),
        };
    }
    match step {
        HashStep::Read(hasher) => match feed(hasher, &[]) {
            HashStep::Done(digest) => digest,
            _ => panic!("no digest at the end of the file"),
        },
        _ => panic!("the hasher stopped before the end of the file"),
    }
}

#[test]
fn digest_length_is_64() {
    assert_eq!(digest_length(), 64);
}

#[test]
fn max_content_is_the_largest_count_whose_bits_fit() {
    assert_eq!(MAX_CONTENT, u64::MAX / 8);
}

#[test]
fn dir_hash_is_64_dashes() {
    let digest = dir_hash();
    assert_eq!(digest.len(), 64);
    assert!(digest.chars().all(|c| c == '-'));
    assert_eq!(digest, "-".repeat(64));
}

#[test]
fn a_directory_is_never_read() {
    match start(true) {
        HashStep::Done(digest) => assert_eq!(digest, "-".repeat(64)),
        _ => panic!("a directory has its digest at once"),
    }
}

#[test]
fn a_file_is_read() {
    assert!(matches!(start(false), HashStep::Read(_)));
}

#[test]
fn empty_file_has_the_digest_of_no_bytes() {
    assert_eq!(
        digest_of(&[]),
        "e3b0c44298fc1c149afbf4c8996fb92427ae41e4649b934ca495991b7852b855"
    );
}

#[test]
fn known_digests() {
    assert_eq!(
        digest_of(&[b"1"]),
        "6b86b273ff34fce19d6b804eff5a3f5747ada4eaa22f1d49c01e52ddb7875b4b"
    );
    assert_eq!(
        digest_of(&[b"2"]),
        "d4735e3a265e16eee03f59718b9b5d03019c07d8b6c51f90da3a666eec13ab35"
    );
    assert_eq!(
        digest_of(&[b"abc"]),
        "ba7816bf8f01cfea414140de5dae2223b00361a396177a9cb410ff61f20015ad"
    );
    assert_eq!(
        digest_of(&[b"hello world"]),
        "b94d27b9934d3e08a52e52d7da7dabfac484efe37a5380ee9088f7ace2efcde9"
    );
}

#[test]
fn digest_does_not_depend_on_the_chunks() {
    let whole = digest_of(&[b"hello world"]);
    assert_eq!(digest_of(&[b"hello", b" ", b"world"]), whole);
    assert_eq!(digest_of(&[b"h", b"ello worl", b"d"]), whole);
    let long: Vec<u8> = (0..1000u32).map(|i| (i % 251) as u8).collect();
    let once = digest_of(&[&long]);
    let pieces: Vec<&[u8]> = long.chunks(64).collect();
    assert_eq!(digest_of(&pieces), once);
    let odd: Vec<&[u8]> = long.chunks(7).collect();
    assert_eq!(digest_of(&odd), once);
}

#[test]
fn hashing_is_deterministic() {
    assert_eq!(digest_of(&[b"same content"]), digest_of(&[b"same content"]));
    assert_ne!(digest_of(&[b"same content"]), digest_of(&[b"other content"]));
}

#[test]
fn a_file_digest_is_lower_case_hexadecimal() {
    let digest = digest_of(&[b"\xff\x00\xab"]);
    assert_eq!(digest.len(), 64);
    assert!(digest.chars().all(|c| c.is_ascii_digit() || ('a'..='f').contains(&c)));
    assert_ne!(digest, dir_hash());
}

#[test]
fn a_failed_read_gives_its_error_and_no_digest() {
    let hasher = match start(false) {
        HashStep::Read(hasher) => hasher,
        _ => panic!("a file is read"),
    };
    let hasher = match feed(hasher, b"abc") {
        HashStep::Read(hasher) => hasher,
        _ => panic!("a file is read on"),
    };
    assert!(matches!(
        hash_file(hasher, HashEvent::ReadFailed("unreadable")),
        HashStep::Failed("unreadable")
    ));
}
