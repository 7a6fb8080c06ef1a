use chksum_core::{chksum, hash, Chksumable, Digest, Error, Hashable, Md5, Md5Digest};

const EMPTY_MD5: &str = "d41d8cd98f00b204e9800998ecf8427e";
const ABC_MD5: &str = "900150983cd24fb0d6963f7d28e17f72";
const FOX: &str = "The quick brown fox jumps over the lazy dog";
const FOX_MD5: &str = "9e107d9d372bb6826bd81d3542a419d6";

fn md5_fresh() -> Md5 {
    chksum_core::default::<Md5>()
}

#[test]
fn empty_buffer_has_the_empty_input_digest() {
    let digest: Md5Digest = hash::<Md5, _>(Vec::<u8>::new());
    assert_eq!(digest.to_hex_lowercase(), EMPTY_MD5);
}

#[test]
fn hashing_twice_gives_the_same_digest() {
    let first = hash::<Md5, _>(b"some bytes".to_vec());
    let second = hash::<Md5, _>(b"some bytes".to_vec());
    assert_eq!(first, second);
    assert_ne!(first, hash::<Md5, _>(b"other bytes".to_vec()));
}

#[test]
fn known_digests_in_hex() {
    let digest = hash::<Md5, _>("abc");
    assert_eq!(digest.to_hex_lowercase(), ABC_MD5);
    assert_eq!(digest.to_hex_uppercase(), ABC_MD5.to_uppercase());
    assert_eq!(hash::<Md5, _>(FOX.to_string()).to_hex_lowercase(), FOX_MD5);
}

#[test]
fn digest_bytes_match_hex() {
    let digest = hash::<Md5, _>("abc");
    assert_eq!(digest.as_bytes().len(), 16);
    assert_eq!(digest.as_bytes()[0], 0x90);
    assert_eq!(digest.as_bytes()[15], 0x72);
    assert_eq!(digest.to_vec(), digest.as_bytes().to_vec());
}

#[test]
fn every_bytes_like_value_hashes_alike() {
    let expected = hash::<Md5, _>(b"abc".to_vec());
    assert_eq!(hash::<Md5, _>("abc"), expected);
    assert_eq!(hash::<Md5, _>(String::from("abc")), expected);
    assert_eq!(hash::<Md5, _>(*b"abc"), expected);
    let slice: &[u8] = b"abc";
    assert_eq!(hash::<Md5, _>(slice), expected);
    assert_eq!(slice.hash::<Md5>(), expected);
    assert_eq!(<Md5 as chksum_core::Hash>::hash(b"abc"), expected);
}

#[test]
fn hash_with_feeds_an_existing_hash() {
    let mut h = md5_fresh();
    "ab".hash_with(&mut h);
    "c".hash_with(&mut h);
    assert_eq!(chksum_core::Hash::digest(&h).to_hex_lowercase(), ABC_MD5);
}

#[test]
fn digest_does_not_change_the_state() {
    let mut h = md5_fresh();
    chksum_core::Hash::update(&mut h, b"abc");
    let first = chksum_core::Hash::digest(&h);
    let second = chksum_core::Hash::digest(&h);
    assert_eq!(first, second);
    assert_eq!(first.to_hex_lowercase(), ABC_MD5);
}

#[test]
fn reset_then_feed_gives_the_digest_of_the_new_content() {
    let mut h = md5_fresh();
    chksum_core::Hash::update(&mut h, FOX.as_bytes());
    let a = chksum_core::Hash::digest(&h);
    assert_eq!(a.to_hex_lowercase(), FOX_MD5);
    chksum_core::Hash::reset(&mut h);
    chksum_core::Hash::update(&mut h, b"abc");
    assert_eq!(chksum_core::Hash::digest(&h).to_hex_lowercase(), ABC_MD5);
}

#[test]
fn reset_alone_gives_the_empty_digest() {
    let mut h = md5_fresh();
    chksum_core::Hash::update(&mut h, b"abc");
    chksum_core::Hash::reset(&mut h);
    assert_eq!(chksum_core::Hash::digest(&h).to_hex_lowercase(), EMPTY_MD5);
}

#[test]
fn chksum_of_in_memory_data_succeeds() {
    let digest = chksum::<Md5, _>(b"abc".to_vec());
    assert!(matches!(&digest, Ok(d) if d.to_hex_lowercase() == ABC_MD5));
    let mut data = String::from(FOX);
    match data.chksum::<Md5>() {
        Ok(d) => assert_eq!(d.to_hex_lowercase(), FOX_MD5),
        Err(_) => panic!("in-memory data cannot fail"),
    }
}

#[test]
fn chksum_with_appends_to_the_hash() {
    let mut h = md5_fresh();
    let mut first = b"ab".to_vec();
    let mut second = b"c".to_vec();
    assert!(first.chksum_with(&mut h).is_ok());
    assert!(second.chksum_with(&mut h).is_ok());
    assert_eq!(chksum_core::Hash::digest(&h).to_hex_lowercase(), ABC_MD5);
}

#[test]
fn error_kinds_are_distinct() {
    let e = Error::Io(std::io::Error::new(std::io::ErrorKind::Other, "boom"));
    assert!(matches!(e, Error::Io(_)));
    assert!(!matches!(Error::IsTerminal, Error::Io(_)));
}
