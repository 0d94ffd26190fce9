//! Request parsing.
use yotepack::apis::s3::parse_bucket_key;

#[test]
fn bucket_and_key_are_split_at_the_first_slash() {
    assert_eq!(
        parse_bucket_key("/bucket/subdir/file.txt"),
        Some(("bucket".to_string(), "subdir/file.txt".to_string()))
    );
}
