use objstore::codec::{
    decode_frame, encode_frame, encode_header, encode_object, hash_content, hash_file,
    object_decoder, ObjectError,
};
use objstore::decimal::{format_decimal, parse_decimal};
use objstore::hash::{digest_bytes, is_plausibly_obj_sha, obj_path_from_sha};
use objstore::kind::ObjType;
use objstore::store::{get_object, plan_put, put_action, tree_entries, PutAction};

fn blob_round_trip(kind: ObjType, content: &[u8]) {
    let z = encode_object(kind, content);
    let obj = object_decoder(&z).expect("decodes");
    assert_eq!(obj.kind, kind);
    assert_eq!(obj.size, content.len());
    assert_eq!(obj.content, content.to_vec());
}

#[test]
fn blob_header_and_hash_of_known_content() {
    let content = b"what is up, doc?";
    assert_eq!(content.len(), 16);
    assert_eq!(encode_header(ObjType::Blob, content.len()), b"blob 16\0".to_vec());
    let frame = encode_frame(ObjType::Blob, content);
    assert_eq!(frame.len(), 24);
    let h = hash_file(content);
    assert_eq!(h.to_hex(), "bd9dbf5aae1a3862dd1526723246b20206e5fc37");
    assert_eq!(h, digest_bytes(&frame));
}

#[test]
fn blob_header_with_newline() {
    let content = b"what is up, doc?\n";
    assert_eq!(encode_header(ObjType::Blob, content.len()), b"blob 17\0".to_vec());
    assert_eq!(hash_file(content), digest_bytes(b"blob 17\0what is up, doc?\n"));
    assert_eq!(hash_file(content).to_hex(), "7108f7ecb345ee9d0084193f147cdad4d2998293");
}

#[test]
fn empty_tree_hash() {
    let h = hash_content(ObjType::Tree, b"");
    assert_eq!(h.to_hex(), "4b825dc642cb6eb9a060e54bf8d69288fbee4904");
    assert_eq!(h, digest_bytes(b"tree 0\0"));
}

#[test]
fn hash_of_hi_newline() {
    assert_eq!(hash_file(b"hi\n").to_hex(), "45b983be36b73c0788dc9cbcb76cbb80fc7bb057");
}

#[test]
fn round_trip_every_kind() {
    for kind in [ObjType::Blob, ObjType::Tree, ObjType::Commit, ObjType::Tag] {
        blob_round_trip(kind, b"");
        blob_round_trip(kind, b"some content\0with a nul and \xff bytes");
    }
    let big: Vec<u8> = (0..100_000u32).map(|i| (i % 251) as u8).collect();
    blob_round_trip(ObjType::Blob, &big);
}

#[test]
fn compression_changes_the_bytes() {
    let z = encode_object(ObjType::Blob, b"hello hello hello hello");
    assert_ne!(z, encode_frame(ObjType::Blob, b"hello hello hello hello"));
    assert_eq!(z[0], 0x78);
}

#[test]
fn truncated_object_is_corrupt() {
    let content: Vec<u8> = (0..5000u32).map(|i| (i * 7 % 256) as u8).collect();
    let z = encode_object(ObjType::Blob, &content);
    for cut in [1, z.len() / 3, z.len() / 2, z.len() - 5, z.len() - 1] {
        assert_eq!(object_decoder(&z[..cut]).unwrap_err(), ObjectError::Corrupt);
    }
    assert_eq!(object_decoder(&[]).unwrap_err(), ObjectError::Corrupt);
}

#[test]
fn garbage_is_corrupt() {
    assert_eq!(object_decoder(b"not zlib at all").unwrap_err(), ObjectError::Corrupt);
}

#[test]
fn frame_variable_length_tokens() {
    let o = decode_frame(b"commit 3\0abc").unwrap();
    assert_eq!(o.kind, ObjType::Commit);
    assert_eq!(o.content, b"abc".to_vec());
    let o = decode_frame(b"tag 0\0").unwrap();
    assert_eq!(o.kind, ObjType::Tag);
    assert_eq!(o.size, 0);
    assert_eq!(o.content, Vec::<u8>::new());
}

#[test]
fn frame_errors() {
    assert_eq!(decode_frame(b"blobx 3\0abc").unwrap_err(), ObjectError::Corrupt);
    assert_eq!(decode_frame(b"blob 3x\0abc").unwrap_err(), ObjectError::Corrupt);
    assert_eq!(decode_frame(b"blob \0").unwrap_err(), ObjectError::Corrupt);
    assert_eq!(decode_frame(b"blob 4\0abc").unwrap_err(), ObjectError::Corrupt);
    assert_eq!(decode_frame(b"blob 2\0abc").unwrap_err(), ObjectError::Corrupt);
    assert_eq!(decode_frame(b"blob 3").unwrap_err(), ObjectError::Corrupt);
    assert_eq!(decode_frame(b"blob").unwrap_err(), ObjectError::Corrupt);
    assert_eq!(decode_frame(b"").unwrap_err(), ObjectError::Corrupt);
    assert_eq!(
        decode_frame(b"blob 99999999999999999999999\0").unwrap_err(),
        ObjectError::Corrupt
    );
}

#[test]
fn decimal_fields() {
    assert_eq!(format_decimal(0), b"0".to_vec());
    assert_eq!(format_decimal(1234567), b"1234567".to_vec());
    assert_eq!(format_decimal(usize::MAX), usize::MAX.to_string().into_bytes());
    assert_eq!(parse_decimal(b"0042"), Some(42));
    assert_eq!(parse_decimal(usize::MAX.to_string().as_bytes()), Some(usize::MAX));
    assert_eq!(parse_decimal(b""), None);
    assert_eq!(parse_decimal(b"+1"), None);
    assert_eq!(parse_decimal(b"18446744073709551616000"), None);
}

#[test]
fn kinds_and_tokens() {
    assert_eq!(ObjType::Commit.kind_name(), "commit");
    assert_eq!(ObjType::Tree.kind_name(), "tree");
    assert_eq!(ObjType::Blob.kind_name(), "blob");
    assert_eq!(ObjType::Tag.kind_name(), "tag");
    assert_eq!(ObjType::from_token(b"tag"), Some(ObjType::Tag));
    assert_eq!(ObjType::from_token(b"comm"), None);
}

#[test]
fn plausible_names() {
    assert!(is_plausibly_obj_sha("bd9dbf5aae1a3862dd1526723246b20206e5fc37"));
    assert!(is_plausibly_obj_sha("BD9DBF5AAE1A3862DD1526723246B20206E5FC37"));
    assert!(!is_plausibly_obj_sha("bd9dbf5aae1a3862dd1526723246b20206e5fc3"));
    assert!(!is_plausibly_obj_sha("bd9dbf5aae1a3862dd1526723246b20206e5fc37a"));
    assert!(!is_plausibly_obj_sha("gd9dbf5aae1a3862dd1526723246b20206e5fc37"));
    assert!(!is_plausibly_obj_sha("é9dbf5aae1a3862dd1526723246b20206e5fc3"));
    assert!(!is_plausibly_obj_sha(""));
}

#[test]
fn object_paths() {
    assert_eq!(
        obj_path_from_sha("bd9dbf5aae1a3862dd1526723246b20206e5fc37"),
        "objects/bd/9dbf5aae1a3862dd1526723246b20206e5fc37"
    );
    let plan = plan_put(ObjType::Blob, b"what is up, doc?");
    assert_eq!(plan.path, "objects/bd/9dbf5aae1a3862dd1526723246b20206e5fc37");
    assert_eq!(plan.hash, hash_file(b"what is up, doc?"));
}

#[test]
fn second_put_writes_nothing() {
    let first = put_action(ObjType::Blob, b"hi\n", false);
    let written = match first {
        PutAction::Write(z) => z,
        PutAction::AlreadyStored => panic!("a fresh object is written"),
    };
    assert_eq!(written, encode_object(ObjType::Blob, b"hi\n"));
    assert!(matches!(
        put_action(ObjType::Blob, b"hi\n", true),
        PutAction::AlreadyStored
    ));
}

#[test]
fn get_missing_and_present() {
    assert_eq!(get_object(None).unwrap_err(), ObjectError::NotFound);
    let z = encode_object(ObjType::Blob, b"x");
    let o = get_object(Some(z)).unwrap();
    assert_eq!(o.content, b"x".to_vec());
    assert_eq!(tree_entries(&o).unwrap_err(), ObjectError::InvalidInput);
}

#[test]
fn encoding_known_blob_decompresses_to_its_frame() {
    let content = b"what is up, doc?\n";
    let z = encode_object(ObjType::Blob, content);
    let obj = object_decoder(&z).unwrap();
    assert_eq!(obj.kind, ObjType::Blob);
    assert_eq!(obj.size, 17);
    assert_eq!(obj.content, content.to_vec());
    assert_eq!(encode_frame(ObjType::Blob, content).len(), 25);
}

#[test]
fn empty_tree_object_is_written_fresh() {
    match put_action(ObjType::Tree, b"", false) {
        PutAction::Write(z) => {
            let obj = object_decoder(&z).unwrap();
            assert_eq!(obj.kind, ObjType::Tree);
            assert_eq!(obj.size, 0);
            assert!(obj.content.is_empty());
        }
        PutAction::AlreadyStored => panic!("a fresh object is written"),
    }
}
