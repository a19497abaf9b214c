use smithy::names::{FileKey, FileKind};

#[test]
fn name_parse_accepts_both_kinds() {
    let k = FileKey::parse(b"x10z0.nbt").unwrap();
    assert_eq!((k.x, k.z, k.kind), (10, 0, FileKind::Chunk));
    let k = FileKey::parse(b"x10z0.cmp").unwrap();
    assert_eq!((k.x, k.z, k.kind), (10, 0, FileKind::CompressionInfo));
    let k = FileKey::parse(b"x0z31.nbt").unwrap();
    assert_eq!((k.x, k.z, k.kind), (0, 31, FileKind::Chunk));
}

#[test]
fn name_parse_rejects_malformed_names() {
    assert!(FileKey::parse(b"x01z0.nbt").is_none());
    assert!(FileKey::parse(b"x00z0.nbt").is_none());
    assert!(FileKey::parse(b"x32z0.nbt").is_none());
    assert!(FileKey::parse(b"xz0.nbt").is_none());
    assert!(FileKey::parse(b"x0z00.nbt").is_none());
    assert!(FileKey::parse(b"x0z0.txt").is_none());
    assert!(FileKey::parse(b"").is_none());
    assert!(FileKey::parse(b"x0z.nbt").is_none());
    assert!(FileKey::parse(b"x123z0.nbt").is_none());
    assert!(FileKey::parse(b"y0z0.nbt").is_none());
}

#[test]
fn name_round_trip_all_coordinates() {
    for x in 0u8..32 {
        for z in 0u8..32 {
            for kind in [FileKind::Chunk, FileKind::CompressionInfo] {
                let name = kind.make_fname(x, z);
                let k = FileKey::parse(&name).unwrap();
                assert_eq!((k.x, k.z, k.kind), (x, z, kind));
            }
        }
    }
}

#[test]
fn name_rendering_is_decimal_without_leading_zeros() {
    assert_eq!(FileKind::Chunk.make_fname(3, 5), b"x3z5.nbt".to_vec());
    assert_eq!(
        FileKind::CompressionInfo.make_fname(30, 12),
        b"x30z12.cmp".to_vec()
    );
}

#[test]
fn extension_split_keeps_the_stem() {
    let (kind, stem) = FileKind::parse_extension(b"x7z7.nbt").unwrap();
    assert_eq!(kind, FileKind::Chunk);
    assert_eq!(stem, b"x7z7");
    assert!(FileKind::parse_extension(b"abc").is_none());
    assert!(FileKind::Chunk.is_chunk());
    assert!(!FileKind::CompressionInfo.is_chunk());
}
