use smithy::codec::CompressionType;

#[test]
fn selector_line_for_each_known_codec() {
    assert_eq!(
        CompressionType::GZip.make_selector_string(),
        b"[gzip] zlib none lz4 zstd unknown(#)\n".to_vec()
    );
    assert_eq!(
        CompressionType::Zlib.make_selector_string(),
        b"gzip [zlib] none lz4 zstd unknown(#)\n".to_vec()
    );
    assert_eq!(
        CompressionType::NoCompression.make_selector_string(),
        b"gzip zlib [none] lz4 zstd unknown(#)\n".to_vec()
    );
    assert_eq!(
        CompressionType::LZ4.make_selector_string(),
        b"gzip zlib none [lz4] zstd unknown(#)\n".to_vec()
    );
    assert_eq!(
        CompressionType::Zstd.make_selector_string(),
        b"gzip zlib none lz4 [zstd] unknown(#)\n".to_vec()
    );
}

#[test]
fn selector_line_for_unknown_codecs() {
    assert_eq!(
        CompressionType::Unknown(42).make_selector_string(),
        b"gzip zlib none lz4 zstd [unknown(42)]\n".to_vec()
    );
    assert_eq!(
        CompressionType::Unknown(0).make_selector_string(),
        b"gzip zlib none lz4 zstd [unknown(0)]\n".to_vec()
    );
    assert_eq!(
        CompressionType::Unknown(255).make_selector_string(),
        b"gzip zlib none lz4 zstd [unknown(255)]\n".to_vec()
    );
}

#[test]
fn selector_round_trip_every_codec() {
    let cases = [
        CompressionType::GZip,
        CompressionType::Zlib,
        CompressionType::NoCompression,
        CompressionType::LZ4,
        CompressionType::Zstd,
        CompressionType::Unknown(0),
        CompressionType::Unknown(42),
        CompressionType::Unknown(127),
        CompressionType::Unknown(255),
    ];
    for ct in cases {
        let line = ct.make_selector_string();
        assert_eq!(CompressionType::parse_selector_string(&line), Some(ct));
    }
}

#[test]
fn selector_parse_accepts_bare_names_case_folded() {
    assert_eq!(
        CompressionType::parse_selector_string(b"gzip"),
        Some(CompressionType::GZip)
    );
    assert_eq!(
        CompressionType::parse_selector_string(b"  ZLIB \n"),
        Some(CompressionType::Zlib)
    );
    assert_eq!(
        CompressionType::parse_selector_string(b"None"),
        Some(CompressionType::NoCompression)
    );
    assert_eq!(
        CompressionType::parse_selector_string(b"lz4"),
        Some(CompressionType::LZ4)
    );
    assert_eq!(
        CompressionType::parse_selector_string(b"zstd"),
        Some(CompressionType::Zstd)
    );
}

#[test]
fn selector_parse_accepts_numbers_and_unknown_form() {
    assert_eq!(
        CompressionType::parse_selector_string(b"1"),
        Some(CompressionType::GZip)
    );
    assert_eq!(
        CompressionType::parse_selector_string(b"53"),
        Some(CompressionType::Zstd)
    );
    assert_eq!(
        CompressionType::parse_selector_string(b"unknown(99)"),
        Some(CompressionType::Unknown(99))
    );
    assert_eq!(
        CompressionType::parse_selector_string(b"UNKNOWN(2)"),
        Some(CompressionType::Zlib)
    );
    assert_eq!(
        CompressionType::parse_selector_string(b"+4"),
        Some(CompressionType::LZ4)
    );
}

#[test]
fn selector_parse_recurses_into_brackets() {
    assert_eq!(
        CompressionType::parse_selector_string(b"pick [lz4] please"),
        Some(CompressionType::LZ4)
    );
    assert_eq!(
        CompressionType::parse_selector_string(b"[ gzip ]"),
        Some(CompressionType::GZip)
    );
}

#[test]
fn selector_parse_rejects_bad_forms() {
    assert_eq!(CompressionType::parse_selector_string(b""), None);
    assert_eq!(CompressionType::parse_selector_string(b"gzipp"), None);
    assert_eq!(CompressionType::parse_selector_string(b"256"), None);
    assert_eq!(CompressionType::parse_selector_string(b"unknown()"), None);
    assert_eq!(CompressionType::parse_selector_string(b"[]"), None);
    assert_eq!(CompressionType::parse_selector_string(b"[)("), None);
}

#[test]
fn codec_ids_encode_and_decode() {
    assert_eq!(CompressionType::decode(1).encode(), 1);
    assert_eq!(CompressionType::decode(2).encode(), 2);
    assert_eq!(CompressionType::decode(3).encode(), 3);
    assert_eq!(CompressionType::decode(4).encode(), 4);
    assert_eq!(CompressionType::decode(53).encode(), 53);
    assert_eq!(CompressionType::decode(7), CompressionType::Unknown(7));
    assert_eq!(CompressionType::Unknown(200).encode(), 200);
}
