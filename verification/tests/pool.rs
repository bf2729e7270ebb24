use lib::utils::{decode_cstring, decode_cstring_pool, u32_at};

#[test]
fn cstring_up_to_the_nul() {
    assert_eq!(decode_cstring(b"ab\0cd\0", 0), Some(b"ab".to_vec()));
    assert_eq!(decode_cstring(b"ab\0cd\0", 1), Some(b"b".to_vec()));
    assert_eq!(decode_cstring(b"ab\0cd\0", 2), Some(vec![]));
    assert_eq!(decode_cstring(b"ab\0cd\0", 3), Some(b"cd".to_vec()));
}

#[test]
fn cstring_without_nul_or_out_of_range() {
    assert_eq!(decode_cstring(b"abc", 0), None);
    assert_eq!(decode_cstring(b"ab\0", 3), None);
    assert_eq!(decode_cstring(b"ab\0", 100), None);
    assert_eq!(decode_cstring(b"", 0), None);
}

#[test]
fn pool_splits_into_offsets_and_strings() {
    assert_eq!(
        decode_cstring_pool(b"main\0x\0\0"),
        Some(vec![(0, b"main".to_vec()), (5, b"x".to_vec()), (7, vec![])])
    );
    assert_eq!(decode_cstring_pool(b""), Some(vec![]));
    assert_eq!(decode_cstring_pool(b"ok\0bad"), None);
}

#[test]
fn pool_split_rejoins_to_the_pool() {
    let pool = b"lama\0\0bytecode\0";
    let parts = decode_cstring_pool(pool).unwrap();
    let mut joined = Vec::new();
    for (off, s) in &parts {
        assert_eq!(*off, joined.len());
        joined.extend_from_slice(s);
        joined.push(0);
    }
    assert_eq!(joined, pool.to_vec());
}

#[test]
fn little_endian_words() {
    assert_eq!(u32_at(&[1, 2, 3, 4, 5], 1), 0x05040302);
    assert_eq!(u32_at(&[0xff, 0xff, 0xff, 0xff], 0), u32::MAX);
}
