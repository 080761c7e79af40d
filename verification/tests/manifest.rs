use bangdream_optimize::manifest::{len16, len8, manifest_version, string_at, strings, u16at, u32at};
use bangdream_optimize::protobuf::ImportError;

fn u16p(b: &mut Vec<u8>, n: u16) {
    b.extend(n.to_le_bytes());
}

fn u32p(b: &mut Vec<u8>, n: u32) {
    b.extend(n.to_le_bytes());
}

fn fixture(utf8: bool) -> Vec<u8> {
    let words = [
        "manifest",
        "package",
        "versionName",
        "versionCode",
        "http://schemas.android.com/apk/res/android",
        "com.bilibili.star.bili",
        "9.4.4",
    ];
    let mut content = Vec::new();
    let mut offsets = Vec::new();
    for word in words {
        offsets.push(content.len() as u32);
        if utf8 {
            content.push(word.len() as u8);
            content.push(word.len() as u8);
            content.extend(word.as_bytes());
            content.push(0);
        } else {
            u16p(&mut content, word.len() as u16);
            for c in word.encode_utf16() {
                u16p(&mut content, c);
            }
            u16p(&mut content, 0);
        }
    }
    let start = 28 + words.len() * 4;
    let mut pool = Vec::new();
    u16p(&mut pool, 1);
    u16p(&mut pool, 28);
    u32p(&mut pool, (start + content.len()) as u32);
    u32p(&mut pool, words.len() as u32);
    u32p(&mut pool, 0);
    u32p(&mut pool, if utf8 { 0x100 } else { 0 });
    u32p(&mut pool, start as u32);
    u32p(&mut pool, 0);
    for n in offsets {
        u32p(&mut pool, n);
    }
    pool.extend(content);
    let mut node = Vec::new();
    u16p(&mut node, 0x102);
    u16p(&mut node, 16);
    u32p(&mut node, 96);
    u32p(&mut node, 1);
    u32p(&mut node, u32::MAX);
    u32p(&mut node, u32::MAX);
    u32p(&mut node, 0);
    u16p(&mut node, 20);
    u16p(&mut node, 20);
    u16p(&mut node, 3);
    u16p(&mut node, 0);
    u16p(&mut node, 0);
    u16p(&mut node, 0);
    for (ns, name, raw, kind, data) in [
        (u32::MAX, 1, 5, 3, 5),
        (4, 2, u32::MAX, 3, 6),
        (4, 3, u32::MAX, 16, 940400),
    ] {
        u32p(&mut node, ns);
        u32p(&mut node, name);
        u32p(&mut node, raw);
        u16p(&mut node, 8);
        node.push(0);
        node.push(kind);
        u32p(&mut node, data);
    }
    let mut xml = Vec::new();
    u16p(&mut xml, 3);
    u16p(&mut xml, 8);
    u32p(&mut xml, (8 + pool.len() + node.len()) as u32);
    xml.extend(pool);
    xml.extend(node);
    xml
}

fn message(error: ImportError) -> String {
    match error {
        ImportError::Account(m) => m,
        _ => panic!("expected an account error"),
    }
}

#[test]
fn manifest_reads_raw_and_typed_attributes_in_both_string_encodings() {
    for utf8 in [true, false] {
        assert_eq!(
            manifest_version(&fixture(utf8)).unwrap(),
            ("9.4.4".into(), "940400".into())
        );
    }
}

#[test]
fn truncated_manifest_is_rejected_without_panics() {
    let xml = fixture(true);
    for end in 0..xml.len() {
        assert!(manifest_version(&xml[..end]).is_err());
    }
}

#[test]
fn manifest_header_and_package_are_checked() {
    let mut xml = fixture(true);
    xml[0] = 4;
    assert_eq!(message(manifest_version(&xml).unwrap_err()), "安装包清单格式异常");
    assert_eq!(message(manifest_version(&[3]).unwrap_err()), "安装包清单截断");
    let mut xml = fixture(false);
    // the package value is string 5; point it at "9.4.4" instead
    let at = xml.len() - 3 * 20 + 8;
    xml[at] = 6;
    assert_eq!(message(manifest_version(&xml).unwrap_err()), "官方安装包包名不匹配");
    let oversized = vec![0u8; 2 * 1024 * 1024 + 1];
    assert_eq!(message(manifest_version(&oversized).unwrap_err()), "安装包清单格式异常");
}

#[test]
fn little_endian_readers_and_lengths() {
    let b = [0x34, 0x12, 0x78, 0x56, 0x81, 0x02];
    assert_eq!(u16at(&b, 0).unwrap(), 0x1234);
    assert_eq!(u32at(&b, 0).unwrap(), 0x5678_1234);
    assert!(u16at(&b, 5).is_err());
    assert!(u32at(&b, 3).is_err());
    let mut at = 4;
    assert_eq!(len8(&b, &mut at).unwrap(), 0x102);
    assert_eq!(at, 6);
    let mut at = 0;
    assert_eq!(len8(&[5], &mut at).unwrap(), 5);
    assert_eq!(at, 1);
    assert!(len8(&[0x80], &mut 0).is_err());
    let mut at = 0;
    assert_eq!(len16(&[0x01, 0x80, 0x02, 0x00], &mut at).unwrap(), 0x10002);
    assert_eq!(at, 4);
    let pool = vec!["a".to_owned(), "b".to_owned()];
    assert_eq!(string_at(&pool, 1).unwrap(), "b");
    assert_eq!(message(string_at(&pool, 2).unwrap_err()), "安装包清单字符串索引异常");
}

#[test]
fn string_pools_decode_and_reject_bad_text() {
    let xml = fixture(false);
    let pool_size = u32::from_le_bytes([xml[12], xml[13], xml[14], xml[15]]) as usize;
    let pool = strings(&xml[8..8 + pool_size]).unwrap();
    assert_eq!(pool.len(), 7);
    assert_eq!(pool[6], "9.4.4");
    let mut bad = fixture(false);
    // replace the first unit of "manifest" with a lone low surrogate
    let start = 8 + 28 + 7 * 4 + 2;
    bad[start] = 0x00;
    bad[start + 1] = 0xDC;
    assert_eq!(message(manifest_version(&bad).unwrap_err()), "清单字符串编码错误");
    assert_eq!(message(strings(&[0u8; 10]).unwrap_err()), "安装包清单截断");
}
