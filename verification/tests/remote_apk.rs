use bangdream_optimize::protobuf::ImportError;
use bangdream_optimize::remote_apk::{
    allowed_apk, content_range, unity_version_from_header, ApkWindow, SeekTarget, UrlParts,
};

fn account_message(error: ImportError) -> String {
    match error {
        ImportError::Account(message) => message,
        other => panic!("unexpected error {other:?}"),
    }
}

#[test]
fn reads_content_range_of_partial_answers() {
    assert_eq!(content_range(206, Some("bytes 100-199/200")).unwrap(), (100, 199, 200));
    assert_eq!(
        account_message(content_range(200, Some("bytes 0-1/2")).unwrap_err()),
        "官方安装包分段读取失败（HTTP 200）"
    );
    assert_eq!(account_message(content_range(206, None).unwrap_err()), "安装包缺少分段信息");
    assert_eq!(account_message(content_range(206, Some("items 0-1/2")).unwrap_err()), "安装包缺少分段信息");
    assert_eq!(account_message(content_range(206, Some("bytes 0-1")).unwrap_err()), "安装包分段格式异常");
    assert_eq!(account_message(content_range(206, Some("bytes 01/2")).unwrap_err()), "安装包分段格式异常");
    assert_eq!(account_message(content_range(206, Some("bytes a-1/2")).unwrap_err()), "安装包分段格式异常");
    assert_eq!(account_message(content_range(206, Some("bytes 5-4/9")).unwrap_err()), "安装包分段超出范围");
    assert_eq!(account_message(content_range(206, Some("bytes 0-9/9")).unwrap_err()), "安装包分段超出范围");
}

#[test]
fn window_reads_the_tail_then_asks_for_earlier_ranges() {
    let tail: Vec<u8> = (0..10).collect();
    let mut window = ApkWindow::open(190, 199, 200, tail).unwrap();
    assert!(window.needs_fill());
    assert_eq!(window.fill_range(), (0, 199));
    assert_eq!(window.seek(SeekTarget::End(-4)), Some(196));
    assert!(!window.needs_fill());
    assert_eq!(window.take(3), vec![6, 7, 8]);
    assert_eq!(window.take(3), vec![9]);
    assert_eq!(window.seek(SeekTarget::End(1)), None);
    assert_eq!(window.seek(SeekTarget::Current(-200)), Some(0));
    assert_eq!(window.seek(SeekTarget::Current(-1)), None);

    let body: Vec<u8> = vec![7; 200];
    assert_eq!(
        account_message(window.accept_fill(1, 199, 200, body.clone()).unwrap_err()),
        "官方安装包分段发生变化"
    );
    assert_eq!(
        account_message(window.accept_fill(0, 199, 200, vec![7; 3]).unwrap_err()),
        "官方安装包分段不完整"
    );
    window.accept_fill(0, 199, 200, body).unwrap();
    assert!(!window.needs_fill());
    assert_eq!(window.take(2), vec![7, 7]);
}

#[test]
fn later_ranges_are_at_most_sixty_four_kibibytes() {
    let mut window = ApkWindow::open(199_990, 199_999, 200_000, vec![0; 10]).unwrap();
    assert_eq!(window.seek(SeekTarget::Start(5)), Some(5));
    assert_eq!(window.fill_range(), (5, 65_540));
}

#[test]
fn first_answer_must_be_a_short_tail() {
    assert_eq!(account_message(ApkWindow::open(0, 9, 20, vec![0; 10]).unwrap_err()), "官方安装包长度异常");
    assert_eq!(
        account_message(ApkWindow::open(0, 99_999, 100_000, vec![0; 100_000]).unwrap_err()),
        "官方安装包长度异常"
    );
    assert_eq!(account_message(ApkWindow::open(10, 19, 20, vec![0; 9]).unwrap_err()), "官方安装包分段不完整");
}

fn header(format: u32, at: usize, text: &[u8]) -> Vec<u8> {
    let mut header = vec![0u8; 128];
    header[8..12].copy_from_slice(&format.to_be_bytes());
    header[at..at + text.len()].copy_from_slice(text);
    header
}

#[test]
fn reads_engine_version_from_metadata_header() {
    assert_eq!(unity_version_from_header(&header(22, 48, b"2021.3.45f1")).unwrap(), "2021.3.45f1");
    assert_eq!(unity_version_from_header(&header(17, 20, b"2019.4.40f1")).unwrap(), "2019.4.40f1");
    assert_eq!(
        account_message(unity_version_from_header(&header(8, 20, b"2019.4.40f1")).unwrap_err()),
        "不支持的引擎元数据格式"
    );
    assert_eq!(
        account_message(unity_version_from_header(&header(22, 48, b"2021.3\xff")).unwrap_err()),
        "引擎版本编码错误"
    );
    assert_eq!(
        account_message(unity_version_from_header(&header(22, 48, b"1921.3.45f1")).unwrap_err()),
        "引擎版本格式异常"
    );
    assert_eq!(
        account_message(unity_version_from_header(&header(22, 48, b"2021.3")).unwrap_err()),
        "引擎版本格式异常"
    );
    assert_eq!(
        account_message(unity_version_from_header(&header(22, 48, b"2021.3-45f1")).unwrap_err()),
        "引擎版本格式异常"
    );
}

fn url(scheme: &str, username: &str, host: &str, path: &str) -> UrlParts {
    UrlParts {
        scheme: scheme.to_owned(),
        host: Some(host.to_owned()),
        path: path.to_owned(),
        username: username.to_owned(),
        password: None,
        port: None,
    }
}

#[test]
fn apk_download_accepts_only_official_https_hosts() {
    for u in [
        url("https", "", "pkg.biligame.com", "/games/a.apk"),
        url("https", "", "pkgdl.biligame.net", "/a.apk"),
    ] {
        assert!(allowed_apk(&u));
    }
    for u in [
        url("http", "", "pkg.biligame.com", "/a.apk"),
        url("https", "", "evil.test", "/a.apk"),
        url("https", "", "pkg.biligame.com.evil.test", "/a.apk"),
        url("https", "user", "pkg.biligame.com", "/a.apk"),
        url("https", "", "pkg.biligame.com", "/a.zip"),
    ] {
        assert!(!allowed_apk(&u));
    }
    let mut with_port = url("https", "", "pkg.biligame.com", "/a.apk");
    with_port.port = Some(8443);
    assert!(!allowed_apk(&with_port));
    let mut with_password = url("https", "", "pkg.biligame.com", "/a.apk");
    with_password.password = Some("p".to_owned());
    assert!(!allowed_apk(&with_password));
}
