use bangdream_optimize::feedback::{
    attachment_content_type, attachment_summary, display_or_unknown, feedback_body, feedback_subject,
    required_trimmed, sanitize_file_name, setting_usize, trimmed_with_limit,
    validate_attachment_set, FeedbackAttachment, FeedbackContext, FeedbackRateLimiter,
    FeedbackRequest, FeedbackSubmission, MAX_ATTACHMENT_COUNT, MAX_CONTENT_CHARS,
};

fn request() -> FeedbackRequest {
    FeedbackRequest {
        category: "suggestion".to_owned(),
        subject: "增加反馈功能".to_owned(),
        content: "希望可以从前端发送反馈。".to_owned(),
        contact_email: Some("user@example.com".to_owned()),
        context: Some(FeedbackContext {
            runtime: "browser".to_owned(),
            app_version: "0.3.3".to_owned(),
            page: "activity".to_owned(),
        }),
        website: String::new(),
    }
}

#[test]
fn validates_and_formats_feedback() {
    let feedback =
        FeedbackSubmission::validate(request(), "F-1".to_owned(), Some("Test Agent")).unwrap();
    let body = feedback_body(&feedback, &[]);
    assert!(body.contains("反馈编号：F-1"));
    assert!(body.contains("反馈类型：功能建议"));
    assert!(body.contains("user@example.com"));
    assert!(body.contains("运行环境：browser"));
}

#[test]
fn rejects_invalid_email_and_oversized_content() {
    let mut invalid_email = request();
    invalid_email.contact_email = Some("bad\nBcc: attacker@example.com".to_owned());
    assert!(FeedbackSubmission::validate(invalid_email, "F-1".to_owned(), None).is_err());

    let mut oversized = request();
    oversized.content = "a".repeat(MAX_CONTENT_CHARS + 1);
    assert!(FeedbackSubmission::validate(oversized, "F-1".to_owned(), None).is_err());
}

#[test]
fn limiter_rejects_requests_after_the_configured_count() {
    let mut limiter = FeedbackRateLimiter::new(2, 60);
    assert!(limiter.check("client".to_owned()).is_ok());
    assert!(limiter.check("client".to_owned()).is_ok());
    assert!(limiter.check("client".to_owned()).is_err());
    assert!(limiter.check("other".to_owned()).is_ok());
}

#[test]
fn validates_supported_attachment_types_and_limits() {
    let diagnostic =
        FeedbackAttachment::validate(Some("../../diagnostic.json"), br#"{"ok":true}"#.to_vec())
            .unwrap();
    assert_eq!(diagnostic.file_name, "diagnostic.json");
    assert_eq!(diagnostic.content_type, "application/json");

    let unsupported = FeedbackAttachment::validate(Some("program.exe"), vec![1, 2, 3]);
    assert!(unsupported.is_err());

    let too_many = vec![diagnostic; MAX_ATTACHMENT_COUNT + 1];
    assert!(validate_attachment_set(&too_many).is_err());
}

#[test]
fn limiter_answers_the_wait_and_frees_slots_after_the_window() {
    let mut limiter = FeedbackRateLimiter::new(2, 60);
    let second = 1_000_000_000u128;
    assert_eq!(limiter.check_at("a".to_owned(), 0), Ok(()));
    assert_eq!(limiter.check_at("a".to_owned(), 10 * second), Ok(()));
    assert_eq!(limiter.check_at("a".to_owned(), 20 * second), Err(40));
    assert_eq!(limiter.check_at("a".to_owned(), 60 * second), Ok(()));
    assert_eq!(limiter.check_at("a".to_owned(), 61 * second), Err(9));
    assert_eq!(limiter.check_at("b".to_owned(), 61 * second), Ok(()));
    let mut zero = FeedbackRateLimiter::new(0, 1);
    assert_eq!(zero.check_at("a".to_owned(), 0), Ok(()));
    assert_eq!(zero.check_at("a".to_owned(), 0), Err(1));
}

#[test]
fn limiter_settings_fall_back_to_defaults() {
    assert_eq!(setting_usize(Some(" 5 ")), Some(5));
    assert_eq!(setting_usize(Some("+7")), Some(7));
    assert_eq!(setting_usize(Some("")), None);
    assert_eq!(setting_usize(Some("x")), None);
    assert_eq!(setting_usize(Some("-1")), None);
    assert_eq!(setting_usize(None), None);
    let mut limiter = FeedbackRateLimiter::from_env(Some("1"), Some("0"));
    assert!(limiter.check_at("a".to_owned(), 0).is_ok());
    assert_eq!(limiter.check_at("a".to_owned(), 500_000_000), Err(1));
    assert!(limiter.check_at("a".to_owned(), 1_000_000_000).is_ok());
    let mut defaults = FeedbackRateLimiter::from_env(None, Some("oops"));
    for _ in 0..3 {
        assert!(defaults.check_at("a".to_owned(), 0).is_ok());
    }
    assert_eq!(defaults.check_at("a".to_owned(), 0), Err(600));
    let mut fallback = FeedbackRateLimiter::default();
    for _ in 0..3 {
        assert!(fallback.check_at("a".to_owned(), 0).is_ok());
    }
    assert!(fallback.check_at("a".to_owned(), 0).is_err());
}

#[test]
fn attachment_names_and_types() {
    assert_eq!(sanitize_file_name("a/b\\ c.txt ").unwrap(), "c.txt");
    assert_eq!(sanitize_file_name(" / ").unwrap_err(), "附件文件名不能为空");
    assert_eq!(sanitize_file_name("a\u{7}b").unwrap_err(), "附件文件名包含无效字符");
    assert_eq!(
        sanitize_file_name(&"x".repeat(121)).unwrap_err(),
        "附件文件名不能超过 120 个字符"
    );
    assert_eq!(attachment_content_type("photo.JPEG"), Some("image/jpeg"));
    assert_eq!(attachment_content_type("notes.log"), Some("text/plain"));
    assert_eq!(attachment_content_type("archive.tar.gz"), None);
    assert_eq!(attachment_content_type("README"), None);
    assert_eq!(
        FeedbackAttachment::validate(None, vec![1]).unwrap_err(),
        "附件文件名不能为空"
    );
    assert_eq!(
        FeedbackAttachment::validate(Some("a.png"), Vec::new()).unwrap_err(),
        "附件不能为空"
    );
    assert_eq!(
        FeedbackAttachment::validate(Some("a.png"), vec![0; 5 * 1024 * 1024 + 1]).unwrap_err(),
        "单个附件不能超过 5 MiB"
    );
    assert_eq!(
        FeedbackAttachment::validate(Some("program.exe"), vec![1]).unwrap_err(),
        "不支持的附件类型：program.exe"
    );
}

#[test]
fn attachment_set_limits_total_size() {
    let big = FeedbackAttachment::validate(Some("a.zip"), vec![0; 5 * 1024 * 1024]).unwrap();
    let one = FeedbackAttachment::validate(Some("b.zip"), vec![0; 1]).unwrap();
    assert!(validate_attachment_set(&[big.clone(), big.clone()]).is_ok());
    assert_eq!(
        validate_attachment_set(&[big.clone(), big, one]).unwrap_err(),
        "附件总大小不能超过 10 MiB"
    );
    assert_eq!(
        validate_attachment_set(&vec![
            FeedbackAttachment::validate(Some("c.txt"), vec![1]).unwrap();
            4
        ])
        .unwrap_err(),
        "最多只能上传 3 个附件"
    );
}

#[test]
fn submission_fields_are_trimmed_and_checked() {
    assert_eq!(required_trimmed("标题", "  x ".to_owned(), 5).unwrap(), "x");
    assert_eq!(required_trimmed("标题", "   ".to_owned(), 5).unwrap_err(), "标题不能为空");
    assert_eq!(
        required_trimmed("标题", "abcdef".to_owned(), 5).unwrap_err(),
        "标题不能超过 5 个字符"
    );
    assert_eq!(trimmed_with_limit("  abcdef ", 3), "abc");
    assert_eq!(display_or_unknown(""), "未知");
    assert_eq!(display_or_unknown("x"), "x");

    let mut bad_category = request();
    bad_category.category = "spam".to_owned();
    assert_eq!(
        FeedbackSubmission::validate(bad_category, "F".to_owned(), None).unwrap_err(),
        "不支持的反馈类型"
    );
    let mut long_email = request();
    long_email.contact_email = Some(format!("{}@example.com", "a".repeat(250)));
    assert_eq!(
        FeedbackSubmission::validate(long_email, "F".to_owned(), None).unwrap_err(),
        "联系邮箱过长"
    );
    let mut blank_email = request();
    blank_email.contact_email = Some("   ".to_owned());
    blank_email.context = None;
    let submission = FeedbackSubmission::validate(blank_email, "F-2".to_owned(), None).unwrap();
    assert_eq!(submission.contact_email, None);
    assert_eq!(submission.category_label(), "功能建议");
    let body = feedback_body(&submission, &[]);
    assert!(body.contains("联系邮箱：未填写"));
    assert!(body.contains("运行环境：未知"));
    assert!(body.contains("附件：无"));
    assert!(body.ends_with("反馈内容：\n希望可以从前端发送反馈。\n"));
}

#[test]
fn attachment_summary_lists_names_and_sizes() {
    let a = FeedbackAttachment::validate(Some("a.txt"), vec![1, 2]).unwrap();
    let b = FeedbackAttachment::validate(Some("b.png"), vec![3]).unwrap();
    assert_eq!(attachment_summary(&[]), "无");
    assert_eq!(attachment_summary(&[a, b]), "a.txt (2 bytes)、b.png (1 bytes)");
}

#[test]
fn subject_names_category_and_id() {
    let feedback =
        FeedbackSubmission::validate(request(), "F-7".to_owned(), None).unwrap();
    assert_eq!(feedback_subject(&feedback), "[反馈][功能建议][F-7] 增加反馈功能");
}

#[test]
fn limiter_accepts_exactly_the_first_attempts_within_a_window() {
    let second = 1_000_000_000u128;
    let mut limiter = FeedbackRateLimiter::new(3, 60);
    for k in 0..8u128 {
        let r = limiter.check_at("client".to_owned(), 5 * second + k * 7 * second);
        if k < 3 {
            assert_eq!(r, Ok(()));
        } else {
            let wait = r.unwrap_err();
            assert!(1 <= wait && wait <= 60);
        }
    }
    assert_eq!(limiter.check_at("other".to_owned(), 50 * second), Ok(()));
}

#[test]
fn limiter_counts_each_client_on_its_own_over_interleaved_checks() {
    let second = 1_000_000_000u128;
    let mut limiter = FeedbackRateLimiter::new(0, 30);
    let keys = ["a", "b", "a", "c", "b", "a", "b"];
    let mut seen = std::collections::HashMap::new();
    for (k, key) in keys.iter().enumerate() {
        let count = seen.entry(*key).or_insert(0usize);
        let r = limiter.check_at((*key).to_owned(), (k as u128 + 1) * second);
        if *count < 1 {
            assert_eq!(r, Ok(()));
        } else {
            let wait = r.unwrap_err();
            assert!(1 <= wait && wait <= 30);
        }
        *count += 1;
    }
}
