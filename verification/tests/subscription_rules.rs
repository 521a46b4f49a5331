use earthquake_alert::store::{StoreErrorKind, SubscriptionStore};
use earthquake_alert::subscription::{
    check_subscribe_request, normalize_bark_server, normalize_locations,
    normalize_notify_bands, normalize_unsubscribe_bark_id, validate_bark_id, BandError,
    BarkIdError, BarkServerError, LocationError, NotificationBand, StatsResponse,
    SubscribeError, SubscribeResponse,
};

fn band(min: u32, max: u32, level: &str, label: &str) -> NotificationBand {
    NotificationBand { min, max, level: level.to_string(), label: label.to_string() }
}

fn summary(bands: &[NotificationBand]) -> Vec<(u32, u32, String, String)> {
    bands.iter().map(|b| (b.min, b.max, b.level.clone(), b.label.clone())).collect()
}

#[test]
fn bark_ids_are_checked_in_order() {
    assert_eq!(validate_bark_id("abc123"), Ok(()));
    assert_eq!(validate_bark_id(""), Err(BarkIdError::Empty));
    assert_eq!(validate_bark_id("   \t"), Err(BarkIdError::Empty));
    assert_eq!(validate_bark_id("abc-123"), Err(BarkIdError::InvalidCharacters));
    assert_eq!(validate_bark_id(" abc"), Err(BarkIdError::InvalidCharacters));
    // Unicode letters and digits are alphanumeric
    assert_eq!(validate_bark_id("订阅abc"), Ok(()));
    assert_eq!(validate_bark_id("ＡＢＣ１２３"), Ok(()));
}

#[test]
fn bark_id_length_counts_utf8_bytes() {
    let sixty_four = "a".repeat(64);
    let sixty_five = "a".repeat(65);
    assert_eq!(validate_bark_id(&sixty_four), Ok(()));
    assert_eq!(validate_bark_id(&sixty_five), Err(BarkIdError::TooLong));
    // 22 characters of three bytes each: 66 bytes
    let wide = "订".repeat(22);
    assert_eq!(validate_bark_id(&wide), Err(BarkIdError::TooLong));
    let fits = "订".repeat(21);
    assert_eq!(validate_bark_id(&fits), Ok(()));
    // too long is reported before bad characters
    let long_bad = format!("{}-", "a".repeat(64));
    assert_eq!(validate_bark_id(&long_bad), Err(BarkIdError::TooLong));
}

#[test]
fn unsubscribe_keys_are_trimmed_first() {
    assert_eq!(normalize_unsubscribe_bark_id("  abc123 \n").unwrap(), "abc123");
    assert_eq!(normalize_unsubscribe_bark_id("   "), Err(BarkIdError::Empty));
    assert_eq!(normalize_unsubscribe_bark_id(" a b "), Err(BarkIdError::InvalidCharacters));
}

#[test]
fn error_messages() {
    assert_eq!(BarkIdError::Empty.message(), "Bark ID 不能为空");
    assert_eq!(BarkIdError::TooLong.message(), "Bark ID 过长（最大64字符）");
    assert_eq!(BarkIdError::InvalidCharacters.message(), "Bark ID 只能包含字母、数字");
    assert_eq!(BarkServerError::Invalid.message(), "Bark 服务器地址无效");
    assert_eq!(BarkServerError::NotHttps.message(), "Bark 服务器必须使用 HTTPS");
    assert_eq!(LocationError::TooMany.message(), "监测地点最多 3 个");
    assert_eq!(LocationError::InvalidCoordinates.message(), "监测地点坐标无效");
    assert_eq!(LocationError::NameTooLong.message(), "监测地点名称最多 80 个字符");
    assert_eq!(BandError::Empty.message(), "请至少添加一条通知级别规则");
    assert_eq!(BandError::TooMany.message(), "通知级别规则最多 3 条");
    assert_eq!(BandError::InvalidLevel.message(), "通知级别必须是 passive、active 或 critical");
    assert_eq!(BandError::DuplicateLevel.message(), "每个通知级别只能添加一条规则");
    assert_eq!(BandError::InvalidRange.message(), "通知级别烈度范围无效");
    assert_eq!(BandError::LabelTooLong.message(), "通知级别标签最多 32 个字符");
    assert_eq!(BandError::Overlap.message(), "通知级别烈度范围不能重叠");
    assert_eq!(SubscribeError::NoLocation.message(), "请至少添加一个有效监测地点");
    assert_eq!(
        SubscribeError::BarkId(BarkIdError::Empty).message(),
        "Bark ID 不能为空"
    );
}

#[test]
fn bark_servers_are_trimmed_and_checked() {
    assert_eq!(normalize_bark_server("").unwrap(), "");
    assert_eq!(normalize_bark_server("   ").unwrap(), "");
    assert_eq!(normalize_bark_server(" / ").unwrap(), "");
    assert_eq!(
        normalize_bark_server(" https://api.day.app/// ").unwrap(),
        "https://api.day.app"
    );
    assert_eq!(
        normalize_bark_server("https://bark.example.com:8443/push").unwrap(),
        "https://bark.example.com:8443/push"
    );
    assert_eq!(normalize_bark_server("http://api.day.app"), Err(BarkServerError::NotHttps));
    assert_eq!(normalize_bark_server("not a url"), Err(BarkServerError::Invalid));
    assert_eq!(
        normalize_bark_server("https://user:pw@api.day.app"),
        Err(BarkServerError::Invalid)
    );
    assert_eq!(normalize_bark_server("https://user@api.day.app"), Err(BarkServerError::Invalid));
}

#[test]
fn places_fall_back_to_the_request_itself() {
    let names: Vec<String> = Vec::new();
    let valid: Vec<bool> = Vec::new();
    assert_eq!(normalize_locations("  家  ", true, &names, &valid).unwrap(), vec!["家".to_string()]);
    assert_eq!(
        normalize_locations("home", false, &names, &valid),
        Err(LocationError::InvalidCoordinates)
    );
}

#[test]
fn places_are_limited_checked_and_trimmed() {
    let names = vec![" a ".to_string(), "b".to_string()];
    assert_eq!(
        normalize_locations("ignored", false, &names, &vec![true, true]).unwrap(),
        vec!["a".to_string(), "b".to_string()]
    );
    let four = vec!["a".to_string(), "b".to_string(), "c".to_string(), "d".to_string()];
    assert_eq!(
        normalize_locations("", true, &four, &vec![false, true, true, true]),
        Err(LocationError::TooMany)
    );
    assert_eq!(
        normalize_locations("", true, &names, &vec![true, false]),
        Err(LocationError::InvalidCoordinates)
    );
    let long = vec!["名".repeat(81)];
    assert_eq!(normalize_locations("", true, &long, &vec![true]), Err(LocationError::NameTooLong));
    let exact = vec![format!("  {}  ", "名".repeat(80))];
    assert_eq!(
        normalize_locations("", true, &exact, &vec![true]).unwrap(),
        vec!["名".repeat(80)]
    );
}

#[test]
fn bands_are_sorted_normalised_and_critical_widened() {
    let bands = vec![band(5, 6, " Critical ", " 强震 "), band(1, 2, "passive", "")];
    let out = normalize_notify_bands(&bands).unwrap();
    assert_eq!(
        summary(&out),
        vec![
            (1, 2, "passive".to_string(), String::new()),
            (5, 99, "critical".to_string(), "强震".to_string()),
        ]
    );
    // a critical band reaching 7 keeps its maximum
    let kept = normalize_notify_bands(&vec![band(3, 7, "critical", "")]).unwrap();
    assert_eq!(summary(&kept), vec![(3, 7, "critical".to_string(), String::new())]);
}

#[test]
fn band_errors() {
    assert_eq!(normalize_notify_bands(&Vec::new()).err(), Some(BandError::Empty));
    let four = vec![
        band(1, 1, "passive", ""),
        band(2, 2, "active", ""),
        band(3, 3, "critical", ""),
        band(4, 4, "passive", ""),
    ];
    assert_eq!(normalize_notify_bands(&four).err(), Some(BandError::TooMany));
    assert_eq!(
        normalize_notify_bands(&vec![band(1, 2, "loud", "")]).err(),
        Some(BandError::InvalidLevel)
    );
    assert_eq!(
        normalize_notify_bands(&vec![band(1, 2, "active", ""), band(3, 4, " ACTIVE", "")]).err(),
        Some(BandError::DuplicateLevel)
    );
    assert_eq!(
        normalize_notify_bands(&vec![band(3, 2, "active", "")]).err(),
        Some(BandError::InvalidRange)
    );
    assert_eq!(
        normalize_notify_bands(&vec![band(1, 100, "active", "")]).err(),
        Some(BandError::InvalidRange)
    );
    assert_eq!(
        normalize_notify_bands(&vec![band(1, 2, "active", &"x".repeat(33))]).err(),
        Some(BandError::LabelTooLong)
    );
    assert_eq!(
        normalize_notify_bands(&vec![band(1, 5, "active", ""), band(5, 9, "passive", "")]).err(),
        Some(BandError::Overlap)
    );
    // the widened critical band overlaps a later one
    assert_eq!(
        normalize_notify_bands(&vec![band(3, 4, "critical", ""), band(8, 9, "active", "")]).err(),
        Some(BandError::Overlap)
    );
}

#[test]
fn store_errors_are_classified_by_message() {
    assert_eq!(SubscriptionStore::classify_error("订阅不存在"), StoreErrorKind::NotFound);
    assert_eq!(SubscriptionStore::classify_error("取消订阅失败: 订阅不存在"), StoreErrorKind::NotFound);
    assert_eq!(SubscriptionStore::classify_error("storage transaction failed"), StoreErrorKind::Internal);
}

#[test]
fn responses() {
    assert!(SubscribeResponse::stored().saved);
    let stats = StatsResponse { total_subscriptions: 3 };
    assert_eq!(stats.total_subscriptions, 3);
}

#[test]
fn subscribe_request_checks_run_in_order() {
    let names = vec!["home".to_string()];
    let valid = vec![true];
    let bands = vec![band(1, 9, "active", "")];
    let ok = check_subscribe_request("abc", " https://api.day.app/ ", "", true, &names, &valid, &bands)
        .unwrap();
    assert_eq!(ok.bark_server, "https://api.day.app");
    assert_eq!(ok.location_names, vec!["home".to_string()]);
    assert_eq!(summary(&ok.notify_bands), vec![(1, 9, "active".to_string(), String::new())]);

    assert_eq!(
        check_subscribe_request("", "http://x", "", true, &names, &vec![false], &Vec::new()).err(),
        Some(SubscribeError::BarkId(BarkIdError::Empty))
    );
    assert_eq!(
        check_subscribe_request("abc", "http://x", "", true, &names, &vec![false], &Vec::new()).err(),
        Some(SubscribeError::BarkServer(BarkServerError::NotHttps))
    );
    assert_eq!(
        check_subscribe_request("abc", "", "", true, &names, &vec![false], &Vec::new()).err(),
        Some(SubscribeError::Locations(LocationError::InvalidCoordinates))
    );
    assert_eq!(
        check_subscribe_request("abc", "", "", true, &names, &valid, &Vec::new()).err(),
        Some(SubscribeError::Bands(BandError::Empty))
    );
}
