use talespin::config::{
    center_crop_rect, encoding_descriptor, has_supported_extension, is_supported_mime,
    parse_ratio, CacheImageFormat, EncoderBackend, ThreadSetting,
};
use talespin::msgs::{validate_win_condition, WinCondition};
use talespin::registry::{generate_room_id, room_expired};
use talespin::sys::{get_time_s, random_below};

#[test]
fn win_conditions_with_zero_targets_are_rejected() {
    assert!(validate_win_condition(WinCondition::Points { target_points: 0 }).is_err());
    assert!(validate_win_condition(WinCondition::Cycles { target_cycles: 0 }).is_err());
    assert!(matches!(
        validate_win_condition(WinCondition::Points { target_points: 10 }),
        Ok(WinCondition::Points { target_points: 10 })
    ));
    assert!(matches!(
        validate_win_condition(WinCondition::CardsFinish),
        Ok(WinCondition::CardsFinish)
    ));
    assert_eq!(
        validate_win_condition(WinCondition::Points { target_points: 0 }).unwrap_err(),
        "target_points must be >= 1"
    );
}

#[test]
fn ratios_parse_with_whitespace_and_reject_nonsense() {
    assert_eq!(parse_ratio("2:3"), Some((2, 3)));
    assert_eq!(parse_ratio(" 4 : 5 "), Some((4, 5)));
    assert_eq!(parse_ratio("0:3"), None);
    assert_eq!(parse_ratio("3:0"), None);
    assert_eq!(parse_ratio("2:3:4"), None);
    assert_eq!(parse_ratio("23"), None);
    assert_eq!(parse_ratio("a:b"), None);
    assert_eq!(parse_ratio(""), None);
}

#[test]
fn center_crop_narrows_the_long_side() {
    // Too wide for 2:3: keep the height, crop the width.
    assert_eq!(center_crop_rect(100, 100, 2, 3), (17, 0, 66, 100));
    // Too tall for 2:3: keep the width, crop the height.
    assert_eq!(center_crop_rect(100, 300, 2, 3), (0, 75, 100, 150));
    // Already exact: nothing moves.
    assert_eq!(center_crop_rect(200, 300, 2, 3), (0, 0, 200, 300));
}

#[test]
fn encoder_backends_parse_case_insensitively() {
    assert_eq!(EncoderBackend::from_env_value(" Native "), Some(EncoderBackend::Native));
    assert_eq!(EncoderBackend::from_env_value("RAVIF"), Some(EncoderBackend::Ravif));
    assert_eq!(EncoderBackend::from_env_value("other"), None);
    assert_eq!(EncoderBackend::Native.env_value(), "native");
    assert_eq!(EncoderBackend::Ravif.env_value(), "ravif");
}

#[test]
fn thread_settings_parse_and_print() {
    assert_eq!(ThreadSetting::from_env_value("auto"), Some(ThreadSetting::Auto));
    assert_eq!(ThreadSetting::from_env_value(" 4 "), Some(ThreadSetting::Fixed(4)));
    assert_eq!(ThreadSetting::from_env_value("0"), None);
    assert_eq!(ThreadSetting::from_env_value("many"), None);
    assert_eq!(ThreadSetting::Auto.env_value(), "auto");
    assert_eq!(ThreadSetting::Fixed(12).env_value(), "12");
    assert_eq!(ThreadSetting::Fixed(105).env_value(), "105");
}

#[test]
fn descriptors_name_the_whole_configuration() {
    assert_eq!(
        encoding_descriptor(EncoderBackend::Ravif, ThreadSetting::Fixed(8)),
        "fmt=avif|backend=ravif|quality=80|speed=6|threads=8|channels=rgb"
    );
    assert_eq!(
        encoding_descriptor(EncoderBackend::Native, ThreadSetting::Auto),
        "fmt=avif|backend=native|quality=80|speed=6|threads=auto|channels=rgb"
    );
}

#[test]
fn cache_formats_parse_and_describe_themselves() {
    assert_eq!(CacheImageFormat::from_env_value("avif"), Some(CacheImageFormat::Avif));
    assert_eq!(CacheImageFormat::from_env_value("JPG"), Some(CacheImageFormat::Jpeg));
    assert_eq!(CacheImageFormat::from_env_value("jpeg"), Some(CacheImageFormat::Jpeg));
    assert_eq!(CacheImageFormat::from_env_value("png"), None);
    assert_eq!(CacheImageFormat::Avif.file_extension(), "avif");
    assert_eq!(CacheImageFormat::Jpeg.file_extension(), "jpg");
    assert_eq!(CacheImageFormat::Avif.mime_type(), "image/avif");
    assert_eq!(CacheImageFormat::Jpeg.mime_type(), "image/jpeg");
    assert_eq!(CacheImageFormat::Avif.env_value(), "avif");
    assert_eq!(CacheImageFormat::Jpeg.env_value(), "jpeg");
}

#[test]
fn supported_images_are_recognized_by_extension_or_sniff() {
    assert!(has_supported_extension("photo.JPG"));
    assert!(has_supported_extension("photo.jpeg"));
    assert!(has_supported_extension("art.png"));
    assert!(has_supported_extension("art.webp"));
    assert!(!has_supported_extension("notes.txt"));
    assert!(!has_supported_extension(".jpg"));
    assert!(!has_supported_extension("noext"));
    assert!(has_supported_extension("archive.tar.png"));

    assert!(is_supported_mime("image/png"));
    assert!(is_supported_mime("image/jpeg"));
    assert!(is_supported_mime("image/webp"));
    assert!(!is_supported_mime("image/avif"));
    assert!(!is_supported_mime("application/json"));
}

#[test]
fn room_ids_are_short_lowercase_words() {
    let id = generate_room_id(4);
    assert_eq!(id.len(), 4);
    assert!(id.chars().all(|c| c.is_ascii_lowercase()));
    let other = generate_room_id(8);
    assert_eq!(other.len(), 8);
}

#[test]
fn rooms_expire_only_when_idle_and_stale() {
    assert!(room_expired(0, 0, 5000));
    assert!(!room_expired(1, 0, 5000), "a subscribed room never expires");
    assert!(!room_expired(0, 1000, 4000), "3000 seconds is within the timeout");
    assert!(!room_expired(0, 5000, 1000), "a clock that went backwards expires nothing");
}

#[test]
fn the_clock_and_the_dice_behave() {
    let t = get_time_s();
    assert!(t > 1_600_000_000, "the clock reads a plausible modern time");
    for n in 1..20usize {
        let r = random_below(n);
        assert!(r < n);
    }
}
