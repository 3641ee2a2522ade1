use axum::http::{HeaderMap, HeaderValue};
use lpudp::access::{effective_token, is_authorized, token_matches};
use lpudp::double::Double;
use lpudp::settings::{
    apply_patch, settings_or_default, validate_settings, AlertSettings, ArchiveSettings, Settings,
    SettingsPatch,
};
use lpudp::update::{finish_put_settings, plan_put_settings, plan_update, Reply, UpdatePlan};

fn double(value: f64) -> Double {
    Double::from_bits(value.to_bits())
}

fn refusal(change: fn(&mut Settings)) -> Option<String> {
    let mut settings = Settings::default();
    change(&mut settings);
    validate_settings(&settings).err()
}

#[test]
fn default_settings_are_those_of_the_manual() {
    let settings = settings_or_default(None);
    assert_eq!(settings.station.network, "AM");
    assert_eq!(settings.station.station, "Z0000");
    assert_eq!(settings.station.location, "00");
    assert_eq!(settings.station.sample_rate_hz.bits, 100.0_f64.to_bits());
    assert_eq!(settings.display.window_seconds, 90);
    assert_eq!(settings.display.refresh_hz, 10);
    assert_eq!(settings.display.channels, vec!["EHZ", "EHE", "EHN", "ENZ"]);
    assert!(settings.display.spectrogram);
    assert!(settings.alert.enabled);
    assert_eq!(settings.alert.channel, "EHZ");
    assert_eq!(settings.alert.sta_seconds.bits, 6.0_f64.to_bits());
    assert_eq!(settings.alert.lta_seconds.bits, 30.0_f64.to_bits());
    assert_eq!(settings.alert.threshold.bits, 3.95_f64.to_bits());
    assert_eq!(settings.alert.reset.bits, 0.9_f64.to_bits());
    assert_eq!(settings.alert.minimum_duration_seconds.bits, 0.0_f64.to_bits());
    assert!(settings.alert.sound_enabled);
    assert_eq!(settings.alert.sound_file, "alert.wav");
    assert!(settings.alert.screenshot_enabled);
    assert!(!settings.archive.enabled);
    assert_eq!(settings.archive.source, "seedlink");
    assert_eq!(settings.archive.directory, "archive");
    assert_eq!(settings.archive.mini_seed_version, 2);
    assert_eq!(settings.archive.encoding, "STEIM2");
    assert!(validate_settings(&settings).is_ok());
}

#[test]
fn settings_that_were_read_are_kept() {
    let mut read = Settings::default();
    read.station.station = "R1234".into();
    assert_eq!(settings_or_default(Some(read)).station.station, "R1234");
}

#[test]
fn each_rule_is_enforced() {
    assert_eq!(
        refusal(|s| s.alert.channel = "XYZ".into()).unwrap(),
        "Alert channel is not supported."
    );
    assert_eq!(
        refusal(|s| s.alert.sta_seconds = double(0.0)).unwrap(),
        "STA duration must be greater than zero."
    );
    assert_eq!(
        refusal(|s| s.alert.lta_seconds = double(6.0)).unwrap(),
        "LTA duration must be greater than STA duration."
    );
    assert_eq!(
        refusal(|s| s.alert.threshold = double(-1.0)).unwrap(),
        "Alert threshold must be greater than zero."
    );
    for reset in [-0.1, 3.95, 4.0] {
        let mut settings = Settings::default();
        settings.alert.reset = double(reset);
        assert_eq!(
            validate_settings(&settings).unwrap_err(),
            "Reset ratio must be non-negative and lower than the alert threshold."
        );
    }
    assert_eq!(
        refusal(|s| s.alert.minimum_duration_seconds = double(-0.5)).unwrap(),
        "Minimum alert duration cannot be negative."
    );
    assert_eq!(
        refusal(|s| s.station.sample_rate_hz = double(0.0)).unwrap(),
        "Sample rate must be greater than zero."
    );
    assert_eq!(
        refusal(|s| s.display.window_seconds = 0).unwrap(),
        "Display window and refresh rate must be greater than zero."
    );
    assert_eq!(
        refusal(|s| s.display.refresh_hz = 0).unwrap(),
        "Display window and refresh rate must be greater than zero."
    );
}

#[test]
fn first_broken_rule_is_told() {
    assert_eq!(
        refusal(|s| {
            s.display.refresh_hz = 0;
            s.alert.sta_seconds = double(-1.0);
            s.alert.threshold = double(0.0);
        })
        .unwrap(),
        "STA duration must be greater than zero."
    );
}

#[test]
fn borderline_settings_pass() {
    assert!(refusal(|s| s.alert.reset = double(0.0)).is_none());
    assert!(refusal(|s| s.alert.reset = double(-0.0)).is_none());
    assert!(refusal(|s| s.alert.sta_seconds = double(5.0e-324)).is_none());
    assert!(refusal(|s| s.alert.lta_seconds = double(6.000000000000001)).is_none());
    assert!(refusal(|s| s.alert.lta_seconds = double(f64::INFINITY)).is_none());
}

#[test]
fn lta_that_is_not_greater_is_rejected() {
    for lta in [6.0, 5.9, -1.0, f64::NAN] {
        let mut settings = Settings::default();
        settings.alert.lta_seconds = double(lta);
        assert_eq!(
            validate_settings(&settings).unwrap_err(),
            "LTA duration must be greater than STA duration."
        );
    }
}

fn quiet_patch() -> SettingsPatch {
    let mut alert = AlertSettings::default();
    alert.enabled = false;
    SettingsPatch {
        alert: Some(alert),
        archive: None,
    }
}

#[test]
fn patch_replaces_its_sections_only() {
    let mut settings = Settings::default();
    settings.station.station = "R1234".into();
    settings.archive.directory = "data".into();
    let updated = apply_patch(&settings, quiet_patch());
    assert!(!updated.alert.enabled);
    assert_eq!(updated.archive.directory, "data");
    assert_eq!(updated.station.station, "R1234");
    assert_eq!(updated.display.channels, settings.display.channels);
    let archive = ArchiveSettings {
        enabled: true,
        ..ArchiveSettings::default()
    };
    let updated = apply_patch(
        &settings,
        SettingsPatch {
            alert: None,
            archive: Some(archive),
        },
    );
    assert!(updated.archive.enabled);
    assert!(updated.alert.enabled);
}

fn headers_with(token: &[u8]) -> HeaderMap {
    let mut headers = HeaderMap::new();
    headers.insert("X-Admin-Token", HeaderValue::from_bytes(token).unwrap());
    headers
}

#[test]
fn token_in_the_header_decides() {
    let expected = Some("change-this-token".to_string());
    assert!(is_authorized(&headers_with(b"change-this-token"), &expected));
    assert!(!is_authorized(&headers_with(b"change-this-tokeN"), &expected));
    assert!(!is_authorized(&headers_with(b""), &expected));
    assert!(!is_authorized(&HeaderMap::new(), &expected));
    assert!(is_authorized(&HeaderMap::new(), &None));
    assert!(is_authorized(&headers_with(b"anything"), &None));
}

#[test]
fn first_of_several_tokens_counts() {
    let expected = Some("one".to_string());
    let mut headers = headers_with(b"one");
    headers.append("x-admin-token", HeaderValue::from_static("two"));
    headers.insert("host", HeaderValue::from_static("two"));
    assert!(is_authorized(&headers, &expected));
    let mut headers = headers_with(b"two");
    headers.append("x-admin-token", HeaderValue::from_static("one"));
    assert!(!is_authorized(&headers, &expected));
}

#[test]
fn token_must_be_visible() {
    let accented = "caf\u{e9}";
    assert!(!is_authorized(
        &headers_with(accented.as_bytes()),
        &Some(accented.to_string())
    ));
    assert!(is_authorized(
        &headers_with(b"with space\tand tab"),
        &Some("with space\tand tab".to_string())
    ));
    assert!(token_matches(Some(accented), &Some(accented.to_string())));
}

#[test]
fn empty_token_counts_as_none() {
    assert_eq!(effective_token(Some(String::new())), None);
    assert_eq!(effective_token(Some("t".into())), Some("t".to_string()));
    assert_eq!(effective_token(None), None);
}

#[test]
fn update_without_the_token_is_refused() {
    let settings = Settings::default();
    let plan = plan_put_settings(
        &headers_with(b"wrong"),
        &Some("right".to_string()),
        &settings,
        quiet_patch(),
    );
    match plan {
        UpdatePlan::Answer(Reply::Refused { status, text }) => {
            assert_eq!(status, 401);
            assert_eq!(text, "An administrator token is required.");
        }
        other => panic!("{other:?}"),
    }
}

#[test]
fn update_that_breaks_a_rule_is_refused() {
    let settings = Settings::default();
    let mut alert = AlertSettings::default();
    alert.lta_seconds = double(1.0);
    let patch = SettingsPatch {
        alert: Some(alert),
        archive: None,
    };
    match plan_put_settings(&HeaderMap::new(), &None, &settings, patch) {
        UpdatePlan::Answer(Reply::Refused { status, text }) => {
            assert_eq!(status, 400);
            assert_eq!(text, "LTA duration must be greater than STA duration.");
        }
        other => panic!("{other:?}"),
    }
}

#[test]
fn update_comes_into_force_once_saved() {
    let mut settings = Settings::default();
    let plan = plan_put_settings(
        &headers_with(b"right"),
        &Some("right".to_string()),
        &settings,
        quiet_patch(),
    );
    let updated = match plan {
        UpdatePlan::Save(updated) => updated,
        other => panic!("{other:?}"),
    };
    match finish_put_settings(&mut settings, updated.clone(), false) {
        Reply::Refused { status, text } => {
            assert_eq!(status, 500);
            assert_eq!(text, "Could not save settings.");
        }
        other => panic!("{other:?}"),
    }
    assert!(settings.alert.enabled);
    match finish_put_settings(&mut settings, updated, true) {
        Reply::Stored(answer) => assert!(!answer.alert.enabled),
        other => panic!("{other:?}"),
    }
    assert!(!settings.alert.enabled);
}

#[test]
fn entitlement_decides_the_plan() {
    let settings = Settings::default();
    assert!(matches!(
        plan_update(true, &settings, quiet_patch()),
        UpdatePlan::Save(_)
    ));
    assert!(matches!(
        plan_update(false, &settings, quiet_patch()),
        UpdatePlan::Answer(Reply::Refused { status: 401, .. })
    ));
}

#[test]
fn what_is_no_number_is_rejected() {
    assert_eq!(
        refusal(|s| s.alert.threshold = double(f64::NAN)).unwrap(),
        "Alert threshold must be greater than zero."
    );
    assert_eq!(
        refusal(|s| s.alert.reset = double(f64::NAN)).unwrap(),
        "Reset ratio must be non-negative and lower than the alert threshold."
    );
    assert_eq!(
        refusal(|s| s.alert.minimum_duration_seconds = double(f64::NAN)).unwrap(),
        "Minimum alert duration cannot be negative."
    );
    assert_eq!(
        refusal(|s| s.station.sample_rate_hz = double(f64::NAN)).unwrap(),
        "Sample rate must be greater than zero."
    );
}
