//! The settings document: its defaults, its rules and its update.

use crate::double::{lemma_units_increase, units, Double};
use vstd::prelude::*;

verus! {

/// 100 samples per second, as a bit pattern.
pub const DEFAULT_SAMPLE_RATE: u64 = 0x4059_0000_0000_0000;

/// 6 seconds, as a bit pattern.
pub const DEFAULT_STA_SECONDS: u64 = 0x4018_0000_0000_0000;

/// 30 seconds, as a bit pattern.
pub const DEFAULT_LTA_SECONDS: u64 = 0x403e_0000_0000_0000;

/// The ratio 3.95, as a bit pattern.
pub const DEFAULT_THRESHOLD: u64 = 0x400f_9999_9999_999a;

/// The ratio 0.9, as a bit pattern.
pub const DEFAULT_RESET: u64 = 0x3fec_cccc_cccc_cccd;

/// The number zero, as a bit pattern.
pub const ZERO: u64 = 0;

/// Where the station is and how fast it samples.
#[derive(Debug)]
pub struct StationSettings {
    pub network: String,
    pub station: String,
    pub location: String,
    pub sample_rate_hz: Double,
}

/// What the browser shows.
#[derive(Debug)]
pub struct DisplaySettings {
    pub window_seconds: u32,
    pub refresh_hz: u32,
    pub channels: Vec<String>,
    pub spectrogram: bool,
}

/// When an alert starts and ends, and what it does.
#[derive(Debug)]
pub struct AlertSettings {
    pub enabled: bool,
    pub channel: String,
    pub sta_seconds: Double,
    pub lta_seconds: Double,
    pub threshold: Double,
    pub reset: Double,
    pub minimum_duration_seconds: Double,
    pub sound_enabled: bool,
    pub sound_file: String,
    pub screenshot_enabled: bool,
}

/// How data is kept.
#[derive(Debug)]
pub struct ArchiveSettings {
    pub enabled: bool,
    pub source: String,
    pub directory: String,
    pub mini_seed_version: u8,
    pub encoding: String,
}

/// The whole settings document.
#[derive(Debug)]
pub struct Settings {
    pub station: StationSettings,
    pub display: DisplaySettings,
    pub alert: AlertSettings,
    pub archive: ArchiveSettings,
}

/// The sections that an update replaces.
#[derive(Debug)]
pub struct SettingsPatch {
    pub alert: Option<AlertSettings>,
    pub archive: Option<ArchiveSettings>,
}

/// Whether the two sections hold the same values.
pub open spec fn same_display(a: DisplaySettings, b: DisplaySettings) -> bool {
    &&& a.window_seconds == b.window_seconds
    &&& a.refresh_hz == b.refresh_hz
    &&& a.channels@ == b.channels@
    &&& a.spectrogram == b.spectrogram
}

/// Whether the two documents hold the same values.
pub open spec fn same_settings(a: Settings, b: Settings) -> bool {
    &&& a.station == b.station
    &&& same_display(a.display, b.display)
    &&& a.alert == b.alert
    &&& a.archive == b.archive
}

/// The station section that holds without a settings file.
pub open spec fn is_default_station(s: StationSettings) -> bool {
    &&& s.network@ == "AM"@
    &&& s.station@ == "Z0000"@
    &&& s.location@ == "00"@
    &&& s.sample_rate_hz.bits == DEFAULT_SAMPLE_RATE
}

/// The display section that holds without a settings file.
pub open spec fn is_default_display(s: DisplaySettings) -> bool {
    &&& s.window_seconds == 90
    &&& s.refresh_hz == 10
    &&& s.channels@.len() == 4
    &&& s.channels@[0]@ == "EHZ"@
    &&& s.channels@[1]@ == "EHE"@
    &&& s.channels@[2]@ == "EHN"@
    &&& s.channels@[3]@ == "ENZ"@
    &&& s.spectrogram
}

/// The alert section that holds without a settings file: 6 s against 30 s, alarm at 3.95,
/// reset at 0.9.
pub open spec fn is_default_alert(s: AlertSettings) -> bool {
    &&& s.enabled
    &&& s.channel@ == "EHZ"@
    &&& s.sta_seconds.bits == DEFAULT_STA_SECONDS
    &&& s.lta_seconds.bits == DEFAULT_LTA_SECONDS
    &&& s.threshold.bits == DEFAULT_THRESHOLD
    &&& s.reset.bits == DEFAULT_RESET
    &&& s.minimum_duration_seconds.bits == ZERO
    &&& s.sound_enabled
    &&& s.sound_file@ == "alert.wav"@
    &&& s.screenshot_enabled
}

/// The archive section that holds without a settings file.
pub open spec fn is_default_archive(s: ArchiveSettings) -> bool {
    &&& !s.enabled
    &&& s.source@ == "seedlink"@
    &&& s.directory@ == "archive"@
    &&& s.mini_seed_version == 2
    &&& s.encoding@ == "STEIM2"@
}

impl Default for StationSettings {
    fn default() -> (r: StationSettings)
        ensures
            is_default_station(r),
    {
        StationSettings {
            network: "AM".to_string(),
            station: "Z0000".to_string(),
            location: "00".to_string(),
            sample_rate_hz: Double { bits: DEFAULT_SAMPLE_RATE },
        }
    }
}

impl Default for DisplaySettings {
    fn default() -> (r: DisplaySettings)
        ensures
            is_default_display(r),
    {
        let channels: Vec<String> = vec![
            "EHZ".to_string(),
            "EHE".to_string(),
            "EHN".to_string(),
            "ENZ".to_string(),
        ];
        DisplaySettings { window_seconds: 90, refresh_hz: 10, channels, spectrogram: true }
    }
}

impl Default for AlertSettings {
    fn default() -> (r: AlertSettings)
        ensures
            is_default_alert(r),
    {
        AlertSettings {
            enabled: true,
            channel: "EHZ".to_string(),
            sta_seconds: Double { bits: DEFAULT_STA_SECONDS },
            lta_seconds: Double { bits: DEFAULT_LTA_SECONDS },
            threshold: Double { bits: DEFAULT_THRESHOLD },
            reset: Double { bits: DEFAULT_RESET },
            minimum_duration_seconds: Double { bits: ZERO },
            sound_enabled: true,
            sound_file: "alert.wav".to_string(),
            screenshot_enabled: true,
        }
    }
}

impl Default for ArchiveSettings {
    fn default() -> (r: ArchiveSettings)
        ensures
            is_default_archive(r),
    {
        ArchiveSettings {
            enabled: false,
            source: "seedlink".to_string(),
            directory: "archive".to_string(),
            mini_seed_version: 2,
            encoding: "STEIM2".to_string(),
        }
    }
}

impl Default for Settings {
    fn default() -> (r: Settings)
        ensures
            is_default_station(r.station),
            is_default_display(r.display),
            is_default_alert(r.alert),
            is_default_archive(r.archive),
    {
        Settings {
            station: StationSettings::default(),
            display: DisplaySettings::default(),
            alert: AlertSettings::default(),
            archive: ArchiveSettings::default(),
        }
    }
}

impl Clone for StationSettings {
    fn clone(&self) -> (r: StationSettings)
        ensures
            r == *self,
    {
        StationSettings {
            network: self.network.clone(),
            station: self.station.clone(),
            location: self.location.clone(),
            sample_rate_hz: self.sample_rate_hz,
        }
    }
}

impl Clone for DisplaySettings {
    fn clone(&self) -> (r: DisplaySettings)
        ensures
            same_display(r, *self),
    {
        let channels: Vec<String> = self.channels.clone();
        assert(channels@ =~= self.channels@);
        DisplaySettings {
            window_seconds: self.window_seconds,
            refresh_hz: self.refresh_hz,
            channels,
            spectrogram: self.spectrogram,
        }
    }
}

impl Clone for AlertSettings {
    fn clone(&self) -> (r: AlertSettings)
        ensures
            r == *self,
    {
        AlertSettings {
            enabled: self.enabled,
            channel: self.channel.clone(),
            sta_seconds: self.sta_seconds,
            lta_seconds: self.lta_seconds,
            threshold: self.threshold,
            reset: self.reset,
            minimum_duration_seconds: self.minimum_duration_seconds,
            sound_enabled: self.sound_enabled,
            sound_file: self.sound_file.clone(),
            screenshot_enabled: self.screenshot_enabled,
        }
    }
}

impl Clone for ArchiveSettings {
    fn clone(&self) -> (r: ArchiveSettings)
        ensures
            r == *self,
    {
        ArchiveSettings {
            enabled: self.enabled,
            source: self.source.clone(),
            directory: self.directory.clone(),
            mini_seed_version: self.mini_seed_version,
            encoding: self.encoding.clone(),
        }
    }
}

impl Clone for Settings {
    fn clone(&self) -> (r: Settings)
        ensures
            same_settings(r, *self),
    {
        Settings {
            station: self.station.clone(),
            display: self.display.clone(),
            alert: self.alert.clone(),
            archive: self.archive.clone(),
        }
    }
}

/// Whether `name` is a channel of a Raspberry Shake.
pub open spec fn is_supported_channel(name: Seq<char>) -> bool {
    ||| name == "SHZ"@
    ||| name == "EHZ"@
    ||| name == "EHE"@
    ||| name == "EHN"@
    ||| name == "ENZ"@
    ||| name == "ENE"@
    ||| name == "ENN"@
    ||| name == "HDF"@
}

/// Whether the two texts are the same.
pub fn same_text(s: &String, t: &str) -> (r: bool)
    ensures
        r == (s@ == t@),
{
    *s == t.to_string()
}

/// Whether `name` is a channel of a Raspberry Shake.
pub fn supports_channel(name: &String) -> (r: bool)
    ensures
        r == is_supported_channel(name@),
{
    same_text(name, "SHZ") || same_text(name, "EHZ") || same_text(name, "EHE") || same_text(
        name,
        "EHN",
    ) || same_text(name, "ENZ") || same_text(name, "ENE") || same_text(name, "ENN") || same_text(
        name,
        "HDF",
    )
}

/// The first rule that the settings break, in the words of the reply. What is no number breaks the
/// rule that speaks of it.
pub open spec fn settings_fault(s: Settings) -> Option<Seq<char>> {
    let zero = Double { bits: ZERO };
    if !is_supported_channel(s.alert.channel@) {
        Some("Alert channel is not supported."@)
    } else if s.alert.sta_seconds.at_most(zero) {
        Some("STA duration must be greater than zero."@)
    } else if !s.alert.sta_seconds.below(s.alert.lta_seconds) {
        Some("LTA duration must be greater than STA duration."@)
    } else if !zero.below(s.alert.threshold) {
        Some("Alert threshold must be greater than zero."@)
    } else if !zero.at_most(s.alert.reset) || !s.alert.reset.below(s.alert.threshold) {
        Some("Reset ratio must be non-negative and lower than the alert threshold."@)
    } else if !zero.at_most(s.alert.minimum_duration_seconds) {
        Some("Minimum alert duration cannot be negative."@)
    } else if !zero.below(s.station.sample_rate_hz) {
        Some("Sample rate must be greater than zero."@)
    } else if s.display.window_seconds == 0 || s.display.refresh_hz == 0 {
        Some("Display window and refresh rate must be greater than zero."@)
    } else {
        None
    }
}

/// Checks the settings; the first rule that they break is the error.
pub fn validate_settings(settings: &Settings) -> (r: Result<(), String>)
    ensures
        match r {
            Ok(()) => settings_fault(*settings) is None,
            Err(text) => settings_fault(*settings) == Some(text@),
        },
{
    let zero: Double = Double { bits: ZERO };
    let alert: &AlertSettings = &settings.alert;
    if !supports_channel(&alert.channel) {
        return Err("Alert channel is not supported.".to_string());
    }
    if alert.sta_seconds.is_at_most(zero) {
        return Err("STA duration must be greater than zero.".to_string());
    }
    if !alert.sta_seconds.is_below(alert.lta_seconds) {
        return Err("LTA duration must be greater than STA duration.".to_string());
    }
    if !zero.is_below(alert.threshold) {
        return Err("Alert threshold must be greater than zero.".to_string());
    }
    if !zero.is_at_most(alert.reset) || !alert.reset.is_below(alert.threshold) {
        return Err(
            "Reset ratio must be non-negative and lower than the alert threshold.".to_string(),
        );
    }
    if !zero.is_at_most(alert.minimum_duration_seconds) {
        return Err("Minimum alert duration cannot be negative.".to_string());
    }
    if !zero.is_below(settings.station.sample_rate_hz) {
        return Err("Sample rate must be greater than zero.".to_string());
    }
    if settings.display.window_seconds == 0 || settings.display.refresh_hz == 0 {
        return Err("Display window and refresh rate must be greater than zero.".to_string());
    }
    Ok(())
}

/// The settings that are in force: those that were read, or the defaults where nothing usable
/// was read.
pub fn settings_or_default(read: Option<Settings>) -> (r: Settings)
    ensures
        match read {
            Some(settings) => r == settings,
            None => {
                &&& is_default_station(r.station)
                &&& is_default_display(r.display)
                &&& is_default_alert(r.alert)
                &&& is_default_archive(r.archive)
            },
        },
{
    match read {
        Some(settings) => settings,
        None => Settings::default(),
    }
}

/// Whether `after` is `before` with the sections of the patch in place.
pub open spec fn is_patched(before: Settings, patch: SettingsPatch, after: Settings) -> bool {
    &&& after.station == before.station
    &&& same_display(after.display, before.display)
    &&& after.alert == match patch.alert {
        Some(alert) => alert,
        None => before.alert,
    }
    &&& after.archive == match patch.archive {
        Some(archive) => archive,
        None => before.archive,
    }
}

/// A copy of the settings with the sections of the patch in place.
pub fn apply_patch(settings: &Settings, patch: SettingsPatch) -> (r: Settings)
    ensures
        is_patched(*settings, patch, r),
{
    let mut updated: Settings = settings.clone();
    if let Some(alert) = patch.alert {
        updated.alert = alert;
    }
    if let Some(archive) = patch.archive {
        updated.archive = archive;
    }
    updated
}

/// The settings that hold without a settings file pass all rules.
pub proof fn lemma_defaults_are_valid(s: Settings)
    requires
        is_default_station(s.station),
        is_default_display(s.display),
        is_default_alert(s.alert),
    ensures
        settings_fault(s) is None,
{
    assert(units(0) == 0);
    lemma_units_increase(0, DEFAULT_STA_SECONDS as nat);
    lemma_units_increase(DEFAULT_STA_SECONDS as nat, DEFAULT_LTA_SECONDS as nat);
    lemma_units_increase(0, DEFAULT_RESET as nat);
    lemma_units_increase(DEFAULT_RESET as nat, DEFAULT_THRESHOLD as nat);
    lemma_units_increase(0, DEFAULT_SAMPLE_RATE as nat);
}

} // verus!
