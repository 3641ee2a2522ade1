//! What holds of the rules for the settings and of their update.

use crate::access::{given_token, is_entitled};
use crate::double::{units, Double};
use crate::settings::{
    is_supported_channel, same_display, same_settings, settings_fault, AlertSettings,
    ArchiveSettings, Settings, SettingsPatch,
};
use crate::update::{is_planned, is_refusal, Reply, UpdatePlan};
use vstd::prelude::*;

verus! {

/// A name is that of a channel exactly if it is one of eight.
pub proof fn lemma_supported_channels(name: Seq<char>)
    ensures
        is_supported_channel(name) <==> {
            ||| name == seq!['S', 'H', 'Z']
            ||| name == seq!['E', 'H', 'Z']
            ||| name == seq!['E', 'H', 'E']
            ||| name == seq!['E', 'H', 'N']
            ||| name == seq!['E', 'N', 'Z']
            ||| name == seq!['E', 'N', 'E']
            ||| name == seq!['E', 'N', 'N']
            ||| name == seq!['H', 'D', 'F']
        },
{
    reveal_strlit("SHZ");
    reveal_strlit("EHZ");
    reveal_strlit("EHE");
    reveal_strlit("EHN");
    reveal_strlit("ENZ");
    reveal_strlit("ENE");
    reveal_strlit("ENN");
    reveal_strlit("HDF");
    assert("SHZ"@ =~= seq!['S', 'H', 'Z']);
    assert("EHZ"@ =~= seq!['E', 'H', 'Z']);
    assert("EHE"@ =~= seq!['E', 'H', 'E']);
    assert("EHN"@ =~= seq!['E', 'H', 'N']);
    assert("ENZ"@ =~= seq!['E', 'N', 'Z']);
    assert("ENE"@ =~= seq!['E', 'N', 'E']);
    assert("ENN"@ =~= seq!['E', 'N', 'N']);
    assert("HDF"@ =~= seq!['H', 'D', 'F']);
}

/// Whether a number is known and greater than zero.
pub open spec fn is_positive(x: Double) -> bool {
    !x.is_nan() && x.scaled() > 0
}

/// Whether a number is known and not negative.
pub open spec fn is_not_negative(x: Double) -> bool {
    !x.is_nan() && x.scaled() >= 0
}

proof fn lemma_zero()
    ensures
        (Double { bits: 0 }).scaled() == 0,
        !(Double { bits: 0 }).is_nan(),
{
    assert(units(0) == 0);
}

/// Settings pass exactly if the alert channel exists, the long window is longer than the short one
/// and the short one longer than nothing, the threshold is positive and the reset ratio lies
/// below it without being negative, the minimum duration is not negative, and the rate and the
/// display values are positive. What is no number passes nowhere.
pub proof fn lemma_rules(s: Settings)
    ensures
        settings_fault(s) is None <==> {
            &&& is_supported_channel(s.alert.channel@)
            &&& is_positive(s.alert.sta_seconds)
            &&& !s.alert.lta_seconds.is_nan()
            &&& s.alert.sta_seconds.scaled() < s.alert.lta_seconds.scaled()
            &&& is_positive(s.alert.threshold)
            &&& is_not_negative(s.alert.reset)
            &&& s.alert.reset.scaled() < s.alert.threshold.scaled()
            &&& is_not_negative(s.alert.minimum_duration_seconds)
            &&& is_positive(s.station.sample_rate_hz)
            &&& s.display.window_seconds > 0
            &&& s.display.refresh_hz > 0
        },
{
    lemma_zero();
}

/// The rule that is told is one that the settings break, and no earlier one is broken.
pub proof fn lemma_first_broken_rule(s: Settings)
    ensures
        !is_supported_channel(s.alert.channel@) ==> settings_fault(s) == Some(
            "Alert channel is not supported."@,
        ),
        ({
            let channel = is_supported_channel(s.alert.channel@);
            let short = !s.alert.sta_seconds.is_nan() && s.alert.sta_seconds.scaled() <= 0;
            let long = !s.alert.sta_seconds.is_nan() && !s.alert.lta_seconds.is_nan()
                && s.alert.sta_seconds.scaled() < s.alert.lta_seconds.scaled();
            let threshold = is_positive(s.alert.threshold);
            let reset = is_not_negative(s.alert.reset) && s.alert.reset.scaled()
                < s.alert.threshold.scaled();
            let duration = is_not_negative(s.alert.minimum_duration_seconds);
            let rate = is_positive(s.station.sample_rate_hz);
            let display = s.display.window_seconds > 0 && s.display.refresh_hz > 0;
            &&& channel && short ==> settings_fault(s) == Some(
                "STA duration must be greater than zero."@,
            )
            &&& channel && !short && !long ==> settings_fault(s) == Some(
                "LTA duration must be greater than STA duration."@,
            )
            &&& channel && !short && long && !threshold ==> settings_fault(s) == Some(
                "Alert threshold must be greater than zero."@,
            )
            &&& channel && !short && long && threshold && !reset ==> settings_fault(s) == Some(
                "Reset ratio must be non-negative and lower than the alert threshold."@,
            )
            &&& channel && !short && long && threshold && reset && !duration ==> settings_fault(s)
                == Some("Minimum alert duration cannot be negative."@)
            &&& channel && !short && long && threshold && reset && duration && !rate
                ==> settings_fault(s) == Some("Sample rate must be greater than zero."@)
            &&& channel && !short && long && threshold && reset && duration && rate && !display
                ==> settings_fault(s) == Some(
                "Display window and refresh rate must be greater than zero."@,
            )
        }),
{
    lemma_zero();
}

/// The rules read nothing but the alert section, the sample rate and the two display values.
pub proof fn lemma_rules_read(s: Settings, other: Settings)
    requires
        s.alert.channel@ == other.alert.channel@,
        s.alert.sta_seconds == other.alert.sta_seconds,
        s.alert.lta_seconds == other.alert.lta_seconds,
        s.alert.threshold == other.alert.threshold,
        s.alert.reset == other.alert.reset,
        s.alert.minimum_duration_seconds == other.alert.minimum_duration_seconds,
        s.station.sample_rate_hz == other.station.sample_rate_hz,
        s.display.window_seconds == other.display.window_seconds,
        s.display.refresh_hz == other.display.refresh_hz,
    ensures
        settings_fault(s) == settings_fault(other),
{
}

/// What is saved holds each section that the update gives, independently of the other, and every
/// section that it does not give as it was.
pub proof fn lemma_saves_each_given_section(
    plan: UpdatePlan,
    entitled: bool,
    settings: Settings,
    patch: SettingsPatch,
)
    requires
        plan is Save,
        is_planned(plan, entitled, settings, patch),
    ensures
        entitled,
        forall|alert: AlertSettings|
            patch.alert == Some(alert) ==> #[trigger] same_alert(plan->Save_0.alert, alert),
        forall|archive: ArchiveSettings|
            patch.archive == Some(archive) ==> #[trigger] same_archive(
                plan->Save_0.archive,
                archive,
            ),
        patch.alert is None ==> same_alert(plan->Save_0.alert, settings.alert),
        patch.archive is None ==> same_archive(plan->Save_0.archive, settings.archive),
        plan->Save_0.station == settings.station,
        same_display(plan->Save_0.display, settings.display),
{
}

/// Whether two alert sections hold the same values.
pub open spec fn same_alert(a: AlertSettings, b: AlertSettings) -> bool {
    &&& a.enabled == b.enabled
    &&& a.channel@ == b.channel@
    &&& a.sta_seconds == b.sta_seconds
    &&& a.lta_seconds == b.lta_seconds
    &&& a.threshold == b.threshold
    &&& a.reset == b.reset
    &&& a.minimum_duration_seconds == b.minimum_duration_seconds
    &&& a.sound_enabled == b.sound_enabled
    &&& a.sound_file@ == b.sound_file@
    &&& a.screenshot_enabled == b.screenshot_enabled
}

/// Whether two archive sections hold the same values.
pub open spec fn same_archive(a: ArchiveSettings, b: ArchiveSettings) -> bool {
    &&& a.enabled == b.enabled
    &&& a.source@ == b.source@
    &&& a.directory@ == b.directory@
    &&& a.mini_seed_version == b.mini_seed_version
    &&& a.encoding@ == b.encoding@
}

/// An update is saved exactly if the request is entitled to it and the settings pass the rules once
/// the given sections are in place; an entitled request that breaks a rule is answered with that
/// rule, and one that is not entitled with the call for a token.
pub proof fn lemma_update_outcome(
    plan: UpdatePlan,
    entitled: bool,
    settings: Settings,
    patch: SettingsPatch,
    wanted: Settings,
)
    requires
        is_planned(plan, entitled, settings, patch),
        wanted.station == settings.station,
        same_display(wanted.display, settings.display),
        patch.alert is Some ==> wanted.alert == patch.alert->0,
        patch.alert is None ==> wanted.alert == settings.alert,
        patch.archive is Some ==> wanted.archive == patch.archive->0,
        patch.archive is None ==> wanted.archive == settings.archive,
    ensures
        plan is Save <==> entitled && settings_fault(wanted) is None,
        entitled && settings_fault(wanted) is Some ==> plan is Answer && is_refusal(
            plan->Answer_0,
            400,
            settings_fault(wanted)->0,
        ),
        !entitled ==> plan is Answer && is_refusal(
            plan->Answer_0,
            401,
            "An administrator token is required."@,
        ),
{
}

/// A request is entitled exactly if no token is asked for, or it gives the very token.
pub proof fn lemma_entitled_iff_token_given(given: Option<Seq<char>>, token: Seq<char>)
    ensures
        is_entitled(given, None),
        is_entitled(Some(token), Some(token)),
        is_entitled(given, Some(token)) ==> given is Some && given->0 == token,
        !is_entitled(None, Some(token)),
{
}

/// Two display sections, and two documents, are the same only if every value is.
pub proof fn lemma_same_settings_agree(a: Settings, b: Settings)
    ensures
        same_display(a.display, b.display) ==> {
            &&& a.display.window_seconds == b.display.window_seconds
            &&& a.display.refresh_hz == b.display.refresh_hz
            &&& a.display.channels@ == b.display.channels@
            &&& a.display.spectrogram == b.display.spectrogram
        },
        same_settings(a, b) ==> {
            &&& a.station.network@ == b.station.network@
            &&& a.station.station@ == b.station.station@
            &&& a.station.location@ == b.station.location@
            &&& a.station.sample_rate_hz == b.station.sample_rate_hz
            &&& same_display(a.display, b.display)
            &&& same_alert(a.alert, b.alert)
            &&& same_archive(a.archive, b.archive)
        },
{
}

/// A refusal is an answer with the very status and text.
pub proof fn lemma_refusal_tells(reply: Reply, status: u16, text: Seq<char>)
    ensures
        is_refusal(reply, status, text) ==> match reply {
            Reply::Refused { status: told, text: words } => told == status && words@ == text,
            Reply::Stored(_) => false,
        },
{
}

/// The token of a request is the first value of its header, character by character, and none where
/// one of its bytes is no visible character, space or tab.
pub proof fn lemma_token_is_header_text(headers: Map<Seq<char>, Seq<u8>>, name: Seq<char>, i: int)
    requires
        name == "x-admin-token"@,
    ensures
        !headers.contains_key(name) ==> given_token(headers) is None,
        headers.contains_key(name) && given_token(headers) is None ==> exists|j: int|
            0 <= j < headers[name].len() && {
                let byte = #[trigger] headers[name][j];
                byte >= 127 || byte < 32 && byte != 9
            },
        headers.contains_key(name) && given_token(headers) is Some && 0 <= i < headers[name].len()
            ==> {
            let byte = headers[name][i];
            &&& given_token(headers)->0.len() == headers[name].len()
            &&& given_token(headers)->0[i] as u32 == byte
            &&& byte < 127 && (byte >= 32 || byte == 9)
        },
{
}

} // verus!
