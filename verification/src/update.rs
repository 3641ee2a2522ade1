//! The update of the shared settings.

use crate::access::{first_values, given_token, is_authorized, is_entitled, option_view};
use crate::settings::{
    apply_patch, is_patched, same_display, same_settings, settings_fault, validate_settings, Settings,
    SettingsPatch,
};
use axum::http::{HeaderMap, HeaderValue};
use vstd::prelude::*;

verus! {

/// What an update is answered.
#[derive(Debug)]
pub enum Reply {
    Refused { status: u16, text: String },
    Stored(Settings),
}

/// What is to be done about an update.
#[derive(Debug)]
pub enum UpdatePlan {
    Answer(Reply),
    Save(Settings),
}

/// The settings that an update asks for.
pub open spec fn requested(settings: Settings, patch: SettingsPatch) -> Settings {
    Settings {
        station: settings.station,
        display: settings.display,
        alert: match patch.alert {
            Some(alert) => alert,
            None => settings.alert,
        },
        archive: match patch.archive {
            Some(archive) => archive,
            None => settings.archive,
        },
    }
}

/// Whether a reply is a refusal with this status and text.
pub open spec fn is_refusal(reply: Reply, status: u16, text: Seq<char>) -> bool {
    reply is Refused && reply->status == status && reply->text@ == text
}

/// Whether `plan` is the one that is owed: a request without the token is refused, then one that
/// asks for settings that break a rule, and what is left is to be saved.
pub open spec fn is_planned(
    plan: UpdatePlan,
    entitled: bool,
    settings: Settings,
    patch: SettingsPatch,
) -> bool {
    if !entitled {
        plan is Answer && is_refusal(plan->Answer_0, 401, "An administrator token is required."@)
    } else {
        match settings_fault(requested(settings, patch)) {
            Some(text) => plan is Answer && is_refusal(plan->Answer_0, 400, text),
            None => plan is Save && is_patched(settings, patch, plan->Save_0) && settings_fault(
                plan->Save_0,
            ) is None,
        }
    }
}

/// Decides on an update of the settings, once it is known whether the request is entitled to it.
pub fn plan_update(entitled: bool, settings: &Settings, patch: SettingsPatch) -> (r: UpdatePlan)
    ensures
        is_planned(r, entitled, *settings, patch),
{
    if !entitled {
        return UpdatePlan::Answer(
            Reply::Refused { status: 401, text: "An administrator token is required.".to_string() },
        );
    }
    let ghost wanted = requested(*settings, patch);
    let updated: Settings = apply_patch(settings, patch);
    assert(settings_fault(updated) == settings_fault(wanted));
    match validate_settings(&updated) {
        Err(text) => UpdatePlan::Answer(Reply::Refused { status: 400, text }),
        Ok(()) => UpdatePlan::Save(updated),
    }
}

/// Decides on a request to update the settings.
pub fn plan_put_settings(
    headers: &HeaderMap<HeaderValue>,
    admin_token: &Option<String>,
    settings: &Settings,
    patch: SettingsPatch,
) -> (r: UpdatePlan)
    ensures
        is_planned(
            r,
            is_entitled(given_token(first_values(*headers)), option_view(*admin_token)),
            *settings,
            patch,
        ),
{
    plan_update(is_authorized(headers, admin_token), settings, patch)
}

/// Ends an update when it is known whether the new settings were saved: they come into force and
/// are answered only if they were.
pub fn finish_put_settings(current: &mut Settings, updated: Settings, saved: bool) -> (r: Reply)
    ensures
        saved ==> *final(current) == updated && r is Stored && same_settings(r->Stored_0, updated),
        !saved ==> *final(current) == *old(current) && is_refusal(
            r,
            500,
            "Could not save settings."@,
        ),
{
    if !saved {
        return Reply::Refused { status: 500, text: "Could not save settings.".to_string() };
    }
    let answer: Settings = updated.clone();
    *current = updated;
    Reply::Stored(answer)
}

/// Where a token is asked for, a request that does not give it is refused, whatever it asks for,
/// and nothing is saved.
pub proof fn lemma_token_protects(
    plan: UpdatePlan,
    given: Option<Seq<char>>,
    token: Seq<char>,
    settings: Settings,
    patch: SettingsPatch,
)
    requires
        given != Some(token),
        is_planned(plan, is_entitled(given, Some(token)), settings, patch),
    ensures
        plan !is Save,
        plan is Answer,
        is_refusal(plan->Answer_0, 401, "An administrator token is required."@),
{
}

/// What is saved passes the rules, and differs from the settings before in the alert and archive
/// sections only.
pub proof fn lemma_saves_only_valid_sections(
    plan: UpdatePlan,
    given: Option<Seq<char>>,
    expected: Option<Seq<char>>,
    settings: Settings,
    patch: SettingsPatch,
)
    requires
        plan is Save,
        is_planned(plan, is_entitled(given, expected), settings, patch),
    ensures
        is_entitled(given, expected),
        settings_fault(plan->Save_0) is None,
        plan->Save_0.station == settings.station,
        same_display(plan->Save_0.display, settings.display),
        patch.alert is None ==> plan->Save_0.alert == settings.alert,
        patch.archive is None ==> plan->Save_0.archive == settings.archive,
{
}

/// What is saved has a long-term window longer than the short-term one.
pub proof fn lemma_saves_longer_lta(
    plan: UpdatePlan,
    given: Option<Seq<char>>,
    expected: Option<Seq<char>>,
    settings: Settings,
    patch: SettingsPatch,
)
    requires
        plan is Save,
        is_planned(plan, is_entitled(given, expected), settings, patch),
    ensures
        plan->Save_0.alert.sta_seconds.below(plan->Save_0.alert.lta_seconds),
{
}

} // verus!
