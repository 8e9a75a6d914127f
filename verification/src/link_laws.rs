//! What the program promises from event to event: when it logs in again, which
//! edition it takes for running, which channel the controls act on, and how
//! long the bar stays.

use crate::app_state::{AppState, Show};
use crate::config::{name_spec, ChannelKind};
use crate::motion::FrameInput;
use crate::rounding::{lemma_pow2_big, lemma_rank_order, lemma_signed_exact};
use crate::single::{of_bits, Single, HALF};
use crate::state::is_odd;
use crate::time::Instant;
use crate::vmr::Link;
use vstd::arithmetic::power2::{lemma_pow2_adds, lemma_pow2_unfold, pow2};
use vstd::prelude::*;

verus! {

/// A run of polls: each takes over the count of failures and the backoff from
/// the one before it.
pub open spec fn is_run(
    before: Seq<AppState>,
    links: Seq<Link>,
    times: Seq<nat>,
    logins: Seq<bool>,
    after: Seq<AppState>,
) -> bool {
    &&& before.len() == links.len() == times.len() == logins.len() == after.len()
    &&& forall|i: int|
        0 <= i < before.len() ==> (#[trigger] before[i]).is_supervised(
            links[i],
            times[i],
            logins[i],
            after[i],
        )
    &&& forall|i: int|
        0 <= i < before.len() - 1 ==> (#[trigger] after[i]).failed_polls == before[i
            + 1].failed_polls && after[i].reconnect@ == before[i + 1].reconnect@
}

/// A session is given two seconds: after a healthy poll it takes fifty polls
/// in a row that fail, by the link or by the channel's reading, until the
/// program logs in again, and at the fiftieth it does.
pub proof fn law_fifty_failed_polls_lead_to_a_login(
    before: Seq<AppState>,
    links: Seq<Link>,
    times: Seq<nat>,
    logins: Seq<bool>,
    after: Seq<AppState>,
)
    requires
        is_run(before, links, times, logins, after),
        before.len() > 0,
        before[0].failed_polls == 0,
        before[0].reconnect@.next_at is None,
        forall|i: int|
            0 <= i < before.len() ==> (#[trigger] links[i]) != Link::Up
                || before[i].channel.read_failures != 0,
    ensures
        forall|i: int| 0 <= i < before.len() && i < 49 ==> !#[trigger] logins[i],
        before.len() >= 50 ==> logins[49],
{
    let n = if before.len() < 50 {
        before.len() as int
    } else {
        50
    };
    lemma_failing(before, links, times, logins, after, n - 1);
    assert forall|i: int| 0 <= i < before.len() && i < 49 implies !#[trigger] logins[i] by {
        lemma_failing(before, links, times, logins, after, i);
    }
}

proof fn lemma_failing(
    before: Seq<AppState>,
    links: Seq<Link>,
    times: Seq<nat>,
    logins: Seq<bool>,
    after: Seq<AppState>,
    i: int,
)
    requires
        is_run(before, links, times, logins, after),
        0 <= i < before.len(),
        i < 50,
        before[0].failed_polls == 0,
        before[0].reconnect@.next_at is None,
        forall|i: int|
            0 <= i < before.len() ==> (#[trigger] links[i]) != Link::Up
                || before[i].channel.read_failures != 0,
    ensures
        before[i].failed_polls == i,
        before[i].reconnect@.next_at is None,
        logins[i] == (i == 49),
    decreases i,
{
    if i > 0 {
        lemma_failing(before, links, times, logins, after, i - 1);
        assert(before[i - 1].is_supervised(
            links[i - 1],
            times[i - 1],
            logins[i - 1],
            after[i - 1],
        ));
        assert(links[i - 1] != Link::Up || before[i - 1].channel.read_failures != 0);
        assert(after[i - 1].failed_polls == before[i].failed_polls);
    }
    assert(before[i].is_supervised(links[i], times[i], logins[i], after[i]));
    assert(links[i] != Link::Up || before[i].channel.read_failures != 0);
}

/// A healthy poll is one with the link up and the channel read. It forgives:
/// nothing is counted any more, the next retry would be eager again, and the
/// program does not log in. After a login the next one waits for the backoff.
pub proof fn law_a_healthy_poll_forgives(
    before: AppState,
    link: Link,
    now: nat,
    relogin: bool,
    after: AppState,
    later: nat,
)
    requires
        before.is_supervised(link, now, relogin, after),
    ensures
        link == Link::Up && before.channel.read_failures == 0 ==> {
            &&& !relogin
            &&& after.failed_polls == 0
            &&& after.reconnect@.next_at is None
            &&& after.reconnect@.delay == before.reconnect@.min
            &&& after.edition_known == before.edition_known
        },
        relogin ==> !after.edition_known && !after.reconnect@.is_due(later) == (later < now
            + before.reconnect@.delay),
        link == Link::NoServer ==> !after.edition_known,
{
}

/// A known edition stays whatever is reported, and an unknown one is what is
/// reported first.
pub proof fn law_the_first_report_names_the_edition(
    app: AppState,
    reported: Option<i32>,
    later: Option<i32>,
)
    ensures
        ({
            let (known, edition) = app.edition_after(reported);
            let next = (AppState { edition_known: known, edition, ..app }).edition_after(later);
            &&& app.edition_known ==> known && edition == app.edition
            &&& !app.edition_known && reported is Some ==> known && Some(edition) == reported
            &&& reported is None ==> known == app.edition_known && edition == app.edition
            &&& known ==> next == (known, edition)
        }),
{
}

/// Controls act on the configured channel: once the display was pointed at
/// what `unfocused` asks for, it shows that channel and nothing more is asked
/// for. Nothing is asked for exactly if the configured channel is on show.
pub proof fn law_controls_act_on_the_configured_channel(
    before: AppState,
    after: AppState,
    gain: Option<Single>,
    mute: Option<Single>,
    label: Option<String>,
)
    ensures
        before.unfocused() is None <==> before.channel.kind == before.settings.kind
            && before.channel.index == before.settings.index,
        before.unfocused() is Some ==> before.unfocused() == Some(
            (before.settings.kind, before.settings.index),
        ),
        before.unfocused() is Some && after.is_watching(
            before,
            before.settings.kind,
            before.settings.index,
            gain,
            mute,
            label,
        ) ==> {
            &&& after.unfocused() is None
            &&& after.channel.kind == before.settings.kind
            &&& after.channel.index == before.settings.index
            &&& after.settings == before.settings
        },
{
}

/// A channel that moved is followed unless it is on show already, and once the
/// display was pointed at it there is nothing to follow.
pub proof fn law_a_channel_that_moved_is_followed(
    before: AppState,
    after: AppState,
    kind: ChannelKind,
    index: i32,
    gain: Option<Single>,
    mute: Option<Single>,
    label: Option<String>,
)
    ensures
        before.followed(Some((kind, index))) is Some <==> before.channel.kind != kind
            || before.channel.index != index,
        before.followed(Some((kind, index))) is Some ==> before.followed(Some((kind, index)))
            == Some((kind, index)),
        before.followed(None) is None,
        after.is_watching(before, kind, index, gain, mute, label) ==> after.followed(
            Some((kind, index)),
        ) is None,
{
}

/// Pointing the display at a channel starts it fresh: what was read of it is
/// its level, without gliding there, and reading the same again is no news.
/// The label typed into Voicemeeter goes before the generic name.
pub proof fn law_a_channel_starts_with_its_own_readings(
    before: AppState,
    after: AppState,
    kind: ChannelKind,
    index: i32,
    gain: Option<Single>,
    mute: Option<Single>,
    label: Option<String>,
)
    requires
        after.is_watching(before, kind, index, gain, mute, label),
    ensures
        after.channel.last_gain == gain,
        after.channel.last_mute == mute,
        !is_odd(gain) && !is_odd(mute) ==> !after.channel.is_news(gain, mute),
        label is Some ==> after.channel.label@ == label->0@,
        label is None ==> after.channel.label@ == name_spec(
            kind,
            index as int,
            before.edition as int,
        ),
        0 <= after.channel.percent <= 100 ==> after.display_pct.scaled() == after.channel.percent
            * pow2(149),
{
    if 0 <= after.channel.percent <= 100 {
        lemma_signed_exact(after.channel.percent as int);
    }
}

/// The bar stays for its time. Asked for at `now`, it is not over before the
/// time that the settings give it, and from then on it is, unless the pointer
/// on a bar that is more than half there keeps it. Only a bar whose time is
/// over goes.
pub proof fn law_the_bar_stays_for_its_time(
    app: AppState,
    fullscreen: bool,
    now: Instant,
    input: FrameInput,
)
    requires
        now.nanos + app.settings.hide_ms * 1_000_000 <= u128::MAX,
        !(app.settings.hide_in_fullscreen && fullscreen),
    ensures
        ({
            let shown = app.after_show(fullscreen, now);
            let end = now.nanos + app.settings.hide_ms * 1_000_000;
            &&& input.now.nanos < end ==> !shown.is_expired(input) && !shown.is_gone(input)
            &&& input.now.nanos >= end && !input.hovering ==> shown.is_expired(input)
            &&& input.hovering && shown.anim_alpha.is_finite() && 2 * shown.anim_alpha.scaled()
                > pow2(149) ==> !shown.is_expired(input)
            &&& shown.anim_alpha.is_finite() && 2 * shown.anim_alpha.scaled() <= pow2(149)
                && input.now.nanos >= end ==> shown.is_expired(input)
        }),
{
    let shown = app.after_show(fullscreen, now);
    if shown.anim_alpha.is_finite() {
        let half = of_bits(HALF);
        assert(half.step() == 125 && half.significand() == 0x80_0000);
        lemma_pow2_big();
        lemma_pow2_adds(23, 125);
        lemma_pow2_unfold(149);
        lemma_rank_order(half, shown.anim_alpha);
    }
}

/// A program that fills the screen keeps the bar away where the settings say
/// so, and only then: nothing changes. Otherwise the bar appears anew if it is
/// not up, and stays up if it is.
pub proof fn law_fullscreen_programs_keep_the_bar_away(
    app: AppState,
    fullscreen: bool,
    now: Instant,
)
    ensures
        app.show_outcome(fullscreen) == Show::Suppressed <==> fullscreen
            && app.settings.hide_in_fullscreen,
        app.show_outcome(fullscreen) == Show::Suppressed ==> app.after_show(fullscreen, now) == app,
        !(fullscreen && app.settings.hide_in_fullscreen) ==> (app.show_outcome(fullscreen)
            == Show::Fresh <==> !app.animating),
        app.after_show(fullscreen, now).settings == app.settings,
        app.after_show(fullscreen, now).animating == app.animating,
{
}

} // verus!
