//! Refresh scheduling values and the work handed between refresh steps.

use vstd::prelude::*;
use std::time::Duration;
use crate::github::opt_str_view;
use crate::model::{PullRequest, Reviewer};
use crate::text::{parse_u64, parsed_u64, trim, trimmed};

verus! {

/// Requests the UI can send to the worker.
#[derive(Debug)]
pub enum Command {
    Refresh,
}

/// A step of the refresh loop.
#[derive(Debug, Clone, Copy, PartialEq, Eq, Structural)]
pub enum RefreshAction {
    /// Resolve the token and fetch the open pull requests.
    Fetch,
    /// Hand the fetched list to the UI.
    DeliverLoaded,
    /// Hand the fetch error to the UI.
    DeliverFailed,
    /// Download the avatars that are not cached yet.
    FetchAvatars,
    /// Hand the newly downloaded avatars to the UI.
    DeliverAvatars,
    /// Wait for the interval to pass or for a refresh request.
    Wait,
    /// End the loop.
    Stop,
}

/// What was handed to the UI.
#[derive(Debug, Clone, Copy, PartialEq, Eq, Structural)]
pub enum Delivery {
    Loaded,
    Failed,
    Avatars,
}

/// How a wait ended.
#[derive(Debug, Clone, Copy, PartialEq, Eq, Structural)]
pub enum WaitEnd {
    /// The UI asked for a refresh.
    Requested,
    /// The interval passed.
    TimedOut,
    /// The UI dropped its end of the channel.
    Disconnected,
}

/// What came of the last step of the refresh loop.
#[derive(Debug, Clone, Copy, PartialEq, Eq, Structural)]
pub enum RefreshEvent {
    /// The fetch succeeded (`true`) or failed.
    Fetched(bool),
    /// A delivery was taken by the UI (`taken`), or the UI is gone.
    Delivered { what: Delivery, taken: bool },
    /// The avatar download ended, with (`true`) or without new avatars.
    AvatarsFetched(bool),
    /// A wait ended.
    WaitEnded(WaitEnd),
}

/// The step that follows an event: a fetch is reported to the UI, success or
/// failure; after a reported success the missing avatars are downloaded and
/// handed over when there are new ones; then the loop waits, and fetches
/// again on a refresh request or when the interval passes. It stops once the
/// UI is gone.
pub open spec fn next_action_of(event: RefreshEvent) -> RefreshAction {
    match event {
        RefreshEvent::Fetched(ok) => if ok {
            RefreshAction::DeliverLoaded
        } else {
            RefreshAction::DeliverFailed
        },
        RefreshEvent::Delivered { what, taken } => if !taken {
            RefreshAction::Stop
        } else {
            match what {
                Delivery::Loaded => RefreshAction::FetchAvatars,
                Delivery::Failed => RefreshAction::Wait,
                Delivery::Avatars => RefreshAction::Wait,
            }
        },
        RefreshEvent::AvatarsFetched(any_new) => if any_new {
            RefreshAction::DeliverAvatars
        } else {
            RefreshAction::Wait
        },
        RefreshEvent::WaitEnded(end) => match end {
            WaitEnd::Disconnected => RefreshAction::Stop,
            _ => RefreshAction::Fetch,
        },
    }
}

/// Decide the next step of the refresh loop from what came of the last one.
pub fn next_action(event: RefreshEvent) -> (action: RefreshAction)
    ensures
        action == next_action_of(event),
{
    match event {
        RefreshEvent::Fetched(ok) => if ok {
            RefreshAction::DeliverLoaded
        } else {
            RefreshAction::DeliverFailed
        },
        RefreshEvent::Delivered { what, taken } => if !taken {
            RefreshAction::Stop
        } else {
            match what {
                Delivery::Loaded => RefreshAction::FetchAvatars,
                Delivery::Failed => RefreshAction::Wait,
                Delivery::Avatars => RefreshAction::Wait,
            }
        },
        RefreshEvent::AvatarsFetched(any_new) => if any_new {
            RefreshAction::DeliverAvatars
        } else {
            RefreshAction::Wait
        },
        RefreshEvent::WaitEnded(end) => match end {
            WaitEnd::Disconnected => RefreshAction::Stop,
            _ => RefreshAction::Fetch,
        },
    }
}

/// The loop stops exactly when the UI is gone: a delivery it did not take,
/// or a wait ended by the UI dropping the channel. Every other outcome,
/// a failed fetch included, keeps it running.
pub proof fn lemma_stops_only_when_the_ui_is_gone(event: RefreshEvent)
    ensures
        next_action_of(event) == RefreshAction::Stop <==> (event matches RefreshEvent::Delivered { taken, .. } && !taken)
            || event == RefreshEvent::WaitEnded(WaitEnd::Disconnected),
{
}

/// Avatars are downloaded only after the UI took a successfully fetched
/// list, and handed over only when some are new.
pub proof fn lemma_avatars_follow_a_delivered_list(event: RefreshEvent)
    ensures
        next_action_of(event) == RefreshAction::FetchAvatars <==> event == (RefreshEvent::Delivered {
            what: Delivery::Loaded,
            taken: true,
        }),
        next_action_of(event) == RefreshAction::DeliverAvatars <==> event == RefreshEvent::AvatarsFetched(true),
{
}

/// Refresh interval when none is configured, in seconds.
pub const DEFAULT_INTERVAL_SECS: u64 = 60;

/// Shortest refresh interval accepted, in seconds.
pub const MIN_INTERVAL_SECS: u64 = 15;

/// The interval `PRTOOLBAR_INTERVAL_SECS` asks for: its trimmed value as a
/// number of seconds, raised to the minimum; the default when it is missing
/// or not a number.
pub open spec fn interval_secs_of(value: Option<Seq<char>>) -> u64 {
    match value {
        Some(v) => match parsed_u64(trimmed(v)) {
            Some(secs) => if secs < MIN_INTERVAL_SECS {
                MIN_INTERVAL_SECS
            } else {
                secs
            },
            None => DEFAULT_INTERVAL_SECS,
        },
        None => DEFAULT_INTERVAL_SECS,
    }
}

/// Whatever the environment holds, refreshes are at least the minimum
/// interval apart, and without a valid value they are the default apart.
pub proof fn lemma_interval_at_least_minimum(value: Option<Seq<char>>)
    ensures
        interval_secs_of(value) >= MIN_INTERVAL_SECS,
        (value is None || parsed_u64(trimmed(value.unwrap())) is None) ==> interval_secs_of(value)
            == DEFAULT_INTERVAL_SECS,
{
}

/// Parse `PRTOOLBAR_INTERVAL_SECS` into seconds.
pub fn interval_secs(value: Option<&str>) -> (secs: u64)
    ensures
        secs == interval_secs_of(opt_str_view(value)),
{
    match value {
        Some(v) => match parse_u64(trim(v)) {
            Some(secs) => if secs < MIN_INTERVAL_SECS {
                MIN_INTERVAL_SECS
            } else {
                secs
            },
            None => DEFAULT_INTERVAL_SECS,
        },
        None => DEFAULT_INTERVAL_SECS,
    }
}

/// The `Duration` that `Duration::from_secs` makes of a number of seconds.
pub uninterp spec fn duration_from_secs(secs: u64) -> Duration;

/// Wraps `Duration::from_secs`; its result is named `duration_from_secs`.
#[verifier::external_body]
fn seconds(secs: u64) -> (d: Duration)
    ensures
        d == duration_from_secs(secs),
{
    Duration::from_secs(secs)
}

/// Parse `PRTOOLBAR_INTERVAL_SECS`; invalid or missing values give the default.
pub fn interval_from_env(value: Option<&str>) -> (d: Duration)
    ensures
        d == duration_from_secs(interval_secs_of(opt_str_view(value))),
{
    seconds(interval_secs(value))
}

/// The avatar URLs of every participant of every PR, in order.
pub open spec fn all_avatar_urls(prs: Seq<PullRequest>) -> Seq<String> {
    prs.map_values(|p: PullRequest| p.reviewers@.map_values(|r: Reviewer| r.avatar_url)).flatten()
}

/// Collect the avatar URLs to fetch after a refresh.
pub fn avatar_urls(prs: &[PullRequest]) -> (urls: Vec<String>)
    ensures
        urls@ == all_avatar_urls(prs@),
{
    let ghost per = prs@.map_values(|p: PullRequest| p.reviewers@.map_values(|r: Reviewer| r.avatar_url));
    let mut urls: Vec<String> = Vec::new();
    let mut i: usize = 0;
    assert(per.take(0) =~= Seq::<Seq<String>>::empty());
    while i < prs.len()
        invariant
            per == prs@.map_values(|p: PullRequest| p.reviewers@.map_values(|r: Reviewer| r.avatar_url)),
            i <= prs@.len(),
            urls@ == per.take(i as int).flatten(),
        decreases prs@.len() - i,
    {
        let reviewers = &prs[i].reviewers;
        let ghost base = urls@;
        let mut k: usize = 0;
        while k < reviewers.len()
            invariant
                k <= reviewers@.len(),
                urls@ == base + reviewers@.take(k as int).map_values(|r: Reviewer| r.avatar_url),
            decreases reviewers@.len() - k,
        {
            urls.push(reviewers[k].avatar_url.clone());
            assert(reviewers@.take(k as int + 1).map_values(|r: Reviewer| r.avatar_url)
                =~= reviewers@.take(k as int).map_values(|r: Reviewer| r.avatar_url).push(reviewers@[k as int].avatar_url));
            k = k + 1;
        }
        proof {
            assert(reviewers@.take(reviewers@.len() as int) =~= reviewers@);
            assert(per.take(i as int + 1) =~= per.take(i as int).push(per[i as int]));
            per.take(i as int).lemma_flatten_push(per[i as int]);
        }
        i = i + 1;
    }
    assert(per.take(prs@.len() as int) =~= per);
    urls
}

} // verus!
