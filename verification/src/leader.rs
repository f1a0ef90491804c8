//! Which of the plugins of a session may write.
use vstd::prelude::*;

verus! {

/// How long a claim to lead holds, in milliseconds.
pub const LEADER_TTL_MS: u128 = 30_000;

/// How long a role is taken to hold before it is looked up again, in milliseconds.
pub const WRITE_ROLE_CACHE_TTL_MS: u128 = 1_000;

/// The file that holds the claim to lead.
pub const LEADER_FILE_NAME: &'static str = "writer-leader.json";

/// What a plugin may do to the shared state.
#[derive(Debug, Clone, Copy, PartialEq, Eq, Structural)]
pub enum WriteRole {
    Leader,
    Follower,
    Unavailable,
}

impl WriteRole {
    /// Whether the role allows writing.
    pub fn can_write(self) -> (r: bool)
        ensures
            r == (self == WriteRole::Leader),
    {
        match self {
            WriteRole::Leader => true,
            _ => false,
        }
    }
}

/// A plugin's claim to lead.
#[derive(Debug, Clone, Copy, PartialEq, Eq, Structural)]
pub struct WriterLeaderClaim {
    pub version: u8,
    pub plugin_id: u32,
    pub observed_at_ms: u128,
}

/// The claim that a plugin makes at the given time.
pub fn leader_claim(plugin_id: u32, now_ms: u128) -> (r: WriterLeaderClaim)
    ensures
        r == (WriterLeaderClaim { version: 1, plugin_id, observed_at_ms: now_ms }),
{
    WriterLeaderClaim { version: 1, plugin_id, observed_at_ms: now_ms }
}

/// What to do about the claim that is there: renew it, yield to it, or put another in its
/// place.
#[derive(Debug, Clone, Copy, PartialEq, Eq, Structural)]
pub enum ClaimStep {
    Renew,
    Yield,
    Seize,
}

/// Whether a time lies no more than `ttl` milliseconds back.
pub open spec fn recent(at_ms: u128, now_ms: u128, ttl: u128) -> bool {
    now_ms <= at_ms + ttl
}

fn is_recent(at_ms: u128, now_ms: u128, ttl: u128) -> (r: bool)
    ensures
        r == recent(at_ms, now_ms, ttl),
{
    now_ms <= at_ms || now_ms - at_ms <= ttl
}

/// Whether a claim is one that the plugin made.
pub open spec fn own_claim(claim: Option<WriterLeaderClaim>, plugin_id: u32) -> bool {
    claim is Some && claim->0.version == 1 && claim->0.plugin_id == plugin_id
}

/// Whether a claim is one that another plugin made and that still holds.
pub open spec fn standing_claim(
    claim: Option<WriterLeaderClaim>,
    plugin_id: u32,
    now_ms: u128,
) -> bool {
    claim is Some && claim->0.version == 1 && claim->0.plugin_id != plugin_id && recent(
        claim->0.observed_at_ms,
        now_ms,
        LEADER_TTL_MS,
    )
}

/// What a plugin does about the claim that is there.
pub open spec fn step_for(
    current: Option<WriterLeaderClaim>,
    plugin_id: u32,
    now_ms: u128,
) -> ClaimStep {
    if own_claim(current, plugin_id) {
        ClaimStep::Renew
    } else if standing_claim(current, plugin_id, now_ms) {
        ClaimStep::Yield
    } else {
        ClaimStep::Seize
    }
}

/// What a plugin does about the claim that is there.
pub fn claim_step(current: Option<WriterLeaderClaim>, plugin_id: u32, now_ms: u128) -> (r:
    ClaimStep)
    ensures
        r == step_for(current, plugin_id, now_ms),
{
    match current {
        Some(claim) => if claim.version == 1 && claim.plugin_id == plugin_id {
            ClaimStep::Renew
        } else if claim.version == 1 && is_recent(claim.observed_at_ms, now_ms, LEADER_TTL_MS) {
            ClaimStep::Yield
        } else {
            ClaimStep::Seize
        },
        None => ClaimStep::Seize,
    }
}

/// A plugin leads after its step: its claim was written, and where it took the place of
/// another, it is the one that is there afterwards.
pub open spec fn leading(
    step: ClaimStep,
    written: bool,
    current: Option<WriterLeaderClaim>,
    plugin_id: u32,
) -> bool {
    match step {
        ClaimStep::Renew => written,
        ClaimStep::Yield => false,
        ClaimStep::Seize => written && own_claim(current, plugin_id),
    }
}

/// Whether a plugin leads after its step.
pub fn leads_after(
    step: ClaimStep,
    written: bool,
    current: Option<WriterLeaderClaim>,
    plugin_id: u32,
) -> (r: bool)
    ensures
        r == leading(step, written, current, plugin_id),
{
    match step {
        ClaimStep::Renew => written,
        ClaimStep::Yield => false,
        ClaimStep::Seize => match current {
            Some(claim) => written && claim.version == 1 && claim.plugin_id == plugin_id,
            None => false,
        },
    }
}

/// The role that was found at a time, as long as it can be taken to hold.
pub open spec fn cached_role(role: Option<WriteRole>, at_ms: u128, now_ms: u128) -> Option<WriteRole> {
    if role is Some && recent(at_ms, now_ms, WRITE_ROLE_CACHE_TTL_MS) {
        role
    } else {
        None
    }
}

/// The role that was found at a time, as long as it can be taken to hold.
pub fn role_in_cache(role: Option<WriteRole>, at_ms: u128, now_ms: u128) -> (r: Option<WriteRole>)
    ensures
        r == cached_role(role, at_ms, now_ms),
{
    match role {
        Some(role) => if is_recent(at_ms, now_ms, WRITE_ROLE_CACHE_TTL_MS) {
            Some(role)
        } else {
            None
        },
        None => None,
    }
}

/// As long as a plugin's claim holds, no other plugin leads, whatever it finds afterwards.
pub proof fn a_standing_claim_keeps_others_from_leading(
    claim: WriterLeaderClaim,
    plugin_id: u32,
    now_ms: u128,
    written: bool,
    after: Option<WriterLeaderClaim>,
)
    requires
        standing_claim(Some(claim), plugin_id, now_ms),
    ensures
        !leading(step_for(Some(claim), plugin_id, now_ms), written, after, plugin_id),
{
}

/// Of two plugins that look at the same claim, before and after their steps, at most one
/// leads.
pub proof fn one_claim_makes_at_most_one_leader(
    before: Option<WriterLeaderClaim>,
    after: Option<WriterLeaderClaim>,
    first: u32,
    second: u32,
    now_ms: u128,
)
    requires
        first != second,
        before is Some && before->0.version == 1 ==> recent(
            before->0.observed_at_ms,
            now_ms,
            LEADER_TTL_MS,
        ),
    ensures
        !(leading(step_for(before, first, now_ms), true, after, first) && leading(
            step_for(before, second, now_ms),
            true,
            after,
            second,
        )),
{
}

/// Another plugin's claim of the first version holds for thirty seconds after it was made, to
/// the millisecond, and for as long as the clock stands before it; no other claim keeps a plugin
/// from making its own. A plugin renews its own claim, however old.
pub proof fn claims_of_others_hold_for_half_a_minute(
    claim: WriterLeaderClaim,
    plugin_id: u32,
    now_ms: u128,
)
    ensures
        ({
            let age = now_ms - claim.observed_at_ms;
            let step = step_for(Some(claim), plugin_id, now_ms);
            &&& step == ClaimStep::Renew <==> claim.version == 1 && claim.plugin_id == plugin_id
            &&& step == ClaimStep::Yield <==> claim.version == 1 && claim.plugin_id != plugin_id
                && age <= 30_000
            &&& step_for(None, plugin_id, now_ms) == ClaimStep::Seize
        }),
{
}

/// A plugin leads after it made its claim only if the claim was written, and after it put it in
/// the place of another only if it is still there then. A plugin that finds its own claim when it
/// is done leads, unless it yielded or could not write.
pub proof fn leading_takes_a_written_claim(
    step: ClaimStep,
    written: bool,
    plugin_id: u32,
    now_ms: u128,
    other: WriterLeaderClaim,
)
    ensures
        forall|current: Option<WriterLeaderClaim>| #[trigger]
            leading(step, written, current, plugin_id) ==> written && step != ClaimStep::Yield,
        step != ClaimStep::Yield && written ==> leading(
            step,
            written,
            Some(WriterLeaderClaim { version: 1, plugin_id, observed_at_ms: now_ms }),
            plugin_id,
        ),
        step == ClaimStep::Seize && other.plugin_id != plugin_id ==> !leading(
            step,
            written,
            Some(other),
            plugin_id,
        ),
        step == ClaimStep::Seize ==> !leading(step, written, None, plugin_id),
{
}

/// A plugin that made its claim finds it again as its own at any later time, and any other plugin
/// yields to it for half a minute.
pub proof fn claims_are_found_again(plugin_id: u32, other: u32, at_ms: u128, now_ms: u128)
    requires
        at_ms <= now_ms,
        other != plugin_id,
    ensures
        ({
            let claim = WriterLeaderClaim { version: 1, plugin_id, observed_at_ms: at_ms };
            &&& step_for(Some(claim), plugin_id, now_ms) == ClaimStep::Renew
            &&& now_ms - at_ms <= 30_000 ==> step_for(Some(claim), other, now_ms)
                == ClaimStep::Yield
            &&& now_ms - at_ms > 30_000 ==> step_for(Some(claim), other, now_ms)
                == ClaimStep::Seize
        }),
{
}

/// A role that was found is taken to hold for a second, to the millisecond, and not longer.
pub proof fn roles_are_looked_up_again_after_a_second(role: WriteRole, at_ms: u128, now_ms: u128)
    ensures
        now_ms - at_ms <= 1_000 ==> cached_role(Some(role), at_ms, now_ms) == Some(role),
        now_ms - at_ms > 1_000 ==> cached_role(Some(role), at_ms, now_ms) is None,
        cached_role(None, at_ms, now_ms) is None,
{
}

} // verus!
