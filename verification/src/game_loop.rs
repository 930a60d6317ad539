//! The bot's per-tick decision logic as a state machine.
//!
//! Each tick, perception reports whether an enemy is in sight (and whether it
//! is already under the crosshair) and whether the current waypoint has been
//! reached. The controller answers with the next behavioural state and one
//! action for the caller to perform: fire, aim, search a new path, advance to
//! the next waypoint, or steer toward the current one.

use vstd::prelude::*;

verus! {

/// Bot behavioural state.
#[derive(Debug, Clone, Copy, PartialEq, Eq, Structural)]
pub enum BotState {
    /// Following the current path.
    Navigating,
    /// Enemy detected, moving the crosshair toward it.
    Acquiring,
    /// Enemy under the crosshair, firing.
    Engaging,
    /// No target and no path left: a new path is being searched.
    Idle,
}

/// What perception reports about enemies in one tick.
#[derive(Debug, Clone, Copy, PartialEq, Eq, Structural)]
pub enum TargetSight {
    /// No target was selected.
    NoTarget,
    /// A target was selected but is not yet under the crosshair.
    OffCrosshair,
    /// The selected target is under the crosshair.
    OnCrosshair,
}

/// The action the caller performs after a tick.
#[derive(Debug, Clone, Copy, PartialEq, Eq, Structural)]
pub enum TickAction {
    /// Click the fire button (only logged when `send_input` is false).
    Fire { send_input: bool },
    /// Move the crosshair toward the target (only logged when `send_input` is false).
    Aim { send_input: bool },
    /// The path is used up: search a new one and hand it to `follow_path`.
    Replan,
    /// The current waypoint was reached; the next one is now current.
    Advance,
    /// Walk toward waypoint `waypoint` (only logged when `send_input` is false).
    Steer { waypoint: usize, send_input: bool },
}

/// The outcome of one tick: the action, and whether this tick's periodic
/// status report is due.
#[derive(Debug, Clone, Copy, PartialEq, Eq, Structural)]
pub struct TickPlan {
    pub action: TickAction,
    pub report_status: bool,
}

/// Ticks between two status reports.
pub const STATUS_PERIOD: u64 = 60;

/// The controller's state as a mathematical value.
pub struct CoreView {
    pub state: BotState,
    pub path_len: nat,
    pub waypoint: nat,
    pub ticks: nat,
    pub dry_run: bool,
}

/// One tick of the controller: the next state and the action to perform.
pub open spec fn step(v: CoreView, sight: TargetSight, reached: bool) -> (CoreView, TickAction) {
    let ticks = v.ticks + 1;
    match sight {
        TargetSight::OnCrosshair => (
            CoreView { state: BotState::Engaging, ticks, ..v },
            TickAction::Fire { send_input: !v.dry_run },
        ),
        TargetSight::OffCrosshair => (
            CoreView { state: BotState::Acquiring, ticks, ..v },
            TickAction::Aim { send_input: !v.dry_run },
        ),
        TargetSight::NoTarget => if v.waypoint >= v.path_len {
            (CoreView { state: BotState::Idle, ticks, ..v }, TickAction::Replan)
        } else if reached {
            (
                CoreView { state: BotState::Navigating, ticks, waypoint: v.waypoint + 1, ..v },
                TickAction::Advance,
            )
        } else {
            (
                CoreView { state: BotState::Navigating, ticks, ..v },
                TickAction::Steer { waypoint: v.waypoint as usize, send_input: !v.dry_run },
            )
        },
    }
}

/// The tick controller: behavioural state, the path being followed (of
/// waypoints of type `P`), the index of the current waypoint, the tick
/// counter and the dry-run flag.
pub struct BotCore<P> {
    state: BotState,
    path: Vec<P>,
    waypoint_idx: usize,
    tick_count: u64,
    dry_run: bool,
}

impl<P> BotCore<P> {
    /// The current waypoint index never passes the end of the path.
    #[verifier::type_invariant]
    spec fn inv(self) -> bool {
        self.waypoint_idx <= self.path.len()
    }

    /// The controller's state as a value.
    pub closed spec fn view(&self) -> CoreView {
        CoreView {
            state: self.state,
            path_len: self.path.len() as nat,
            waypoint: self.waypoint_idx as nat,
            ticks: self.tick_count as nat,
            dry_run: self.dry_run,
        }
    }

    /// The waypoints of the path being followed.
    pub closed spec fn route(&self) -> Seq<P> {
        self.path@
    }

    /// A controller that starts idle, with no path, at tick zero.
    pub fn new(dry_run: bool) -> (core: Self)
        ensures
            core.view() == (CoreView {
                state: BotState::Idle,
                path_len: 0,
                waypoint: 0,
                ticks: 0,
                dry_run,
            }),
            core.route() == Seq::<P>::empty(),
    {
        BotCore { state: BotState::Idle, path: Vec::new(), waypoint_idx: 0, tick_count: 0, dry_run }
    }

    /// The current behavioural state.
    pub fn state(&self) -> (s: BotState)
        ensures
            s == self.view().state,
    {
        self.state
    }

    /// Number of ticks processed so far.
    pub fn tick_count(&self) -> (t: u64)
        ensures
            t == self.view().ticks,
    {
        self.tick_count
    }

    /// Index of the current waypoint in the path.
    pub fn waypoint_index(&self) -> (i: usize)
        ensures
            i == self.view().waypoint,
            i <= self.view().path_len,
    {
        proof {
            use_type_invariant(self);
        }
        self.waypoint_idx
    }

    /// Whether actions are only logged instead of sent as input.
    pub fn dry_run(&self) -> (d: bool)
        ensures
            d == self.view().dry_run,
    {
        self.dry_run
    }

    /// The path being followed.
    pub fn path(&self) -> (p: &Vec<P>)
        ensures
            p@ == self.route(),
            p@.len() == self.view().path_len,
    {
        &self.path
    }

    /// The waypoint currently walked toward, if the path is not used up.
    pub fn current_waypoint(&self) -> (w: Option<&P>)
        ensures
            self.view().waypoint < self.view().path_len ==> w == Some(
                &self.route()[self.view().waypoint as int],
            ),
            self.view().waypoint >= self.view().path_len ==> w is None,
    {
        if self.waypoint_idx < self.path.len() {
            Some(&self.path[self.waypoint_idx])
        } else {
            None
        }
    }

    /// Starts following a freshly found path from its first waypoint.
    pub fn follow_path(&mut self, path: Vec<P>)
        ensures
            final(self).view() == (CoreView {
                path_len: path@.len(),
                waypoint: 0,
                ..old(self).view()
            }),
            final(self).route() == path@,
    {
        self.waypoint_idx = 0;
        self.path = path;
    }

    /// Processes one tick. `sight` says whether a target was selected and
    /// whether it is under the crosshair; `reached` says whether the current
    /// waypoint has been reached (it matters only when there is no target
    /// and the path is not used up).
    pub fn tick(&mut self, sight: TargetSight, reached: bool) -> (plan: TickPlan)
        requires
            old(self).view().ticks < u64::MAX,
        ensures
            (final(self).view(), plan.action) == step(old(self).view(), sight, reached),
            final(self).route() == old(self).route(),
            plan.report_status == (final(self).view().ticks % (STATUS_PERIOD as nat) == 0),
            final(self).view().ticks == old(self).view().ticks + 1,
            final(self).view().path_len == old(self).view().path_len,
            final(self).view().dry_run == old(self).view().dry_run,
            sight == TargetSight::OnCrosshair ==> plan.action == (TickAction::Fire {
                send_input: !old(self).view().dry_run,
            }) && final(self).view().state == BotState::Engaging && final(self).view().waypoint
                == old(self).view().waypoint,
            sight == TargetSight::OffCrosshair ==> plan.action == (TickAction::Aim {
                send_input: !old(self).view().dry_run,
            }) && final(self).view().state == BotState::Acquiring && final(self).view().waypoint
                == old(self).view().waypoint,
            sight == TargetSight::NoTarget && old(self).view().waypoint >= old(self).view().path_len
                ==> plan.action == TickAction::Replan && final(self).view().state == BotState::Idle
                && final(self).view().waypoint == old(self).view().waypoint,
            sight == TargetSight::NoTarget && old(self).view().waypoint < old(self).view().path_len
                && reached ==> plan.action == TickAction::Advance && final(self).view().state
                == BotState::Navigating && final(self).view().waypoint == old(self).view().waypoint
                + 1,
            sight == TargetSight::NoTarget && old(self).view().waypoint < old(self).view().path_len
                && !reached ==> plan.action == (TickAction::Steer {
                waypoint: old(self).view().waypoint as usize,
                send_input: !old(self).view().dry_run,
            }) && final(self).view().state == BotState::Navigating && final(self).view().waypoint
                == old(self).view().waypoint,
    {
        proof {
            use_type_invariant(&*self);
        }
        self.tick_count = self.tick_count + 1;
        let action = match sight {
            TargetSight::OnCrosshair => {
                self.state = BotState::Engaging;
                TickAction::Fire { send_input: !self.dry_run }
            },
            TargetSight::OffCrosshair => {
                self.state = BotState::Acquiring;
                TickAction::Aim { send_input: !self.dry_run }
            },
            TargetSight::NoTarget => {
                if self.waypoint_idx >= self.path.len() {
                    self.state = BotState::Idle;
                    TickAction::Replan
                } else if reached {
                    self.state = BotState::Navigating;
                    self.waypoint_idx = self.waypoint_idx + 1;
                    TickAction::Advance
                } else {
                    self.state = BotState::Navigating;
                    TickAction::Steer { waypoint: self.waypoint_idx, send_input: !self.dry_run }
                }
            },
        };
        TickPlan { action, report_status: self.tick_count % STATUS_PERIOD == 0 }
    }
}

} // verus!

verus! {

/// Laws of one tick: a target always takes priority over navigation and
/// leaves the path position alone (firing exactly when it is under the
/// crosshair); the bot is idle exactly when it asks for a new path; the
/// waypoint index advances by one exactly when a waypoint is reached and it
/// never passes the end of the path; input is sent exactly when not in dry
/// run; and the tick counter grows by one.
pub proof fn lemma_tick_laws(v: CoreView, sight: TargetSight, reached: bool)
    requires
        v.waypoint <= v.path_len <= usize::MAX,
    ensures
        ({
            let (w, a) = step(v, sight, reached);
            &&& w.ticks == v.ticks + 1
            &&& w.path_len == v.path_len
            &&& w.dry_run == v.dry_run
            &&& w.waypoint <= w.path_len
            &&& (sight != TargetSight::NoTarget ==> w.waypoint == v.waypoint && (a is Fire
                <==> sight == TargetSight::OnCrosshair) && (a is Aim <==> sight
                == TargetSight::OffCrosshair))
            &&& (w.state == BotState::Idle <==> a == TickAction::Replan)
            &&& (w.state == BotState::Engaging <==> sight == TargetSight::OnCrosshair)
            &&& (w.waypoint == v.waypoint + 1 <==> a == TickAction::Advance)
            &&& (a != TickAction::Advance ==> w.waypoint == v.waypoint)
            &&& (a matches TickAction::Fire { send_input } ==> send_input == !v.dry_run)
            &&& (a matches TickAction::Aim { send_input } ==> send_input == !v.dry_run)
            &&& (a matches TickAction::Steer { waypoint, send_input } ==> send_input == !v.dry_run
                && waypoint == v.waypoint && v.waypoint < v.path_len)
        }),
{
}

/// `k` ticks in a row without a target, each reaching its waypoint.
pub open spec fn walk(v: CoreView, k: nat) -> CoreView
    decreases k,
{
    if k == 0 {
        v
    } else {
        step(walk(v, (k - 1) as nat), TargetSight::NoTarget, true).0
    }
}

/// A path is walked in order to its end: with no target in sight and every
/// waypoint reached in turn, each remaining waypoint is passed one tick at a
/// time, and on the tick after the last one the bot turns idle and asks for a
/// new path.
pub proof fn lemma_path_walked_to_end(v: CoreView)
    requires
        v.waypoint <= v.path_len,
    ensures
        forall|k: nat|
            k < v.path_len - v.waypoint ==> #[trigger] step(walk(v, k), TargetSight::NoTarget, true).1
                == TickAction::Advance,
        walk(v, (v.path_len - v.waypoint) as nat).waypoint == v.path_len,
        walk(v, (v.path_len - v.waypoint) as nat).ticks == v.ticks + (v.path_len - v.waypoint),
        step(walk(v, (v.path_len - v.waypoint) as nat), TargetSight::NoTarget, true)
            == (CoreView {
            state: BotState::Idle,
            ticks: (v.ticks + (v.path_len - v.waypoint) + 1) as nat,
            waypoint: v.path_len,
            ..v
        }, TickAction::Replan),
{
    let n = (v.path_len - v.waypoint) as nat;
    assert forall|k: nat| k <= n implies #[trigger] walk(v, k).waypoint == v.waypoint + k
        && walk(v, k).ticks == v.ticks + k && walk(v, k).path_len == v.path_len
        && walk(v, k).dry_run == v.dry_run && (k > 0 ==> walk(v, k).state
        == BotState::Navigating) by {
        lemma_walk(v, k);
    }
    assert forall|k: nat| k < n implies #[trigger] step(walk(v, k), TargetSight::NoTarget, true).1
        == TickAction::Advance by {
        lemma_walk(v, k);
    }
    lemma_walk(v, n);
}

/// Walking `k` reached waypoints, with `k` not past the end of the path,
/// advances the waypoint index by `k`.
proof fn lemma_walk(v: CoreView, k: nat)
    requires
        v.waypoint + k <= v.path_len,
    ensures
        walk(v, k).waypoint == v.waypoint + k,
        walk(v, k).ticks == v.ticks + k,
        walk(v, k).path_len == v.path_len,
        walk(v, k).dry_run == v.dry_run,
        k > 0 ==> walk(v, k).state == BotState::Navigating,
        k == 0 ==> walk(v, k) == v,
    decreases k,
{
    if k > 0 {
        lemma_walk(v, (k - 1) as nat);
    }
}

} // verus!
