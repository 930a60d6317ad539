use cs2_bot::game_loop::{BotCore, BotState, TargetSight, TickAction};

#[test]
fn new_controller_is_idle_and_replans() {
    let mut core: BotCore<u32> = BotCore::new(false);
    assert_eq!(core.state(), BotState::Idle);
    assert_eq!(core.tick_count(), 0);
    let plan = core.tick(TargetSight::NoTarget, false);
    assert_eq!(plan.action, TickAction::Replan);
    assert_eq!(core.state(), BotState::Idle);
    assert_eq!(core.tick_count(), 1);
    assert!(!plan.report_status);
}

#[test]
fn target_on_crosshair_fires_off_crosshair_aims() {
    let mut core: BotCore<u32> = BotCore::new(false);
    core.follow_path(vec![10, 20]);
    let plan = core.tick(TargetSight::OnCrosshair, true);
    assert_eq!(plan.action, TickAction::Fire { send_input: true });
    assert_eq!(core.state(), BotState::Engaging);
    let plan = core.tick(TargetSight::OffCrosshair, true);
    assert_eq!(plan.action, TickAction::Aim { send_input: true });
    assert_eq!(core.state(), BotState::Acquiring);
    // The route is untouched while a target is in sight.
    assert_eq!(core.waypoint_index(), 0);
    assert_eq!(core.current_waypoint(), Some(&10));
}

#[test]
fn dry_run_sends_no_input() {
    let mut core: BotCore<u32> = BotCore::new(true);
    assert!(core.dry_run());
    assert_eq!(core.tick(TargetSight::OnCrosshair, false).action, TickAction::Fire { send_input: false });
    assert_eq!(core.tick(TargetSight::OffCrosshair, false).action, TickAction::Aim { send_input: false });
    core.follow_path(vec![1]);
    assert_eq!(
        core.tick(TargetSight::NoTarget, false).action,
        TickAction::Steer { waypoint: 0, send_input: false }
    );
}

#[test]
fn path_is_walked_in_order_then_replanned() {
    let mut core: BotCore<char> = BotCore::new(false);
    core.follow_path(vec!['a', 'b', 'c']);
    let plan = core.tick(TargetSight::NoTarget, false);
    assert_eq!(plan.action, TickAction::Steer { waypoint: 0, send_input: true });
    assert_eq!(core.state(), BotState::Navigating);
    assert_eq!(core.current_waypoint(), Some(&'a'));
    for expected_next in [Some(&'b'), Some(&'c'), None] {
        let plan = core.tick(TargetSight::NoTarget, true);
        assert_eq!(plan.action, TickAction::Advance);
        assert_eq!(core.state(), BotState::Navigating);
        assert_eq!(core.current_waypoint(), expected_next);
    }
    assert_eq!(core.waypoint_index(), 3);
    let plan = core.tick(TargetSight::NoTarget, true);
    assert_eq!(plan.action, TickAction::Replan);
    assert_eq!(core.state(), BotState::Idle);
    assert_eq!(core.path().len(), 3);
    core.follow_path(vec!['x']);
    assert_eq!(core.waypoint_index(), 0);
    assert_eq!(core.current_waypoint(), Some(&'x'));
}

#[test]
fn status_reported_every_sixty_ticks() {
    let mut core: BotCore<u8> = BotCore::new(true);
    let mut reports = Vec::new();
    for _ in 0..120 {
        if core.tick(TargetSight::OffCrosshair, false).report_status {
            reports.push(core.tick_count());
        }
    }
    assert_eq!(reports, vec![60, 120]);
}
