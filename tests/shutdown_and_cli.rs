use affogato::cli::CommandFlags;
use affogato::shutdown::{
    shutdown_type, ShutdownAction, ShutdownCoordinator, ShutdownEvent, ShutdownState, ShutdownType,
    SignalKind, DRAIN_SECONDS,
};

#[test]
fn signal_classes() {
    assert_eq!(shutdown_type(SignalKind::Interrupt), ShutdownType::Immediate);
    assert_eq!(shutdown_type(SignalKind::Terminate), ShutdownType::Graceful);
    assert_eq!(shutdown_type(SignalKind::Quit), ShutdownType::Graceful);
}

#[test]
fn interrupt_exits_without_drain_or_handoff() {
    let mut c = ShutdownCoordinator::new(true);
    assert_eq!(c.step(ShutdownEvent::Signal(SignalKind::Interrupt)), ShutdownAction::Exit(0));
    assert_eq!(c.state, ShutdownState::Terminated);
    assert_eq!(c.step(ShutdownEvent::Signal(SignalKind::Terminate)), ShutdownAction::Nothing);
    assert_eq!(c.step(ShutdownEvent::DrainElapsed), ShutdownAction::Nothing);
}

#[test]
fn terminate_drains_then_hands_off_then_exits() {
    let mut c = ShutdownCoordinator::new(true);
    assert_eq!(DRAIN_SECONDS, 5);
    assert_eq!(
        c.step(ShutdownEvent::Signal(SignalKind::Terminate)),
        ShutdownAction::StartDrain(5)
    );
    assert_eq!(c.step(ShutdownEvent::Signal(SignalKind::Interrupt)), ShutdownAction::Nothing);
    assert_eq!(c.step(ShutdownEvent::HandoffFinished), ShutdownAction::Nothing);
    assert_eq!(c.step(ShutdownEvent::DrainElapsed), ShutdownAction::SendHandoff);
    assert_eq!(c.step(ShutdownEvent::HandoffFinished), ShutdownAction::Exit(0));
    assert_eq!(c.state, ShutdownState::Terminated);
}

#[test]
fn quit_without_handoff_support_exits_after_drain() {
    let mut c = ShutdownCoordinator::new(false);
    assert_eq!(c.step(ShutdownEvent::Signal(SignalKind::Quit)), ShutdownAction::StartDrain(5));
    assert_eq!(c.step(ShutdownEvent::DrainElapsed), ShutdownAction::Exit(0));
}

#[test]
fn upgrade_mode_needs_flag_and_platform() {
    let on = CommandFlags::new(true, 4443, "0.0.0.0".to_string(), true);
    assert!(on.is_uprade_mode());
    let unsupported = CommandFlags::new(true, 4443, "0.0.0.0".to_string(), false);
    assert!(!unsupported.is_uprade_mode());
    let off = CommandFlags::new(false, 80, "127.0.0.1".to_string(), true);
    assert!(!off.is_uprade_mode());
    assert_eq!(off.port, 80);
    assert_eq!(off.address, "127.0.0.1");
}
