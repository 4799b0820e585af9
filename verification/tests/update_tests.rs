use nova_desktop::update::{update_step, DialogKind, UpdateAction, UpdateEvent, UpdateState};

#[test]
fn missing_updater_is_logged() {
    let (s, a) = update_step(UpdateState::Checking, UpdateEvent::UpdaterMissing { error: "no plugin".to_string() });
    assert_eq!(s, UpdateState::Done);
    match a {
        UpdateAction::Log { line } => assert_eq!(line, "Updater not available: no plugin"),
        other => panic!("unexpected {:?}", other),
    }
}

#[test]
fn failed_check_is_logged() {
    let (s, a) = update_step(UpdateState::Checking, UpdateEvent::CheckFailed { error: "offline".to_string() });
    assert_eq!(s, UpdateState::Done);
    match a {
        UpdateAction::Log { line } => assert_eq!(line, "Update check failed: offline"),
        other => panic!("unexpected {:?}", other),
    }
}

#[test]
fn no_update_stops_quietly() {
    let (s, a) = update_step(UpdateState::Checking, UpdateEvent::NoUpdate);
    assert_eq!(s, UpdateState::Done);
    assert!(matches!(a, UpdateAction::Stop));
}

#[test]
fn full_update_with_restart() {
    let (s, a) = update_step(UpdateState::Checking, UpdateEvent::UpdateFound { version: "1.2.3".to_string() });
    assert_eq!(s, UpdateState::AskingInstall);
    match a {
        UpdateAction::AskYesNo { title, message } => {
            assert_eq!(title, "Update available");
            assert_eq!(message, "A new version of Nova is available: 1.2.3\n\nInstall it now?");
        }
        other => panic!("unexpected {:?}", other),
    }
    let (s, a) = update_step(s, UpdateEvent::InstallAnswer { yes: true });
    assert_eq!(s, UpdateState::Installing);
    assert!(matches!(a, UpdateAction::DownloadAndInstall));
    let (s, a) = update_step(s, UpdateEvent::Installed);
    assert_eq!(s, UpdateState::AskingRestart);
    match a {
        UpdateAction::AskYesNo { title, message } => {
            assert_eq!(title, "Update installed");
            assert_eq!(message, "Nova has been updated. Restart now to finish?");
        }
        other => panic!("unexpected {:?}", other),
    }
    let (s, a) = update_step(s, UpdateEvent::RestartAnswer { yes: true });
    assert_eq!(s, UpdateState::Done);
    assert!(matches!(a, UpdateAction::Relaunch));
}

#[test]
fn declining_install_or_restart_stops() {
    let (s, a) = update_step(UpdateState::AskingInstall, UpdateEvent::InstallAnswer { yes: false });
    assert_eq!(s, UpdateState::Done);
    assert!(matches!(a, UpdateAction::Stop));
    let (s, a) = update_step(UpdateState::AskingRestart, UpdateEvent::RestartAnswer { yes: false });
    assert_eq!(s, UpdateState::Done);
    assert!(matches!(a, UpdateAction::Stop));
}

#[test]
fn failed_install_shows_an_error() {
    let (s, a) = update_step(UpdateState::Installing, UpdateEvent::InstallFailed { error: "disk full".to_string() });
    assert_eq!(s, UpdateState::Done);
    match a {
        UpdateAction::Show { title, message, kind } => {
            assert_eq!(title, "Update failed");
            assert_eq!(message, "The update failed to install: disk full");
            assert_eq!(kind, DialogKind::Error);
        }
        other => panic!("unexpected {:?}", other),
    }
}

#[test]
fn out_of_order_events_stop() {
    let (s, a) = update_step(UpdateState::Checking, UpdateEvent::RestartAnswer { yes: true });
    assert_eq!(s, UpdateState::Done);
    assert!(matches!(a, UpdateAction::Stop));
    let (s, a) = update_step(UpdateState::Done, UpdateEvent::Installed);
    assert_eq!(s, UpdateState::Done);
    assert!(matches!(a, UpdateAction::Stop));
}
