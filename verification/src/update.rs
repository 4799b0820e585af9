use vstd::prelude::*;
use crate::fmt::push_text;

verus! {

// ---------------------------------------------------------------------------
// The update check, as a state machine
//
// The application runs the loop: it performs each action (a log line, a dialog, the download
// and install, a relaunch) and hands back what came of it as the next event. Every decision
// is made here.
// ---------------------------------------------------------------------------

/// Where the update check stands.
#[derive(Debug, PartialEq, Eq, Structural, Clone, Copy)]
pub enum UpdateState {
    /// Looking for the updater and asking it for a newer release.
    Checking,
    /// A newer release was found; waiting for the answer to "install it now?".
    AskingInstall,
    /// Downloading and installing.
    Installing,
    /// Installed; waiting for the answer to "restart now?".
    AskingRestart,
    /// Nothing more to do.
    Done,
}

/// What the application learned from its last action.
#[derive(Debug)]
pub enum UpdateEvent {
    /// The updater plugin is not available, with its error text.
    UpdaterMissing { error: String },
    /// Asking for a newer release failed, with the error text.
    CheckFailed { error: String },
    /// There is no newer release.
    NoUpdate,
    /// A newer release exists.
    UpdateFound { version: String },
    /// The answer to "install it now?".
    InstallAnswer { yes: bool },
    /// Downloading or installing failed, with the error text.
    InstallFailed { error: String },
    /// The release is installed.
    Installed,
    /// The answer to "restart now?".
    RestartAnswer { yes: bool },
}

/// The look of a message dialog.
#[derive(Debug, PartialEq, Eq, Structural, Clone, Copy)]
pub enum DialogKind {
    Info,
    Error,
}

/// What the application is to do next.
#[derive(Debug)]
pub enum UpdateAction {
    /// Write one line to the error log.
    Log { line: String },
    /// Show an informational yes/no dialog and report the answer.
    AskYesNo { title: String, message: String },
    /// Show a message dialog.
    Show { title: String, message: String, kind: DialogKind },
    /// Download and install the release that was found, and report how it went.
    DownloadAndInstall,
    /// Start a new copy of the application and exit this one.
    Relaunch,
    /// Stop; nothing more to do.
    Stop,
}

/// The question asked when a newer release is found.
pub open spec fn install_question(version: Seq<char>) -> Seq<char> {
    "A new version of Nova is available: "@ + version + "\n\nInstall it now?"@
}

/// One step of the update check: from the current state and what just happened, the next
/// state and the action to perform.
///
/// - Without an updater, or when the check fails, the error is logged and the check ends.
/// - With no newer release it ends quietly.
/// - A newer release is offered in a yes/no dialog and installed only on "yes".
/// - A failed install is reported in an error dialog and ends the check.
/// - A successful install offers a restart, which happens only on "yes".
/// - An event that does not belong to the current state ends the check.
pub fn update_step(state: UpdateState, event: UpdateEvent) -> (r: (UpdateState, UpdateAction))
    ensures
        match (state, event) {
            (UpdateState::Checking, UpdateEvent::UpdaterMissing { error }) => {
                &&& r.0 == UpdateState::Done
                &&& r.1 matches UpdateAction::Log { line } && line@ == "Updater not available: "@ + error@
            },
            (UpdateState::Checking, UpdateEvent::CheckFailed { error }) => {
                &&& r.0 == UpdateState::Done
                &&& r.1 matches UpdateAction::Log { line } && line@ == "Update check failed: "@ + error@
            },
            (UpdateState::Checking, UpdateEvent::NoUpdate) => {
                &&& r.0 == UpdateState::Done
                &&& r.1 is Stop
            },
            (UpdateState::Checking, UpdateEvent::UpdateFound { version }) => {
                &&& r.0 == UpdateState::AskingInstall
                &&& r.1 matches UpdateAction::AskYesNo { title, message } && title@ == "Update available"@
                    && message@ == install_question(version@)
            },
            (UpdateState::AskingInstall, UpdateEvent::InstallAnswer { yes }) => if yes {
                &&& r.0 == UpdateState::Installing
                &&& r.1 is DownloadAndInstall
            } else {
                &&& r.0 == UpdateState::Done
                &&& r.1 is Stop
            },
            (UpdateState::Installing, UpdateEvent::InstallFailed { error }) => {
                &&& r.0 == UpdateState::Done
                &&& r.1 matches UpdateAction::Show { title, message, kind } && title@ == "Update failed"@
                    && message@ == "The update failed to install: "@ + error@ && kind == DialogKind::Error
            },
            (UpdateState::Installing, UpdateEvent::Installed) => {
                &&& r.0 == UpdateState::AskingRestart
                &&& r.1 matches UpdateAction::AskYesNo { title, message } && title@ == "Update installed"@
                    && message@ == "Nova has been updated. Restart now to finish?"@
            },
            (UpdateState::AskingRestart, UpdateEvent::RestartAnswer { yes }) => {
                &&& r.0 == UpdateState::Done
                &&& if yes { r.1 is Relaunch } else { r.1 is Stop }
            },
            _ => {
                &&& r.0 == UpdateState::Done
                &&& r.1 is Stop
            },
        },
{
    match (state, event) {
        (UpdateState::Checking, UpdateEvent::UpdaterMissing { error }) => {
            let mut line = String::new();
            push_text(&mut line, "Updater not available: ");
            push_text(&mut line, error.as_str());
            (UpdateState::Done, UpdateAction::Log { line })
        },
        (UpdateState::Checking, UpdateEvent::CheckFailed { error }) => {
            let mut line = String::new();
            push_text(&mut line, "Update check failed: ");
            push_text(&mut line, error.as_str());
            (UpdateState::Done, UpdateAction::Log { line })
        },
        (UpdateState::Checking, UpdateEvent::NoUpdate) => (UpdateState::Done, UpdateAction::Stop),
        (UpdateState::Checking, UpdateEvent::UpdateFound { version }) => {
            let mut message = String::new();
            push_text(&mut message, "A new version of Nova is available: ");
            push_text(&mut message, version.as_str());
            push_text(&mut message, "\n\nInstall it now?");
            let title = String::from_str("Update available");
            (UpdateState::AskingInstall, UpdateAction::AskYesNo { title, message })
        },
        (UpdateState::AskingInstall, UpdateEvent::InstallAnswer { yes }) => {
            if yes {
                (UpdateState::Installing, UpdateAction::DownloadAndInstall)
            } else {
                (UpdateState::Done, UpdateAction::Stop)
            }
        },
        (UpdateState::Installing, UpdateEvent::InstallFailed { error }) => {
            let mut message = String::new();
            push_text(&mut message, "The update failed to install: ");
            push_text(&mut message, error.as_str());
            let title = String::from_str("Update failed");
            (UpdateState::Done, UpdateAction::Show { title, message, kind: DialogKind::Error })
        },
        (UpdateState::Installing, UpdateEvent::Installed) => {
            let title = String::from_str("Update installed");
            let message = String::from_str("Nova has been updated. Restart now to finish?");
            (UpdateState::AskingRestart, UpdateAction::AskYesNo { title, message })
        },
        (UpdateState::AskingRestart, UpdateEvent::RestartAnswer { yes }) => {
            if yes {
                (UpdateState::Done, UpdateAction::Relaunch)
            } else {
                (UpdateState::Done, UpdateAction::Stop)
            }
        },
        _ => (UpdateState::Done, UpdateAction::Stop),
    }
}

} // verus!
