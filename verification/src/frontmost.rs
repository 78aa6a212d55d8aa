//! The foreground application.

use crate::process;
use crate::text;
use vstd::prelude::*;

verus! {

/// The news that another application has come to the foreground.
#[derive(Debug)]
pub struct AppSwitchSignal {
    pub name: String,
    pub pid: i32,
}

/// The application in the foreground.
#[derive(Debug, PartialEq)]
pub struct ForegroundApp {
    pub name: String,
    pub pid: i32,
}

impl Clone for AppSwitchSignal {
    fn clone(&self) -> (c: AppSwitchSignal)
        ensures
            c == *self,
    {
        AppSwitchSignal { name: self.name.clone(), pid: self.pid }
    }
}

impl Clone for ForegroundApp {
    fn clone(&self) -> (c: ForegroundApp)
        ensures
            c == *self,
    {
        ForegroundApp { name: self.name.clone(), pid: self.pid }
    }
}

/// What the system says of a running application.
pub struct RunningApp {
    pub pid: i32,
    /// The name, where it has one.
    pub localized_name: Option<String>,
}

/// The application that the system reports to be in the foreground, if any. One
/// without a name is called "Unknown".
pub fn get_frontmost_app(app: Option<RunningApp>) -> (fg: Option<ForegroundApp>)
    ensures
        fg is Some <==> app is Some,
        fg matches Some(f) ==> {
            &&& f.pid == app.unwrap().pid
            &&& f.name@ == (match app.unwrap().localized_name {
                Some(name) => name@,
                None => "Unknown"@,
            })
        },
{
    match app {
        Some(running) => {
            let name: String = match running.localized_name {
                Some(name) => name,
                None => "Unknown".to_owned(),
            };
            Some(ForegroundApp { name, pid: running.pid })
        },
        None => None,
    }
}

/// The signal that a notification gives rise to, where it names an application. One
/// without a name is called by its process id in angle brackets.
pub fn notified_signal(app: Option<RunningApp>) -> (signal: Option<AppSwitchSignal>)
    ensures
        signal is Some <==> app is Some,
        signal matches Some(s) ==> {
            &&& s.pid == app.unwrap().pid
            &&& s.name@ == (match app.unwrap().localized_name {
                Some(name) => name@,
                None => process::placeholder(app.unwrap().pid),
            })
            &&& app.unwrap().localized_name is None ==> s.name@ == "<"@ + text::signed_decimal(
                app.unwrap().pid as int,
            ) + ">"@
        },
{
    match app {
        Some(running) => {
            let name: String = match running.localized_name {
                Some(name) => name,
                None => process::placeholder_name(running.pid),
            };
            Some(AppSwitchSignal { name, pid: running.pid })
        },
        None => None,
    }
}

/// The signal to send: the one from the notification, else one for the application
/// that is found in the foreground, else none.
pub fn signal_or_polled(
    notified: Option<AppSwitchSignal>,
    polled: Option<ForegroundApp>,
) -> (signal: Option<AppSwitchSignal>)
    ensures
        notified is Some ==> signal == notified,
        notified is None ==> {
            &&& signal is Some <==> polled is Some
            &&& signal matches Some(s) ==> s.name == polled.unwrap().name && s.pid
                == polled.unwrap().pid
        },
{
    match notified {
        Some(signal) => Some(signal),
        None => match polled {
            Some(fg) => Some(AppSwitchSignal { name: fg.name, pid: fg.pid }),
            None => None,
        },
    }
}

/// The application that a signal brings to the foreground.
pub fn foreground_of(signal: AppSwitchSignal) -> (fg: ForegroundApp)
    ensures
        fg.name == signal.name,
        fg.pid == signal.pid,
{
    ForegroundApp { name: signal.name, pid: signal.pid }
}

} // verus!
