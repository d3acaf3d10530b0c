//! Descriptions of installed packages, their activities and running
//! processes, as the host reports them, and the activity-manager commands
//! that start and stop them.

use vstd::prelude::*;
use vstd::string::*;

verus! {

/// One activity of a package.
#[derive(Clone, Debug)]
pub struct ActivityInfo {
    pub package: String,
    pub class: String,
}

/// How important the system holds a running process.
#[derive(Clone, Copy, Debug, PartialEq, Eq, Structural)]
pub enum Importance {
    Foreground,
    ForegroundService,
    Visible,
    Service,
    CantSaveState,
    Cached,
    Gone,
    Perceptible,
    TopSleeping,
    Unknown,
}

/// A running application process.
#[derive(Clone, Debug)]
pub struct AppProcessInfo {
    pub process: String,
    pub importance: Importance,
}

/// An installed package.
#[derive(Clone, Debug)]
pub struct PackageInfo {
    pub name: String,
    pub version: String,
}

/// Arguments of the activity manager that start `class` of `package`.
pub fn start_activity(package: &str, class: &str) -> (r: Vec<String>)
    ensures
        r@.len() == 2,
        r@[0]@ == "start"@,
        r@[1]@ == package@ + "/"@ + class@,
{
    let mut component = String::from_str(package);
    component.append("/");
    component.append(class);
    let mut r: Vec<String> = Vec::new();
    r.push(String::from_str("start"));
    r.push(component);
    r
}

/// Arguments of the activity manager that force-stop `package`.
pub fn stop_package(package: &str) -> (r: Vec<String>)
    ensures
        r@.len() == 2,
        r@[0]@ == "force-stop"@,
        r@[1]@ == package@,
{
    let mut r: Vec<String> = Vec::new();
    r.push(String::from_str("force-stop"));
    r.push(String::from_str(package));
    r
}

impl ActivityInfo {
    /// Arguments of the activity manager that start this activity.
    pub fn start(&self) -> (r: Vec<String>)
        ensures
            r@.len() == 2,
            r@[0]@ == "start"@,
            r@[1]@ == self.package@ + "/"@ + self.class@,
    {
        start_activity(self.package.as_str(), self.class.as_str())
    }
}

} // verus!
