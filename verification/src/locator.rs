//! What the registry operations know of an application.
use vstd::prelude::*;
use vstd::string::*;

use crate::text::texts;

verus! {

/// Where an application is installed and what its manifest says.
#[derive(Debug, PartialEq, Eq)]
pub struct Locator {
    /// The ID of the package.
    pub manifest_id: String,
    /// The title of the package.
    pub manifest_title: String,
    /// The authors of the package.
    pub manifest_authors: String,
    /// The version of the package, without build metadata.
    pub manifest_version_short: String,
    /// The directory in which the application is installed.
    pub root_dir: String,
    /// The main executable of the application.
    pub main_exe_path: String,
    /// The updater of the application.
    pub update_path: String,
    /// The icon of files that the application opens.
    pub icon_url: String,
    /// The URL protocols that the application handles.
    pub custom_url_protocols: Vec<String>,
    /// The file extensions that the application opens.
    pub file_associations: Vec<String>,
}

/// A [`Locator`] with the characters of its strings.
pub struct LocatorView {
    pub manifest_id: Seq<char>,
    pub manifest_title: Seq<char>,
    pub manifest_authors: Seq<char>,
    pub manifest_version_short: Seq<char>,
    pub root_dir: Seq<char>,
    pub main_exe_path: Seq<char>,
    pub update_path: Seq<char>,
    pub icon_url: Seq<char>,
    pub custom_url_protocols: Seq<Seq<char>>,
    pub file_associations: Seq<Seq<char>>,
}

impl View for Locator {
    type V = LocatorView;

    open spec fn view(&self) -> LocatorView {
        LocatorView {
            manifest_id: self.manifest_id@,
            manifest_title: self.manifest_title@,
            manifest_authors: self.manifest_authors@,
            manifest_version_short: self.manifest_version_short@,
            root_dir: self.root_dir@,
            main_exe_path: self.main_exe_path@,
            update_path: self.update_path@,
            icon_url: self.icon_url@,
            custom_url_protocols: texts(self.custom_url_protocols@),
            file_associations: texts(self.file_associations@),
        }
    }
}

/// An application that may be missing, with the characters of its strings.
pub open spec fn option_locator(app: Option<&Locator>) -> Option<LocatorView> {
    match app {
        Some(app) => Some(app@),
        None => None,
    }
}

impl LocatorView {
    /// The path of the capabilities of the application.
    pub open spec fn capability_path(self) -> Seq<char> {
        "Software\\"@ + self.manifest_authors + "\\"@ + self.manifest_title + "\\Capabilities"@
    }

    /// What the program IDs of the application begin with.
    pub open spec fn program_id_prefix(self) -> Seq<char> {
        self.manifest_title + ".File"@
    }
}

/// The path of the capabilities of the application.
pub fn get_application_capability_path(locator: &Locator) -> (path: String)
    ensures
        path@ == locator@.capability_path(),
{
    "Software\\".to_string().concat(locator.manifest_authors.as_str()).concat("\\").concat(
        locator.manifest_title.as_str(),
    ).concat("\\Capabilities")
}

/// What the program IDs of the application begin with.
pub fn program_id_prefix(locator: &Locator) -> (prefix: String)
    ensures
        prefix@ == locator@.program_id_prefix(),
{
    locator.manifest_title.clone().concat(".File")
}

/// The command line with which the shell has an executable open something: the
/// quoted path, then the quoted name of what is to be opened.
pub open spec fn open_command(exe_path: Seq<char>) -> Seq<char> {
    "\""@ + exe_path + "\" \"%1\""@
}

/// The command line with which the shell has an executable open something.
pub fn shell_open_command(exe_path: &str) -> (command: String)
    ensures
        command@ == open_command(exe_path@),
{
    "\"".to_string().concat(exe_path).concat("\" \"%1\"")
}

} // verus!
