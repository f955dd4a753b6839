//! Keys that more than one operation opens.
use vstd::prelude::*;
use vstd::string::*;

use crate::locator::{get_application_capability_path, Locator, LocatorView};
use crate::plan::{must, Access, Key, Request, Step, StepView};
use crate::run::{below, only_root, Effect, OpenKeys};

verus! {

pub const SOFTWARE_CLASSES_REGISTRY_KEY: &'static str = "Software\\Classes";

/// Below a class: the command line that the shell invokes to open something of it.
pub const SHELL_OPEN_COMMAND_KEY: &'static str = "shell\\open\\command";

/// Opens `Software\Classes`; this context goes before the error message.
pub open spec fn open_software_classes(context: Seq<char>) -> StepView {
    must(
        Request::CreateKey {
            parent: Key::CurrentUser,
            sub_key: SOFTWARE_CLASSES_REGISTRY_KEY@,
            access: Access::CreateSubKey,
            opened: Key::SoftwareClasses,
        },
        Some(context),
    )
}

/// Opens `Software\Classes`; this context goes before the error message.
pub fn open_classes(context: &str) -> (step: Step)
    ensures
        step@ == open_software_classes(context@),
{
    Step::must(
        Request::create_key(
            Key::CurrentUser,
            SOFTWARE_CLASSES_REGISTRY_KEY,
            Access::CreateSubKey,
            Key::SoftwareClasses,
        ),
        context.to_string(),
    )
}

/// Opens the capabilities of the application.
pub open spec fn open_capabilities(locator: LocatorView) -> StepView {
    must(
        Request::CreateKey {
            parent: Key::CurrentUser,
            sub_key: locator.capability_path(),
            access: Access::CreateSubKey,
            opened: Key::Capabilities,
        },
        Some("Failed to create/open application capability key"@),
    )
}

/// Opens the capabilities of the application.
pub fn open_application_capabilities(locator: &Locator) -> (step: Step)
    ensures
        step@ == open_capabilities(locator@),
{
    Step::must(
        Request::create_key(
            Key::CurrentUser,
            get_application_capability_path(locator).as_str(),
            Access::CreateSubKey,
            Key::Capabilities,
        ),
        "Failed to create/open application capability key".to_string(),
    )
}

/// `Software\Classes` is open, and the key of the current user.
pub open spec fn classes_open() -> OpenKeys {
    only_root().insert(Key::SoftwareClasses, SOFTWARE_CLASSES_REGISTRY_KEY@)
}

/// The path of a class.
pub open spec fn class_path(name: Seq<char>) -> Seq<char> {
    below(SOFTWARE_CLASSES_REGISTRY_KEY@, name)
}

/// What opening `Software\Classes` is about.
pub open spec fn classes_effect() -> Effect {
    Effect::CreateKey { path: SOFTWARE_CLASSES_REGISTRY_KEY@, access: Access::CreateSubKey }
}

} // verus!
