//! The application among the programs that the user may choose as default.
use vstd::prelude::*;
use vstd::string::*;

use crate::compose::{law_straight, stopped_at, successes};
use crate::keys::{
    open_application_capabilities, open_capabilities, open_classes, open_software_classes,
    SOFTWARE_CLASSES_REGISTRY_KEY,
};
use crate::locator::{get_application_capability_path, Locator, LocatorView};
use crate::order::{effects_in_order, grounded_in_order, law_straight_effects};
use crate::plan::{
    may, must, plan_of, set_text, Access, Failure, FailureView, Key, Plan, PlanView, Reply,
    ReplyView, Request, Step, Value,
};
use crate::run::{below, law_bounded, only_root, run, Effect};

verus! {

pub const SOFTWARE_REGISTERED_APPLICATIONS_KEY: &'static str = "Software\\RegisteredApplications";

/// The capabilities of the application and, in the list of registered
/// applications, a reference to them.
pub open spec fn default_program_plan(locator: LocatorView) -> PlanView {
    plan_of(
        seq![
            open_capabilities(locator),
            must(
                set_text(Key::Capabilities, "ApplicationDescription"@, "some description"@),
                None,
            ),
            must(
                set_text(Key::Capabilities, "ApplicationName"@, locator.manifest_title),
                None,
            ),
            must(
                Request::CreateKey {
                    parent: Key::CurrentUser,
                    sub_key: SOFTWARE_REGISTERED_APPLICATIONS_KEY@,
                    access: Access::CreateSubKey,
                    opened: Key::RegisteredApplications,
                },
                Some("Failed to create/open software registered applications key"@),
            ),
            must(
                set_text(
                    Key::RegisteredApplications,
                    locator.manifest_id,
                    locator.capability_path(),
                ),
                None,
            ),
        ],
    )
}

/// Registers the application for use with default programs: its capabilities, and
/// a reference to them in the list of registered applications.
pub fn register_default_program(locator: &Locator) -> (plan: Plan)
    ensures
        plan@ == default_program_plan(locator@),
{
    let app_capability_path = get_application_capability_path(locator);
    let mut plan = Plan::new();
    plan.push(open_application_capabilities(locator));
    plan.push(
        Step::must_bare(
            Request::set_text(Key::Capabilities, "ApplicationDescription", "some description"),
        ),
    );
    plan.push(
        Step::must_bare(
            Request::set_text(
                Key::Capabilities,
                "ApplicationName",
                locator.manifest_title.as_str(),
            ),
        ),
    );
    plan.push(
        Step::must(
            Request::create_key(
                Key::CurrentUser,
                SOFTWARE_REGISTERED_APPLICATIONS_KEY,
                Access::CreateSubKey,
                Key::RegisteredApplications,
            ),
            "Failed to create/open software registered applications key".to_string(),
        ),
    );
    plan.push(
        Step::must_bare(
            Request::set_text(
                Key::RegisteredApplications,
                locator.manifest_id.as_str(),
                app_capability_path.as_str(),
            ),
        ),
    );
    assert(plan@ =~= default_program_plan(locator@));
    plan
}

/// Deletes, below `Software\Classes`, the tree that has the path of the
/// capabilities of the application. That the tree cannot be deleted is no failure.
pub open spec fn remove_default_program_plan(locator: LocatorView) -> PlanView {
    plan_of(
        seq![
            open_software_classes("Failed to create/open registry key"@),
            may(
                Request::DeleteTree {
                    key: Key::SoftwareClasses,
                    sub_key: locator.capability_path(),
                },
            ),
        ],
    )
}

/// Takes the capabilities of the application out of `Software\Classes`.
pub fn unregister_default_program(locator: &Locator) -> (plan: Plan)
    ensures
        plan@ == remove_default_program_plan(locator@),
{
    let app_capability_path = get_application_capability_path(locator);
    let mut plan = Plan::new();
    plan.push(open_classes("Failed to create/open registry key"));
    plan.push(
        Step::may(Request::delete_tree(Key::SoftwareClasses, app_capability_path.as_str())),
    );
    assert(plan@ =~= remove_default_program_plan(locator@));
    plan
}

/// What registering the application is about: its capabilities, and in the list of
/// registered applications, under its ID, the path at which they are.
pub open spec fn default_program_effects(locator: LocatorView) -> Seq<Effect> {
    let capabilities = locator.capability_path();
    seq![
        Effect::CreateKey { path: capabilities, access: Access::CreateSubKey },
        Effect::SetValue {
            path: capabilities,
            name: "ApplicationDescription"@,
            value: Value::Sz("some description"@),
        },
        Effect::SetValue {
            path: capabilities,
            name: "ApplicationName"@,
            value: Value::Sz(locator.manifest_title),
        },
        Effect::CreateKey {
            path: SOFTWARE_REGISTERED_APPLICATIONS_KEY@,
            access: Access::CreateSubKey,
        },
        Effect::SetValue {
            path: SOFTWARE_REGISTERED_APPLICATIONS_KEY@,
            name: locator.manifest_id,
            value: Value::Sz(capabilities),
        },
    ]
}

/// Registering the application creates its capabilities and refers to them in the
/// list of registered applications. It does so in this order up to and including
/// the first request that fails, with which it fails, and does nothing else. Where
/// no request fails, all is done, and it succeeds.
pub proof fn law_register_default_program(locator: LocatorView, replies: Seq<ReplyView>)
    ensures
        ({
            let plan = default_program_plan(locator);
            let a = run(plan, only_root(), replies);
            let full = default_program_effects(locator);
            let n = successes(replies);
            &&& a.grounded
            &&& a.effects.is_prefix_of(full)
            &&& n >= full.len() ==> a.effects == full && a.ended() && a.rest.outcome is Ok
            &&& n < full.len() && n < replies.len() ==> a.effects.len() == n + 1 && a.rest
                == stopped_at(plan.steps[n as int], replies[n as int]->Failed_0)
        }),
{
    let plan = default_program_plan(locator);
    reveal_with_fuel(effects_in_order, 6);
    reveal_with_fuel(grounded_in_order, 6);
    assert(effects_in_order(plan.steps, only_root()) =~= default_program_effects(locator));
    law_straight_effects(plan, only_root(), replies);
    law_straight(plan, only_root(), replies);
    law_bounded(plan, only_root(), replies);
}

/// Unregistering the application deletes one tree below `Software\Classes`. It
/// fails exactly if `Software\Classes` cannot be opened; a tree that cannot be
/// deleted is no failure.
pub proof fn law_unregister_default_program(locator: LocatorView, replies: Seq<ReplyView>)
    requires
        replies.len() >= 2,
    ensures
        ({
            let a = run(remove_default_program_plan(locator), only_root(), replies);
            let classes = SOFTWARE_CLASSES_REGISTRY_KEY@;
            let opening = Effect::CreateKey { path: classes, access: Access::CreateSubKey };
            &&& a.grounded
            &&& a.ended()
            &&& match replies[0] {
                Reply::Failed(cause) => {
                    &&& a.effects == seq![opening]
                    &&& a.rest.outcome == Err::<(), FailureView>(
                        Failure::Registry {
                            context: Some("Failed to create/open registry key"@),
                            cause,
                        },
                    )
                },
                _ => {
                    &&& a.effects == seq![
                        opening,
                        Effect::DeleteTree { path: below(classes, locator.capability_path()) },
                    ]
                    &&& a.rest.outcome is Ok
                },
            }
        }),
{
    reveal_with_fuel(run, 3);
    let plan = remove_default_program_plan(locator);
    let a = run(plan, only_root(), replies);
    let classes = SOFTWARE_CLASSES_REGISTRY_KEY@;
    let opening = Effect::CreateKey { path: classes, access: Access::CreateSubKey };
    if replies[0] is Failed {
        assert(a.effects =~= seq![opening]);
    } else {
        assert(a.effects =~= seq![
            opening,
            Effect::DeleteTree { path: below(classes, locator.capability_path()) },
        ]);
    }
}

} // verus!
