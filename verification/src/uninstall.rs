//! The entry of the application in the list of installed programs.
use vstd::prelude::*;
use vstd::string::*;

use crate::clock::{local_today, Date};
use crate::compose::{law_straight, lemma_append_shape, stopped_at, straight, successes};
use crate::locator::{Locator, LocatorView};
use crate::order::{
    effects_in_order, grounded_in_order, keys_in_order, law_straight_effects,
    lemma_effects_append, lemma_grounded_append,
};
use crate::plan::{
    must, plan_of, set_text, Access, Failure, FailureView, Key, Plan, PlanView, ReplyView, Request,
    Step, StepView, Value,
};
use crate::run::{below, law_bounded, only_root, run, touched, Effect, OpenKeys};
use crate::text::{
    format_signed, format_two_digits, lemma_signed_decimal_injective, lemma_two_digits,
    signed_decimal, two_digits,
};

verus! {

pub const UNINSTALL_REGISTRY_KEY: &'static str =
    "Software\\Microsoft\\Windows\\CurrentVersion\\Uninstall";

/// The year, the month and the day, without separators.
pub open spec fn install_date(date: Date) -> Seq<char> {
    signed_decimal(date.year as int) + two_digits(date.month as nat) + two_digits(date.day as nat)
}

/// Writes the year, the month and the day, without separators.
pub fn format_install_date(date: Date) -> (text: String)
    ensures
        text@ == install_date(date),
{
    format_signed(date.year).concat(format_two_digits(date.month).as_str()).concat(
        format_two_digits(date.day).as_str(),
    )
}

/// The size of the installation in KiB. It counts as nothing where it is not known.
pub open spec fn estimated_size(folder_size: Option<u64>) -> nat {
    match folder_size {
        Some(bytes) => (bytes / 1024) as nat,
        None => 0,
    }
}

/// The command line that uninstalls the application.
pub open spec fn uninstall_command(update_path: Seq<char>) -> Seq<char> {
    "\""@ + update_path + "\" --uninstall"@
}

/// The command line that uninstalls the application without asking.
pub open spec fn quiet_uninstall_command(update_path: Seq<char>) -> Seq<char> {
    "\""@ + update_path + "\" --uninstall --silent"@
}

/// Opens the list of installed programs.
pub open spec fn open_uninstall_list() -> StepView {
    must(
        Request::CreateKey {
            parent: Key::CurrentUser,
            sub_key: UNINSTALL_REGISTRY_KEY@,
            access: Access::CreateSubKey,
            opened: Key::Uninstall,
        },
        None,
    )
}

/// Writes a string of the entry.
pub open spec fn entry_text(name: Seq<char>, text: Seq<char>) -> StepView {
    must(set_text(Key::UninstallEntry, name, text), None)
}

/// Writes a number of the entry.
pub open spec fn entry_number(name: Seq<char>, number: u32) -> StepView {
    must(Request::SetValue { key: Key::UninstallEntry, name, value: Value::Dword(number) }, None)
}

/// Creates the entry and writes its strings.
pub open spec fn entry_texts(locator: LocatorView, today: Date) -> Seq<StepView> {
    seq![
        open_uninstall_list(),
        must(
            Request::CreateKey {
                parent: Key::Uninstall,
                sub_key: locator.manifest_id,
                access: Access::AllAccess,
                opened: Key::UninstallEntry,
            },
            None,
        ),
        entry_text("DisplayIcon"@, locator.main_exe_path),
        entry_text("DisplayName"@, locator.manifest_title),
        entry_text("DisplayVersion"@, locator.manifest_version_short),
        entry_text("InstallDate"@, install_date(today)),
        entry_text("InstallLocation"@, locator.root_dir),
        entry_text("Publisher"@, locator.manifest_authors),
        entry_text("QuietUninstallString"@, quiet_uninstall_command(locator.update_path)),
        entry_text("UninstallString"@, uninstall_command(locator.update_path)),
    ]
}

/// Writes the numbers of the entry.
pub open spec fn entry_numbers(size: u32) -> Seq<StepView> {
    seq![
        entry_number("EstimatedSize"@, size),
        entry_number("NoModify"@, 1),
        entry_number("NoRepair"@, 1),
        entry_number("Language"@, 0x0409),
    ]
}

/// Creates the entry and writes its strings and its numbers. Where the size has
/// more than 32 bits, the operation fails when the strings are written.
pub open spec fn uninstall_entry_plan(
    locator: LocatorView,
    folder_size: Option<u64>,
    today: Date,
) -> PlanView {
    let size = estimated_size(folder_size);
    if size > u32::MAX {
        PlanView { steps: entry_texts(locator, today), outcome: Err(Failure::SizeOutOfRange) }
    } else {
        plan_of(entry_texts(locator, today) + entry_numbers(size as u32))
    }
}

/// Deletes the entry.
pub open spec fn remove_entry_plan(locator: LocatorView) -> PlanView {
    plan_of(
        seq![
            open_uninstall_list(),
            must(
                Request::DeleteKey { key: Key::Uninstall, sub_key: locator.manifest_id },
                None,
            ),
        ],
    )
}

fn open_list() -> (step: Step)
    ensures
        step@ == open_uninstall_list(),
{
    Step::must_bare(
        Request::create_key(
            Key::CurrentUser,
            UNINSTALL_REGISTRY_KEY,
            Access::CreateSubKey,
            Key::Uninstall,
        ),
    )
}

fn write_text(name: &str, text: &str) -> (step: Step)
    ensures
        step@ == entry_text(name@, text@),
{
    Step::must_bare(Request::set_text(Key::UninstallEntry, name, text))
}

fn write_number(name: &str, number: u32) -> (step: Step)
    ensures
        step@ == entry_number(name@, number),
{
    Step::must_bare(Request::set_number(Key::UninstallEntry, name, number))
}

/// Writes the entry of the application, installed today. Today is some day of the
/// calendar; which one, the clock and the time zone of the machine say. The size of
/// the installation is given in bytes, or not at all where it could not be found out.
pub fn write_uninstall_entry(locator: &Locator, folder_size: Option<u64>) -> (plan: Plan)
    ensures
        exists|today: Date|
            today.in_calendar() && plan@ == #[trigger] uninstall_entry_plan(
                locator@,
                folder_size,
                today,
            ),
{
    uninstall_entry(locator, folder_size, local_today())
}

/// Writes the entry of the application, installed on this day. The size of the
/// installation is given in bytes, or not at all where it could not be found out.
pub fn uninstall_entry(locator: &Locator, folder_size: Option<u64>, today: Date) -> (plan: Plan)
    ensures
        plan@ == uninstall_entry_plan(locator@, folder_size, today),
{
    let folder_size: u64 = match folder_size {
        Some(bytes) => bytes,
        None => 0,
    };
    let formatted_date = format_install_date(today);
    let uninstall_cmd = "\"".to_string().concat(locator.update_path.as_str()).concat(
        "\" --uninstall",
    );
    let uninstall_quiet = "\"".to_string().concat(locator.update_path.as_str()).concat(
        "\" --uninstall --silent",
    );
    let mut plan = Plan::new();
    plan.push(open_list());
    plan.push(
        Step::must_bare(
            Request::create_key(
                Key::Uninstall,
                locator.manifest_id.as_str(),
                Access::AllAccess,
                Key::UninstallEntry,
            ),
        ),
    );
    plan.push(write_text("DisplayIcon", locator.main_exe_path.as_str()));
    plan.push(write_text("DisplayName", locator.manifest_title.as_str()));
    plan.push(write_text("DisplayVersion", locator.manifest_version_short.as_str()));
    plan.push(write_text("InstallDate", formatted_date.as_str()));
    plan.push(write_text("InstallLocation", locator.root_dir.as_str()));
    plan.push(write_text("Publisher", locator.manifest_authors.as_str()));
    plan.push(write_text("QuietUninstallString", uninstall_quiet.as_str()));
    plan.push(write_text("UninstallString", uninstall_cmd.as_str()));
    assert(plan@.steps =~= entry_texts(locator@, today));
    let size: u64 = folder_size / 1024;
    if size > u32::MAX as u64 {
        plan.outcome = Err(Failure::SizeOutOfRange);
        return plan;
    }
    plan.push(write_number("EstimatedSize", size as u32));
    plan.push(write_number("NoModify", 1));
    plan.push(write_number("NoRepair", 1));
    plan.push(write_number("Language", 0x0409));
    assert(plan@.steps =~= entry_texts(locator@, today) + entry_numbers(size as u32));
    plan
}

/// Deletes the entry of the application.
pub fn remove_uninstall_entry(locator: &Locator) -> (plan: Plan)
    ensures
        plan@ == remove_entry_plan(locator@),
{
    let mut plan = Plan::new();
    plan.push(open_list());
    plan.push(
        Step::must_bare(Request::delete_key(Key::Uninstall, locator.manifest_id.as_str())),
    );
    assert(plan@.steps =~= remove_entry_plan(locator@).steps);
    plan
}

/// The path of the entry of the application.
pub open spec fn entry_path(locator: LocatorView) -> Seq<char> {
    below(UNINSTALL_REGISTRY_KEY@, locator.manifest_id)
}

/// What opening the list of installed programs is about.
pub open spec fn list_effect() -> Effect {
    Effect::CreateKey { path: UNINSTALL_REGISTRY_KEY@, access: Access::CreateSubKey }
}

/// What writing a string of the entry is about.
pub open spec fn text_effect(locator: LocatorView, name: Seq<char>, text: Seq<char>) -> Effect {
    Effect::SetValue { path: entry_path(locator), name, value: Value::Sz(text) }
}

/// What writing a number of the entry is about.
pub open spec fn number_effect(locator: LocatorView, name: Seq<char>, number: u32) -> Effect {
    Effect::SetValue { path: entry_path(locator), name, value: Value::Dword(number) }
}

/// What creating the entry and writing its strings is about.
pub open spec fn text_effects(locator: LocatorView, today: Date) -> Seq<Effect> {
    seq![
        list_effect(),
        Effect::CreateKey { path: entry_path(locator), access: Access::AllAccess },
        text_effect(locator, "DisplayIcon"@, locator.main_exe_path),
        text_effect(locator, "DisplayName"@, locator.manifest_title),
        text_effect(locator, "DisplayVersion"@, locator.manifest_version_short),
        text_effect(locator, "InstallDate"@, install_date(today)),
        text_effect(locator, "InstallLocation"@, locator.root_dir),
        text_effect(locator, "Publisher"@, locator.manifest_authors),
        text_effect(
            locator,
            "QuietUninstallString"@,
            quiet_uninstall_command(locator.update_path),
        ),
        text_effect(locator, "UninstallString"@, uninstall_command(locator.update_path)),
    ]
}

/// What writing the numbers of the entry is about.
pub open spec fn number_effects(locator: LocatorView, size: u32) -> Seq<Effect> {
    seq![
        number_effect(locator, "EstimatedSize"@, size),
        number_effect(locator, "NoModify"@, 1),
        number_effect(locator, "NoRepair"@, 1),
        number_effect(locator, "Language"@, 0x0409),
    ]
}

/// What writing the entry is about.
pub open spec fn uninstall_entry_effects(
    locator: LocatorView,
    folder_size: Option<u64>,
    today: Date,
) -> Seq<Effect> {
    let size = estimated_size(folder_size);
    if size > u32::MAX {
        text_effects(locator, today)
    } else {
        text_effects(locator, today) + number_effects(locator, size as u32)
    }
}

/// The entry is written below the list of installed programs, under the ID of the
/// application, in this order up to and including the first request that fails,
/// with which the operation fails, and nothing else is. Where no request fails, all
/// is written; the operation then fails exactly if the size has more than 32 bits.
pub proof fn law_write_uninstall_entry(
    locator: LocatorView,
    folder_size: Option<u64>,
    today: Date,
    replies: Seq<ReplyView>,
)
    ensures
        ({
            let plan = uninstall_entry_plan(locator, folder_size, today);
            let a = run(plan, only_root(), replies);
            let full = uninstall_entry_effects(locator, folder_size, today);
            let n = successes(replies);
            &&& a.grounded
            &&& a.effects.is_prefix_of(full)
            &&& n < full.len() && n < replies.len() ==> a.effects.len() == n + 1 && a.rest
                == stopped_at(plan.steps[n as int], replies[n as int]->Failed_0)
            &&& n >= full.len() ==> {
                &&& a.effects == full
                &&& a.ended()
                &&& a.rest.outcome == if estimated_size(folder_size) > u32::MAX {
                    Err::<(), FailureView>(Failure::SizeOutOfRange)
                } else {
                    Ok(())
                }
            }
        }),
{
    let plan = uninstall_entry_plan(locator, folder_size, today);
    let full = uninstall_entry_effects(locator, folder_size, today);
    let texts = entry_texts(locator, today);
    let keys = only_root();
    lemma_texts_in_order(locator, today);
    if estimated_size(folder_size) > u32::MAX {
        law_straight_effects(plan, keys, replies);
    } else {
        let size = estimated_size(folder_size) as u32;
        let after = keys_in_order(texts, keys);
        lemma_numbers_in_order(locator, size, after);
        lemma_effects_append(texts, entry_numbers(size), keys);
        lemma_grounded_append(texts, entry_numbers(size), keys);
        lemma_append_shape(texts, entry_numbers(size), set![]);
        assert(effects_in_order(plan.steps, keys) =~= full);
        law_straight_effects(plan, keys, replies);
    }
    law_straight(plan, keys, replies);
    law_bounded(plan, keys, replies);
}

proof fn lemma_texts_in_order(locator: LocatorView, today: Date)
    ensures
        ({
            let steps = entry_texts(locator, today);
            let after = keys_in_order(steps, only_root());
            &&& straight(steps)
            &&& grounded_in_order(steps, only_root())
            &&& effects_in_order(steps, only_root()) == text_effects(locator, today)
            &&& after.contains_key(Key::UninstallEntry)
            &&& after[Key::UninstallEntry] == entry_path(locator)
        }),
{
    let steps = entry_texts(locator, today);
    reveal_with_fuel(effects_in_order, 11);
    reveal_with_fuel(grounded_in_order, 11);
    reveal_with_fuel(keys_in_order, 11);
    assert(effects_in_order(steps, only_root()) =~= text_effects(locator, today));
}

proof fn lemma_numbers_in_order(locator: LocatorView, size: u32, keys: OpenKeys)
    requires
        keys.contains_key(Key::UninstallEntry),
        keys[Key::UninstallEntry] == entry_path(locator),
    ensures
        ({
            let steps = entry_numbers(size);
            &&& straight(steps)
            &&& grounded_in_order(steps, keys)
            &&& effects_in_order(steps, keys) == number_effects(locator, size)
        }),
{
    let steps = entry_numbers(size);
    reveal_with_fuel(effects_in_order, 5);
    reveal_with_fuel(grounded_in_order, 5);
    assert(effects_in_order(steps, keys) =~= number_effects(locator, size));
}

/// Deleting the entry deletes the key that writing the entry creates, and does
/// nothing else. It fails exactly if a request fails.
pub proof fn law_remove_uninstall_entry(
    locator: LocatorView,
    folder_size: Option<u64>,
    today: Date,
    replies: Seq<ReplyView>,
)
    ensures
        ({
            let plan = remove_entry_plan(locator);
            let a = run(plan, only_root(), replies);
            let n = successes(replies);
            let written = uninstall_entry_effects(locator, folder_size, today);
            let full = seq![list_effect(), Effect::DeleteKey { path: touched(written[1]) }];
            &&& a.grounded
            &&& a.effects.is_prefix_of(full)
            &&& n >= 2 ==> a.effects == full && a.ended() && a.rest.outcome is Ok
            &&& n < 2 && n < replies.len() ==> a.effects.len() == n + 1 && a.rest == stopped_at(
                plan.steps[n as int],
                replies[n as int]->Failed_0,
            )
            &&& forall|i: int|
                1 <= i < written.len() ==> touched(#[trigger] written[i]) == touched(written[1])
        }),
{
    let plan = remove_entry_plan(locator);
    let written = uninstall_entry_effects(locator, folder_size, today);
    let full = seq![list_effect(), Effect::DeleteKey { path: touched(written[1]) }];
    reveal_with_fuel(effects_in_order, 3);
    reveal_with_fuel(grounded_in_order, 3);
    assert(effects_in_order(plan.steps, only_root()) =~= full);
    law_straight_effects(plan, only_root(), replies);
    law_straight(plan, only_root(), replies);
    law_bounded(plan, only_root(), replies);
}

/// No two dates whose months and days have at most two digits, such as the days of the
/// calendar, have the same install date.
pub proof fn law_install_date(a: Date, b: Date)
    requires
        a.month < 100,
        a.day < 100,
        b.month < 100,
        b.day < 100,
        install_date(a) == install_date(b),
    ensures
        a == b,
{
    let x = install_date(a);
    let y = install_date(b);
    lemma_two_digits(a.month as nat, b.month as nat);
    lemma_two_digits(b.month as nat, a.month as nat);
    lemma_two_digits(a.day as nat, b.day as nat);
    lemma_two_digits(b.day as nat, a.day as nat);
    let n = x.len() - 4;
    assert(x.take(n) =~= signed_decimal(a.year as int));
    assert(y.take(n) =~= signed_decimal(b.year as int));
    assert(x.subrange(n, n + 2) =~= two_digits(a.month as nat));
    assert(y.subrange(n, n + 2) =~= two_digits(b.month as nat));
    assert(x.skip(n + 2) =~= two_digits(a.day as nat));
    assert(y.skip(n + 2) =~= two_digits(b.day as nat));
    lemma_signed_decimal_injective(a.year as int, b.year as int);
}

/// The size in the entry is that of the installation, cut down to whole KiB.
pub proof fn law_estimated_size(bytes: u64)
    ensures
        estimated_size(Some(bytes)) * 1024 <= bytes < estimated_size(Some(bytes)) * 1024 + 1024,
{
}

/// Uninstalling without asking is uninstalling with one more argument.
pub proof fn law_quiet_uninstall_command(update_path: Seq<char>)
    ensures
        quiet_uninstall_command(update_path) == uninstall_command(update_path) + " --silent"@,
{
    reveal_strlit("\" --uninstall");
    reveal_strlit("\" --uninstall --silent");
    reveal_strlit(" --silent");
    assert(quiet_uninstall_command(update_path) =~= uninstall_command(update_path)
        + " --silent"@);
}

} // verus!
