//! What the names, paths, commands and messages hold, character for character.
use vstd::prelude::*;

use crate::clock::Date;
use crate::file_associations::program_id;
use crate::locator::{open_command, option_locator, Locator, LocatorView};
use crate::plan::{failure_message, Failure, FailureView};
use crate::text::{decimal, signed_decimal, texts, two_digits};
use crate::uninstall::{
    estimated_size, install_date, quiet_uninstall_command, uninstall_command,
};

verus! {

/// The view of a list of strings has their characters, string by string.
pub proof fn law_texts(list: Seq<String>)
    ensures
        texts(list).len() == list.len(),
        forall|i: int| 0 <= i < list.len() ==> #[trigger] texts(list)[i] == list[i]@,
{
}

/// The view of an application has the characters of each of its strings, under the
/// same name.
pub proof fn law_locator_view(locator: Locator)
    ensures
        locator@.manifest_id == locator.manifest_id@,
        locator@.manifest_title == locator.manifest_title@,
        locator@.manifest_authors == locator.manifest_authors@,
        locator@.manifest_version_short == locator.manifest_version_short@,
        locator@.root_dir == locator.root_dir@,
        locator@.main_exe_path == locator.main_exe_path@,
        locator@.update_path == locator.update_path@,
        locator@.icon_url == locator.icon_url@,
        locator@.custom_url_protocols.len() == locator.custom_url_protocols@.len(),
        forall|i: int|
            0 <= i < locator.custom_url_protocols@.len()
                ==> #[trigger] locator@.custom_url_protocols[i]
                == locator.custom_url_protocols@[i]@,
        locator@.file_associations.len() == locator.file_associations@.len(),
        forall|i: int|
            0 <= i < locator.file_associations@.len() ==> #[trigger] locator@.file_associations[i]
                == locator.file_associations@[i]@,
        option_locator(Some(&locator)) == Some(locator@),
        option_locator(None) is None,
{
    law_texts(locator.custom_url_protocols@);
    law_texts(locator.file_associations@);
}

/// The path of the capabilities is `Software`, the whole authors, the whole title and
/// `Capabilities`, with a backslash between each two of them.
pub proof fn law_capability_path(locator: LocatorView)
    ensures
        ({
            let path = locator.capability_path();
            let a = locator.manifest_authors.len() as int;
            let t = locator.manifest_title.len() as int;
            &&& path.len() == a + t + 23
            &&& path.subrange(0, 8) == "Software"@
            &&& path[8] == '\\'
            &&& path.subrange(9, 9 + a) == locator.manifest_authors
            &&& path[9 + a] == '\\'
            &&& path.subrange(10 + a, 10 + a + t) == locator.manifest_title
            &&& path[10 + a + t] == '\\'
            &&& path.subrange(11 + a + t, 23 + a + t) == "Capabilities"@
        }),
{
    let path = locator.capability_path();
    let a = locator.manifest_authors.len() as int;
    let t = locator.manifest_title.len() as int;
    reveal_strlit("Software\\");
    reveal_strlit("Software");
    reveal_strlit("\\");
    reveal_strlit("\\Capabilities");
    reveal_strlit("Capabilities");
    assert(path.subrange(0, 8) =~= "Software"@);
    assert(path.subrange(9, 9 + a) =~= locator.manifest_authors);
    assert(path.subrange(10 + a, 10 + a + t) =~= locator.manifest_title);
    assert(path.subrange(11 + a + t, 23 + a + t) =~= "Capabilities"@);
}

/// Of applications by the same authors, those with different titles have different
/// capabilities; so have those with the same title by different authors.
pub proof fn law_capability_paths_differ(a: LocatorView, b: LocatorView)
    requires
        a.capability_path() == b.capability_path(),
    ensures
        a.manifest_authors == b.manifest_authors ==> a.manifest_title == b.manifest_title,
        a.manifest_title == b.manifest_title ==> a.manifest_authors == b.manifest_authors,
{
    law_capability_path(a);
    law_capability_path(b);
}

/// What the program IDs of an application begin with is its whole title and `.File`.
pub proof fn law_program_id_prefix(locator: LocatorView)
    ensures
        ({
            let prefix = locator.program_id_prefix();
            let t = locator.manifest_title.len() as int;
            &&& prefix.len() == t + 5
            &&& prefix.subrange(0, t) == locator.manifest_title
            &&& prefix[t] == '.'
            &&& prefix[t + 1] == 'F'
            &&& prefix[t + 2] == 'i'
            &&& prefix[t + 3] == 'l'
            &&& prefix[t + 4] == 'e'
        }),
{
    reveal_strlit(".File");
    assert(locator.program_id_prefix().subrange(0, locator.manifest_title.len() as int)
        =~= locator.manifest_title);
}

/// A program ID is the whole prefix, a dot and the whole extension.
pub proof fn law_program_id(prefix: Seq<char>, extension: Seq<char>)
    ensures
        ({
            let id = program_id(prefix, extension);
            let p = prefix.len() as int;
            &&& id.len() == p + 1 + extension.len()
            &&& id.subrange(0, p) == prefix
            &&& id[p] == '.'
            &&& id.subrange(p + 1, id.len() as int) == extension
        }),
{
    let id = program_id(prefix, extension);
    reveal_strlit(".");
    assert(id.subrange(0, prefix.len() as int) =~= prefix);
    assert(id.subrange(prefix.len() as int + 1, id.len() as int) =~= extension);
}

/// The program ID of an application for an extension is the title, `.File.` and the
/// extension, all of them whole.
pub proof fn law_program_id_of_title(locator: LocatorView, extension: Seq<char>)
    ensures
        ({
            let id = program_id(locator.program_id_prefix(), extension);
            let t = locator.manifest_title.len() as int;
            &&& id.len() == t + 6 + extension.len()
            &&& id.subrange(0, t) == locator.manifest_title
            &&& id.subrange(t, t + 6) == ".File."@
            &&& id.subrange(t + 6, id.len() as int) == extension
            &&& id == locator.manifest_title + ".File."@ + extension
        }),
{
    let prefix = locator.program_id_prefix();
    let id = program_id(prefix, extension);
    let t = locator.manifest_title.len() as int;
    law_program_id_prefix(locator);
    law_program_id(prefix, extension);
    reveal_strlit(".File.");
    assert forall|i: int| 0 <= i < t + 5 implies #[trigger] id[i] == prefix[i] by {
        assert(id[i] == id.subrange(0, t + 5)[i]);
    }
    assert forall|i: int| 0 <= i < t implies #[trigger] id[i] == locator.manifest_title[i] by {
        assert(prefix[i] == prefix.subrange(0, t)[i]);
    }
    assert(id.subrange(0, t) =~= locator.manifest_title);
    assert(id.subrange(t, t + 6) =~= ".File."@);
    assert(id =~= id.subrange(0, t) + id.subrange(t, t + 6) + id.subrange(
        t + 6,
        id.len() as int,
    ));
}

/// Under one title, different extensions have different program IDs; for one
/// extension, different titles have.
pub proof fn law_program_ids_differ(
    a: LocatorView,
    b: LocatorView,
    extension: Seq<char>,
    other: Seq<char>,
)
    requires
        program_id(a.program_id_prefix(), extension) == program_id(b.program_id_prefix(), other),
    ensures
        a.manifest_title == b.manifest_title ==> extension == other,
        extension == other ==> a.manifest_title == b.manifest_title,
{
    law_program_id_of_title(a, extension);
    law_program_id_of_title(b, other);
}

/// The open command is the path in double quotes, whatever characters it holds, a
/// space, and `%1` in double quotes.
pub proof fn law_open_command(exe_path: Seq<char>)
    ensures
        ({
            let command = open_command(exe_path);
            let n = exe_path.len() as int;
            &&& command.len() == n + 7
            &&& command[0] == '"'
            &&& command.subrange(1, n + 1) == exe_path
            &&& command[n + 1] == '"'
            &&& command[n + 2] == ' '
            &&& command[n + 3] == '"'
            &&& command[n + 4] == '%'
            &&& command[n + 5] == '1'
            &&& command[n + 6] == '"'
        }),
{
    reveal_strlit("\"");
    reveal_strlit("\" \"%1\"");
    assert(open_command(exe_path).subrange(1, exe_path.len() as int + 1) =~= exe_path);
}

/// The commands that uninstall are the path of the updater in double quotes, whatever
/// characters it holds, and the arguments.
pub proof fn law_uninstall_commands(update_path: Seq<char>)
    ensures
        ({
            let command = uninstall_command(update_path);
            let quiet = quiet_uninstall_command(update_path);
            let n = update_path.len() as int;
            &&& command.len() == n + 14
            &&& command[0] == '"'
            &&& command.subrange(1, n + 1) == update_path
            &&& command[n + 1] == '"'
            &&& command.subrange(n + 2, n + 14) == " --uninstall"@
            &&& quiet.len() == n + 23
            &&& quiet[0] == '"'
            &&& quiet.subrange(1, n + 1) == update_path
            &&& quiet[n + 1] == '"'
            &&& quiet.subrange(n + 2, n + 23) == " --uninstall --silent"@
        }),
{
    let n = update_path.len() as int;
    let command = uninstall_command(update_path);
    let quiet = quiet_uninstall_command(update_path);
    reveal_strlit("\"");
    reveal_strlit("\" --uninstall");
    reveal_strlit("\" --uninstall --silent");
    reveal_strlit(" --uninstall");
    reveal_strlit(" --uninstall --silent");
    assert(command.subrange(1, n + 1) =~= update_path);
    assert(command.subrange(n + 2, n + 14) =~= " --uninstall"@);
    assert(quiet.subrange(1, n + 1) =~= update_path);
    assert(quiet.subrange(n + 2, n + 23) =~= " --uninstall --silent"@);
}

/// The last digit of a number in decimal counts its ones; the digits before are those
/// of its tenth part, if that is not zero.
pub proof fn law_decimal(n: nat)
    ensures
        decimal(n).len() >= 1,
        decimal(n).last() as int == '0' as int + (n % 10) as int,
        n < 10 ==> decimal(n).len() == 1,
        n >= 10 ==> decimal(n).drop_last() == decimal(n / 10),
{
    if n >= 10 {
        assert(decimal(n).drop_last() =~= decimal(n / 10));
    }
}

/// A negative number has a minus sign before the digits of what is missing to zero;
/// any other is written as it is.
pub proof fn law_signed_decimal(n: int)
    ensures
        n >= 0 ==> signed_decimal(n) == decimal(n as nat),
        n < 0 ==> signed_decimal(n).len() == decimal((-n) as nat).len() + 1,
        n < 0 ==> signed_decimal(n)[0] == '-',
        n < 0 ==> signed_decimal(n).drop_first() == decimal((-n) as nat),
{
    if n < 0 {
        assert(signed_decimal(n).drop_first() =~= decimal((-n) as nat));
    }
}

/// With two digits, a number below a hundred has its tens and its ones; larger ones
/// are written as they are.
pub proof fn law_two_digits(n: nat)
    ensures
        n < 100 ==> two_digits(n).len() == 2,
        n < 100 ==> two_digits(n)[0] as int == '0' as int + (n / 10) as int,
        n < 100 ==> two_digits(n)[1] as int == '0' as int + (n % 10) as int,
        n >= 10 ==> two_digits(n) == decimal(n),
{
    reveal_with_fuel(decimal, 3);
}

/// A day is one of the calendar exactly if its month is one of twelve and it is one of
/// the days of that month: 31 of January, March, May, July, August, October and
/// December, 30 of April, June, September and November, and of February 28, or 29 in a
/// year that four divides and that ends no century, or that four hundred divides.
pub proof fn law_in_calendar(date: Date)
    ensures
        date.in_calendar() <==> {
            &&& date.day >= 1
            &&& {
                ||| date.day <= 28 && 1 <= date.month <= 12
                ||| date.day <= 30 && 1 <= date.month <= 12 && date.month != 2
                ||| date.day <= 31 && (date.month == 1 || date.month == 3 || date.month == 5
                    || date.month == 7 || date.month == 8 || date.month == 10 || date.month == 12)
                ||| date.day == 29 && date.month == 2 && date.year as int % 4 == 0 && (
                date.year as int % 100 != 0 || date.year as int % 400 == 0)
            }
        },
{
}

/// An install date ends with the tens and the ones of the day; before them stand the
/// tens and the ones of the month, and before these the year in decimal.
pub proof fn law_install_date_digits(date: Date)
    requires
        date.month < 100,
        date.day < 100,
    ensures
        ({
            let text = install_date(date);
            let n = text.len() - 4;
            &&& n >= 1
            &&& text.take(n) == signed_decimal(date.year as int)
            &&& text[n] as int == '0' as int + date.month / 10
            &&& text[n + 1] as int == '0' as int + date.month % 10
            &&& text[n + 2] as int == '0' as int + date.day / 10
            &&& text[n + 3] as int == '0' as int + date.day % 10
        }),
{
    let text = install_date(date);
    law_two_digits(date.month as nat);
    law_two_digits(date.day as nat);
    let year = signed_decimal(date.year as int);
    law_signed_decimal(date.year as int);
    law_decimal(if date.year < 0 { (-date.year) as nat } else { date.year as nat });
    let n = text.len() - 4;
    assert(text.take(n) =~= year);
    assert(text[n] == two_digits(date.month as nat)[0]);
    assert(text[n + 1] == two_digits(date.month as nat)[1]);
    assert(text[n + 2] == two_digits(date.day as nat)[0]);
    assert(text[n + 3] == two_digits(date.day as nat)[1]);
}

/// For a year of four digits an install date has eight; read as a number they are ten
/// thousand times the year, a hundred times the month, and the day.
pub proof fn law_install_date_number(date: Date)
    requires
        1000 <= date.year <= 9999,
        date.month < 100,
        date.day < 100,
    ensures
        ({
            let text = install_date(date);
            let zero = '0' as int;
            &&& text.len() == 8
            &&& forall|i: int| 0 <= i < 8 ==> '0' <= #[trigger] text[i] <= '9'
            &&& (text[0] as int - zero) * 10000000 + (text[1] as int - zero) * 1000000 + (
            text[2] as int - zero) * 100000 + (text[3] as int - zero) * 10000 + (text[4] as int
                - zero) * 1000 + (text[5] as int - zero) * 100 + (text[6] as int - zero) * 10 + (
            text[7] as int - zero) == date.year * 10000 + date.month * 100 + date.day
        }),
{
    let text = install_date(date);
    let y = date.year as nat;
    law_install_date_digits(date);
    law_signed_decimal(date.year as int);
    law_decimal(y);
    law_decimal(y / 10);
    law_decimal(y / 100);
    law_decimal(y / 1000);
    assert(y / 10 / 10 == y / 100 && y / 100 / 10 == y / 1000);
    let year = decimal(y);
    assert(year.len() == 4);
    assert(text.take(4) == year);
    assert(text[0] == year[0] && text[1] == year[1] && text[2] == year[2] && text[3] == year[3]);
    assert(year[3] == decimal(y).last());
    assert(year[2] == decimal(y / 10).last());
    assert(year[1] == decimal(y / 100).last());
    assert(year[0] == decimal(y / 1000).last());
}

/// Whatever the parts of a date are, its install date is the year in decimal, then the
/// month and the day, each with at least two digits.
pub proof fn law_install_date_parts(date: Date)
    ensures
        ({
            let text = install_date(date);
            let y = signed_decimal(date.year as int).len() as int;
            let m = two_digits(date.month as nat).len() as int;
            let d = two_digits(date.day as nat).len() as int;
            &&& text.len() == y + m + d
            &&& text.subrange(0, y) == signed_decimal(date.year as int)
            &&& text.subrange(y, y + m) == two_digits(date.month as nat)
            &&& text.subrange(y + m, y + m + d) == two_digits(date.day as nat)
        }),
{
    let text = install_date(date);
    let y = signed_decimal(date.year as int).len() as int;
    let m = two_digits(date.month as nat).len() as int;
    let d = two_digits(date.day as nat).len() as int;
    assert(text.subrange(0, y) =~= signed_decimal(date.year as int));
    assert(text.subrange(y, y + m) =~= two_digits(date.month as nat));
    assert(text.subrange(y + m, y + m + d) =~= two_digits(date.day as nat));
}

/// A size that is not known counts as nothing; any other is cut down to whole KiB.
pub proof fn law_size_in_kibibytes(folder_size: Option<u64>)
    ensures
        folder_size is None ==> estimated_size(folder_size) == 0,
        folder_size matches Some(bytes) ==> estimated_size(folder_size) * 1024 <= bytes
            < estimated_size(folder_size) * 1024 + 1024,
{
}

/// The message of a failed request is the error message, after the whole context, a
/// colon and a space where there is a context.
pub proof fn law_failure_message(failure: FailureView)
    ensures
        match failure {
            Failure::Registry { context: Some(context), cause } => {
                let message = failure_message(failure);
                let n = context.len() as int;
                &&& message.len() == n + 2 + cause.len()
                &&& message.subrange(0, n) == context
                &&& message[n] == ':'
                &&& message[n + 1] == ' '
                &&& message.subrange(n + 2, message.len() as int) == cause
            },
            Failure::Registry { context: None, cause } => failure_message(failure) == cause,
            Failure::SizeOutOfRange => failure_message(failure)
                == "out of range integral type conversion attempted"@,
        },
{
    if let Failure::Registry { context: Some(context), cause } = failure {
        let message = failure_message(failure);
        reveal_strlit(": ");
        assert(message.subrange(0, context.len() as int) =~= context);
        assert(message.subrange(context.len() as int + 2, message.len() as int) =~= cause);
    }
}

} // verus!
