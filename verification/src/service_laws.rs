//! What the steps of a command do to the system's services.

use crate::service;
use crate::service::{DaemonCmd, Deed};
use vstd::prelude::*;

verus! {

/// What the system knows of the service.
#[verifier::ext_equal]
pub struct Machine {
    /// The file of the unit, if it is there.
    pub file: Option<Seq<char>>,
    /// The unit that was loaded from it.
    pub loaded: Option<Seq<char>>,
    /// Whether the service starts with the system.
    pub enabled: bool,
    /// The unit that the service runs under, if it runs.
    pub running: Option<Seq<char>>,
}

/// The machine after `systemctl`, with these arguments.
pub open spec fn after_systemctl(machine: Machine, args: Seq<Seq<char>>) -> Machine {
    if args == seq!["daemon-reload"@] {
        Machine { loaded: machine.file, ..machine }
    } else if args == seq!["enable"@, "ninelimiter"@] {
        Machine { enabled: machine.loaded is Some, ..machine }
    } else if args == seq!["disable"@, "ninelimiter"@] {
        Machine { enabled: false, ..machine }
    } else if args == seq!["start"@, "ninelimiter"@] {
        if machine.running is Some {
            machine
        } else {
            Machine { running: machine.loaded, ..machine }
        }
    } else if args == seq!["stop"@, "ninelimiter"@] {
        Machine { running: None, ..machine }
    } else if args == seq!["restart"@, "ninelimiter"@] {
        Machine { running: machine.loaded, ..machine }
    } else {
        machine
    }
}

/// The machine after a step.
pub open spec fn after_deed(machine: Machine, deed: Deed) -> Machine {
    match deed {
        Deed::Write { path, content } => if path == "/etc/systemd/system/ninelimiter.service"@ {
            Machine { file: Some(content), ..machine }
        } else {
            machine
        },
        Deed::Remove { path } => if path == "/etc/systemd/system/ninelimiter.service"@ {
            Machine { file: None, ..machine }
        } else {
            machine
        },
        Deed::Systemctl(args) => after_systemctl(machine, args),
        Deed::Sudo(_) => machine,
        Deed::Say(_) => machine,
    }
}

/// The machine after steps.
pub open spec fn after_deeds(machine: Machine, deeds: Seq<Deed>) -> Machine
    decreases deeds.len(),
{
    if deeds.len() == 0 {
        machine
    } else {
        after_deed(after_deeds(machine, deeds.drop_last()), deeds.last())
    }
}

proof fn words_differ()
    ensures
        "enable"@ != "disable"@,
        "enable"@ != "start"@,
        "enable"@ != "stop"@,
        "enable"@ != "restart"@,
        "disable"@ != "start"@,
        "disable"@ != "stop"@,
        "disable"@ != "restart"@,
        "start"@ != "stop"@,
        "start"@ != "restart"@,
        "stop"@ != "restart"@,
{
    reveal_strlit("enable");
    reveal_strlit("disable");
    reveal_strlit("start");
    reveal_strlit("stop");
    reveal_strlit("restart");
    assert("disable"@[0] != "restart"@[0]);
    assert("enable"@.len() == 6 && "disable"@.len() == 7 && "start"@.len() == 5 && "stop"@.len()
        == 4 && "restart"@.len() == 7);
}

proof fn arguments_differ(a: Seq<char>, b: Seq<char>)
    requires
        a != b,
    ensures
        seq![a, "ninelimiter"@] != seq![b, "ninelimiter"@],
{
    assert(seq![a, "ninelimiter"@][0] != seq![b, "ninelimiter"@][0]);
}

proof fn all_arguments_differ()
    ensures
        forall|a: Seq<char>, b: Seq<char>|
            a != b ==> #[trigger] seq![a, "ninelimiter"@] != #[trigger] seq![b, "ninelimiter"@],
        forall|a: Seq<char>|
            #[trigger] seq![a, "ninelimiter"@] != seq!["daemon-reload"@],
{
    assert forall|a: Seq<char>, b: Seq<char>| a != b implies #[trigger] seq![a, "ninelimiter"@]
        != #[trigger] seq![b, "ninelimiter"@] by {
        arguments_differ(a, b);
    }
    assert forall|a: Seq<char>| #[trigger] seq![a, "ninelimiter"@] != seq!["daemon-reload"@] by {
        assert(seq![a, "ninelimiter"@].len() != seq!["daemon-reload"@].len());
    }
}

proof fn step_by_step(machine: Machine, deeds: Seq<Deed>, n: int)
    requires
        0 < n <= deeds.len(),
    ensures
        after_deeds(machine, deeds.take(n)) == after_deed(
            after_deeds(machine, deeds.take(n - 1)),
            deeds[n - 1],
        ),
{
    assert(deeds.take(n).drop_last() =~= deeds.take(n - 1));
    assert(deeds.take(n).last() == deeds[n - 1]);
}

proof fn all_steps(machine: Machine, deeds: Seq<Deed>)
    ensures
        after_deeds(machine, deeds.take(0)) == machine,
        after_deeds(machine, deeds.take(deeds.len() as int)) == after_deeds(machine, deeds),
        forall|n: int|
            0 < n <= deeds.len() ==> #[trigger] after_deeds(machine, deeds.take(n)) == after_deed(
                after_deeds(machine, deeds.take(n - 1)),
                deeds[n - 1],
            ),
{
    assert(deeds.take(0).len() == 0);
    assert(deeds.take(deeds.len() as int) =~= deeds);
    assert forall|n: int| 0 < n <= deeds.len() implies #[trigger] after_deeds(
        machine,
        deeds.take(n),
    ) == after_deed(after_deeds(machine, deeds.take(n - 1)), deeds[n - 1]) by {
        step_by_step(machine, deeds, n);
    }
}

/// Installing leaves the unit in its file and loaded, and the service enabled; it runs
/// under the unit, unless it ran before, and then goes on as it did.
pub proof fn installing_sets_the_service_up(
    machine: Machine,
    exe: Seq<char>,
    config: Seq<char>,
    cwd: Seq<char>,
)
    ensures
        ({
            let after = after_deeds(
                machine,
                service::deeds_for(DaemonCmd::Install, true, exe, config, cwd),
            );
            let unit = service::unit_text(exe, service::absolute(config, cwd));
            &&& after.file == Some(unit)
            &&& after.loaded == Some(unit)
            &&& after.enabled
            &&& after.running == if machine.running is Some {
                machine.running
            } else {
                Some(unit)
            }
        }),
{
    words_differ();
    all_arguments_differ();
    let deeds = service::deeds_for(DaemonCmd::Install, true, exe, config, cwd);
    all_steps(machine, deeds);
    let one = after_deeds(machine, deeds.take(1));
    let two = after_deeds(machine, deeds.take(2));
    let three = after_deeds(machine, deeds.take(3));
    let four = after_deeds(machine, deeds.take(4));
    let five = after_deeds(machine, deeds.take(5));
    assert(deeds.len() == 5);
    assert(one == after_deed(machine, deeds[0]));
    assert(two == after_deed(one, deeds[1]));
    assert(three == after_deed(two, deeds[2]));
    assert(four == after_deed(three, deeds[3]));
    assert(five == after_deed(four, deeds[4]));
}

/// Removing leaves nothing of the service: it does not run and is not enabled, and its
/// unit is neither in its file nor loaded.
pub proof fn removing_leaves_nothing(
    machine: Machine,
    exe: Seq<char>,
    config: Seq<char>,
    cwd: Seq<char>,
)
    ensures
        after_deeds(machine, service::deeds_for(DaemonCmd::Remove, true, exe, config, cwd)) == (
        Machine { file: None, loaded: None, enabled: false, running: None }),
{
    words_differ();
    all_arguments_differ();
    let deeds = service::deeds_for(DaemonCmd::Remove, true, exe, config, cwd);
    all_steps(machine, deeds);
    let one = after_deeds(machine, deeds.take(1));
    let two = after_deeds(machine, deeds.take(2));
    let three = after_deeds(machine, deeds.take(3));
    let four = after_deeds(machine, deeds.take(4));
    let five = after_deeds(machine, deeds.take(5));
    assert(deeds.len() == 5);
    assert(one == after_deed(machine, deeds[0]));
    assert(two == after_deed(one, deeds[1]));
    assert(three == after_deed(two, deeds[2]));
    assert(four == after_deed(three, deeds[3]));
    assert(five == after_deed(four, deeds[4]));
}

/// Starting, stopping and restarting change only whether and as what the service runs.
pub proof fn running_is_all_that_changes(
    machine: Machine,
    exe: Seq<char>,
    config: Seq<char>,
    cwd: Seq<char>,
)
    ensures
        after_deeds(machine, service::deeds_for(DaemonCmd::Start, true, exe, config, cwd)) == (
        Machine {
            running: if machine.running is Some {
                machine.running
            } else {
                machine.loaded
            },
            ..machine
        }),
        after_deeds(machine, service::deeds_for(DaemonCmd::Stop, true, exe, config, cwd)) == (
        Machine { running: None, ..machine }),
        after_deeds(machine, service::deeds_for(DaemonCmd::Restart, true, exe, config, cwd)) == (
        Machine { running: machine.loaded, ..machine }),
{
    words_differ();
    all_arguments_differ();
    let start = service::deeds_for(DaemonCmd::Start, true, exe, config, cwd);
    let stop = service::deeds_for(DaemonCmd::Stop, true, exe, config, cwd);
    let restart = service::deeds_for(DaemonCmd::Restart, true, exe, config, cwd);
    all_steps(machine, start);
    all_steps(machine, stop);
    all_steps(machine, restart);
    assert(start.len() == 2 && stop.len() == 2 && restart.len() == 2);
    assert(after_deeds(machine, start.take(1)) == after_deed(machine, start[0]));
    assert(after_deeds(machine, stop.take(1)) == after_deed(machine, stop[0]));
    assert(after_deeds(machine, restart.take(1)) == after_deed(machine, restart[0]));
    assert(after_deeds(machine, start.take(2)) == after_deeds(machine, start.take(1)));
    assert(after_deeds(machine, stop.take(2)) == after_deeds(machine, stop.take(1)));
    assert(after_deeds(machine, restart.take(2)) == after_deeds(machine, restart.take(1)));
}

/// Anyone but root changes nothing, and hands the program, the configuration and the
/// command on in full, each command by its own word.
pub proof fn anyone_else_hands_on_the_command(
    machine: Machine,
    cmd: DaemonCmd,
    other: DaemonCmd,
    exe: Seq<char>,
    config: Seq<char>,
    cwd: Seq<char>,
)
    ensures
        ({
            let deeds = service::deeds_for(cmd, false, exe, config, cwd);
            &&& after_deeds(machine, deeds) == machine
            &&& deeds.len() == 1
            &&& deeds[0] matches Deed::Sudo(args) && args.len() == 4 && args[0] == exe && args[1]
                == "--config"@ && args[2] == config
            &&& deeds == service::deeds_for(other, false, exe, config, cwd) ==> cmd == other
        }),
{
    let deeds = service::deeds_for(cmd, false, exe, config, cwd);
    let others = service::deeds_for(other, false, exe, config, cwd);
    all_steps(machine, deeds);
    assert(after_deeds(machine, deeds.take(1)) == after_deed(machine, deeds[0]));
    reveal_strlit("install");
    reveal_strlit("start");
    reveal_strlit("stop");
    reveal_strlit("restart");
    reveal_strlit("remove");
    assert("install"@.len() == 7 && "start"@.len() == 5 && "stop"@.len() == 4 && "restart"@.len()
        == 7 && "remove"@.len() == 6);
    assert("install"@[0] != "restart"@[0]);
    if deeds == others {
        let a = deeds[0]->Sudo_0;
        let b = others[0]->Sudo_0;
        assert(a[3] == service::word(cmd) && b[3] == service::word(other));
    }
}

/// The unit starts the program with the configuration: between a fixed head, which ends
/// the line before, and a fixed tail, which ends the line, stand these two in full.
pub proof fn the_unit_starts_the_program(
    exe: Seq<char>,
    config: Seq<char>,
    other_exe: Seq<char>,
    other_config: Seq<char>,
)
    ensures
        exists|head: Seq<char>, tail: Seq<char>|
            {
                &&& service::unit_text(exe, config) == #[trigger] (head + exe + " --config "@
                    + config + tail)
                &&& service::unit_text(other_exe, other_config) == head + other_exe
                    + " --config "@ + other_config + tail
                &&& tail.len() > 0 && tail[0] == '\n'
            },
{
    let head =
        "[Unit]\nDescription=9limiter rate-limiting proxy\nAfter=network.target\n\n[Service]\nType=simple\nExecStart="@;
    let tail =
        "\nRestart=always\nRestartSec=5\nStandardOutput=journal\nStandardError=journal\n\n[Install]\nWantedBy=multi-user.target\n"@;
    reveal_strlit(
        "\nRestart=always\nRestartSec=5\nStandardOutput=journal\nStandardError=journal\n\n[Install]\nWantedBy=multi-user.target\n",
    );
    assert(service::unit_text(exe, config) == head + exe + " --config "@ + config + tail);
}

/// A path that starts with a slash is left as it is, and any other is put behind the
/// working directory and a slash.
pub proof fn a_path_is_made_absolute(path: Seq<char>, cwd: Seq<char>)
    ensures
        path.len() > 0 && path[0] == '/' ==> service::absolute(path, cwd) == path,
        path.len() == 0 || path[0] != '/' ==> service::absolute(path, cwd) == cwd + seq!['/']
            + path,
{
    reveal_strlit("/");
    assert("/"@ =~= seq!['/']);
    if path.len() > 0 && path[0] == '/' {
        assert("/"@ =~= path.subrange(0, 1));
    } else if path.len() > 0 {
        assert(path.subrange(0, 1)[0] != "/"@[0]);
    }
}

/// The configuration is that of who called `sudo`, else of the user, else of root.
pub proof fn the_configuration_is_the_callers(sudo_user: Option<String>, user: Option<String>)
    ensures
        sudo_user matches Some(name) ==> service::config_owner(sudo_user, user) == name@,
        sudo_user is None ==> (user matches Some(name) ==> service::config_owner(sudo_user, user)
            == name@),
        sudo_user is None && user is None ==> service::config_owner(sudo_user, user) == "root"@,
{
}

} // verus!
