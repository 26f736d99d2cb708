//! Paths, addresses and the system service.

use crate::text;
use crate::text::{same_text, string_or, strip_prefix};
use vstd::prelude::*;

verus! {

broadcast use vstd::string::group_string_axioms;

/// Whose configuration is used: that of the user who called `sudo`, else of the user,
/// else of root.
pub open spec fn config_owner(sudo_user: Option<String>, user: Option<String>) -> Seq<char> {
    match sudo_user {
        Some(name) => name@,
        None => text::text_or(user, "root"@),
    }
}

/// Where the configuration lies unless another place is named.
pub fn default_config_path(sudo_user: &Option<String>, user: &Option<String>) -> (path: String)
    ensures
        path@ == if config_owner(*sudo_user, *user) == "root"@ {
            "/root/.9limiter/config.yaml"@
        } else {
            "/home/"@ + config_owner(*sudo_user, *user) + "/.9limiter/config.yaml"@
        },
{
    let owner: String = match sudo_user {
        Some(name) => name.clone(),
        None => string_or(user, "root"),
    };
    if same_text(owner.as_str(), "root") {
        "/root/.9limiter/config.yaml".to_owned()
    } else {
        let mut path: String = "/home/".to_owned();
        path.append(owner.as_str());
        path.append("/.9limiter/config.yaml");
        path
    }
}

/// The path of the program, given what the system says of it.
pub fn binary_path(current: &Option<String>) -> (path: String)
    ensures
        path@ == text::text_or(*current, "/usr/local/bin/ninelimiter"@),
{
    string_or(current, "/usr/local/bin/ninelimiter")
}

/// The address to listen on: the one on the command line, else the configured one.
pub fn listen_address(flag: &Option<String>, configured: &Option<String>) -> (addr: String)
    ensures
        addr@ == match *flag {
            Some(addr) => addr@,
            None => text::text_or(*configured, "0.0.0.0:8080"@),
        },
{
    match flag {
        Some(addr) => addr.clone(),
        None => string_or(configured, "0.0.0.0:8080"),
    }
}

/// The database of statistics, in the directory of the configuration.
pub fn stats_db_path(directory: &Option<String>) -> (path: String)
    ensures
        path@ == text::text_or(*directory, "~/.9limiter"@) + "/stats.db"@,
{
    let mut path: String = string_or(directory, "~/.9limiter");
    path.append("/stats.db");
    path
}

/// The file of the service unit.
pub fn unit_path() -> (path: &'static str)
    ensures
        path@ == "/etc/systemd/system/ninelimiter.service"@,
{
    "/etc/systemd/system/ninelimiter.service"
}

/// A path that does not depend on the working directory `cwd`.
pub open spec fn absolute(path: Seq<char>, cwd: Seq<char>) -> Seq<char> {
    if "/"@.is_prefix_of(path) {
        path
    } else {
        cwd + "/"@ + path
    }
}

/// The text of the service unit.
pub open spec fn unit_text(exe: Seq<char>, config: Seq<char>) -> Seq<char> {
    "[Unit]\nDescription=9limiter rate-limiting proxy\nAfter=network.target\n\n[Service]\nType=simple\nExecStart="@
        + exe + " --config "@ + config
        + "\nRestart=always\nRestartSec=5\nStandardOutput=journal\nStandardError=journal\n\n[Install]\nWantedBy=multi-user.target\n"@
}

/// The text of the service unit that starts the program `exe` with the configuration
/// at `config`, seen from the working directory `cwd`.
pub fn service_unit(exe: &str, config: &str, cwd: &Option<String>) -> (unit: String)
    ensures
        unit@ == unit_text(exe@, absolute(config@, text::text_or(*cwd, Seq::empty()))),
{
    let path: String = match strip_prefix(config, "/") {
        Some(_) => config.to_owned(),
        None => {
            let mut path: String = match cwd {
                Some(cwd) => cwd.clone(),
                None => String::new(),
            };
            path.append("/");
            path.append(config);
            path
        },
    };
    let mut unit: String =
        "[Unit]\nDescription=9limiter rate-limiting proxy\nAfter=network.target\n\n[Service]\nType=simple\nExecStart=".to_owned();
    unit.append(exe);
    unit.append(" --config ");
    unit.append(path.as_str());
    unit.append(
        "\nRestart=always\nRestartSec=5\nStandardOutput=journal\nStandardError=journal\n\n[Install]\nWantedBy=multi-user.target\n",
    );
    unit
}

/// What can be done with the service.
#[derive(Debug, Clone, Copy, PartialEq, Eq, Structural)]
pub enum DaemonCmd {
    /// Installs, starts and enables it.
    Install,
    Start,
    Stop,
    Restart,
    /// Stops it and removes its unit.
    Remove,
}

/// The word for a command on the command line.
pub open spec fn word(cmd: DaemonCmd) -> Seq<char> {
    match cmd {
        DaemonCmd::Install => "install"@,
        DaemonCmd::Start => "start"@,
        DaemonCmd::Stop => "stop"@,
        DaemonCmd::Restart => "restart"@,
        DaemonCmd::Remove => "remove"@,
    }
}

impl DaemonCmd {
    /// The word for the command on the command line.
    pub fn name(&self) -> (name: &'static str)
        ensures
            name@ == word(*self),
    {
        match self {
            DaemonCmd::Install => "install",
            DaemonCmd::Start => "start",
            DaemonCmd::Stop => "stop",
            DaemonCmd::Restart => "restart",
            DaemonCmd::Remove => "remove",
        }
    }
}

/// A step in carrying out a command.
#[derive(Debug, Clone)]
pub enum Step {
    /// Runs `sudo` with these arguments, and ends with its status.
    Sudo(Vec<String>),
    /// Writes a file, and must succeed.
    Write { path: String, content: String },
    /// Runs `systemctl` with these arguments.
    Systemctl(Vec<String>),
    /// Removes a file, if it is there.
    Remove { path: String },
    /// Prints a line.
    Say(String),
}

/// What a [`Step`] says.
#[verifier::ext_equal]
pub enum Deed {
    Sudo(Seq<Seq<char>>),
    Write { path: Seq<char>, content: Seq<char> },
    Systemctl(Seq<Seq<char>>),
    Remove { path: Seq<char> },
    Say(Seq<char>),
}

impl View for Step {
    type V = Deed;

    open spec fn view(&self) -> Deed {
        match self {
            Step::Sudo(args) => Deed::Sudo(text::texts(args@)),
            Step::Write { path, content } => Deed::Write { path: path@, content: content@ },
            Step::Systemctl(args) => Deed::Systemctl(text::texts(args@)),
            Step::Remove { path } => Deed::Remove { path: path@ },
            Step::Say(line) => Deed::Say(line@),
        }
    }
}

/// What steps say.
pub open spec fn deeds(steps: Seq<Step>) -> Seq<Deed> {
    steps.map_values(|s: Step| s@)
}

/// What carries out a command as root.
pub open spec fn deeds_as_root(
    cmd: DaemonCmd,
    exe: Seq<char>,
    config: Seq<char>,
    cwd: Seq<char>,
) -> Seq<Deed> {
    let unit = "/etc/systemd/system/ninelimiter.service"@;
    let service = "ninelimiter"@;
    match cmd {
        DaemonCmd::Install => seq![
            Deed::Write { path: unit, content: unit_text(exe, absolute(config, cwd)) },
            Deed::Systemctl(seq!["daemon-reload"@]),
            Deed::Systemctl(seq!["enable"@, service]),
            Deed::Systemctl(seq!["start"@, service]),
            Deed::Say("9limiter service installed and started."@),
        ],
        DaemonCmd::Start => seq![
            Deed::Systemctl(seq!["start"@, service]),
            Deed::Say("9limiter service started."@),
        ],
        DaemonCmd::Stop => seq![
            Deed::Systemctl(seq!["stop"@, service]),
            Deed::Say("9limiter service stopped."@),
        ],
        DaemonCmd::Restart => seq![
            Deed::Systemctl(seq!["restart"@, service]),
            Deed::Say("9limiter service restarted."@),
        ],
        DaemonCmd::Remove => seq![
            Deed::Systemctl(seq!["stop"@, service]),
            Deed::Systemctl(seq!["disable"@, service]),
            Deed::Remove { path: unit },
            Deed::Systemctl(seq!["daemon-reload"@]),
            Deed::Say("9limiter service removed."@),
        ],
    }
}

/// What carries out a command: anyone but root starts the program again through
/// `sudo`.
pub open spec fn deeds_for(
    cmd: DaemonCmd,
    root: bool,
    exe: Seq<char>,
    config: Seq<char>,
    cwd: Seq<char>,
) -> Seq<Deed> {
    if root {
        deeds_as_root(cmd, exe, config, cwd)
    } else {
        seq![Deed::Sudo(seq![exe, "--config"@, config, word(cmd)])]
    }
}

fn systemctl(action: &str) -> (step: Step)
    ensures
        step@ == Deed::Systemctl(seq![action@]),
{
    let mut args: Vec<String> = Vec::new();
    args.push(action.to_owned());
    proof {
        assert(text::texts(args@) =~= seq![action@]);
    }
    Step::Systemctl(args)
}

fn systemctl_service(action: &str) -> (step: Step)
    ensures
        step@ == Deed::Systemctl(seq![action@, "ninelimiter"@]),
{
    let mut args: Vec<String> = Vec::new();
    args.push(action.to_owned());
    args.push("ninelimiter".to_owned());
    proof {
        assert(text::texts(args@) =~= seq![action@, "ninelimiter"@]);
    }
    Step::Systemctl(args)
}

fn again_as_root(cmd: DaemonCmd, exe: &str, config: &str) -> (step: Step)
    ensures
        step@ == Deed::Sudo(seq![exe@, "--config"@, config@, word(cmd)]),
{
    let mut args: Vec<String> = Vec::new();
    args.push(exe.to_owned());
    args.push("--config".to_owned());
    args.push(config.to_owned());
    args.push(cmd.name().to_owned());
    proof {
        assert(text::texts(args@) =~= seq![exe@, "--config"@, config@, word(cmd)]);
    }
    Step::Sudo(args)
}

/// The steps that carry out a command.
pub fn run_daemon(cmd: DaemonCmd, root: bool, exe: &str, config: &str, cwd: &Option<String>) -> (steps:
    Vec<Step>)
    ensures
        deeds(steps@) == deeds_for(cmd, root, exe@, config@, text::text_or(*cwd, Seq::empty())),
{
    let mut steps: Vec<Step> = Vec::new();
    if !root {
        steps.push(again_as_root(cmd, exe, config));
    } else {
        match cmd {
            DaemonCmd::Install => {
                let content: String = service_unit(exe, config, cwd);
                steps.push(Step::Write { path: unit_path().to_owned(), content });
                steps.push(systemctl("daemon-reload"));
                steps.push(systemctl_service("enable"));
                steps.push(systemctl_service("start"));
                steps.push(Step::Say("9limiter service installed and started.".to_owned()));
            },
            DaemonCmd::Start => {
                steps.push(systemctl_service("start"));
                steps.push(Step::Say("9limiter service started.".to_owned()));
            },
            DaemonCmd::Stop => {
                steps.push(systemctl_service("stop"));
                steps.push(Step::Say("9limiter service stopped.".to_owned()));
            },
            DaemonCmd::Restart => {
                steps.push(systemctl_service("restart"));
                steps.push(Step::Say("9limiter service restarted.".to_owned()));
            },
            DaemonCmd::Remove => {
                steps.push(systemctl_service("stop"));
                steps.push(systemctl_service("disable"));
                steps.push(Step::Remove { path: unit_path().to_owned() });
                steps.push(systemctl("daemon-reload"));
                steps.push(Step::Say("9limiter service removed.".to_owned()));
            },
        }
    }
    proof {
        assert(deeds(steps@) =~= deeds_for(
            cmd,
            root,
            exe@,
            config@,
            text::text_or(*cwd, Seq::empty()),
        ));
    }
    steps
}

/// Without root's rights nothing is done but to ask for them, with the same command and
/// the same configuration.
pub proof fn only_root_touches_the_service(
    cmd: DaemonCmd,
    exe: Seq<char>,
    config: Seq<char>,
    cwd: Seq<char>,
)
    ensures
        deeds_for(cmd, false, exe, config, cwd) == seq![
            Deed::Sudo(seq![exe, "--config"@, config, word(cmd)]),
        ],
        forall|i: int|
            0 <= i < deeds_for(cmd, true, exe, config, cwd).len() ==> !(#[trigger] deeds_for(
                cmd,
                true,
                exe,
                config,
                cwd,
            )[i] is Sudo),
{
}

/// The path in the unit does not depend on where the service is started, if the
/// working directory is an absolute path.
pub proof fn unit_names_an_absolute_path(config: Seq<char>, cwd: Seq<char>)
    requires
        "/"@.is_prefix_of(cwd) || "/"@.is_prefix_of(config) || cwd.len() == 0,
    ensures
        "/"@.is_prefix_of(absolute(config, cwd)),
{
    reveal_strlit("/");
    assert("/"@ =~= absolute(config, cwd).subrange(0, 1));
}

} // verus!
