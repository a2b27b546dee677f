//! The command line of the runner.
use vstd::prelude::*;

verus! {

/// Options of a test run.
pub struct CmdLine {
    /// YAML file with the test commands.
    pub commands_file: String,
    /// YAML file with the hosts of the test.
    pub hosts_file: String,
    /// The MT device to use; empty for the last one `mst status` lists.
    pub mlx_dev: String,
    /// The SSH key for `root` on the hosts.
    pub ssh_key: String,
    pub verbose: bool,
    pub silent: bool,
    /// Only show the test commands.
    pub show_commands: bool,
    /// Reuse the interfaces stored in the hosts file (`--fast`).
    pub reuse_conifiguration: bool,
    pub loopback: bool,
    /// Reset the hosts' devices before mapping their interfaces.
    pub reset: bool,
}

impl Default for CmdLine {
    fn default() -> (r: Self)
        ensures
            r.commands_file@ == Seq::<char>::empty(),
            r.hosts_file@ == Seq::<char>::empty(),
            r.mlx_dev@ == Seq::<char>::empty(),
            r.ssh_key@ == Seq::<char>::empty(),
            !r.verbose,
            !r.silent,
            !r.show_commands,
            !r.reuse_conifiguration,
            !r.loopback,
            !r.reset,
    {
        CmdLine {
            commands_file: String::new(),
            hosts_file: String::new(),
            mlx_dev: String::new(),
            ssh_key: String::new(),
            verbose: false,
            silent: false,
            show_commands: false,
            reuse_conifiguration: false,
            loopback: false,
            reset: false,
        }
    }
}

/// The characters of an optional string, empty when absent.
pub open spec fn or_empty(o: Option<String>) -> Seq<char> {
    match o {
        Some(s) => s@,
        None => Seq::<char>::empty(),
    }
}

/// The SSH key used when none is given: `<home>/.ssh/id_rsa`.
pub open spec fn default_ssh_key(home: Seq<char>) -> Seq<char> {
    home + "/.ssh/id_rsa"@
}

/// The flags of the command line.
pub struct Flags {
    pub verbose: bool,
    pub silent: bool,
    pub show: bool,
    pub fast: bool,
    pub loopback: bool,
    /// Reset the hosts' devices before mapping their interfaces.
    pub reset: bool,
}

fn take_or_empty(o: Option<String>) -> (r: String)
    ensures
        r@ == or_empty(o),
{
    match o {
        Some(s) => s,
        None => String::new(),
    }
}

impl CmdLine {
    /// The options given by the parsed command line: absent file names and MT device
    /// are empty; an absent key is `<home>/.ssh/id_rsa`, so a home directory is needed
    /// when no key is given.
    pub fn from_params(
        commands: Option<String>,
        hosts: Option<String>,
        mtdev: Option<String>,
        key: Option<String>,
        home: Option<String>,
        flags: Flags,
    ) -> (r: CmdLine)
        requires
            key is Some || home is Some,
        ensures
            r.commands_file@ == or_empty(commands),
            r.hosts_file@ == or_empty(hosts),
            r.mlx_dev@ == or_empty(mtdev),
            r.ssh_key@ == match key {
                Some(k) => k@,
                None => default_ssh_key(home.unwrap()@),
            },
            r.verbose == flags.verbose,
            r.silent == flags.silent,
            r.show_commands == flags.show,
            r.reuse_conifiguration == flags.fast,
            r.loopback == flags.loopback,
            r.reset == flags.reset,
    {
        let ssh_key = match key {
            Some(k) => k,
            None => {
                let h = home.unwrap();
                crate::text::concat(h.as_str(), "/.ssh/id_rsa")
            },
        };
        CmdLine {
            commands_file: take_or_empty(commands),
            hosts_file: take_or_empty(hosts),
            mlx_dev: take_or_empty(mtdev),
            ssh_key,
            verbose: flags.verbose,
            silent: flags.silent,
            show_commands: flags.show,
            reuse_conifiguration: flags.fast,
            loopback: flags.loopback,
            reset: flags.reset,
        }
    }
}

} // verus!
