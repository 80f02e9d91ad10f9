//! The daemon's startup configuration: where unit descriptors live and what
//! shell to put on which terminal. Reading and deserializing the file is the
//! surrounding program's business.

use vstd::prelude::*;

verus! {

/// Where the unit descriptors are loaded from.
pub struct ServicesConfig {
    pub path: String,
}

/// What shell to spawn and on which terminal.
pub struct ShellConfig {
    pub executable: String,
    pub tty: String,
}

/// The whole startup configuration.
pub struct InitConfig {
    pub services: ServicesConfig,
    pub shell: ShellConfig,
}

impl Default for InitConfig {
    /// The built-in configuration used when no file overrides it.
    fn default() -> (r: Self)
        ensures
            r.services.path@ == "/etc/services"@,
            r.shell.executable@ == "/bin/sh"@,
            r.shell.tty@ == "tty1"@,
    {
        InitConfig {
            services: ServicesConfig { path: String::from_str("/etc/services") },
            shell: ShellConfig {
                executable: String::from_str("/bin/sh"),
                tty: String::from_str("tty1"),
            },
        }
    }
}

} // verus!
