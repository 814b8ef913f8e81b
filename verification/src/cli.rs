//! Command-line interface.
//!
//! The settings that the command line gives. Flag names mirror upstream
//! `node_exporter` where practical so existing deployment tooling (Ansible
//! roles, systemd units) can be reused as they are.

use vstd::prelude::*;

use crate::config::Config;
use crate::text;
use crate::text::{chars_of, push_chars};

verus! {

#[derive(Debug, Clone)]
pub struct Cli {
    /// Address on which to expose metrics and the web interface.
    pub listen_address: String,
    /// Path under which to expose metrics.
    pub telemetry_path: String,
    /// procfs mountpoint.
    pub procfs: String,
    /// sysfs mountpoint.
    pub sysfs: String,
    /// Rootfs path (prefix applied to absolute mountpoints, e.g. filesystem
    /// collector).
    pub rootfs: String,
    /// Directory of `*.prom` files served by the textfile collector. When
    /// unset the textfile collector emits nothing.
    pub textfile_directory: Option<String>,
    /// The collectors that are disabled by name.
    pub no_collector: Vec<String>,
    /// The only collectors that are enabled, where some are named.
    pub only_collectors: Vec<String>,
}

/// `:9100` is every address of the host at that port; an address that names
/// its host stays as it is.
pub open spec fn resolved(address: Seq<char>) -> Seq<char> {
    if address.len() > 0 && address[0] == ':' {
        "0.0.0.0"@ + address
    } else {
        address
    }
}

impl Cli {
    /// Resolve `:9100` -> `0.0.0.0:9100`, leave host-qualified strings intact.
    pub fn resolved_listen_address(&self) -> (r: String)
        ensures
            r@ == resolved(self.listen_address@),
    {
        let chars = chars_of(self.listen_address.as_str());
        if chars.len() > 0 && chars[0] == ':' {
            let mut address = "0.0.0.0".to_owned();
            push_chars(&mut address, chars.as_slice());
            address
        } else {
            self.listen_address.as_str().to_owned()
        }
    }

    /// The configuration that the collectors share.
    pub fn config(&self) -> (r: Config)
        ensures
            r.procfs@ == self.procfs@,
            r.sysfs@ == self.sysfs@,
            r.rootfs@ == self.rootfs@,
            text::opt_view(r.textfile_directory) == text::opt_view(self.textfile_directory),
    {
        let directory = match &self.textfile_directory {
            Some(dir) => Some(dir.as_str().to_owned()),
            None => None,
        };
        Config::new(
            self.procfs.as_str().to_owned(),
            self.sysfs.as_str().to_owned(),
            self.rootfs.as_str().to_owned(),
        ).with_textfile_directory(directory)
    }
}

/// A resolved address names its host, and resolving it again changes nothing.
pub proof fn resolving_is_settled(address: Seq<char>)
    ensures
        resolved(resolved(address)) == resolved(address),
        address.len() > 0 ==> resolved(address)[0] != ':',
{
    reveal_strlit("0.0.0.0");
    if address.len() > 0 && address[0] == ':' {
        assert(("0.0.0.0"@ + address)[0] == '0');
    }
}

/// A port without a host is that port on every address; an address with a host
/// stays as it is.
pub proof fn ports_listen_everywhere(port: Seq<char>, address: Seq<char>)
    ensures
        resolved(seq![':'] + port) == "0.0.0.0:"@ + port,
        address.len() == 0 || address[0] != ':' ==> resolved(address) == address,
{
    reveal_strlit("0.0.0.0");
    reveal_strlit("0.0.0.0:");
    assert("0.0.0.0"@ + (seq![':'] + port) =~= "0.0.0.0:"@ + port);
}

} // verus!
