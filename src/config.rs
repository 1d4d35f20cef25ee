//! The environment a run is configured from, and the one the build is given.
//!
//! The variables are read by the caller and handed in as plain values; the
//! rules on which of them are required live here.

use vstd::prelude::*;

verus! {

/// The variables a run depends on, after the required ones were found.
pub struct BuildEnv {
    /// Path of the toolchain's launcher.
    pub cargo: String,
    /// Temporary-files directory handed to the build; empty when unset.
    pub temp: String,
    /// Executable search path.
    pub path: String,
    /// SSH agent socket; empty when unset.
    pub ssh_auth_sock: String,
    /// Manifest directory of the calling project.
    pub manifest_dir: String,
    /// Toolchain manager home; empty when unset.
    pub rustup_home: String,
    /// Toolchain pin; empty when unset.
    pub rustup_toolchain: String,
}

/// A required variable that was not set.
pub enum EnvError {
    MissingCargo,
    MissingPath,
    MissingManifestDir,
}

/// The value of an optional variable: its value when set, else empty.
pub open spec fn or_empty(v: Option<String>) -> Seq<char> {
    match v {
        Some(s) => s@,
        None => Seq::empty(),
    }
}

fn unwrap_or_empty(v: Option<String>) -> (r: String)
    ensures
        r@ == or_empty(v),
{
    match v {
        Some(s) => s,
        None => String::new(),
    }
}

impl BuildEnv {
    /// Checks the variables as read from the environment. The required ones
    /// are the launcher, the search path and the manifest directory, looked
    /// for in that order; each optional one defaults to empty.
    pub fn from_vars(
        cargo: Option<String>,
        temp: Option<String>,
        path: Option<String>,
        ssh_auth_sock: Option<String>,
        manifest_dir: Option<String>,
        rustup_home: Option<String>,
        rustup_toolchain: Option<String>,
    ) -> (r: Result<BuildEnv, EnvError>)
        ensures
            cargo is None ==> r == Err::<BuildEnv, EnvError>(EnvError::MissingCargo),
            cargo is Some && path is None ==> r == Err::<BuildEnv, EnvError>(EnvError::MissingPath),
            cargo is Some && path is Some && manifest_dir is None ==> r == Err::<BuildEnv, EnvError>(
                EnvError::MissingManifestDir,
            ),
            r is Ok <==> (cargo is Some && path is Some && manifest_dir is Some),
            r is Ok ==> {
                let e = r->Ok_0;
                &&& e.cargo@ == or_empty(cargo)
                &&& e.temp@ == or_empty(temp)
                &&& e.path@ == or_empty(path)
                &&& e.ssh_auth_sock@ == or_empty(ssh_auth_sock)
                &&& e.manifest_dir@ == or_empty(manifest_dir)
                &&& e.rustup_home@ == or_empty(rustup_home)
                &&& e.rustup_toolchain@ == or_empty(rustup_toolchain)
            },
    {
        let cargo = match cargo {
            Some(c) => c,
            None => {
                return Err(EnvError::MissingCargo);
            },
        };
        let path = match path {
            Some(p) => p,
            None => {
                return Err(EnvError::MissingPath);
            },
        };
        let manifest_dir = match manifest_dir {
            Some(m) => m,
            None => {
                return Err(EnvError::MissingManifestDir);
            },
        };
        Ok(
            BuildEnv {
                cargo,
                temp: unwrap_or_empty(temp),
                path,
                ssh_auth_sock: unwrap_or_empty(ssh_auth_sock),
                manifest_dir,
                rustup_home: unwrap_or_empty(rustup_home),
                rustup_toolchain: unwrap_or_empty(rustup_toolchain),
            },
        )
    }

    /// The whole environment of the compile step, every other variable being
    /// cleared: temporary directory, system root, search path, SSH agent
    /// socket, toolchain manager home and toolchain pin, in that order.
    pub fn compile_env(&self, system_root: String) -> (r: Vec<(&'static str, String)>)
        ensures
            r@.len() == 6,
            r@[0].0@ == "TEMP"@ && r@[0].1@ == self.temp@,
            r@[1].0@ == "SYSTEMROOT"@ && r@[1].1@ == system_root@,
            r@[2].0@ == "PATH"@ && r@[2].1@ == self.path@,
            r@[3].0@ == "SSH_AUTH_SOCK"@ && r@[3].1@ == self.ssh_auth_sock@,
            r@[4].0@ == "RUSTUP_HOME"@ && r@[4].1@ == self.rustup_home@,
            r@[5].0@ == "RUSTUP_TOOLCHAIN"@ && r@[5].1@ == self.rustup_toolchain@,
    {
        vec![
            ("TEMP", self.temp.clone()),
            ("SYSTEMROOT", system_root),
            ("PATH", self.path.clone()),
            ("SSH_AUTH_SOCK", self.ssh_auth_sock.clone()),
            ("RUSTUP_HOME", self.rustup_home.clone()),
            ("RUSTUP_TOOLCHAIN", self.rustup_toolchain.clone()),
        ]
    }
}

} // verus!
