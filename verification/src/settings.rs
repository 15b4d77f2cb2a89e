//! Construction parameters for the server: listening address, per-connection
//! read bound, and the optional static-file settings.

use vstd::prelude::*;

verus! {

/// Settings of the static-file subsystem.
pub struct StaticFilesSettings {
    /// Directory that static paths are resolved against.
    pub root_path: String,
    /// Whether the directory is walked into an in-memory cache at startup.
    pub enable_cache: bool,
}

impl Default for StaticFilesSettings {
    /// Serves from `public`, reading disk on demand.
    fn default() -> (r: Self)
        ensures
            r.root_path@ == "public"@,
            r.enable_cache == false,
    {
        StaticFilesSettings { root_path: "public".to_owned(), enable_cache: false }
    }
}

/// Settings of one client connection.
pub struct SocketSettings {
    /// Bound on the read iterations attempted per readiness notification.
    pub max_payloads: usize,
}

impl Default for SocketSettings {
    fn default() -> (r: Self)
        ensures
            r.max_payloads == 5,
    {
        SocketSettings { max_payloads: 5 }
    }
}

/// Construction parameters of the server.
pub struct Settings {
    /// IPv4 address to listen on.
    pub address: [u8; 4],
    /// Port to listen on.
    pub port: u16,
    /// Per-connection settings.
    pub socket: SocketSettings,
    /// Static-file settings; `None` disables the static subsystem.
    pub static_files: Option<StaticFilesSettings>,
}

impl Default for Settings {
    /// Listens on 127.0.0.1:3000 with default socket and static settings.
    fn default() -> (r: Self)
        ensures
            r.address@ == seq![127u8, 0u8, 0u8, 1u8],
            r.port == 3000,
            r.socket.max_payloads == 5,
            r.static_files matches Some(sf) && sf.root_path@ == "public"@ && sf.enable_cache
                == false,
    {
        let r = Settings {
            address: [127, 0, 0, 1],
            port: 3000,
            socket: Default::default(),
            static_files: Some(Default::default()),
        };
        proof {
            assert(r.address@ =~= seq![127u8, 0u8, 0u8, 1u8]);
        }
        r
    }
}

} // verus!
