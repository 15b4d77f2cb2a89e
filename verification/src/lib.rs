//! A minimal single-process HTTP server core: a readiness-driven connection
//! multiplexer that reads one request per accepted connection, dispatches it
//! to method-keyed route handlers or a static-file cache, and answers with a
//! hand-built response frame.
//!
//! This crate is the verified core: the request-line scanner, the response
//! encoder, the body extractors, the route tables, the static-file cache and
//! the dispatch decision. The host supplies the event loop and all socket
//! and file I/O, feeds raw request bytes in, and carries the decisions out.

use vstd::prelude::*;

pub mod response;
pub mod settings;
pub mod socket;
pub mod static_files;
pub mod table;
pub mod util;

pub use response::Response;
pub use settings::{Settings, SocketSettings, StaticFilesSettings};
pub use socket::Sockets;
pub use static_files::{File, FileType, StaticFiles};
pub use util::{get_extension, read_data_until_space};

verus! {

use crate::socket::{file_header, frame_file};
use crate::static_files::FileType as Ft;
use crate::table::ByteTable;
use crate::util::{path_at, U8_G, U8_O, U8_P};
use vstd::slice::slice_to_vec;
use vstd::string::StringSliceAdditionalSpecFns;

/// Byte length of the read buffer used for one read call on a connection.
pub const MAX_PAYLOAD_LENGTH: usize = 128;

/// The default document served for an empty GET path.
pub open spec fn index_bytes() -> Seq<u8> {
    "index.html".spec_bytes()
}

/// The path a GET request asks for: the token at byte 5, with an empty
/// token replaced by the default document.
pub open spec fn effective_get_path(data: Seq<u8>) -> Seq<u8> {
    if path_at(data, 5).len() == 0 {
        index_bytes()
    } else {
        path_at(data, 5)
    }
}

/// The two route tables. OPTIONS requests dispatch through the POST table.
pub struct Routes<H> {
    /// Handlers for GET requests, keyed by raw path bytes.
    pub get: ByteTable<H>,
    /// Handlers for POST and OPTIONS requests, keyed by raw path bytes.
    pub post: ByteTable<H>,
}

/// What one dispatch cycle decided for a readable connection.
pub enum Outcome<H> {
    /// Serve this file: its type, and its content bytes.
    File(FileType, Vec<u8>),
    /// Invoke this handler with the raw payload.
    Handler(H),
    /// Send the not-found frame.
    NotFound,
    /// Read this path from disk under the static root, then decide again
    /// with `dispatch_after_read`.
    TryDisk(Vec<u8>),
    /// Send nothing.
    Ignore,
}

/// The mathematical form of an `Outcome`.
pub enum SpecOutcome<H> {
    /// Serve a file of this type with these content bytes.
    File(FileType, Seq<u8>),
    /// Invoke this handler.
    Handler(H),
    /// Send the not-found frame.
    NotFound,
    /// Read this path from disk, then decide again.
    TryDisk(Seq<u8>),
    /// Send nothing.
    Ignore,
}

/// The mathematical form of an outcome value.
pub open spec fn outcome_model<H>(o: Outcome<H>) -> SpecOutcome<H> {
    match o {
        Outcome::File(t, c) => SpecOutcome::File(t, c@),
        Outcome::Handler(h) => SpecOutcome::Handler(h),
        Outcome::NotFound => SpecOutcome::NotFound,
        Outcome::TryDisk(p) => SpecOutcome::TryDisk(p@),
        Outcome::Ignore => SpecOutcome::Ignore,
    }
}

/// The server core: listening address, connection registry, static files,
/// route tables, and the shared context every handler mutates in place.
///
/// `T` is the host's context type, `C` its connection type, and `H` its
/// handler type; the core never looks inside a value of any of them.
pub struct Server<T, C, H> {
    /// IPv4 address to listen on.
    pub address: [u8; 4],
    /// Port to listen on.
    pub port: u16,
    /// The live client connections.
    pub clients: Sockets<C>,
    /// The static-file subsystem; `None` when no static root is configured.
    pub static_files: Option<StaticFiles>,
    /// The route tables.
    pub routes: Routes<H>,
    /// The shared context handed to every handler.
    pub context: T,
}

impl<T, C, H> Server<T, C, H> {
    /// The route tables and cache hold unique keys, and client tokens are
    /// unique and nonzero.
    pub open spec fn wf(self) -> bool {
        &&& self.routes.get.wf()
        &&& self.routes.post.wf()
        &&& self.clients.wf()
        &&& match self.static_files {
            Some(sf) => sf.wf(),
            None => true,
        }
    }

    /// Whether a static cache is present and filled at startup.
    pub open spec fn cache_is_live(self) -> bool {
        match self.static_files {
            Some(sf) => sf.enabled(),
            None => false,
        }
    }

    /// Whether static files are served by on-demand disk reads.
    pub open spec fn static_on_demand(self) -> bool {
        match self.static_files {
            Some(sf) => !sf.enabled(),
            None => false,
        }
    }

    /// The static cache's map; empty when no cache is live.
    pub open spec fn cache(self) -> Map<Seq<u8>, (FileType, Seq<u8>)> {
        match self.static_files {
            Some(sf) => sf.cache_model(),
            None => Map::empty(),
        }
    }

    /// What a GET falls back to: the GET route for the path, else not-found.
    pub open spec fn get_route_outcome(self, path: Seq<u8>) -> SpecOutcome<H> {
        if self.routes.get@.contains_key(path) {
            SpecOutcome::Handler(self.routes.get@[path])
        } else {
            SpecOutcome::NotFound
        }
    }

    /// What a POST or OPTIONS resolves to: the POST route, else not-found.
    pub open spec fn post_route_outcome(self, path: Seq<u8>) -> SpecOutcome<H> {
        if self.routes.post@.contains_key(path) {
            SpecOutcome::Handler(self.routes.post@[path])
        } else {
            SpecOutcome::NotFound
        }
    }

    /// The decision for one raw payload, in dispatch order: an empty or
    /// unrecognized payload is ignored; a GET is answered from the cache,
    /// the disk, or the GET routes; POST and OPTIONS go to the POST routes.
    pub open spec fn spec_dispatch(self, data: Seq<u8>) -> SpecOutcome<H> {
        if data.len() == 0 {
            SpecOutcome::Ignore
        } else if data[0] == U8_G {
            let path = effective_get_path(data);
            if self.cache_is_live() {
                if self.cache().contains_key(path) {
                    SpecOutcome::File(self.cache()[path].0, self.cache()[path].1)
                } else {
                    self.get_route_outcome(path)
                }
            } else if self.static_on_demand() {
                SpecOutcome::TryDisk(path)
            } else {
                self.get_route_outcome(path)
            }
        } else if data[0] == U8_P {
            self.post_route_outcome(path_at(data, 6))
        } else if data[0] == U8_O {
            self.post_route_outcome(path_at(data, 9))
        } else {
            SpecOutcome::Ignore
        }
    }

    /// A new server for these settings, with empty route tables, no client
    /// connections, and an empty static cache where one is asked for. The
    /// host fills the cache from its directory walk.
    pub fn new(settings: Settings, context: T) -> (r: Server<T, C, H>)
        ensures
            r.wf(),
            r.routes.get@ == Map::<Seq<u8>, H>::empty(),
            r.routes.post@ == Map::<Seq<u8>, H>::empty(),
            r.clients.tokens() == Map::<usize, C>::empty(),
            r.clients.spec_max_payloads() == settings.socket.max_payloads,
            r.address == settings.address,
            r.port == settings.port,
            settings.static_files matches Some(s0) ==> r.static_files matches Some(sf)
                && sf.spec_root() == s0.root_path@ && sf.enabled() == s0.enable_cache
                && sf.cache_model() == Map::<Seq<u8>, (Ft, Seq<u8>)>::empty(),
            settings.static_files is None ==> r.static_files is None,
            r.context == context,
    {
        let static_files = match settings.static_files {
            Some(sf) => Some(StaticFiles::new(sf.root_path, sf.enable_cache)),
            None => None,
        };
        Server {
            address: settings.address,
            port: settings.port,
            clients: Sockets::new(settings.socket),
            static_files,
            routes: Routes { get: ByteTable::new(), post: ByteTable::new() },
            context,
        }
    }

    /// Registers a GET handler for this path; a handler already registered
    /// for the path is overwritten.
    pub fn add_get_route(&mut self, path: &str, func: H)
        requires
            old(self).wf(),
        ensures
            final(self).wf(),
            final(self).routes.get@ == old(self).routes.get@.insert(path.spec_bytes(), func),
            final(self).routes.post == old(self).routes.post,
            final(self).clients == old(self).clients,
            final(self).static_files == old(self).static_files,
            final(self).address == old(self).address,
            final(self).port == old(self).port,
            final(self).context == old(self).context,
    {
        let key = slice_to_vec(path.as_bytes());
        self.routes.get.insert(key, func);
    }

    /// Registers a POST (and OPTIONS) handler for this path; a handler
    /// already registered for the path is overwritten.
    pub fn add_post_route(&mut self, path: &str, func: H)
        requires
            old(self).wf(),
        ensures
            final(self).wf(),
            final(self).routes.post@ == old(self).routes.post@.insert(path.spec_bytes(), func),
            final(self).routes.get == old(self).routes.get,
            final(self).clients == old(self).clients,
            final(self).static_files == old(self).static_files,
            final(self).address == old(self).address,
            final(self).port == old(self).port,
            final(self).context == old(self).context,
    {
        let key = slice_to_vec(path.as_bytes());
        self.routes.post.insert(key, func);
    }
}

impl<T, C, H: Copy> Server<T, C, H> {
    /// Resolves a GET path through the GET routes.
    fn get_route_or_404(&self, path: &[u8]) -> (r: Outcome<H>)
        requires
            self.wf(),
        ensures
            outcome_model(r) == self.get_route_outcome(path@),
    {
        match self.routes.get.get(path) {
            Some(h) => Outcome::Handler(*h),
            None => Outcome::NotFound,
        }
    }

    /// Resolves a POST or OPTIONS path through the POST routes.
    fn post_route_or_404(&self, path: &[u8]) -> (r: Outcome<H>)
        requires
            self.wf(),
        ensures
            outcome_model(r) == self.post_route_outcome(path@),
    {
        match self.routes.post.get(path) {
            Some(h) => Outcome::Handler(*h),
            None => Outcome::NotFound,
        }
    }

    /// Decides what one readable connection's payload gets: the decision of
    /// `spec_dispatch`, with the first byte selecting the method and the
    /// path read up to the next space.
    pub fn dispatch(&self, data: &Vec<u8>) -> (r: Outcome<H>)
        requires
            self.wf(),
        ensures
            outcome_model(r) == self.spec_dispatch(data@),
    {
        if data.len() == 0 {
            return Outcome::Ignore;
        }
        let first = data[0];
        if first == U8_G {
            let raw = read_data_until_space(data, 5);
            let path: Vec<u8> = if raw.len() == 0 {
                slice_to_vec("index.html".as_bytes())
            } else {
                slice_to_vec(raw)
            };
            assert(path@ == effective_get_path(data@));
            match &self.static_files {
                Some(sf) => {
                    if sf.is_enabled() {
                        match sf.get(path.as_slice()) {
                            Some(f) => Outcome::File(f.0, slice_to_vec(f.1.as_slice())),
                            None => self.get_route_or_404(path.as_slice()),
                        }
                    } else {
                        Outcome::TryDisk(path)
                    }
                },
                None => self.get_route_or_404(path.as_slice()),
            }
        } else if first == U8_P {
            let raw = read_data_until_space(data, 6);
            self.post_route_or_404(raw)
        } else if first == U8_O {
            let raw = read_data_until_space(data, 9);
            self.post_route_or_404(raw)
        } else {
            Outcome::Ignore
        }
    }

    /// Decides after the on-demand disk read that `TryDisk` asked for: a
    /// file that was read is served; otherwise the GET routes decide for
    /// the same path.
    pub fn dispatch_after_read(&self, path: &Vec<u8>, file: Option<File>) -> (r: Outcome<H>)
        requires
            self.wf(),
        ensures
            outcome_model(r) == match file {
                Some(f) => SpecOutcome::File(f.0, f.1@),
                None => self.get_route_outcome(path@),
            },
    {
        match file {
            Some(f) => Outcome::File(f.0, f.1),
            None => self.get_route_or_404(path.as_slice()),
        }
    }
}

/// Re-registering a path overwrites its handler: after two registrations
/// for one path only the last one is bound, and a lookup finds it.
pub proof fn lemma_last_registration_wins<H>(m: Map<Seq<u8>, H>, path: Seq<u8>, h1: H, h2: H)
    ensures
        m.insert(path, h1).insert(path, h2) == m.insert(path, h2),
        m.insert(path, h2)[path] == h2,
{
    assert(m.insert(path, h1).insert(path, h2) =~= m.insert(path, h2));
}

/// A GET whose effective path is registered, and not shadowed by a live
/// static cache, dispatches to exactly the registered handler.
pub proof fn lemma_get_dispatches_registered_handler<T, C, H>(s: Server<T, C, H>, data: Seq<u8>)
    requires
        data.len() > 0,
        data[0] == U8_G,
        s.routes.get@.contains_key(effective_get_path(data)),
        !s.static_on_demand(),
        s.cache_is_live() ==> !s.cache().contains_key(effective_get_path(data)),
    ensures
        s.spec_dispatch(data) == SpecOutcome::<H>::Handler(
            s.routes.get@[effective_get_path(data)],
        ),
{
}

/// A POST (or an OPTIONS, at its own path offset) whose path is registered
/// in the POST table dispatches to exactly the registered handler.
pub proof fn lemma_post_dispatches_registered_handler<T, C, H>(s: Server<T, C, H>, data: Seq<u8>)
    requires
        data.len() > 0,
        data[0] == U8_P || data[0] == U8_O,
        data[0] == U8_P ==> s.routes.post@.contains_key(path_at(data, 6)),
        data[0] == U8_O ==> s.routes.post@.contains_key(path_at(data, 9)),
    ensures
        data[0] == U8_P ==> s.spec_dispatch(data) == SpecOutcome::<H>::Handler(
            s.routes.post@[path_at(data, 6)],
        ),
        data[0] == U8_O ==> s.spec_dispatch(data) == SpecOutcome::<H>::Handler(
            s.routes.post@[path_at(data, 9)],
        ),
{
}

/// A request whose path is absent from the applicable route table, and
/// absent from the static cache when one is live, is answered with the
/// not-found decision, whose frame is fixed and carries no body. In the
/// on-demand static mode the decision first asks for the disk read, and
/// the follow-up decision after a failed read is not-found.
pub proof fn lemma_unmatched_route_not_found<T, C, H>(s: Server<T, C, H>, data: Seq<u8>)
    requires
        data.len() > 0,
        data[0] == U8_G || data[0] == U8_P || data[0] == U8_O,
        data[0] == U8_G ==> !s.routes.get@.contains_key(effective_get_path(data)) && (
        s.cache_is_live() ==> !s.cache().contains_key(effective_get_path(data))),
        data[0] == U8_P ==> !s.routes.post@.contains_key(path_at(data, 6)),
        data[0] == U8_O ==> !s.routes.post@.contains_key(path_at(data, 9)),
    ensures
        data[0] == U8_G && !s.static_on_demand() ==> s.spec_dispatch(data)
            == SpecOutcome::<H>::NotFound,
        data[0] == U8_G && s.static_on_demand() ==> s.spec_dispatch(data)
            == SpecOutcome::<H>::TryDisk(effective_get_path(data)) && s.get_route_outcome(
            effective_get_path(data),
        ) == SpecOutcome::<H>::NotFound,
        data[0] == U8_P || data[0] == U8_O ==> s.spec_dispatch(data)
            == SpecOutcome::<H>::NotFound,
        crate::socket::frame_404() == "HTTP/1.1 404 NotFound\r\n\r\n".spec_bytes(),
{
}

/// Round trip through the static cache: a GET for a cached path is served
/// as a file frame whose length field holds the decimal length of the
/// cached content and whose body is that content, byte for byte.
pub proof fn lemma_cached_file_round_trip<T, C, H>(s: Server<T, C, H>, data: Seq<u8>)
    requires
        data.len() > 0,
        data[0] == U8_G,
        s.cache_is_live(),
        s.cache().contains_key(effective_get_path(data)),
    ensures
        ({
            let entry = s.cache()[effective_get_path(data)];
            s.spec_dispatch(data) == SpecOutcome::<H>::File(entry.0, entry.1) && frame_file(
                entry.0,
                entry.1,
            ) == file_header(entry.0, entry.1.len()) + entry.1 && frame_file(
                entry.0,
                entry.1,
            ).subrange(
                file_header(entry.0, entry.1.len()).len() as int,
                frame_file(entry.0, entry.1).len() as int,
            ) == entry.1
        }),
{
    let entry = s.cache()[effective_get_path(data)];
    let h = file_header(entry.0, entry.1.len());
    assert(frame_file(entry.0, entry.1).subrange(
        h.len() as int,
        frame_file(entry.0, entry.1).len() as int,
    ) =~= entry.1);
}

} // verus!
