//! Response frames and the connection registry.
//!
//! A response is one pre-formatted byte frame: status line, headers, a blank
//! line, then the body, with `Content-Length` written as decimal ASCII. The
//! registry owns the live connections, keyed by an integer token; every
//! connection is removed again after at most one dispatch cycle.

use vstd::prelude::*;
use vstd::slice::slice_to_vec;
use vstd::string::StringSliceAdditionalSpecFns;

use crate::settings::SocketSettings;
use crate::static_files::{mime_model, File, FileType};

verus! {

/// The decimal ASCII digits of `n`, most significant first.
pub open spec fn dec_digits(n: nat) -> Seq<u8>
    decreases n,
{
    if n < 10 {
        seq![(n + 48) as u8]
    } else {
        dec_digits(n / 10).push((n % 10 + 48) as u8)
    }
}

/// Writes `n` as decimal ASCII digits.
pub fn dec_of_usize(n: usize) -> (r: Vec<u8>)
    ensures
        r@ == dec_digits(n as nat),
    decreases n,
{
    if n < 10 {
        let mut v: Vec<u8> = Vec::new();
        v.push((n as u8) + 48);
        proof {
            assert(v@ =~= dec_digits(n as nat));
        }
        v
    } else {
        let mut v = dec_of_usize(n / 10);
        v.push(((n % 10) as u8) + 48);
        v
    }
}

/// The blank line that separates headers from the body.
pub open spec fn crlf_crlf() -> Seq<u8> {
    "\r\n\r\n".spec_bytes()
}

/// The success frame for `body`.
pub open spec fn frame_200(body: Seq<u8>) -> Seq<u8> {
    "HTTP/1.1 200 OK\r\nContent-Length: ".spec_bytes() + dec_digits(body.len()) + crlf_crlf()
        + body
}

/// The bad-request frame for `body`.
pub open spec fn frame_400(body: Seq<u8>) -> Seq<u8> {
    "HTTP/1.1 400 BadRequest\r\nContent-Length: ".spec_bytes() + dec_digits(body.len())
        + crlf_crlf() + body
}

/// The server-error frame for `body`.
pub open spec fn frame_500(body: Seq<u8>) -> Seq<u8> {
    "HTTP/1.1 500 BadRequest\r\nContent-Length: ".spec_bytes() + dec_digits(body.len())
        + crlf_crlf() + body
}

/// The not-found frame; it carries no body.
pub open spec fn frame_404() -> Seq<u8> {
    "HTTP/1.1 404 NotFound\r\n\r\n".spec_bytes()
}

/// The header part of a file frame: status line, a permissive cross-origin
/// header, the content type of `t`, and the length `n` of the content.
pub open spec fn file_header(t: FileType, n: nat) -> Seq<u8> {
    "HTTP/1.1 200 OK\r\nAccess-Control-Allow-Origin: *\r\nContent-Type: ".spec_bytes()
        + mime_model(t) + "\r\nContent-Length: ".spec_bytes() + dec_digits(n) + crlf_crlf()
}

/// The file frame: the header for the content's exact length, then the
/// content bytes verbatim.
pub open spec fn frame_file(t: FileType, content: Seq<u8>) -> Seq<u8> {
    file_header(t, content.len()) + content
}

/// Builds the success frame.
pub fn build_200(data: &[u8]) -> (r: Vec<u8>)
    ensures
        r@ == frame_200(data@),
{
    let mut v: Vec<u8> = Vec::new();
    v.extend_from_slice("HTTP/1.1 200 OK\r\nContent-Length: ".as_bytes());
    let digits = dec_of_usize(data.len());
    v.extend_from_slice(digits.as_slice());
    v.extend_from_slice("\r\n\r\n".as_bytes());
    v.extend_from_slice(data);
    proof {
        assert(v@ =~= frame_200(data@));
    }
    v
}

/// Builds the bad-request frame.
pub fn build_400(data: &[u8]) -> (r: Vec<u8>)
    ensures
        r@ == frame_400(data@),
{
    let mut v: Vec<u8> = Vec::new();
    v.extend_from_slice("HTTP/1.1 400 BadRequest\r\nContent-Length: ".as_bytes());
    let digits = dec_of_usize(data.len());
    v.extend_from_slice(digits.as_slice());
    v.extend_from_slice("\r\n\r\n".as_bytes());
    v.extend_from_slice(data);
    proof {
        assert(v@ =~= frame_400(data@));
    }
    v
}

/// Builds the server-error frame.
pub fn build_500(data: &[u8]) -> (r: Vec<u8>)
    ensures
        r@ == frame_500(data@),
{
    let mut v: Vec<u8> = Vec::new();
    v.extend_from_slice("HTTP/1.1 500 BadRequest\r\nContent-Length: ".as_bytes());
    let digits = dec_of_usize(data.len());
    v.extend_from_slice(digits.as_slice());
    v.extend_from_slice("\r\n\r\n".as_bytes());
    v.extend_from_slice(data);
    proof {
        assert(v@ =~= frame_500(data@));
    }
    v
}

/// Builds the not-found frame.
pub fn build_404() -> (r: Vec<u8>)
    ensures
        r@ == frame_404(),
{
    slice_to_vec("HTTP/1.1 404 NotFound\r\n\r\n".as_bytes())
}

/// Builds the file frame for a cached file.
pub fn build_file(file: &File) -> (r: Vec<u8>)
    ensures
        r@ == frame_file(file.0, file.1@),
{
    let mut v: Vec<u8> = Vec::new();
    v.extend_from_slice(
        "HTTP/1.1 200 OK\r\nAccess-Control-Allow-Origin: *\r\nContent-Type: ".as_bytes(),
    );
    v.extend_from_slice(file.0.to_bytes());
    v.extend_from_slice("\r\nContent-Length: ".as_bytes());
    let digits = dec_of_usize(file.1.len());
    v.extend_from_slice(digits.as_slice());
    v.extend_from_slice("\r\n\r\n".as_bytes());
    v.extend_from_slice(file.1.as_slice());
    proof {
        assert(v@ =~= frame_file(file.0, file.1@));
    }
    v
}

/// One step of the bounded read loop: appends the bytes one read returned
/// and says whether the loop is over, which it is when the read returned
/// fewer bytes than the chunk could hold, or when the configured number of
/// read iterations is now reached.
pub fn absorb_read(
    acc: &mut Vec<u8>,
    data: &[u8],
    iterations: usize,
    max_payloads: usize,
    chunk_capacity: usize,
) -> (done: bool)
    ensures
        final(acc)@ == old(acc)@ + data@,
        done == (data@.len() < chunk_capacity || iterations + 1 >= max_payloads),
{
    acc.extend_from_slice(data);
    data.len() < chunk_capacity || max_payloads == 0 || iterations >= max_payloads - 1
}

/// The map that a token-keyed entry sequence denotes.
pub open spec fn registry_model<C>(s: Seq<(usize, C)>) -> Map<usize, C>
    decreases s.len(),
{
    if s.len() == 0 {
        Map::empty()
    } else {
        registry_model(s.drop_last()).insert(s.last().0, s.last().1)
    }
}

/// No two entries share a token.
spec fn unique_tokens<C>(s: Seq<(usize, C)>) -> bool {
    forall|p: int, q: int| 0 <= p < q < s.len() ==> s[p].0 != s[q].0
}

proof fn lemma_registry_contains<C>(s: Seq<(usize, C)>, k: usize)
    ensures
        registry_model(s).contains_key(k) <==> exists|i: int| 0 <= i < s.len() && s[i].0 == k,
    decreases s.len(),
{
    if s.len() > 0 {
        lemma_registry_contains(s.drop_last(), k);
        if s.last().0 == k {
            assert(s[s.len() - 1].0 == k);
        } else {
            if registry_model(s).contains_key(k) {
                let i = choose|i: int| 0 <= i < s.drop_last().len() && s.drop_last()[i].0 == k;
                assert(s[i].0 == k);
            }
            if exists|i: int| 0 <= i < s.len() && s[i].0 == k {
                let i = choose|i: int| 0 <= i < s.len() && s[i].0 == k;
                assert(s.drop_last()[i].0 == k);
            }
        }
    }
}

proof fn lemma_registry_lookup<C>(s: Seq<(usize, C)>, i: int)
    requires
        unique_tokens(s),
        0 <= i < s.len(),
    ensures
        registry_model(s).contains_key(s[i].0),
        registry_model(s)[s[i].0] == s[i].1,
    decreases s.len(),
{
    if i < s.len() - 1 {
        assert(unique_tokens(s.drop_last()));
        lemma_registry_lookup(s.drop_last(), i);
        assert(s.drop_last()[i] == s[i]);
        assert(s[i].0 != s.last().0);
    }
}

proof fn lemma_registry_update<C>(s: Seq<(usize, C)>, i: int, k: usize, c: C)
    requires
        unique_tokens(s),
        0 <= i < s.len(),
        s[i].0 == k,
    ensures
        registry_model(s.update(i, (k, c))) == registry_model(s).insert(k, c),
    decreases s.len(),
{
    let s2 = s.update(i, (k, c));
    if i == s.len() - 1 {
        assert(s2.drop_last() =~= s.drop_last());
        assert(s2.last() == (k, c));
        assert(registry_model(s.drop_last()).insert(s.last().0, s.last().1).insert(k, c)
            =~= registry_model(s.drop_last()).insert(k, c));
    } else {
        assert(unique_tokens(s.drop_last()));
        assert(s2.drop_last() =~= s.drop_last().update(i, (k, c)));
        lemma_registry_update(s.drop_last(), i, k, c);
        assert(s2.last() == s.last());
        assert(s[i].0 != s.last().0);
        assert(registry_model(s.drop_last()).insert(k, c).insert(s.last().0, s.last().1)
            =~= registry_model(s.drop_last()).insert(s.last().0, s.last().1).insert(k, c));
    }
}

proof fn lemma_registry_push<C>(s: Seq<(usize, C)>, k: usize, c: C)
    ensures
        registry_model(s.push((k, c))) == registry_model(s).insert(k, c),
{
    assert(s.push((k, c)).drop_last() =~= s);
    assert(s.push((k, c)).last() == (k, c));
}

proof fn lemma_registry_remove<C>(s: Seq<(usize, C)>, i: int)
    requires
        unique_tokens(s),
        0 <= i < s.len(),
    ensures
        registry_model(s.remove(i)) == registry_model(s).remove(s[i].0),
    decreases s.len(),
{
    let s2 = s.remove(i);
    if i == s.len() - 1 {
        assert(s2 =~= s.drop_last());
        lemma_registry_contains(s.drop_last(), s[i].0);
        assert forall|j: int| 0 <= j < s.drop_last().len() implies s.drop_last()[j].0 != s[i].0 by {
            assert(s[j].0 != s[i].0);
        }
        assert(!registry_model(s.drop_last()).contains_key(s[i].0));
        assert(registry_model(s.drop_last()).insert(s.last().0, s.last().1).remove(s.last().0)
            =~= registry_model(s.drop_last()));
    } else {
        assert(unique_tokens(s.drop_last()));
        assert(s2.drop_last() =~= s.drop_last().remove(i));
        lemma_registry_remove(s.drop_last(), i);
        assert(s2.last() == s.last());
        assert(s[i].0 != s.last().0);
        assert(registry_model(s.drop_last()).remove(s[i].0).insert(s.last().0, s.last().1)
            =~= registry_model(s.drop_last()).insert(s.last().0, s.last().1).remove(s[i].0));
    }
}

/// The connection registry: owns the live connections, keyed by an integer
/// token. Tokens start at 1; token 0 identifies the listening socket.
pub struct Sockets<C> {
    sockets: Vec<(usize, C)>,
    settings: SocketSettings,
}

impl<C> Sockets<C> {
    /// The map from live tokens to their connections.
    pub closed spec fn tokens(self) -> Map<usize, C> {
        registry_model(self.sockets@)
    }

    /// The number of live connections.
    pub closed spec fn live_count(self) -> int {
        self.sockets@.len() as int
    }

    /// Tokens are unique among the live connections, and never 0.
    pub closed spec fn wf(self) -> bool {
        unique_tokens(self.sockets@) && forall|i: int|
            0 <= i < self.sockets@.len() ==> #[trigger] self.sockets@[i].0 >= 1
    }

    /// The configured read-iteration bound handed to each connection.
    pub closed spec fn spec_max_payloads(self) -> usize {
        self.settings.max_payloads
    }

    /// An empty registry.
    pub fn new(settings: SocketSettings) -> (r: Self)
        ensures
            r.wf(),
            r.tokens() == Map::<usize, C>::empty(),
            r.live_count() == 0,
            r.spec_max_payloads() == settings.max_payloads,
    {
        Sockets { sockets: Vec::new(), settings }
    }

    /// The number of live connections; the next assigned token is one more.
    pub fn len(&self) -> (r: usize)
        ensures
            r == self.live_count(),
    {
        self.sockets.len()
    }

    /// The configured read-iteration bound.
    pub fn max_payloads(&self) -> (r: usize)
        ensures
            r == self.spec_max_payloads(),
    {
        self.settings.max_payloads
    }

    /// Stores a connection under the next token, one past the live count,
    /// and returns that token. A connection already holding that token
    /// is overwritten.
    pub fn insert(&mut self, socket: C) -> (token: usize)
        requires
            old(self).wf(),
            old(self).live_count() < usize::MAX,
        ensures
            final(self).wf(),
            token == old(self).live_count() + 1,
            token >= 1,
            final(self).tokens() == old(self).tokens().insert(token, socket),
            final(self).spec_max_payloads() == old(self).spec_max_payloads(),
    {
        let token = self.sockets.len() + 1;
        let n = self.sockets.len();
        let mut i: usize = 0;
        while i < n
            invariant
                0 <= i <= n,
                n == self.sockets@.len(),
                self.sockets@ == old(self).sockets@,
                self.settings == old(self).settings,
                token == n + 1,
                unique_tokens(self.sockets@),
                forall|t: int|
                    0 <= t < self.sockets@.len() ==> #[trigger] self.sockets@[t].0 >= 1,
                forall|t: int| 0 <= t < i ==> self.sockets@[t].0 != token,
            decreases n - i,
        {
            if self.sockets[i].0 == token {
                let ghost s_old = self.sockets@;
                proof {
                    lemma_registry_update(s_old, i as int, token, socket);
                }
                self.sockets.set(i, (token, socket));
                proof {
                    let s2 = self.sockets@;
                    assert forall|p: int, q: int| 0 <= p < q < s2.len() implies s2[p].0
                        != s2[q].0 by {
                        assert(s2[p].0 == s_old[p].0);
                        assert(s2[q].0 == s_old[q].0);
                    }
                    assert forall|t: int| 0 <= t < s2.len() implies #[trigger] s2[t].0 >= 1 by {
                        assert(s_old[t].0 >= 1);
                    }
                }
                return token;
            }
            i = i + 1;
        }
        let ghost s_old = self.sockets@;
        proof {
            lemma_registry_push(s_old, token, socket);
        }
        self.sockets.push((token, socket));
        proof {
            let s2 = self.sockets@;
            assert forall|p: int, q: int| 0 <= p < q < s2.len() implies s2[p].0 != s2[q].0 by {
                if q < s2.len() - 1 {
                    assert(s2[p].0 == s_old[p].0);
                    assert(s2[q].0 == s_old[q].0);
                } else {
                    assert(s2[p].0 == s_old[p].0);
                }
            }
            assert forall|t: int| 0 <= t < s2.len() implies #[trigger] s2[t].0 >= 1 by {
                if t < s2.len() - 1 {
                    assert(s_old[t].0 >= 1);
                }
            }
        }
        token
    }

    /// Takes the connection with this token out of the registry, so that
    /// the token is no longer reachable; the caller tears the connection
    /// down. Absent tokens are a no-op.
    pub fn remove(&mut self, token: usize) -> (r: Option<C>)
        requires
            old(self).wf(),
        ensures
            final(self).wf(),
            final(self).tokens() == old(self).tokens().remove(token),
            final(self).spec_max_payloads() == old(self).spec_max_payloads(),
            match r {
                Some(c) => old(self).tokens().contains_key(token) && c == old(
                    self,
                ).tokens()[token],
                None => !old(self).tokens().contains_key(token),
            },
    {
        let n = self.sockets.len();
        let mut i: usize = 0;
        while i < n
            invariant
                0 <= i <= n,
                n == self.sockets@.len(),
                self.sockets@ == old(self).sockets@,
                self.settings == old(self).settings,
                unique_tokens(self.sockets@),
                forall|t: int|
                    0 <= t < self.sockets@.len() ==> #[trigger] self.sockets@[t].0 >= 1,
                forall|t: int| 0 <= t < i ==> self.sockets@[t].0 != token,
            decreases n - i,
        {
            if self.sockets[i].0 == token {
                let ghost s_old = self.sockets@;
                proof {
                    lemma_registry_remove(s_old, i as int);
                    lemma_registry_lookup(s_old, i as int);
                }
                let (_, c) = self.sockets.remove(i);
                proof {
                    let s2 = self.sockets@;
                    assert forall|p: int, q: int| 0 <= p < q < s2.len() implies s2[p].0
                        != s2[q].0 by {
                        if p < i as int {
                            assert(s2[p] == s_old[p]);
                        } else {
                            assert(s2[p] == s_old[p + 1]);
                        }
                        if q < i as int {
                            assert(s2[q] == s_old[q]);
                        } else {
                            assert(s2[q] == s_old[q + 1]);
                        }
                    }
                    assert forall|t: int| 0 <= t < s2.len() implies #[trigger] s2[t].0 >= 1 by {
                        if t < i as int {
                            assert(s2[t] == s_old[t]);
                            assert(s_old[t].0 >= 1);
                        } else {
                            assert(s2[t] == s_old[t + 1]);
                            assert(s_old[t + 1].0 >= 1);
                        }
                    }
                }
                return Some(c);
            }
            i = i + 1;
        }
        proof {
            lemma_registry_contains(self.sockets@, token);
            if registry_model(self.sockets@).contains_key(token) {
                let w = choose|t: int|
                    0 <= t < self.sockets@.len() && self.sockets@[t].0 == token;
                assert(self.sockets@[w].0 != token);
            }
            assert(registry_model(self.sockets@).remove(token) =~= registry_model(
                self.sockets@,
            ));
        }
        None
    }
}

/// After a token is removed from the registry map, it is unreachable: no
/// lookup under that former token can find a connection again.
pub proof fn lemma_removed_token_unreachable<C>(m: Map<usize, C>, token: usize)
    ensures
        !m.remove(token).contains_key(token),
{
}

} // verus!
