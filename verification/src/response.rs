//! Views of a raw request payload that handlers read: the last line of the
//! payload, and the value of a line introduced by the `Body` token, each
//! optionally split into pipe-delimited fields. Fields are produced in
//! right-to-left scan order relative to their position in the source line.

use vstd::prelude::*;
use vstd::slice::slice_to_vec;

use crate::util::{rscan, fscan, lemma_rscan_found, lemma_rscan_none};

verus! {

/// The ASCII line-feed byte.
pub const U8_NL: u8 = 10;
/// The ASCII pipe byte that delimits fields.
pub const U8_PIPE: u8 = 124;

/// The suffix of `s` after its last line feed; all of `s` when none occurs.
pub open spec fn last_line(s: Seq<u8>) -> Seq<u8> {
    s.subrange(rscan(s, s.len() - 1, U8_NL) + 1, s.len() as int)
}

/// The pipe-delimited fields of `s`, rightmost field first.
pub open spec fn fields_rl(s: Seq<u8>) -> Seq<Seq<u8>>
    decreases s.len(),
{
    let p = rscan(s, s.len() - 1, U8_PIPE);
    if p < 0 || p >= s.len() {
        seq![s]
    } else {
        seq![s.subrange(p + 1, s.len() as int)] + fields_rl(s.subrange(0, p))
    }
}

/// Position of the last `Body` token that starts at an index from 1 up to
/// `i`, with all four token bytes inside `s`; `-1` when there is none.
pub open spec fn body_token_pos(s: Seq<u8>, i: int) -> int
    decreases i + 1,
{
    if i <= 0 {
        -1
    } else if i + 4 <= s.len() && s[i] == 66 && s[i + 1] == 111 && s[i + 2] == 100 && s[i + 3]
        == 121 {
        i
    } else {
        body_token_pos(s, i - 1)
    }
}

/// Whether the payload holds a `Body` token that the backward scan finds.
pub open spec fn has_body_token(s: Seq<u8>) -> bool {
    s.len() >= 2 && body_token_pos(s, s.len() - 2) >= 0
}

/// The value of the `Body` header: the bytes from six past the token up to
/// one before the next line feed (dropping the carriage return). Empty when
/// no token is found or no line feed terminates the value.
pub open spec fn header_body_value(s: Seq<u8>) -> Seq<u8> {
    if !has_body_token(s) {
        Seq::empty()
    } else {
        let start = body_token_pos(s, s.len() - 2) + 6;
        let j = fscan(s, start, U8_NL);
        if start < j < s.len() {
            s.subrange(start, j - 1)
        } else {
            Seq::empty()
        }
    }
}

/// The fields of the last line of `s`; empty for an empty payload.
pub open spec fn body_fields(s: Seq<u8>) -> Seq<Seq<u8>> {
    if s.len() == 0 {
        Seq::empty()
    } else {
        fields_rl(last_line(s))
    }
}

/// The fields of the `Body` header value; empty when no token is found.
pub open spec fn header_body_fields(s: Seq<u8>) -> Seq<Seq<u8>> {
    if has_body_token(s) {
        fields_rl(header_body_value(s))
    } else {
        Seq::empty()
    }
}

/// Payload views a handler may derive from a raw request.
pub trait Response {
    /// The raw bytes of the payload.
    spec fn bytes(&self) -> Seq<u8>;

    /// The last line of the payload.
    fn get_body(&self) -> (r: &[u8])
        ensures
            r@ == last_line(self.bytes()),
    ;

    /// The pipe-delimited fields of the last line, rightmost first.
    fn get_body_formated(&self) -> (r: Vec<Vec<u8>>)
        ensures
            r.deep_view() == body_fields(self.bytes()),
    ;

    /// The value of the `Body` header line.
    fn get_header_body(&self) -> (r: &[u8])
        ensures
            r@ == header_body_value(self.bytes()),
    ;

    /// The pipe-delimited fields of the `Body` header value, rightmost first.
    fn get_header_body_formated(&self) -> (r: Vec<Vec<u8>>)
        ensures
            r.deep_view() == header_body_fields(self.bytes()),
    ;
}

/// Finds the start of the last line of `data`.
fn scan_last_line(data: &[u8]) -> (r: &[u8])
    ensures
        r@ == last_line(data@),
{
    let len = data.len();
    let mut i = len;
    while i > 0 && data[i - 1] != U8_NL
        invariant
            0 <= i <= len,
            len == data@.len(),
            rscan(data@, len - 1, U8_NL) == rscan(data@, i - 1, U8_NL),
        decreases i,
    {
        i = i - 1;
    }
    if i == 0 {
        assert(rscan(data@, len - 1, U8_NL) == -1);
    } else {
        assert(rscan(data@, len - 1, U8_NL) == i - 1);
    }
    &data[i..len]
}

/// Splits `line` at pipe bytes, pushing fields from right to left.
fn split_fields(line: &[u8]) -> (r: Vec<Vec<u8>>)
    ensures
        r.deep_view() == fields_rl(line@),
{
    let len = line.len();
    let mut res: Vec<Vec<u8>> = Vec::new();
    let mut j = len;
    let mut i = len;
    proof {
        assert(line@.subrange(0, len as int) =~= line@);
        assert(res.deep_view() =~= Seq::<Seq<u8>>::empty());
        assert(res.deep_view() + fields_rl(line@) =~= fields_rl(line@));
    }
    while i > 0
        invariant
            0 <= i <= j <= len,
            len == line@.len(),
            forall|t: int| i <= t < j ==> line@[t] != U8_PIPE,
            fields_rl(line@) == res.deep_view() + fields_rl(line@.subrange(0, j as int)),
        decreases i,
    {
        if line[i - 1] == U8_PIPE {
            let field = slice_to_vec(&line[i..j]);
            proof {
                let prefix = line@.subrange(0, j as int);
                lemma_rscan_found(prefix, j - 1, i - 1, U8_PIPE);
                assert(prefix.subrange(i as int, j as int) =~= line@.subrange(i as int, j as int));
                assert(prefix.subrange(0, i - 1) =~= line@.subrange(0, i - 1));
                assert(fields_rl(prefix) == seq![field@] + fields_rl(line@.subrange(0, i - 1)));
            }
            let ghost old_res = res;
            res.push(field);
            proof {
                assert(res.deep_view() =~~= old_res.deep_view().push(field@));
                assert(old_res.deep_view().push(field@) =~= old_res.deep_view() + seq![field@]);
                assert((old_res.deep_view() + seq![field@]) + fields_rl(line@.subrange(0, i - 1))
                    =~= old_res.deep_view() + (seq![field@] + fields_rl(line@.subrange(0, i - 1))));
            }
            j = i - 1;
        }
        i = i - 1;
    }
    let field = slice_to_vec(&line[0..j]);
    proof {
        let prefix = line@.subrange(0, j as int);
        if j > 0 {
            lemma_rscan_none(prefix, j - 1, U8_PIPE);
        }
        assert(rscan(prefix, prefix.len() - 1, U8_PIPE) == -1);
        assert(fields_rl(prefix) == seq![prefix]);
    }
    let ghost old_res = res;
    res.push(field);
    proof {
        assert(res.deep_view() =~~= old_res.deep_view().push(field@));
        assert(old_res.deep_view().push(field@) =~= old_res.deep_view() + seq![field@]);
        assert(res.deep_view() == fields_rl(line@));
    }
    res
}

/// Locates the `Body` header value in `data`; the flag says whether the
/// token was found.
fn scan_header_value(data: &[u8]) -> (r: (bool, &[u8]))
    ensures
        r.0 == has_body_token(data@),
        r.1@ == header_body_value(data@),
{
    let len = data.len();
    if len < 2 {
        return (false, &data[0..0]);
    }
    let mut i = len - 2;
    while i > 0
        invariant
            0 <= i <= len - 2,
            len == data@.len(),
            body_token_pos(data@, len - 2) == body_token_pos(data@, i as int),
        decreases i,
    {
        if len - i >= 4 && data[i] == 66 && data[i + 1] == 111 && data[i + 2] == 100 && data[i + 3]
            == 121 {
            assert(body_token_pos(data@, i as int) == i);
            if len - i < 6 {
                return (true, &data[0..0]);
            }
            let start = i + 6;
            let mut j = start;
            while j < len && data[j] != U8_NL
                invariant
                    start <= j <= len,
                    len == data@.len(),
                    fscan(data@, start as int, U8_NL) == fscan(data@, j as int, U8_NL),
                decreases len - j,
            {
                j = j + 1;
            }
            if j == len {
                assert(fscan(data@, start as int, U8_NL) == len);
                return (true, &data[0..0]);
            }
            assert(fscan(data@, start as int, U8_NL) == j);
            if j == start {
                return (true, &data[0..0]);
            }
            return (true, &data[start..j - 1]);
        }
        proof {
            assert(body_token_pos(data@, i as int) == body_token_pos(data@, i - 1));
        }
        i = i - 1;
    }
    assert(body_token_pos(data@, len - 2) == -1);
    (false, &data[0..0])
}

impl Response for Vec<u8> {
    open spec fn bytes(&self) -> Seq<u8> {
        self@
    }

    fn get_body(&self) -> (r: &[u8]) {
        scan_last_line(self.as_slice())
    }

    fn get_body_formated(&self) -> (r: Vec<Vec<u8>>) {
        if self.len() == 0 {
            let empty: Vec<Vec<u8>> = Vec::new();
            assert(empty.deep_view() =~= body_fields(self@));
            return empty;
        }
        let line = scan_last_line(self.as_slice());
        split_fields(line)
    }

    fn get_header_body(&self) -> (r: &[u8]) {
        let (_, value) = scan_header_value(self.as_slice());
        value
    }

    fn get_header_body_formated(&self) -> (r: Vec<Vec<u8>>) {
        let (found, value) = scan_header_value(self.as_slice());
        if found {
            split_fields(value)
        } else {
            let empty: Vec<Vec<u8>> = Vec::new();
            assert(empty.deep_view() =~= header_body_fields(self@));
            empty
        }
    }
}

} // verus!
