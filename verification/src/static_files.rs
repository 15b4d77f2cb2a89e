//! The static-file subsystem: MIME classification by file extension and the
//! in-memory cache from normalized relative paths to typed file contents.
//! The cache is a snapshot: entries are only ever added while it is built,
//! and the map it denotes does not depend on the order of the walk that
//! produced the entries.

use vstd::prelude::*;
use vstd::slice::slice_to_vec;
use vstd::string::StringSliceAdditionalSpecFns;

use crate::table::ByteTable;
use crate::util::{bytes_eq, extension_of, get_extension};

verus! {

/// The file kinds the extension table recognizes.
#[derive(Clone, Copy, PartialEq, Eq, Structural, Debug)]
pub enum FileType {
    Html,
    Text,
    Css,
    Js,
    Pdf,
    Json,
    Zip,
    Gif,
    Jpeg,
    Png,
    Svg,
    Xml,
    Mpeg,
    Mp4,
    Ico,
    Unknown,
}

/// The file type an extension denotes; the match is case-sensitive.
pub open spec fn file_type_of_ext(e: Seq<u8>) -> FileType {
    if e == "html".spec_bytes() {
        FileType::Html
    } else if e == "txt".spec_bytes() {
        FileType::Text
    } else if e == "css".spec_bytes() {
        FileType::Css
    } else if e == "js".spec_bytes() {
        FileType::Js
    } else if e == "pdf".spec_bytes() {
        FileType::Pdf
    } else if e == "json".spec_bytes() {
        FileType::Json
    } else if e == "zip".spec_bytes() {
        FileType::Zip
    } else if e == "gif".spec_bytes() {
        FileType::Gif
    } else if e == "jpg".spec_bytes() || e == "jpeg".spec_bytes() {
        FileType::Jpeg
    } else if e == "png".spec_bytes() {
        FileType::Png
    } else if e == "svg".spec_bytes() {
        FileType::Svg
    } else if e == "xml".spec_bytes() {
        FileType::Xml
    } else if e == "mpeg".spec_bytes() {
        FileType::Mpeg
    } else if e == "mp4".spec_bytes() {
        FileType::Mp4
    } else if e == "ico".spec_bytes() {
        FileType::Ico
    } else {
        FileType::Unknown
    }
}

/// The file type of a path, read off its extension.
pub open spec fn file_type_of(path: Seq<u8>) -> FileType {
    file_type_of_ext(extension_of(path))
}

/// The content-type bytes each file type maps to.
pub open spec fn mime_model(t: FileType) -> Seq<u8> {
    match t {
        FileType::Html => "text/html".spec_bytes(),
        FileType::Text => "text/plain".spec_bytes(),
        FileType::Css => "text/css".spec_bytes(),
        FileType::Js => "application/javascript".spec_bytes(),
        FileType::Pdf => "application/pdf".spec_bytes(),
        FileType::Json => "application/json".spec_bytes(),
        FileType::Zip => "application/zip".spec_bytes(),
        FileType::Gif => "image/gif".spec_bytes(),
        FileType::Jpeg => "image/jpeg".spec_bytes(),
        FileType::Png => "image/png".spec_bytes(),
        FileType::Svg => "image/svg+xml".spec_bytes(),
        FileType::Xml => "text/xml".spec_bytes(),
        FileType::Mpeg => "video/mpeg".spec_bytes(),
        FileType::Mp4 => "video/mp4".spec_bytes(),
        FileType::Ico => "image/x-icon".spec_bytes(),
        FileType::Unknown => "unknown".spec_bytes(),
    }
}

impl FileType {
    /// Classifies a file name by its extension, case-sensitively.
    pub fn get(v: &[u8]) -> (r: Self)
        ensures
            r == file_type_of(v@),
    {
        let ext = get_extension(v);
        if bytes_eq(ext, "html".as_bytes()) {
            FileType::Html
        } else if bytes_eq(ext, "txt".as_bytes()) {
            FileType::Text
        } else if bytes_eq(ext, "css".as_bytes()) {
            FileType::Css
        } else if bytes_eq(ext, "js".as_bytes()) {
            FileType::Js
        } else if bytes_eq(ext, "pdf".as_bytes()) {
            FileType::Pdf
        } else if bytes_eq(ext, "json".as_bytes()) {
            FileType::Json
        } else if bytes_eq(ext, "zip".as_bytes()) {
            FileType::Zip
        } else if bytes_eq(ext, "gif".as_bytes()) {
            FileType::Gif
        } else if bytes_eq(ext, "jpg".as_bytes()) || bytes_eq(ext, "jpeg".as_bytes()) {
            FileType::Jpeg
        } else if bytes_eq(ext, "png".as_bytes()) {
            FileType::Png
        } else if bytes_eq(ext, "svg".as_bytes()) {
            FileType::Svg
        } else if bytes_eq(ext, "xml".as_bytes()) {
            FileType::Xml
        } else if bytes_eq(ext, "mpeg".as_bytes()) {
            FileType::Mpeg
        } else if bytes_eq(ext, "mp4".as_bytes()) {
            FileType::Mp4
        } else if bytes_eq(ext, "ico".as_bytes()) {
            FileType::Ico
        } else {
            FileType::Unknown
        }
    }

    /// The content-type bytes for this file type.
    pub fn to_bytes(&self) -> (r: &'static [u8])
        ensures
            r@ == mime_model(*self),
    {
        match self {
            FileType::Html => "text/html".as_bytes(),
            FileType::Text => "text/plain".as_bytes(),
            FileType::Css => "text/css".as_bytes(),
            FileType::Js => "application/javascript".as_bytes(),
            FileType::Pdf => "application/pdf".as_bytes(),
            FileType::Json => "application/json".as_bytes(),
            FileType::Zip => "application/zip".as_bytes(),
            FileType::Gif => "image/gif".as_bytes(),
            FileType::Jpeg => "image/jpeg".as_bytes(),
            FileType::Png => "image/png".as_bytes(),
            FileType::Svg => "image/svg+xml".as_bytes(),
            FileType::Xml => "text/xml".as_bytes(),
            FileType::Mpeg => "video/mpeg".as_bytes(),
            FileType::Mp4 => "video/mp4".as_bytes(),
            FileType::Ico => "image/x-icon".as_bytes(),
            FileType::Unknown => "unknown".as_bytes(),
        }
    }
}

/// A path with every `%20` byte triplet rewritten to one space, scanning
/// left to right; no other percent-decoding is applied.
pub open spec fn decode_spaces_model(s: Seq<u8>) -> Seq<u8>
    decreases s.len(),
{
    if s.len() == 0 {
        Seq::empty()
    } else if s.len() >= 3 && s[0] == 37 && s[1] == 50 && s[2] == 48 {
        seq![32u8] + decode_spaces_model(s.skip(3))
    } else {
        seq![s[0]] + decode_spaces_model(s.skip(1))
    }
}

/// Rewrites literal `%20` sequences in a request path to real spaces
/// before the path goes to the filesystem.
pub fn decode_spaces(path: &[u8]) -> (r: Vec<u8>)
    ensures
        r@ == decode_spaces_model(path@),
{
    let len = path.len();
    let mut r: Vec<u8> = Vec::new();
    let mut i: usize = 0;
    proof {
        assert(path@.skip(0) =~= path@);
        assert(r@ + decode_spaces_model(path@) =~= decode_spaces_model(path@));
    }
    while i < len
        invariant
            0 <= i <= len,
            len == path@.len(),
            decode_spaces_model(path@) == r@ + decode_spaces_model(path@.skip(i as int)),
        decreases len - i,
    {
        let ghost r_old = r@;
        let ghost suf = path@.skip(i as int);
        if len - i >= 3 && path[i] == 37 && path[i + 1] == 50 && path[i + 2] == 48 {
            r.push(32);
            proof {
                assert(suf[0] == path@[i as int]);
                assert(suf[1] == path@[i + 1]);
                assert(suf[2] == path@[i + 2]);
                assert(suf.skip(3) =~= path@.skip(i + 3));
                assert(r@ =~= r_old + seq![32u8]);
                assert((r_old + seq![32u8]) + decode_spaces_model(path@.skip(i + 3)) =~= r_old + (
                seq![32u8] + decode_spaces_model(path@.skip(i + 3))));
            }
            i = i + 3;
        } else {
            let b = path[i];
            r.push(b);
            proof {
                assert(suf[0] == path@[i as int]);
                if suf.len() >= 3 {
                    assert(suf[1] == path@[i + 1]);
                    assert(suf[2] == path@[i + 2]);
                }
                assert(suf.skip(1) =~= path@.skip(i + 1));
                assert(r@ =~= r_old + seq![b]);
                assert((r_old + seq![b]) + decode_spaces_model(path@.skip(i + 1)) =~= r_old + (
                seq![b] + decode_spaces_model(path@.skip(i + 1))));
            }
            i = i + 1;
        }
    }
    proof {
        assert(path@.skip(len as int) =~= Seq::<u8>::empty());
        assert(r@ + decode_spaces_model(path@.skip(len as int)) =~= r@);
    }
    r
}

/// A cached file: its type and its content bytes.
pub type File = (FileType, Vec<u8>);

/// Whether a sequence of `(path, content)` entries holds distinct paths.
pub open spec fn distinct_paths(e: Seq<(Seq<u8>, Seq<u8>)>) -> bool {
    forall|p: int, q: int| 0 <= p < q < e.len() ==> e[p].0 != e[q].0
}

/// The cache that a sequence of `(path, content)` entries builds: each path
/// is bound to its classified file type and its content.
pub open spec fn built_cache(e: Seq<(Seq<u8>, Seq<u8>)>) -> Map<Seq<u8>, (FileType, Seq<u8>)>
    decreases e.len(),
{
    if e.len() == 0 {
        Map::empty()
    } else {
        built_cache(e.drop_last()).insert(
            e.last().0,
            (file_type_of(e.last().0), e.last().1),
        )
    }
}

/// A path is bound in the built cache exactly when some entry holds it.
proof fn lemma_built_contains(e: Seq<(Seq<u8>, Seq<u8>)>, k: Seq<u8>)
    ensures
        built_cache(e).contains_key(k) <==> exists|i: int| 0 <= i < e.len() && e[i].0 == k,
    decreases e.len(),
{
    if e.len() > 0 {
        lemma_built_contains(e.drop_last(), k);
        if e.last().0 == k {
            assert(e[e.len() - 1].0 == k);
        } else {
            if built_cache(e).contains_key(k) {
                let i = choose|i: int| 0 <= i < e.drop_last().len() && e.drop_last()[i].0 == k;
                assert(e[i].0 == k);
            }
            if exists|i: int| 0 <= i < e.len() && e[i].0 == k {
                let i = choose|i: int| 0 <= i < e.len() && e[i].0 == k;
                assert(e.drop_last()[i].0 == k);
            }
        }
    }
}

/// Under distinct paths, each entry gives the built cache's value at its path.
proof fn lemma_built_entry(e: Seq<(Seq<u8>, Seq<u8>)>, i: int)
    requires
        distinct_paths(e),
        0 <= i < e.len(),
    ensures
        built_cache(e).contains_key(e[i].0),
        built_cache(e)[e[i].0] == (file_type_of(e[i].0), e[i].1),
    decreases e.len(),
{
    if i < e.len() - 1 {
        assert(distinct_paths(e.drop_last()));
        lemma_built_entry(e.drop_last(), i);
        assert(e.drop_last()[i] == e[i]);
        assert(e[i].0 != e.last().0);
    }
}

/// Building the cache from the same set of `(path, content)` entries yields
/// the same map whatever order the directory walk delivered them in.
pub proof fn lemma_build_order_independent(e1: Seq<(Seq<u8>, Seq<u8>)>, e2: Seq<(Seq<u8>, Seq<u8>)>)
    requires
        e1.to_multiset() == e2.to_multiset(),
        distinct_paths(e1),
        distinct_paths(e2),
    ensures
        built_cache(e1) == built_cache(e2),
{
    broadcast use vstd::seq_lib::group_to_multiset_ensures;

    assert forall|k: Seq<u8>|
        built_cache(e1).contains_key(k) <==> built_cache(e2).contains_key(k) by {
        lemma_built_contains(e1, k);
        lemma_built_contains(e2, k);
        if exists|i: int| 0 <= i < e1.len() && e1[i].0 == k {
            let i = choose|i: int| 0 <= i < e1.len() && e1[i].0 == k;
            assert(e1.contains(e1[i]));
            assert(e1.to_multiset().count(e1[i]) > 0);
            assert(e2.to_multiset().count(e1[i]) > 0);
            assert(e2.contains(e1[i]));
            let j = choose|j: int| 0 <= j < e2.len() && e2[j] == e1[i];
            assert(e2[j].0 == k);
        }
        if exists|j: int| 0 <= j < e2.len() && e2[j].0 == k {
            let j = choose|j: int| 0 <= j < e2.len() && e2[j].0 == k;
            assert(e2.contains(e2[j]));
            assert(e2.to_multiset().count(e2[j]) > 0);
            assert(e1.to_multiset().count(e2[j]) > 0);
            assert(e1.contains(e2[j]));
            let i = choose|i: int| 0 <= i < e1.len() && e1[i] == e2[j];
            assert(e1[i].0 == k);
        }
    }
    assert forall|k: Seq<u8>| built_cache(e1).contains_key(k) implies built_cache(e1)[k]
        == built_cache(e2)[k] by {
        lemma_built_contains(e1, k);
        let i = choose|i: int| 0 <= i < e1.len() && e1[i].0 == k;
        assert(e1.contains(e1[i]));
        assert(e1.to_multiset().count(e1[i]) > 0);
        assert(e2.to_multiset().count(e1[i]) > 0);
        assert(e2.contains(e1[i]));
        let j = choose|j: int| 0 <= j < e2.len() && e2[j] == e1[i];
        lemma_built_entry(e1, i);
        lemma_built_entry(e2, j);
    }
    assert(built_cache(e1) =~= built_cache(e2));
}

/// The static-file subsystem: the root directory it serves from, and the
/// optional cache built at startup. When the cache is absent every lookup
/// falls back to an on-demand disk read by the caller.
pub struct StaticFiles {
    /// The directory that static paths are resolved against.
    pub root_path: String,
    cache: Option<ByteTable<File>>,
}

impl StaticFiles {
    /// The root directory's characters.
    pub closed spec fn spec_root(self) -> Seq<char> {
        self.root_path@
    }

    /// Whether a cache is present.
    pub closed spec fn enabled(self) -> bool {
        self.cache is Some
    }

    /// The map the cache denotes: path bytes to file type and content bytes.
    pub closed spec fn cache_model(self) -> Map<Seq<u8>, (FileType, Seq<u8>)> {
        match self.cache {
            Some(c) => Map::new(
                |k: Seq<u8>| c@.contains_key(k),
                |k: Seq<u8>| (c@[k].0, c@[k].1@),
            ),
            None => Map::empty(),
        }
    }

    /// The cache's keys are unique.
    pub closed spec fn wf(self) -> bool {
        match self.cache {
            Some(c) => c.wf(),
            None => true,
        }
    }

    /// An empty subsystem for `root_path`; a cache is present exactly when
    /// `use_cache` asks for one. The caller fills the cache with the files
    /// of one directory walk.
    pub fn new(root_path: String, use_cache: bool) -> (r: StaticFiles)
        ensures
            r.wf(),
            r.enabled() == use_cache,
            r.cache_model() == Map::<Seq<u8>, (FileType, Seq<u8>)>::empty(),
            r.spec_root() == root_path@,
    {
        let r = if use_cache {
            StaticFiles { root_path, cache: Some(ByteTable::new()) }
        } else {
            StaticFiles { root_path, cache: None }
        };
        proof {
            assert(r.cache_model() =~= Map::<Seq<u8>, (FileType, Seq<u8>)>::empty());
        }
        r
    }

    /// Adds one walked file: the path is classified by its extension and
    /// bound to its content. Without a cache nothing changes.
    pub fn add_entry(&mut self, path: Vec<u8>, content: Vec<u8>)
        requires
            old(self).wf(),
        ensures
            final(self).wf(),
            final(self).enabled() == old(self).enabled(),
            final(self).spec_root() == old(self).spec_root(),
            old(self).enabled() ==> final(self).cache_model() == old(self).cache_model().insert(
                path@,
                (file_type_of(path@), content@),
            ),
            !old(self).enabled() ==> *final(self) == *old(self),
    {
        let t = FileType::get(path.as_slice());
        let ghost old_model = self.cache_model();
        match &mut self.cache {
            Some(c) => {
                c.insert(path, (t, content));
                proof {
                    assert(self.cache_model() =~= old_model.insert(
                        path@,
                        (file_type_of(path@), content@),
                    ));
                }
            },
            None => {},
        }
    }

    /// Whether the cache is present.
    pub fn is_enabled(&self) -> (r: bool)
        ensures
            r == self.enabled(),
    {
        match &self.cache {
            Some(_) => true,
            None => false,
        }
    }

    /// Looks a path up in the cache. `Some` exactly when the cache is
    /// present and holds the path; without a cache the caller reads disk.
    pub fn get(&self, path: &[u8]) -> (r: Option<&File>)
        requires
            self.wf(),
        ensures
            match r {
                Some(f) => self.enabled() && self.cache_model().contains_key(path@) && f.0
                    == self.cache_model()[path@].0 && f.1@ == self.cache_model()[path@].1,
                None => !self.cache_model().contains_key(path@),
            },
    {
        match &self.cache {
            Some(c) => c.get(path),
            None => None,
        }
    }

    /// Builds the cached subsystem from the `(path, content)` entries of a
    /// directory walk.
    pub fn build(root_path: String, entries: &Vec<(Vec<u8>, Vec<u8>)>) -> (r: StaticFiles)
        ensures
            r.wf(),
            r.enabled(),
            r.spec_root() == root_path@,
            r.cache_model() == built_cache(
                entries@.map_values(|e: (Vec<u8>, Vec<u8>)| (e.0@, e.1@)),
            ),
    {
        let ghost all = entries@.map_values(|e: (Vec<u8>, Vec<u8>)| (e.0@, e.1@));
        let ghost rp = root_path@;
        let mut r = StaticFiles::new(root_path, true);
        let n = entries.len();
        let mut i: usize = 0;
        proof {
            assert(all.subrange(0, 0) =~= Seq::empty());
        }
        while i < n
            invariant
                0 <= i <= n,
                n == entries@.len(),
                all == entries@.map_values(|e: (Vec<u8>, Vec<u8>)| (e.0@, e.1@)),
                r.wf(),
                r.enabled(),
                r.spec_root() == rp,
                r.cache_model() == built_cache(all.subrange(0, i as int)),
            decreases n - i,
        {
            let path = slice_to_vec(entries[i].0.as_slice());
            let content = slice_to_vec(entries[i].1.as_slice());
            r.add_entry(path, content);
            proof {
                let prefix2 = all.subrange(0, i + 1);
                assert(prefix2.drop_last() =~= all.subrange(0, i as int));
                assert(prefix2.last() == (entries@[i as int].0@, entries@[i as int].1@));
            }
            i = i + 1;
        }
        proof {
            assert(all.subrange(0, n as int) =~= all);
        }
        r
    }
}

} // verus!
