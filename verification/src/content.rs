//! Content store and fetch protocol: canonical `ely://` keys over a durable
//! ordered map, the local-or-remote fetch decision, hop handling for content
//! lookups, and the table of outstanding requests.
use vstd::prelude::*;

verus! {

use vstd::utf8::{encode_utf8, valid_utf8};
use vstd::string::StringSliceAdditionalSpecFns;
use crate::error::MeshError;
use crate::routing::spec_ely_url;

/// Content lookups start with this hop budget.
pub const CONTENT_TTL: u8 = 8;

/// The durable ordered map under the store.
#[verifier::external_type_specification]
#[verifier::external_body]
pub struct ExSledDb(sled::Db);

/// What a durable map holds: its key-value pairs as byte strings.
pub uninterp spec fn db_map(db: sled::Db) -> Map<Seq<u8>, Seq<u8>>;

/// Content store backed by the durable ordered map, keyed by canonical URL.
pub struct ContentStore {
    pub db: sled::Db,
}

impl ContentStore {
    /// Relies on sled's open: the store under `<data_dir>/content.db`,
    /// holding whatever was persisted there before.
    #[verifier::external_body]
    pub fn new(data_dir: &str) -> (r: Result<ContentStore, MeshError>)
    {
        let db = sled::open(format!("{}/content.db", data_dir)).map_err(
            |e| MeshError::Storage(format!("Failed to open content store: {}", e)),
        )?;
        Ok(ContentStore { db })
    }

    /// Relies on sled's Config with temporary mode: a fresh, empty store
    /// that leaves nothing on disk.
    #[verifier::external_body]
    pub fn temporary() -> (r: Result<ContentStore, MeshError>)
    {
        let db = sled::Config::new().temporary(true).open().map_err(
            |e| MeshError::Storage(format!("Failed to open content store: {}", e)),
        )?;
        Ok(ContentStore { db })
    }

    /// Relies on sled's insert and flush: stores the value under the key.
    #[verifier::external_body]
    pub fn put(&mut self, path: &str, content: Vec<u8>) -> (r: Result<(), MeshError>)
        ensures
            r is Ok ==> db_map(final(self).db) == db_map(old(self).db).insert(
                path.spec_bytes(),
                content@,
            ),
    {
        self.db.insert(path.as_bytes(), content).map_err(
            |e| MeshError::Storage(format!("Failed to store content: {}", e)),
        )?;
        self.db.flush().map_err(
            |e| MeshError::Storage(format!("Failed to flush content store: {}", e)),
        )?;
        Ok(())
    }

    /// Relies on sled's get: the value under the key, when one is stored.
    #[verifier::external_body]
    pub fn get(&self, path: &str) -> (r: Result<Option<Vec<u8>>, MeshError>)
        ensures
            r matches Ok(Some(v)) ==> db_map(self.db).contains_key(path.spec_bytes()) && v@
                == db_map(self.db)[path.spec_bytes()],
            r matches Ok(o) && o is None ==> !db_map(self.db).contains_key(path.spec_bytes()),
    {
        match self.db.get(path.as_bytes()) {
            Ok(Some(value)) => Ok(Some(value.to_vec())),
            Ok(None) => Ok(None),
            Err(e) => Err(MeshError::Storage(format!("Failed to fetch content: {}", e))),
        }
    }

    /// Relies on sled's remove: afterwards nothing is stored under the key.
    #[verifier::external_body]
    pub fn delete(&mut self, path: &str) -> (r: Result<(), MeshError>)
        ensures
            r is Ok ==> db_map(final(self).db) == db_map(old(self).db).remove(path.spec_bytes()),
    {
        self.db.remove(path.as_bytes()).map_err(
            |e| MeshError::Storage(format!("Failed to delete content: {}", e)),
        )?;
        Ok(())
    }

    /// Relies on sled's iter and scan_prefix: every returned path is a
    /// stored key with the asked-for byte prefix, each returned exactly
    /// once, and every stored UTF-8 key with that prefix is returned.
    #[verifier::external_body]
    pub fn list(&self, prefix: Option<&str>) -> (r: Result<Vec<String>, MeshError>)
        ensures
            r matches Ok(l) ==> forall|i: int| 0 <= i < l@.len() ==> db_map(
                self.db,
            ).contains_key(encode_utf8((#[trigger] l@[i])@)),
            r matches Ok(l) ==> (match prefix {
                Some(p) => forall|i: int| 0 <= i < l@.len() ==> {
                    let kb = encode_utf8((#[trigger] l@[i])@);
                    kb.len() >= p.spec_bytes().len() && kb.subrange(0, p.spec_bytes().len() as int)
                        == p.spec_bytes()
                },
                None => true,
            }),
            r matches Ok(l) ==> forall|i: int, j: int| 0 <= i < j < l@.len() ==> (
            #[trigger] l@[i])@ != (#[trigger] l@[j])@,
            r matches Ok(l) ==> forall|key: Seq<u8>| #[trigger] db_map(self.db).contains_key(key)
                && valid_utf8(key) && (match prefix {
                Some(p) => key.len() >= p.spec_bytes().len() && key.subrange(
                    0,
                    p.spec_bytes().len() as int,
                ) == p.spec_bytes(),
                None => true,
            }) ==> exists|i: int| 0 <= i < l@.len() && encode_utf8((#[trigger] l@[i])@) == key,
    {
        let iter = if let Some(p) = prefix {
            self.db.scan_prefix(p.as_bytes())
        } else {
            self.db.iter()
        };
        let mut paths = Vec::new();
        for entry in iter {
            let (key, _) = entry.map_err(
                |e| MeshError::Storage(format!("Failed to list content: {}", e)),
            )?;
            if let Ok(path) = String::from_utf8(key.to_vec()) {
                paths.push(path);
            }
        }
        Ok(paths)
    }

    /// Relies on sled's len: the number of stored pairs.
    #[verifier::external_body]
    pub fn count(&self) -> (r: Result<usize, MeshError>)
        ensures
            r matches Ok(n) ==> n == db_map(self.db).dom().len(),
    {
        Ok(self.db.len())
    }

    /// Relies on sled's size_on_disk: the approximate stored size.
    #[verifier::external_body]
    pub fn size_bytes(&self) -> (r: Result<u64, MeshError>)
    {
        self.db.size_on_disk().map_err(
            |e| MeshError::Storage(format!("Failed to get store size: {}", e)),
        )
    }
}

// ---------------------------------------------------------------------------
// canonical URLs and the fetch decision
// ---------------------------------------------------------------------------

/// The canonical key for content published by a node: `ely://<id>/<path>`.
pub open spec fn spec_content_url(node_id: Seq<char>, path: Seq<char>) -> Seq<char> {
    spec_ely_url(node_id) + "/"@ + path
}

/// Build the canonical URL for content published by a node.
pub fn publish_url(node_id: &str, path: &str) -> (r: String)
    ensures
        r@ == spec_content_url(node_id@, path@),
{
    String::from_str("ely://").concat(node_id).concat("/").concat(path)
}

/// Whether `s` begins with `p`.
pub fn str_starts_with(s: &str, p: &str) -> (r: bool)
    ensures
        r == (s@.len() >= p@.len() && s@.subrange(0, p@.len() as int) == p@),
{
    let sn = s.unicode_len();
    let pn = p.unicode_len();
    if sn < pn {
        return false;
    }
    let mut k: usize = 0;
    while k < pn
        invariant
            k <= pn,
            pn <= sn,
            sn == s@.len(),
            pn == p@.len(),
            forall|m: int| 0 <= m < k ==> s@[m] == p@[m],
        decreases pn - k,
    {
        if s.get_char(k) != p.get_char(k) {
            proof {
                if s@.subrange(0, pn as int) == p@ {
                    assert(s@.subrange(0, pn as int)[k as int] == s@[k as int]);
                }
            }
            return false;
        }
        k = k + 1;
    }
    proof {
        assert(s@.subrange(0, pn as int) =~= p@);
    }
    true
}

/// A fetch is answered locally exactly when the URL names this node:
/// it begins with `ely://<self>/`.
pub open spec fn spec_is_local_url(url: Seq<char>, self_id: Seq<char>) -> bool {
    let prefix = spec_ely_url(self_id) + "/"@;
    url.len() >= prefix.len() && url.subrange(0, prefix.len() as int) == prefix
}

/// How a fetch proceeds: from the local store, or over the mesh.
#[derive(Debug, Clone, PartialEq, Eq)]
pub enum FetchPlan {
    /// The URL names this node: answer from the local store, with no
    /// network traffic.
    Local,
    /// The URL names another node: ask the mesh with a fresh hop-limited
    /// lookup.
    Remote,
}

/// Decide how to fetch a URL: locally exactly when it names this node.
pub fn plan_fetch(self_id: &str, url: &str) -> (r: FetchPlan)
    ensures
        r is Local <==> spec_is_local_url(url@, self_id@),
{
    let prefix = String::from_str("ely://").concat(self_id).concat("/");
    if str_starts_with(url, prefix.as_str()) {
        FetchPlan::Local
    } else {
        FetchPlan::Remote
    }
}

/// Fetch content the node itself published: a pure local lookup, never any
/// network traffic, allowed exactly for URLs that name this node.
pub fn fetch_content_local(store: &ContentStore, self_id: &str, url: &str) -> (r: Result<
    Option<Vec<u8>>,
    MeshError,
>)
    requires
        spec_is_local_url(url@, self_id@),
    ensures
        r matches Ok(Some(v)) ==> db_map(store.db).contains_key(url.spec_bytes()) && v@ == db_map(
            store.db,
        )[url.spec_bytes()],
        r matches Ok(o) && o is None ==> !db_map(store.db).contains_key(url.spec_bytes()),
{
    store.get(url)
}

// ---------------------------------------------------------------------------
// hop handling for content lookups
// ---------------------------------------------------------------------------

/// What a node does with an arriving content lookup.
#[derive(Debug, Clone, PartialEq, Eq)]
pub enum ContentHopAction {
    /// The URL names this node: look it up and answer on the same link.
    RespondLocal,
    /// Forward to every other peer with one hop less and this node on the
    /// path.
    Forward,
    /// Out of hops, or this node already forwarded it: drop.
    Drop,
}

/// Decide a hop's handling of a content lookup: answer when the URL names
/// this node; otherwise forward while hops remain and this node is not on
/// the path; otherwise drop.
pub fn content_request_action(self_id: &str, url: &str, ttl: u8, path: &Vec<String>) -> (r:
    ContentHopAction)
    ensures
        spec_is_local_url(url@, self_id@) ==> r is RespondLocal,
        !spec_is_local_url(url@, self_id@) && ttl > 0 && !path.deep_view().contains(self_id@)
            ==> r is Forward,
        !spec_is_local_url(url@, self_id@) && (ttl == 0 || path.deep_view().contains(self_id@))
            ==> r is Drop,
{
    let prefix = String::from_str("ely://").concat(self_id).concat("/");
    if str_starts_with(url, prefix.as_str()) {
        return ContentHopAction::RespondLocal;
    }
    if ttl == 0 {
        return ContentHopAction::Drop;
    }
    let me: String = self_id.to_owned();
    let mut p: usize = 0;
    while p < path.len()
        invariant
            p <= path@.len(),
            me@ == self_id@,
            !spec_is_local_url(url@, self_id@),
            ttl > 0,
            path.deep_view().len() == path@.len(),
            forall|m: int| 0 <= m < path@.len() ==> path.deep_view()[m] == path@[m]@,
            forall|m: int| 0 <= m < p ==> path.deep_view()[m] != self_id@,
        decreases path@.len() - p,
    {
        let hit = path[p] == me;
        if hit {
            proof {
                assert(path.deep_view().contains(self_id@)) by {
                    assert(path.deep_view()[p as int] == self_id@);
                }
            }
            return ContentHopAction::Drop;
        }
        p = p + 1;
    }
    proof {
        if path.deep_view().contains(self_id@) {
            let w = choose|w: int| 0 <= w < path.deep_view().len() && path.deep_view()[w]
                == self_id@;
            assert(false);
        }
    }
    ContentHopAction::Forward
}

// ---------------------------------------------------------------------------
// outstanding content requests
// ---------------------------------------------------------------------------

/// The content lookups this node is waiting on, by request id.
pub struct PendingContent {
    /// Outstanding request ids; unique.
    pub ids: Vec<String>,
}

impl PendingContent {
    /// Request ids in the table are unique.
    pub open spec fn wf(&self) -> bool {
        forall|i: int, j: int| 0 <= i < j < self.ids@.len() ==> (#[trigger] self.ids@[i])@ != (
        #[trigger] self.ids@[j])@
    }

    /// An empty table.
    pub fn new() -> (r: PendingContent)
        ensures
            r.wf(),
            r.ids@.len() == 0,
    {
        PendingContent { ids: Vec::new() }
    }

    /// Register a fresh outstanding request.
    pub fn register(&mut self, request_id: String)
        requires
            old(self).wf(),
            !old(self).ids.deep_view().contains(request_id@),
        ensures
            final(self).wf(),
            final(self).ids.deep_view() == old(self).ids.deep_view().push(request_id@),
    {
        let ghost prev = self.ids.deep_view();
        self.ids.push(request_id);
        proof {
            assert(self.ids.deep_view() =~= prev.push(self.ids@.last()@));
            assert forall|i: int, j: int| 0 <= i < j < self.ids@.len() implies (
            #[trigger] self.ids@[i])@ != (#[trigger] self.ids@[j])@ by {
                if j == self.ids@.len() - 1 {
                    assert(prev[i] == self.ids@[i]@);
                    assert(!prev.contains(self.ids@[j]@));
                }
            }
        }
    }

    /// Take an outstanding request out of the table. True exactly when it
    /// was outstanding; afterwards it is not, and an unsolicited or late
    /// answer with an unknown id finds nothing to take.
    pub fn take(&mut self, request_id: &str) -> (r: bool)
        requires
            old(self).wf(),
        ensures
            final(self).wf(),
            r == old(self).ids.deep_view().contains(request_id@),
            !final(self).ids.deep_view().contains(request_id@),
            forall|id: Seq<char>| id != request_id@ ==> #[trigger] final(self).ids.deep_view()
                .contains(id) == old(self).ids.deep_view().contains(id),
    {
        let mid: String = request_id.to_owned();
        let mut kept: Vec<String> = Vec::new();
        let mut found = false;
        let n = self.ids.len();
        let mut k: usize = 0;
        while k < n
            invariant
                k <= n,
                n == self.ids@.len(),
                old(self) == self,
                self.wf(),
                mid@ == request_id@,
                found == exists|i: int| 0 <= i < k && (#[trigger] self.ids.deep_view()[i])
                    == request_id@,
                self.ids.deep_view().len() == n,
                forall|m: int| 0 <= m < n ==> self.ids.deep_view()[m] == self.ids@[m]@,
                !kept.deep_view().contains(request_id@),
                forall|i: int, j: int| 0 <= i < j < kept@.len() ==> (#[trigger] kept@[i])@ != (
                #[trigger] kept@[j])@,
                forall|id: Seq<char>| id != request_id@ ==> #[trigger] kept.deep_view().contains(
                    id,
                ) == spec_prefix_contains(self.ids.deep_view(), k as int, id),
            decreases n - k,
        {
            let hit = self.ids[k] == mid;
            let ghost dv = self.ids.deep_view();
            if hit {
                found = true;
                proof {
                    assert(dv[k as int] == request_id@);
                    assert forall|id: Seq<char>| id != request_id@ implies
                        spec_prefix_contains(dv, k + 1, id) == spec_prefix_contains(
                        dv,
                        k as int,
                        id,
                    ) by {
                        if spec_prefix_contains(dv, k + 1, id) && !spec_prefix_contains(
                            dv,
                            k as int,
                            id,
                        ) {
                            let w = choose|w: int| 0 <= w < k + 1 && dv[w] == id;
                            assert(w == k);
                            assert(false);
                        }
                    }
                }
            } else {
                let ghost prevk = kept.deep_view();
                kept.push(self.ids[k].clone());
                proof {
                    assert(kept.deep_view() =~= prevk.push(dv[k as int]));
                    assert(!prevk.contains(dv[k as int])) by {
                        if prevk.contains(dv[k as int]) {
                            assert(spec_prefix_contains(dv, k as int, dv[k as int]));
                            let w = choose|w: int| 0 <= w < k && dv[w] == dv[k as int];
                            assert(self.ids@[w]@ == self.ids@[k as int]@);
                            assert(false);
                        }
                    }
                    assert forall|i: int, j: int| 0 <= i < j < kept@.len() implies (
                    #[trigger] kept@[i])@ != (#[trigger] kept@[j])@ by {
                        if j == kept@.len() - 1 {
                            assert(kept.deep_view()[i] == prevk[i]);
                            assert(prevk.contains(kept.deep_view()[i]));
                        }
                    }
                    assert forall|id: Seq<char>| id != request_id@ implies
                        #[trigger] kept.deep_view().contains(id) == spec_prefix_contains(
                        dv,
                        k + 1,
                        id,
                    ) by {
                        if kept.deep_view().contains(id) {
                            let w = choose|w: int| 0 <= w < kept.deep_view().len()
                                && kept.deep_view()[w] == id;
                            if w < prevk.len() {
                                assert(prevk.contains(id));
                                assert(spec_prefix_contains(dv, k as int, id));
                                let v = choose|v: int| 0 <= v < k && dv[v] == id;
                                assert(spec_prefix_contains(dv, k + 1, id)) by {
                                    assert(0 <= v < k + 1 && dv[v] == id);
                                }
                            } else {
                                assert(kept.deep_view()[w] == dv[k as int]);
                                assert(spec_prefix_contains(dv, k + 1, id)) by {
                                    assert(dv[k as int] == id);
                                }
                            }
                        }
                        if spec_prefix_contains(dv, k + 1, id) {
                            let w = choose|w: int| 0 <= w < k + 1 && dv[w] == id;
                            if w < k {
                                assert(spec_prefix_contains(dv, k as int, id));
                                assert(prevk.contains(id));
                                let v = choose|v: int| 0 <= v < prevk.len() && prevk[v] == id;
                                assert(kept.deep_view()[v] == id);
                                assert(kept.deep_view().contains(id));
                            } else {
                                assert(kept.deep_view().last() == id);
                                assert(kept.deep_view().contains(id));
                            }
                        }
                    }
                }
            }
            k = k + 1;
        }
        proof {
            let ghost dv = self.ids.deep_view();
            assert forall|id: Seq<char>| true implies spec_prefix_contains(dv, n as int, id)
                == dv.contains(id) by {
                if spec_prefix_contains(dv, n as int, id) {
                    let w = choose|w: int| 0 <= w < n && dv[w] == id;
                    assert(dv.contains(id));
                }
                if dv.contains(id) {
                    let w = choose|w: int| 0 <= w < dv.len() && dv[w] == id;
                    assert(spec_prefix_contains(dv, n as int, id)) by {
                        assert(0 <= w < n && dv[w] == id);
                    }
                }
            }
            if found {
                let w = choose|i: int| 0 <= i < n && (#[trigger] self.ids.deep_view()[i])
                    == request_id@;
                assert(self.ids.deep_view().contains(request_id@));
            } else {
                if self.ids.deep_view().contains(request_id@) {
                    let w = choose|w: int| 0 <= w < dv.len() && dv[w] == request_id@;
                    assert(false);
                }
            }
        }
        self.ids = kept;
        found
    }
}

/// Whether `id` occurs among the first `k` entries.
pub open spec fn spec_prefix_contains(s: Seq<Seq<char>>, k: int, id: Seq<char>) -> bool {
    exists|i: int| 0 <= i < k && #[trigger] s[i] == id
}

// ---------------------------------------------------------------------------
// content types for the gateway
// ---------------------------------------------------------------------------

/// Whether `s` ends with `p`.
pub fn str_ends_with(s: &str, p: &str) -> (r: bool)
    ensures
        r == (s@.len() >= p@.len() && s@.subrange(
            s@.len() - p@.len(),
            s@.len() as int,
        ) == p@),
{
    let sn = s.unicode_len();
    let pn = p.unicode_len();
    if sn < pn {
        return false;
    }
    let off: usize = sn - pn;
    let mut k: usize = 0;
    while k < pn
        invariant
            k <= pn,
            pn <= sn,
            sn == s@.len(),
            pn == p@.len(),
            off == sn - pn,
            forall|m: int| 0 <= m < k ==> s@[off + m] == p@[m],
        decreases pn - k,
    {
        if s.get_char(off + k) != p.get_char(k) {
            proof {
                if s@.subrange(sn - pn, sn as int) == p@ {
                    assert(s@.subrange(sn - pn, sn as int)[k as int] == s@[off + k]);
                }
            }
            return false;
        }
        k = k + 1;
    }
    proof {
        assert(s@.subrange(sn - pn, sn as int) =~= p@);
    }
    true
}

/// Pick a content type from the URL's extension, falling back to sniffing
/// the first bytes.
pub fn detect_content_type(url: &str, content: &[u8]) -> (r: &'static str)
{
    if str_ends_with(url, ".html") || str_ends_with(url, "/") {
        "text/html; charset=utf-8"
    } else if str_ends_with(url, ".css") {
        "text/css; charset=utf-8"
    } else if str_ends_with(url, ".js") {
        "application/javascript; charset=utf-8"
    } else if str_ends_with(url, ".json") {
        "application/json; charset=utf-8"
    } else if str_ends_with(url, ".png") {
        "image/png"
    } else if str_ends_with(url, ".jpg") || str_ends_with(url, ".jpeg") {
        "image/jpeg"
    } else if str_ends_with(url, ".svg") {
        "image/svg+xml"
    } else if content.len() >= 5 && content[0] == 60 && content[1] == 104 && content[2] == 116
        && content[3] == 109 && content[4] == 108 {
        "text/html; charset=utf-8"
    } else if content.len() >= 2 && content[0] == 60 && content[1] == 33 {
        "text/html; charset=utf-8"
    } else if content.len() > 0 && (content[0] == 123 || content[0] == 91) {
        "application/json; charset=utf-8"
    } else {
        "text/plain; charset=utf-8"
    }
}

} // verus!
