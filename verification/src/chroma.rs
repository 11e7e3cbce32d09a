//! Addresses, headers and answers of the database's HTTP interface.
use vstd::prelude::*;
use vstd::utf8::*;

use crate::store::{Meta, MetaView};
use crate::{store, text};

verus! {

broadcast use group_utf8_lib;

// ---------------------------------------------------------------------------
// Addresses
// ---------------------------------------------------------------------------

/// The address of the interface on a host.
pub open spec fn base_of(host: Seq<char>, port: nat, ssl: bool) -> Seq<char> {
    (if ssl {
        "https"@
    } else {
        "http"@
    }) + "://"@ + host + ":"@ + text::decimal(port) + "/api/v2"@
}

/// The address of the interface on a host.
pub fn base_url(host: &str, port: u16, ssl: bool) -> (r: String)
    ensures
        r@ == base_of(host@, port as nat, ssl),
{
    let mut s = if ssl {
        "https".to_string()
    } else {
        "http".to_string()
    };
    s.append("://");
    s.append(host);
    s.append(":");
    s.append(text::decimal_text(port as u64).as_str());
    s.append("/api/v2");
    s
}

/// The address of the collections below the address `base`.
pub open spec fn collections_of(base: Seq<char>) -> Seq<char> {
    base + "/tenants/default_tenant/databases/default_database/collections"@
}

/// The address of the collections below the address `base`.
pub fn collections_path(base: &str) -> (r: String)
    ensures
        r@ == collections_of(base@),
{
    let mut s = base.to_string();
    s.append("/tenants/default_tenant/databases/default_database/collections");
    s
}

/// The address `part` below the address `base`.
pub open spec fn below(base: Seq<char>, part: Seq<char>) -> Seq<char> {
    base + "/"@ + part
}

fn address_below(base: &str, part: &str) -> (r: String)
    ensures
        r@ == below(base@, part@),
{
    let mut s = base.to_string();
    s.append("/");
    s.append(part);
    s
}

// ---------------------------------------------------------------------------
// Authorization
// ---------------------------------------------------------------------------

/// Whether a byte may stand in the value of a header.
pub open spec fn header_byte(b: u8) -> bool {
    b >= 32 && b != 127 || b == 9
}

/// Whether a text may be the value of a header.
pub open spec fn header_text(s: Seq<char>) -> bool {
    forall|i: int| 0 <= i < encode_utf8(s).len() ==> header_byte(#[trigger] encode_utf8(s)[i])
}

/// `reqwest::header::HeaderValue::from_str`, which is that of the http crate: it takes
/// a text whose bytes are all printable or tabs (128 and above count as printable) and
/// keeps its bytes, and it refuses any other.
#[verifier::external_body]
fn header_value(s: &str) -> (r: Option<Vec<u8>>)
    ensures
        match r {
            Some(v) => header_text(s@) && v@ == encode_utf8(s@),
            None => !header_text(s@),
        },
{
    match reqwest::header::HeaderValue::from_str(s) {
        Ok(v) => Some(v.as_bytes().to_vec()),
        Err(_) => None,
    }
}

/// What the authorization header holds for a token.
pub open spec fn bearer(token: Seq<char>) -> Seq<char> {
    "Bearer "@ + text::trimmed(token)
}

/// The bytes of the authorization header for a token: `None` where the token is
/// blank, or holds what no header may hold.
pub fn auth_header_value(token: &str) -> (r: Option<Vec<u8>>)
    ensures
        match r {
            Some(v) => {
                &&& text::trimmed(token@).len() > 0
                &&& header_text(bearer(token@))
                &&& v@ == encode_utf8(bearer(token@))
            },
            None => text::trimmed(token@).len() == 0 || !header_text(bearer(token@)),
        },
{
    let token = text::trim(token);
    if token.as_str().is_empty() {
        return None;
    }
    let mut s = "Bearer ".to_string();
    s.append(token.as_str());
    header_value(s.as_str())
}

// ---------------------------------------------------------------------------
// The store
// ---------------------------------------------------------------------------

/// Why a request cannot be made.
#[derive(Debug, Clone, Copy, PartialEq, Eq, Structural)]
pub enum StoreError {
    /// No collection is selected.
    NoCollection,
    /// The collection of manifests is not opened.
    NoManifests,
}

impl StoreError {
    /// The error in words.
    pub fn message(&self) -> (r: String)
        ensures
            r@ == match *self {
                StoreError::NoCollection => "no collection selected — call get_or_create first"@,
                StoreError::NoManifests => "manifest collection not opened"@,
            },
    {
        match self {
            StoreError::NoCollection => {
                "no collection selected — call get_or_create first".to_string()
            },
            StoreError::NoManifests => "manifest collection not opened".to_string(),
        }
    }
}

/// A database, and the collection in it that requests are for.
#[derive(Debug)]
pub struct HttpStore {
    base: String,
    collection_id: Option<String>,
}

impl HttpStore {
    /// The address of the database.
    pub closed spec fn base(self) -> Seq<char> {
        self.base@
    }

    /// The id of the collection that is selected.
    pub closed spec fn collection(self) -> Option<Seq<char>> {
        match self.collection_id {
            Some(id) => Some(id@),
            None => None,
        }
    }

    /// The database on a host, no collection selected.
    pub fn new(host: &str, port: u16, ssl: bool) -> (r: HttpStore)
        ensures
            r.base() == base_of(host@, port as nat, ssl),
            r.collection() is None,
    {
        HttpStore { base: base_url(host, port, ssl), collection_id: None }
    }

    /// Selects the collection with the id.
    pub fn select(&mut self, id: String)
        ensures
            final(self).base() == old(self).base(),
            final(self).collection() == Some(id@),
    {
        self.collection_id = Some(id);
    }

    /// Selects no collection.
    pub fn clear(&mut self)
        ensures
            final(self).base() == old(self).base(),
            final(self).collection() is None,
    {
        self.collection_id = None;
    }

    /// The id of the collection that is selected.
    pub fn col_id(&self) -> (r: Result<&str, StoreError>)
        ensures
            match r {
                Ok(id) => self.collection() == Some(id@),
                Err(e) => self.collection() is None && e == StoreError::NoCollection,
            },
    {
        match &self.collection_id {
            Some(id) => Ok(id.as_str()),
            None => Err(StoreError::NoCollection),
        }
    }

    /// The address of the collection that is selected.
    pub fn col_url(&self) -> (r: Result<String, StoreError>)
        ensures
            match r {
                Ok(url) => self.collection() is Some && url@ == below(
                    collections_of(self.base()),
                    self.collection()->0,
                ),
                Err(e) => self.collection() is None && e == StoreError::NoCollection,
            },
    {
        match self.col_id() {
            Ok(id) => Ok(self.collection_url(id)),
            Err(e) => Err(e),
        }
    }

    /// The address of an operation on the collection that is selected.
    pub fn operation_url(&self, operation: &str) -> (r: Result<String, StoreError>)
        ensures
            match r {
                Ok(url) => self.collection() is Some && url@ == below(
                    below(collections_of(self.base()), self.collection()->0),
                    operation@,
                ),
                Err(e) => self.collection() is None && e == StoreError::NoCollection,
            },
    {
        match self.col_url() {
            Ok(url) => Ok(address_below(url.as_str(), operation)),
            Err(e) => Err(e),
        }
    }

    /// The address of all the collections.
    pub fn collections_url(&self) -> (r: String)
        ensures
            r@ == collections_of(self.base()),
    {
        collections_path(self.base.as_str())
    }

    /// The address of a collection, by its name or id.
    pub fn collection_url(&self, name: &str) -> (r: String)
        ensures
            r@ == below(collections_of(self.base()), name@),
    {
        address_below(self.collections_url().as_str(), name)
    }

    /// The address that tells whether the database is there.
    pub fn heartbeat_url(&self) -> (r: String)
        ensures
            r@ == below(self.base(), "heartbeat"@),
    {
        address_below(self.base.as_str(), "heartbeat")
    }
}

// ---------------------------------------------------------------------------
// Answers
// ---------------------------------------------------------------------------

/// How many entries are asked for at a time.
pub const PAGE: usize = 10_000;

/// Where a fetch of everything stands, page by page.
#[derive(Debug)]
pub struct Cursor {
    offset: usize,
    done: bool,
}

impl Cursor {
    /// The number of entries to skip in the next request.
    pub closed spec fn at(self) -> nat {
        self.offset as nat
    }

    /// Whether the last page has been fetched.
    pub closed spec fn ended(self) -> bool {
        self.done
    }

    /// At the first page.
    pub fn new() -> (r: Cursor)
        ensures
            r.at() == 0,
            !r.ended(),
    {
        Cursor { offset: 0, done: false }
    }

    /// The number of entries to skip in the next request.
    pub fn offset(&self) -> (r: usize)
        ensures
            r == self.at(),
    {
        self.offset
    }

    /// Whether the last page has been fetched.
    pub fn is_done(&self) -> (r: bool)
        ensures
            r == self.ended(),
    {
        self.done
    }

    /// Goes on from a page with `n` entries. A page that is not full is the last one.
    pub fn advance(&mut self, n: usize)
        requires
            !old(self).ended(),
            old(self).at() + PAGE <= usize::MAX,
        ensures
            final(self).ended() == (n < PAGE),
            final(self).at() == if n < PAGE {
                old(self).at()
            } else {
                old(self).at() + PAGE as nat
            },
    {
        if n < PAGE {
            self.done = true;
        } else {
            self.offset = self.offset + PAGE;
        }
    }
}

/// The ids of a page with their metadata, without those that have none that can be
/// read. The longer column is cut to the length of the other.
pub open spec fn paired_below(
    ids: Seq<String>,
    metas: Seq<Option<Meta>>,
    n: int,
) -> Seq<(Seq<char>, MetaView)>
    decreases n,
{
    if n <= 0 {
        Seq::empty()
    } else {
        match metas[n - 1] {
            Some(m) => paired_below(ids, metas, n - 1).push((ids[n - 1]@, m@)),
            None => paired_below(ids, metas, n - 1),
        }
    }
}

/// The length of the shorter of two columns.
pub open spec fn shorter(a: nat, b: nat) -> int {
    if a < b {
        a as int
    } else {
        b as int
    }
}

/// The views of pairs of id and metadata.
pub open spec fn pair_views(v: Seq<(String, Meta)>) -> Seq<(Seq<char>, MetaView)> {
    Seq::new(v.len(), |i: int| (v[i].0@, v[i].1@))
}

/// The ids of a page with their metadata.
pub fn paired(ids: &Vec<String>, metas: &Vec<Option<Meta>>) -> (r: Vec<(String, Meta)>)
    ensures
        pair_views(r@) == paired_below(ids@, metas@, shorter(ids@.len(), metas@.len())),
{
    let mut r: Vec<(String, Meta)> = Vec::new();
    let mut i: usize = 0;
    proof {
        assert(pair_views(r@) =~= paired_below(ids@, metas@, 0));
    }
    while i < ids.len() && i < metas.len()
        invariant
            i <= ids@.len(),
            i <= metas@.len(),
            pair_views(r@) == paired_below(ids@, metas@, i as int),
        decreases ids@.len() - i,
    {
        match &metas[i] {
            Some(m) => {
                let copy = store::copy_meta(m);
                let ghost before = r@;
                r.push((ids[i].clone(), copy));
                proof {
                    assert(pair_views(r@) =~= pair_views(before).push((ids@[i as int]@, m@)));
                }
            },
            None => {},
        }
        i = i + 1;
    }
    r
}

/// The number that the answer to a count holds: a bare number, white space around it
/// left aside.
pub fn parse_count(answer: &str) -> (r: Option<usize>)
    ensures
        match r {
            Some(n) => text::number(text::trimmed(answer@), usize::MAX as nat) == Some(n as nat),
            None => text::number(text::trimmed(answer@), usize::MAX as nat) is None,
        },
{
    match text::parse_number(text::trim(answer).as_str(), usize::MAX as u64) {
        Some(n) => Some(n as usize),
        None => None,
    }
}

/// The requests go to the second version of the interface on the host, over TLS or not,
/// in the default tenant and database; those for a collection below its id, and each
/// operation below that.
pub proof fn law_addresses(
    host: &str,
    port: u16,
    ssl: bool,
    store: HttpStore,
    name: &str,
    operation: &str,
    all: String,
    one: String,
    selected: Result<String, StoreError>,
    work: Result<String, StoreError>,
    alive: String,
)
    requires
        store.base() == base_of(host@, port as nat, ssl),
        call_ensures(HttpStore::collections_url, (&store,), all),
        call_ensures(HttpStore::collection_url, (&store, name), one),
        call_ensures(HttpStore::col_url, (&store,), selected),
        call_ensures(HttpStore::operation_url, (&store, operation), work),
        call_ensures(HttpStore::heartbeat_url, (&store,), alive),
    ensures
        ({
            let site = (if ssl {
                "https://"@
            } else {
                "http://"@
            }) + host@ + ":"@ + text::decimal(port as nat) + "/api/v2"@;
            let place = site + "/tenants/default_tenant/databases/default_database/collections"@;
            &&& store.base() == site
            &&& alive@ == site + "/heartbeat"@
            &&& all@ == place
            &&& one@ == place + "/"@ + name@
            &&& store.collection() is None ==> selected == Err::<String, StoreError>(
                StoreError::NoCollection,
            ) && work == Err::<String, StoreError>(StoreError::NoCollection)
            &&& store.collection() is Some ==> {
                &&& selected is Ok
                &&& selected.unwrap()@ == place + "/"@ + store.collection().unwrap()
                &&& work is Ok
                &&& work.unwrap()@ == place + "/"@ + store.collection().unwrap() + "/"@ + operation@
            }
        }),
{
    reveal_strlit("https://");
    reveal_strlit("http://");
    reveal_strlit("https");
    reveal_strlit("http");
    reveal_strlit("://");
    reveal_strlit("/");
    reveal_strlit("heartbeat");
    reveal_strlit("/heartbeat");
    assert("https://"@ =~= "https"@ + "://"@);
    assert("http://"@ =~= "http"@ + "://"@);
    assert("/heartbeat"@ =~= "/"@ + "heartbeat"@);
    let site = (if ssl {
        "https://"@
    } else {
        "http://"@
    }) + host@ + ":"@ + text::decimal(port as nat) + "/api/v2"@;
    assert(store.base() =~= site);
    assert(alive@ =~= site + "/heartbeat"@);
}

/// A token is sent as `Bearer` and the token without the white space around it; a blank
/// one is not sent, nor one with a control character, but for tabs.
pub proof fn law_tokens(token: &str, r: Option<Vec<u8>>)
    requires
        call_ensures(auth_header_value, (token,), r),
    ensures
        r is Some ==> text::trimmed(token@).len() > 0 && r.unwrap()@ == encode_utf8(
            "Bearer "@ + text::trimmed(token@),
        ),
        r is Some <==> text::trimmed(token@).len() > 0 && forall|i: int|
            0 <= i < encode_utf8("Bearer "@ + text::trimmed(token@)).len() ==> {
                let b = #[trigger] encode_utf8("Bearer "@ + text::trimmed(token@))[i];
                b == 9 || 32 <= b < 127 || 128 <= b
            },
{
    let s = "Bearer "@ + text::trimmed(token@);
    assert forall|b: u8| #[trigger] header_byte(b) == (b == 9 || 32 <= b < 127 || 128 <= b) by {}
}

/// Entries are asked for in pages of 10000.
pub proof fn law_page_size()
    ensures
        PAGE == 10_000,
{
}

/// The entries of a page are its ids with the metadata at the same place, in order, where
/// there is any that can be read.
pub proof fn law_entries_of_a_page(ids: Seq<String>, metas: Seq<Option<Meta>>, n: int)
    requires
        0 <= n <= ids.len(),
        n <= metas.len(),
    ensures
        paired_below(ids, metas, n) == Seq::new(n as nat, |i: int| i).filter_map(
            |i: int|
                match metas[i] {
                    Some(m) => Some((ids[i]@, m@)),
                    None => None,
                },
        ),
        shorter(ids.len(), metas.len()) <= ids.len(),
        shorter(ids.len(), metas.len()) <= metas.len(),
        shorter(ids.len(), metas.len()) == ids.len() || shorter(ids.len(), metas.len())
            == metas.len(),
    decreases n,
{
    let f = |i: int|
        match metas[i] {
            Some(m) => Some((ids[i]@, m@)),
            None => None,
        };
    let all = Seq::new(n as nat, |i: int| i);
    if n > 0 {
        law_entries_of_a_page(ids, metas, n - 1);
        let rest = Seq::new((n - 1) as nat, |i: int| i);
        all.lemma_filter_map_take_succ(f, n - 1);
        assert(all.take(n) =~= all);
        assert(all.take(n - 1) =~= rest);
        let head = paired_below(ids, metas, n - 1);
        match metas[n - 1] {
            Some(m) => {
                assert(head.push((ids[n - 1]@, m@)) =~= head + seq![(ids[n - 1]@, m@)]);
            },
            None => {
                assert(head =~= head + Seq::<(Seq<char>, MetaView)>::empty());
            },
        }
    } else {
        assert(all.filter_map(f) =~= Seq::<(Seq<char>, MetaView)>::empty());
    }
}

/// The answer to a count is a bare number, with or without white space around it.
pub proof fn law_counts_are_read(answer: &str, r: Option<usize>, n: nat)
    requires
        call_ensures(parse_count, (answer,), r),
    ensures
        text::trimmed(answer@) == text::decimal(n) && n <= usize::MAX ==> r == Some(n as usize),
        text::number(text::trimmed(answer@), usize::MAX as nat) is None ==> r is None,
{
    if n <= usize::MAX {
        text::lemma_number_of_decimal(n, usize::MAX as nat);
    }
}

} // verus!
