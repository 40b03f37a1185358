//! Talking to Nexus Mods: its addresses, its answers, retries and a cache.
use vstd::prelude::*;

use crate::number::{decimal, decimal_string};
use crate::table::Table;
use crate::text::{concat2, concat3, contains, has_infix, lowercase, owned, to_lowercase};

verus! {

// ── Data ────────────────────────────────────────────────────────────────────

/// A user of Nexus Mods.
#[derive(Debug)]
pub struct NexusUser {
    pub user_id: u64,
    pub username: String,
    pub email: String,
    pub is_premium: bool,
    pub is_supporter: bool,
}

/// A downloadable file of a mod.
#[derive(Debug)]
pub struct NexusModFile {
    pub file_id: u64,
    pub name: String,
    pub version: Option<String>,
    pub category_name: String,
    pub is_primary: bool,
    pub size_kb: u64,
    pub file_name: String,
}

/// A [`NexusModFile`] as a mathematical value.
#[verifier::ext_equal]
pub ghost struct NexusModFileView {
    pub file_id: u64,
    pub name: Seq<char>,
    pub version: Option<Seq<char>>,
    pub category_name: Seq<char>,
    pub is_primary: bool,
    pub size_kb: u64,
    pub file_name: Seq<char>,
}

impl DeepView for NexusModFile {
    type V = NexusModFileView;

    open spec fn deep_view(&self) -> NexusModFileView {
        NexusModFileView {
            file_id: self.file_id,
            name: self.name@,
            version: self.version.deep_view(),
            category_name: self.category_name@,
            is_primary: self.is_primary,
            size_kb: self.size_kb,
            file_name: self.file_name@,
        }
    }
}

/// What Nexus answers of a user.
#[derive(Debug)]
pub struct NexusUserResponse {
    pub user_id: u64,
    pub name: String,
    pub email: String,
    pub is_premium: bool,
    pub is_supporter: bool,
}

/// What Nexus answers of a file.
#[derive(Debug)]
pub struct NexusModFileResponse {
    pub file_id: u64,
    pub name: String,
    pub version: Option<String>,
    pub category_name: Option<String>,
    pub is_primary: bool,
    pub size_kb: u64,
    pub file_name: String,
}

/// What Nexus answers of where a file can be downloaded.
#[derive(Debug)]
pub struct NexusDownloadLink {
    pub uri: String,
    pub short_name: String,
}

/// The file that an answer describes.
pub open spec fn described_file(f: NexusModFileResponse) -> NexusModFileView {
    NexusModFileView {
        file_id: f.file_id,
        name: f.name@,
        version: f.version.deep_view(),
        category_name: match f.category_name {
            Some(c) => c@,
            None => "Unknown"@,
        },
        is_primary: f.is_primary,
        size_kb: f.size_kb,
        file_name: f.file_name@,
    }
}

/// How a request came out.
#[derive(Debug)]
pub enum Answer<T> {
    /// The request failed, with this message.
    Failed(String),
    /// The answer could not be parsed, for this reason.
    Malformed(String),
    /// The answer.
    Data(T),
}

/// What is said of a request that gave no data.
pub open spec fn failure<T>(a: Answer<T>) -> Option<Seq<char>> {
    match a {
        Answer::Failed(e) => Some(e@),
        Answer::Malformed(e) => Some("Failed to parse response: "@ + e@),
        Answer::Data(_) => None,
    }
}

fn data_of<T>(a: Answer<T>) -> (r: Result<T, String>)
    ensures
        match r {
            Ok(d) => a == Answer::Data(d),
            Err(e) => failure(a) == Some(e@),
        },
{
    match a {
        Answer::Failed(e) => Err(e),
        Answer::Malformed(e) => Err(concat2("Failed to parse response: ", e.as_str())),
        Answer::Data(d) => Ok(d),
    }
}

// ── Failures and retries ────────────────────────────────────────────────────

/// Why a request failed, and whether another attempt may succeed.
#[derive(Debug)]
pub struct RequestError {
    pub message: String,
    pub transient: bool,
}

/// The status may change with another attempt.
pub open spec fn is_transient_status(code: u16) -> bool {
    code == 408 || code == 429 || 500 <= code <= 599
}

/// The failure of a request that was answered with a status.
pub fn status_error(code: u16, body: &str) -> (r: RequestError)
    ensures
        r.message@ == "Request failed with status "@ + decimal(code as nat) + ": "@ + body@,
        r.transient == is_transient_status(code),
{
    let start = concat2("Request failed with status ", decimal_string(code as u128).as_str());
    RequestError {
        message: concat3(start.as_str(), ": ", body),
        transient: code == 408 || code == 429 || (500 <= code && code <= 599),
    }
}

/// The text of a transport failure, in lowercase, speaks of something that may
/// pass.
pub open spec fn speaks_of_passing_trouble(lower: Seq<char>) -> bool {
    has_infix(lower, "timed out"@) || has_infix(lower, "timeout"@) || has_infix(lower, "tempor"@)
        || has_infix(lower, "connection reset"@) || has_infix(lower, "connection refused"@)
        || has_infix(lower, "dns"@)
}

/// The failure of a request that was not answered.
pub fn transport_error(msg: &str) -> (r: RequestError)
    ensures
        r.message@ == "Request failed: "@ + msg@,
        r.transient == speaks_of_passing_trouble(lowercase(msg@)),
{
    let lower = to_lowercase(msg);
    let l = lower.as_str();
    RequestError {
        message: concat2("Request failed: ", msg),
        transient: contains(l, "timed out") || contains(l, "timeout") || contains(l, "tempor")
            || contains(l, "connection reset") || contains(l, "connection refused") || contains(
            l,
            "dns",
        ),
    }
}

/// What follows an attempt at a request.
#[derive(Debug)]
pub enum RetryStep {
    /// The body of the answer.
    Done(String),
    /// No other attempt is made.
    GiveUp(String),
    /// Another attempt is made after so many milliseconds.
    Wait(u64),
}

// ── Client ──────────────────────────────────────────────────────────────────

/// An answer that is kept for a while.
#[derive(Debug)]
pub struct CacheEntry {
    pub body: String,
    /// In milliseconds.
    pub expires_at: u64,
}

/// A [`CacheEntry`] as a mathematical value.
#[verifier::ext_equal]
pub ghost struct CacheEntryView {
    pub body: Seq<char>,
    pub expires_at: u64,
}

impl DeepView for CacheEntry {
    type V = CacheEntryView;

    open spec fn deep_view(&self) -> CacheEntryView {
        CacheEntryView { body: self.body@, expires_at: self.expires_at }
    }
}

/// How long an answer is kept, in milliseconds.
pub const CACHE_TTL_MS: u64 = 60_000;

/// How many attempts may follow the first.
pub const MAX_RETRIES: u32 = 2;

/// How long is waited before the second attempt, in milliseconds; before each
/// further one twice as long as before.
pub const BACKOFF_BASE_MS: u64 = 250;

/// The time to wait after an attempt, counted from 0.
pub open spec fn backoff(attempt: nat) -> nat
    decreases attempt,
{
    if attempt == 0 {
        BACKOFF_BASE_MS as nat
    } else {
        2 * backoff((attempt - 1) as nat)
    }
}

/// The answer that is kept for an address, if it has not expired.
pub open spec fn cached_body(
    cache: Map<Seq<char>, CacheEntryView>,
    url: Seq<char>,
    now: u64,
) -> Option<Seq<char>> {
    if cache.contains_key(url) && cache[url].expires_at > now {
        Some(cache[url].body)
    } else {
        None
    }
}

/// The address of a mod's files.
pub open spec fn files_url(game_domain: Seq<char>, mod_id: u32) -> Seq<char> {
    "https://api.nexusmods.com/v1/games/"@ + game_domain + "/mods/"@ + decimal(mod_id as nat)
        + "/files.json"@
}

/// The address of a file's download links.
pub open spec fn links_url(game_domain: Seq<char>, mod_id: u32, file_id: u64) -> Seq<char> {
    "https://api.nexusmods.com/v1/games/"@ + game_domain + "/mods/"@ + decimal(mod_id as nat)
        + "/files/"@ + decimal(file_id as nat) + "/download_link.json"@
}

/// The address at which a key is validated.
pub fn validate_url() -> (r: String)
    ensures
        r@ == "https://api.nexusmods.com/v1/users/validate.json"@,
{
    owned("https://api.nexusmods.com/v1/users/validate.json")
}

fn mod_url(game_domain: &str, mod_id: u32) -> (r: String)
    ensures
        r@ == "https://api.nexusmods.com/v1/games/"@ + game_domain@ + "/mods/"@ + decimal(
            mod_id as nat,
        ),
{
    let start = concat3("https://api.nexusmods.com/v1/games/", game_domain, "/mods/");
    concat2(start.as_str(), decimal_string(mod_id as u128).as_str())
}

/// The address of a mod's files.
pub fn mod_files_url(game_domain: &str, mod_id: u32) -> (r: String)
    ensures
        r@ == files_url(game_domain@, mod_id),
{
    concat2(mod_url(game_domain, mod_id).as_str(), "/files.json")
}

/// The address of a file's download links.
pub fn download_link_url(game_domain: &str, mod_id: u32, file_id: u64) -> (r: String)
    ensures
        r@ == links_url(game_domain@, mod_id, file_id),
{
    let start = concat2(mod_url(game_domain, mod_id).as_str(), "/files/");
    concat3(start.as_str(), decimal_string(file_id as u128).as_str(), "/download_link.json")
}

/// A pair of texts as a mathematical value.
pub open spec fn link_pair(l: NexusDownloadLink) -> (Seq<char>, Seq<char>) {
    (l.short_name@, l.uri@)
}

fn link_pairs(links: Vec<NexusDownloadLink>) -> (r: Vec<(String, String)>)
    ensures
        r.deep_view() == links@.map_values(|l: NexusDownloadLink| link_pair(l)),
{
    let ghost all = links@;
    let mut r: Vec<(String, String)> = Vec::new();
    for i in 0..links.len()
        invariant
            all == links@,
            r@.len() == i,
            forall|j: int| 0 <= j < i ==> #[trigger] r@[j].deep_view() == link_pair(all[j]),
    {
        r.push((owned(links[i].short_name.as_str()), owned(links[i].uri.as_str())));
    }
    assert(r.deep_view() =~= all.map_values(|l: NexusDownloadLink| link_pair(l)));
    r
}

/// A client of Nexus Mods: the key of its user, and the answers that are kept.
pub struct NexusClient {
    pub api_key: String,
    /// The answers that are kept, by their addresses.
    pub cache: Table<CacheEntry>,
    /// How often an answer that was kept has been given.
    pub cache_hits: u64,
}

impl NexusClient {
    /// A client with the key of its user.
    pub fn new(api_key: &str) -> (r: Self)
        ensures
            r.api_key@ == api_key@,
            r.cache.map() == Map::<Seq<char>, CacheEntryView>::empty(),
            r.cache_hits == 0,
    {
        NexusClient { api_key: owned(api_key), cache: Table::new(), cache_hits: 0 }
    }

    /// The answer that is kept for an address at a time, if one is.
    pub fn cached(&mut self, url: &str, now: u64) -> (r: Option<String>)
        ensures
            r.deep_view() == cached_body(old(self).cache.map(), url@, now),
            final(self).cache.map() == old(self).cache.map(),
            final(self).api_key == old(self).api_key,
            final(self).cache_hits == if r is Some {
                (old(self).cache_hits + 1) % 0x1_0000_0000_0000_0000
            } else {
                old(self).cache_hits as int
            },
    {
        let found = match self.cache.get(url) {
            Some(entry) => {
                if entry.expires_at > now {
                    Some(owned(entry.body.as_str()))
                } else {
                    None
                }
            },
            None => None,
        };
        if found.is_some() {
            self.cache_hits = self.cache_hits.wrapping_add(1);
        }
        found
    }

    /// Keeps the answer of an address from a time on.
    pub fn keep(&mut self, url: &str, body: &str, now: u64)
        requires
            now + CACHE_TTL_MS <= u64::MAX,
        ensures
            final(self).cache.map() == old(self).cache.map().insert(
                url@,
                CacheEntryView { body: body@, expires_at: (now + CACHE_TTL_MS) as u64 },
            ),
            final(self).cache_hits == old(self).cache_hits,
            final(self).api_key == old(self).api_key,
    {
        self.cache.insert(
            url,
            CacheEntry { body: owned(body), expires_at: now + CACHE_TTL_MS },
        );
    }

    /// What follows an attempt, counted from 0, given how it came out.
    pub fn get_body_with_retry(&self, attempt: u32, result: Result<String, RequestError>) -> (r:
        RetryStep)
        requires
            attempt <= MAX_RETRIES,
        ensures
            match result {
                Ok(body) => r is Done && r->Done_0@ == body@,
                Err(e) => if !e.transient || attempt == MAX_RETRIES {
                    r is GiveUp && r->GiveUp_0@ == e.message@
                } else {
                    r is Wait && r->Wait_0 == backoff(attempt as nat)
                },
            },
    {
        match result {
            Ok(body) => RetryStep::Done(body),
            Err(e) => {
                if !e.transient || attempt == MAX_RETRIES {
                    RetryStep::GiveUp(e.message)
                } else {
                    let mut wait: u64 = BACKOFF_BASE_MS;
                    for i in 0..attempt
                        invariant
                            attempt < MAX_RETRIES,
                            wait == backoff(i as nat),
                    {
                        wait = wait * 2;
                    }
                    RetryStep::Wait(wait)
                }
            },
        }
    }

    /// The user that the key belongs to, from the answer of
    /// [`validate_url`].
    pub fn validate(&self, answer: Answer<NexusUserResponse>) -> (r: Result<NexusUser, String>)
        ensures
            match r {
                Ok(u) => answer matches Answer::Data(d) && u.user_id == d.user_id && u.username@
                    == d.name@ && u.email@ == d.email@ && u.is_premium == d.is_premium
                    && u.is_supporter == d.is_supporter,
                Err(e) => failure(answer) == Some(e@),
            },
    {
        match data_of(answer) {
            Ok(data) => Ok(
                NexusUser {
                    user_id: data.user_id,
                    username: data.name,
                    email: data.email,
                    is_premium: data.is_premium,
                    is_supporter: data.is_supporter,
                },
            ),
            Err(e) => Err(e),
        }
    }

    /// The files of a mod, from the answer of [`mod_files_url`].
    pub fn get_mod_files(&self, answer: Answer<Vec<NexusModFileResponse>>) -> (r: Result<
        Vec<NexusModFile>,
        String,
    >)
        ensures
            match r {
                Ok(files) => answer matches Answer::Data(d) && files.deep_view()
                    == d@.map_values(|f: NexusModFileResponse| described_file(f)),
                Err(e) => failure(answer) == Some(e@),
            },
    {
        match data_of(answer) {
            Ok(data) => {
                let ghost all = data@;
                let mut r: Vec<NexusModFile> = Vec::new();
                for i in 0..data.len()
                    invariant
                        all == data@,
                        r@.len() == i,
                        forall|j: int|
                            0 <= j < i ==> #[trigger] r@[j].deep_view() == described_file(all[j]),
                {
                    let f = &data[i];
                    r.push(
                        NexusModFile {
                            file_id: f.file_id,
                            name: owned(f.name.as_str()),
                            version: match &f.version {
                                Some(v) => Some(owned(v.as_str())),
                                None => None,
                            },
                            category_name: match &f.category_name {
                                Some(c) => owned(c.as_str()),
                                None => owned("Unknown"),
                            },
                            is_primary: f.is_primary,
                            size_kb: f.size_kb,
                            file_name: owned(f.file_name.as_str()),
                        },
                    );
                }
                assert(r.deep_view() =~= all.map_values(
                    |f: NexusModFileResponse| described_file(f),
                ));
                Ok(r)
            },
            Err(e) => Err(e),
        }
    }

    /// The names and addresses of where a file can be downloaded, from the
    /// answer of [`download_link_url`].
    pub fn get_download_links(&self, answer: Answer<Vec<NexusDownloadLink>>) -> (r: Result<
        Vec<(String, String)>,
        String,
    >)
        ensures
            match r {
                Ok(links) => answer matches Answer::Data(d) && links.deep_view() == d@.map_values(
                    |l: NexusDownloadLink| link_pair(l),
                ),
                Err(e) => failure(answer) == Some(e@),
            },
    {
        match data_of(answer) {
            Ok(data) => Ok(link_pairs(data)),
            Err(e) => Err(e),
        }
    }

    /// The names and addresses of where a file can be downloaded, from the
    /// answer of [`download_link_url`] when it is asked with [`nxm_query`].
    ///
    /// Any account may ask in this way while the key of an NXM link is valid.
    pub fn get_download_links_nxm(&self, answer: Answer<Vec<NexusDownloadLink>>) -> (r: Result<
        Vec<(String, String)>,
        String,
    >)
        ensures
            match r {
                Ok(links) => answer matches Answer::Data(d) && links.deep_view() == d@.map_values(
                    |l: NexusDownloadLink| link_pair(l),
                ),
                Err(e) => failure(answer) == Some(e@),
            },
    {
        self.get_download_links(answer)
    }
}

/// The parameters with which download links are asked for by what an NXM link
/// brought.
pub fn nxm_query(key: &str, expires: &str) -> (r: Vec<(String, String)>)
    ensures
        r.deep_view() == seq![("key"@, key@), ("expires"@, expires@)],
{
    let mut r: Vec<(String, String)> = Vec::new();
    r.push((owned("key"), owned(key)));
    r.push((owned("expires"), owned(expires)));
    assert(r.deep_view() =~= seq![("key"@, key@), ("expires"@, expires@)]);
    r
}

// ── Laws ────────────────────────────────────────────────────────────────────

/// An answer that is kept is given until it expires, and not from then on.
pub proof fn kept_answer_is_given_until_it_expires(
    cache: Map<Seq<char>, CacheEntryView>,
    url: Seq<char>,
    body: Seq<char>,
    kept_at: u64,
    now: u64,
)
    requires
        kept_at + CACHE_TTL_MS <= u64::MAX,
    ensures
        cached_body(
            cache.insert(
                url,
                CacheEntryView { body, expires_at: (kept_at + CACHE_TTL_MS) as u64 },
            ),
            url,
            now,
        ) == if now < kept_at + CACHE_TTL_MS {
            Some(body)
        } else {
            None
        },
{
}

/// A request is tried again after failures of the server and after those that
/// ask to wait, and after no other.
pub proof fn server_failures_are_transient(code: u16)
    ensures
        is_transient_status(code) <==> code / 100 == 5 || code == 408 || code == 429,
{
}

/// Each wait is twice as long as the one before, the first a quarter of a second.
pub proof fn waits_double(attempt: nat)
    ensures
        backoff(0) == 250,
        backoff(attempt + 1) == 2 * backoff(attempt),
        backoff(attempt) == 250 * vstd::arithmetic::power::pow(2, attempt),
    decreases attempt,
{
    reveal(vstd::arithmetic::power::pow);
    if attempt > 0 {
        waits_double((attempt - 1) as nat);
        assert(vstd::arithmetic::power::pow(2, attempt) == 2 * vstd::arithmetic::power::pow(
            2,
            (attempt - 1) as nat,
        ));
    }
}

/// A file that has no category is of an unknown one; all else is as described.
pub proof fn files_are_described_as_they_came(f: NexusModFileResponse)
    ensures
        ({
            let d = described_file(f);
            &&& d.file_id == f.file_id
            &&& d.name == f.name@
            &&& d.file_name == f.file_name@
            &&& d.size_kb == f.size_kb
            &&& d.is_primary == f.is_primary
            &&& d.version == f.version.deep_view()
            &&& f.category_name is Some ==> d.category_name == f.category_name->0@
            &&& f.category_name is None ==> d.category_name == "Unknown"@
        }),
{
}

/// The addresses of two files of a mod, and those of two mods, are two.
pub proof fn addresses_tell_files_apart(domain: Seq<char>, m: u32, n: u32, a: u64, b: u64)
    ensures
        files_url(domain, m) == files_url(domain, n) ==> m == n,
        links_url(domain, m, a) == links_url(domain, m, b) ==> a == b,
{
    let head = "https://api.nexusmods.com/v1/games/"@ + domain + "/mods/"@;
    if files_url(domain, m) == files_url(domain, n) {
        lemma_between(head, decimal(m as nat), decimal(n as nat), "/files.json"@);
        crate::number::decimal_is_injective(m as nat, n as nat);
    }
    if links_url(domain, m, a) == links_url(domain, m, b) {
        let front = head + decimal(m as nat) + "/files/"@;
        lemma_between(front, decimal(a as nat), decimal(b as nat), "/download_link.json"@);
        crate::number::decimal_is_injective(a as nat, b as nat);
    }
}

proof fn lemma_between(head: Seq<char>, x: Seq<char>, y: Seq<char>, tail: Seq<char>)
    requires
        head + x + tail == head + y + tail,
    ensures
        x == y,
{
    let (s, t) = (head + x + tail, head + y + tail);
    assert(s.len() == t.len());
    assert(x =~= s.subrange(head.len() as int, (head.len() + x.len()) as int));
    assert(y =~= t.subrange(head.len() as int, (head.len() + y.len()) as int));
}

} // verus!
