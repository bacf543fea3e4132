//! Sessions and access control: the session store, how a request is
//! authenticated, which backend serves it and which input limit applies.
use vstd::prelude::*;
use subtle::ConstantTimeEq;
use crate::client::OpenAiClient;
use crate::config::{AppConfig, TtsVoiceEntry};
use crate::text::{
    chars_of, chars_eq, copy_range, eq_ignore_ascii_case, eq_ignore_ascii_case_chars, push_decimal,
    push_str, dec_str, split_chars, split_on, starts_with, starts_with_chars, str_is, string_of,
    trail_c, trim, trim_chars, dv,
};
use crate::config::{opt_view, split_once};

verus! {

broadcast use vstd::string::group_string_axioms;

/// Which backend tier a session was authenticated against.
#[derive(Clone, Copy, PartialEq, Eq, Structural, Debug)]
pub enum SessionTier {
    /// Anonymous web-UI session: uses the server's own backend credentials.
    /// Grants access to text translation and conversation only; no file tab.
    Free,
    /// The user's own endpoint and key.
    Byok,
    /// The shared gated backend.
    Gated,
}

/// Credentials stored for a browser session.
pub struct SessionCredentials {
    pub endpoint: String,
    pub api_key: String,
    pub tier: SessionTier,
}

/// The view of stored credentials: endpoint, key and tier.
pub type CredView = (Seq<char>, Seq<char>, SessionTier);

pub open spec fn cred_view(c: SessionCredentials) -> CredView {
    (c.endpoint@, c.api_key@, c.tier)
}

/// Maximum number of stored sessions.
pub const MAX_SESSIONS: usize = 1000;

/// The in-memory session store, keyed by session ID.
pub struct SessionStore {
    entries: Vec<(String, SessionCredentials)>,
}

impl SessionStore {
    /// The stored sessions.
    pub closed spec fn view(&self) -> Map<Seq<char>, CredView> {
        Map::new(
            |k: Seq<char>| exists|i: int| 0 <= i < self.entries@.len() && self.entries@[i].0@ == k,
            |k: Seq<char>|
                {
                    let i = choose|i: int|
                        0 <= i < self.entries@.len() && self.entries@[i].0@ == k;
                    cred_view(self.entries@[i].1)
                },
        )
    }

    /// Number of stored sessions.
    pub closed spec fn size(&self) -> nat {
        self.entries@.len()
    }

    /// Session IDs are unique and the store never exceeds its capacity.
    pub closed spec fn wf(&self) -> bool {
        &&& self.entries@.len() <= MAX_SESSIONS
        &&& forall|a: int, b: int|
            0 <= a < b < self.entries@.len() ==> self.entries@[a].0@ != self.entries@[b].0@
    }

    proof fn lemma_view_at(&self, i: int)
        requires
            self.wf(),
            0 <= i < self.entries@.len(),
        ensures
            self.view().contains_key(self.entries@[i].0@),
            self.view()[self.entries@[i].0@] == cred_view(self.entries@[i].1),
    {
        let k = self.entries@[i].0@;
        assert(self.view().contains_key(k));
        let j = choose|j: int| 0 <= j < self.entries@.len() && self.entries@[j].0@ == k;
        assert(j == i);
    }

    /// A well-formed store holds one entry per stored session, and never
    /// more than `MAX_SESSIONS`.
    pub proof fn lemma_capacity(&self)
        requires
            self.wf(),
        ensures
            self.view().dom().finite(),
            self.view().dom().len() == self.size(),
            self.size() <= MAX_SESSIONS,
    {
        let keys = self.entries@.map_values(|e: (String, SessionCredentials)| e.0@);
        assert(keys.no_duplicates()) by {
            assert forall|a: int, b: int| 0 <= a < keys.len() && 0 <= b < keys.len() && a != b implies keys[a]
                != keys[b] by {
                if a < b {
                    assert(self.entries@[a].0@ != self.entries@[b].0@);
                } else {
                    assert(self.entries@[b].0@ != self.entries@[a].0@);
                }
            }
        }
        keys.unique_seq_to_set();
        assert(self.view().dom() =~= keys.to_set()) by {
            assert forall|k: Seq<char>| self.view().dom().contains(k) <==> keys.to_set().contains(k) by {
                if self.view().dom().contains(k) {
                    let i = choose|i: int| 0 <= i < self.entries@.len() && self.entries@[i].0@ == k;
                    assert(keys[i] == k);
                }
                if keys.to_set().contains(k) {
                    let i = choose|i: int| 0 <= i < keys.len() && keys[i] == k;
                    assert(self.entries@[i].0@ == k);
                }
            }
        }
        vstd::seq_lib::seq_to_set_is_finite(keys);
    }

    /// An empty store.
    pub fn new() -> (r: Self)
        ensures
            r.wf(),
            r.view() == Map::<Seq<char>, CredView>::empty(),
            r.size() == 0,
    {
        let r = SessionStore { entries: Vec::new() };
        assert(r.view() =~= Map::<Seq<char>, CredView>::empty());
        r
    }

    fn position(&self, sid: &str) -> (r: Option<usize>)
        requires
            self.wf(),
        ensures
            match r {
                Some(i) => i < self.entries@.len() && self.entries@[i as int].0@ == sid@,
                None => !self.view().contains_key(sid@),
            },
    {
        let key = chars_of(sid);
        let mut i: usize = 0;
        while i < self.entries.len()
            invariant
                i <= self.entries@.len(),
                key@ == sid@,
                forall|k: int| 0 <= k < i ==> self.entries@[k].0@ != sid@,
            decreases self.entries@.len() - i,
        {
            if str_is(self.entries[i].0.as_str(), key.as_slice()) {
                return Some(i);
            }
            i = i + 1;
        }
        None
    }

    /// Whether a session with this ID exists.
    pub fn contains(&self, sid: &str) -> (r: bool)
        requires
            self.wf(),
        ensures
            r == self.view().contains_key(sid@),
    {
        match self.position(sid) {
            Some(i) => {
                proof {
                    self.lemma_view_at(i as int);
                }
                true
            },
            None => false,
        }
    }

    /// The credentials of the session with this ID.
    pub fn get(&self, sid: &str) -> (r: Option<&SessionCredentials>)
        requires
            self.wf(),
        ensures
            match r {
                Some(c) => self.view().contains_key(sid@) && self.view()[sid@] == cred_view(*c),
                None => !self.view().contains_key(sid@),
            },
    {
        match self.position(sid) {
            Some(i) => {
                proof {
                    self.lemma_view_at(i as int);
                }
                Some(&self.entries[i].1)
            },
            None => None,
        }
    }

    /// Stores a session. When the store is full, one existing session is
    /// evicted first, so the store never exceeds `MAX_SESSIONS`.
    pub fn insert(&mut self, sid: String, creds: SessionCredentials)
        requires
            old(self).wf(),
        ensures
            final(self).wf(),
            final(self).size() <= MAX_SESSIONS,
            final(self).view().dom().len() <= MAX_SESSIONS,
            final(self).view().contains_key(sid@),
            final(self).view()[sid@] == cred_view(creds),
            old(self).size() < MAX_SESSIONS ==> final(self).view() == old(self).view().insert(
                sid@,
                cred_view(creds),
            ),
            old(self).size() >= MAX_SESSIONS ==> exists|k: Seq<char>|
                old(self).view().contains_key(k) && final(self).view() == old(self).view().remove(
                    k,
                ).insert(sid@, cred_view(creds)),
    {
        let ghost v0 = self.view();
        let ghost cv = cred_view(creds);
        let ghost sv = sid@;
        if self.entries.len() >= MAX_SESSIONS {
            // Evict the oldest entry.
            let ghost e0 = self.entries@;
            let ghost k0 = e0[0].0@;
            proof {
                self.lemma_view_at(0);
            }
            let _evicted = self.entries.remove(0);
            assert(self.entries@ =~= e0.skip(1));
            assert(self.wf()) by {
                assert forall|a: int, b: int|
                    0 <= a < b < self.entries@.len() implies self.entries@[a].0@
                    != self.entries@[b].0@ by {
                    assert(self.entries@[a] == e0[a + 1]);
                    assert(self.entries@[b] == e0[b + 1]);
                }
            }
            assert(self.view() =~= v0.remove(k0)) by {
                assert forall|k: Seq<char>| #[trigger]
                    self.view().contains_key(k) <==> v0.remove(k0).contains_key(k) by {
                    if self.view().contains_key(k) {
                        let i = choose|i: int|
                            0 <= i < self.entries@.len() && self.entries@[i].0@ == k;
                        assert(e0[i + 1].0@ == k);
                        assert(e0[0].0@ != e0[i + 1].0@);
                    }
                    if v0.remove(k0).contains_key(k) {
                        let i = choose|i: int| 0 <= i < e0.len() && e0[i].0@ == k;
                        assert(i != 0);
                        assert(self.entries@[i - 1].0@ == k);
                    }
                }
                assert forall|k: Seq<char>| #[trigger]
                    self.view().contains_key(k) implies self.view()[k] == v0.remove(k0)[k] by {
                    let i = choose|i: int|
                        0 <= i < self.entries@.len() && self.entries@[i].0@ == k;
                    let j = choose|j: int| 0 <= j < e0.len() && e0[j].0@ == k;
                    assert(e0[i + 1].0@ == k);
                    assert(j == i + 1);
                }
            }
            self.insert_fresh(sid, creds);
            assert(self.view() == v0.remove(k0).insert(sv, cv));
        } else {
            self.insert_fresh(sid, creds);
        }
        proof {
            self.lemma_capacity();
        }
    }

    /// Stores a session without evicting (the caller leaves room).
    fn insert_fresh(&mut self, sid: String, creds: SessionCredentials)
        requires
            old(self).wf(),
            old(self).entries@.len() < MAX_SESSIONS,
        ensures
            final(self).wf(),
            final(self).view() == old(self).view().insert(sid@, cred_view(creds)),
            final(self).view().contains_key(sid@),
            final(self).view()[sid@] == cred_view(creds),
    {
        let ghost v0 = self.view();
        let ghost e0 = self.entries@;
        let ghost cv = cred_view(creds);
        let ghost sv = sid@;
        match self.position(sid.as_str()) {
            Some(i) => {
                self.entries.set(i, (sid, creds));
                assert(self.wf()) by {
                    assert forall|a: int, b: int|
                        0 <= a < b < self.entries@.len() implies self.entries@[a].0@
                        != self.entries@[b].0@ by {
                        if a == i {
                            assert(e0[b].0@ != e0[i as int].0@);
                        } else if b == i {
                            assert(e0[a].0@ != e0[i as int].0@);
                        }
                    }
                }
                assert(self.view() =~= v0.insert(sv, cv)) by {
                    assert forall|k: Seq<char>| #[trigger]
                        self.view().contains_key(k) <==> v0.insert(sv, cv).contains_key(k) by {
                        if k != sv {
                            if v0.contains_key(k) {
                                let j = choose|j: int| 0 <= j < e0.len() && e0[j].0@ == k;
                                assert(self.entries@[j].0@ == k);
                            }
                            if self.view().contains_key(k) {
                                let j = choose|j: int|
                                    0 <= j < self.entries@.len() && self.entries@[j].0@ == k;
                                assert(e0[j].0@ == k);
                            }
                        } else {
                            assert(self.entries@[i as int].0@ == k);
                        }
                    }
                    assert forall|k: Seq<char>| #[trigger]
                        self.view().contains_key(k) implies self.view()[k] == v0.insert(sv, cv)[k] by {
                        let j = choose|j: int|
                            0 <= j < self.entries@.len() && self.entries@[j].0@ == k;
                        if k == sv {
                            assert(j == i);
                        } else {
                            let j2 = choose|j2: int| 0 <= j2 < e0.len() && e0[j2].0@ == k;
                            assert(j == j2);
                        }
                    }
                }
            },
            None => {
                self.entries.push((sid, creds));
                assert(self.wf()) by {
                    assert forall|a: int, b: int|
                        0 <= a < b < self.entries@.len() implies self.entries@[a].0@
                        != self.entries@[b].0@ by {
                        if b == e0.len() {
                            if e0[a].0@ == sv {
                                assert(v0.contains_key(sv));
                            }
                        } else {
                            assert(self.entries@[a] == e0[a] && self.entries@[b] == e0[b]);
                        }
                    }
                }
                assert(self.view() =~= v0.insert(sv, cv)) by {
                    assert forall|k: Seq<char>| #[trigger]
                        self.view().contains_key(k) <==> v0.insert(sv, cv).contains_key(k) by {
                        if k != sv {
                            if v0.contains_key(k) {
                                let j = choose|j: int| 0 <= j < e0.len() && e0[j].0@ == k;
                                assert(self.entries@[j].0@ == k);
                            }
                            if self.view().contains_key(k) {
                                let j = choose|j: int|
                                    0 <= j < self.entries@.len() && self.entries@[j].0@ == k;
                                assert(j != e0.len());
                                assert(e0[j].0@ == k);
                            }
                        } else {
                            assert(self.entries@[e0.len() as int].0@ == k);
                        }
                    }
                    assert forall|k: Seq<char>| #[trigger]
                        self.view().contains_key(k) implies self.view()[k] == v0.insert(sv, cv)[k] by {
                        let j = choose|j: int|
                            0 <= j < self.entries@.len() && self.entries@[j].0@ == k;
                        if k == sv {
                            if j < e0.len() {
                                assert(e0[j].0@ == sv);
                                assert(v0.contains_key(sv));
                            }
                            assert(j == e0.len());
                        } else {
                            let j2 = choose|j2: int| 0 <= j2 < e0.len() && e0[j2].0@ == k;
                            assert(self.entries@[j2] == e0[j2]);
                            assert(j == j2);
                        }
                    }
                }
            },
        }
    }
}

/// A session written to the store is read back with the credentials
/// written, whatever the store held before.
pub proof fn lemma_session_read_after_write(
    before: Map<Seq<char>, CredView>,
    after: Map<Seq<char>, CredView>,
    sid: Seq<char>,
    creds: CredView,
    evicted: Option<Seq<char>>,
)
    requires
        after == match evicted {
            Some(k) => before.remove(k).insert(sid, creds),
            None => before.insert(sid, creds),
        },
    ensures
        after.contains_key(sid),
        after[sid] == creds,
        forall|k: Seq<char>|
            k != sid && before.contains_key(k) && evicted != Some(k) ==> #[trigger] after.contains_key(k)
                && after[k] == before[k],
{
}

// ───────────────────────────── request credentials ─────────────────────────

/// Credentials carried by a request: its `Cookie` and `Authorization`
/// header values (absent when missing or not visible ASCII).
pub struct RequestAuth {
    pub cookie: Option<String>,
    pub authorization: Option<String>,
}

pub open spec fn sid_name() -> Seq<char> {
    seq!['s', 'i', 'd']
}

/// The `sid` cookie among `pairs`: the first pair whose name is `sid`
/// gives the (trimmed) value after its `=`, or nothing if it has no `=`.
pub open spec fn sid_in(pairs: Seq<Seq<char>>) -> Option<Seq<char>>
    decreases pairs.len(),
{
    if pairs.len() == 0 {
        None
    } else {
        let (name, value) = split_once(trim(pairs[0]), '=');
        if trim(name) == sid_name() {
            match value {
                Some(v) => Some(trim(v)),
                None => None,
            }
        } else {
            sid_in(pairs.drop_first())
        }
    }
}

/// The session ID in a `Cookie` header value.
pub open spec fn session_id_of(cookie: Option<Seq<char>>) -> Option<Seq<char>> {
    match cookie {
        Some(c) => sid_in(split_on(c, seq![';'])),
        None => None,
    }
}

/// Extract the `sid` session cookie from a `Cookie` header value.
pub fn get_session_id(cookie: Option<&str>) -> (r: Option<String>)
    ensures
        opt_view(r) == session_id_of(
            match cookie {
                Some(c) => Some(c@),
                None => None,
            },
        ),
{
    let c = match cookie {
        Some(c) => c,
        None => return None,
    };
    let v = chars_of(c);
    let semi: [char; 1] = [';'];
    assert(semi@ =~= seq![';']);
    let pairs = split_chars(v.as_slice(), semi.as_slice());
    let ghost pv = dv(pairs@);
    let sid: [char; 3] = ['s', 'i', 'd'];
    assert(sid@ =~= sid_name());
    let mut i: usize = 0;
    assert(pv.skip(0) =~= pv);
    while i < pairs.len()
        invariant
            pv == dv(pairs@),
            pv == split_on(c@, seq![';']),
            cookie == Some(c),
            sid@ == sid_name(),
            i <= pairs@.len(),
            sid_in(pv.skip(i as int)) == sid_in(pv),
        decreases pairs@.len() - i,
    {
        let ghost rest = pv.skip(i as int);
        assert(rest[0] == pairs@[i as int]@);
        assert(rest.drop_first() =~= pv.skip(i + 1));
        let p = trim_chars(pairs[i].as_slice());
        let (name, value) = crate::config::split_once_exec(p.as_slice(), '=');
        let n = trim_chars(name.as_slice());
        assert(rest.len() > 0);
        assert(p@ == trim(rest[0]));
        if chars_eq(n.as_slice(), sid.as_slice()) {
            assert(trim(split_once(trim(rest[0]), '=').0) == sid_name());
            assert(sid_in(pv) == sid_in(rest));
            match value {
                Some(x) => {
                    let t = trim_chars(x.as_slice());
                    let r = string_of(t.as_slice());
                    assert(split_once(p@, '=').1 == Some(x@));
                    assert(sid_in(rest) == Some(trim(x@)));
                    return Some(r);
                },
                None => {
                    assert(sid_in(rest) is None);
                    return None;
                },
            }
        }
        i = i + 1;
    }
    assert(pv.skip(i as int) =~= Seq::<Seq<char>>::empty());
    None
}

pub open spec fn bearer_prefix() -> Seq<char> {
    "Bearer "@
}

/// The token of an `Authorization: Bearer <token>` header, or empty.
pub open spec fn bearer_of(authorization: Option<Seq<char>>) -> Seq<char> {
    match authorization {
        Some(a) => if starts_with(a, bearer_prefix()) {
            a.skip(7)
        } else {
            Seq::empty()
        },
        None => Seq::empty(),
    }
}

/// The bearer token a request carries, or the empty string.
pub fn bearer_token(authorization: Option<&str>) -> (r: String)
    ensures
        r@ == bearer_of(
            match authorization {
                Some(a) => Some(a@),
                None => None,
            },
        ),
{
    proof {
        reveal_strlit("Bearer ");
    }
    match authorization {
        Some(a) => {
            let v = chars_of(a);
            let p = chars_of("Bearer ");
            if starts_with_chars(v.as_slice(), p.as_slice()) {
                let vl = v.len();
                let t = copy_range(v.as_slice(), 7, vl);
                assert(t@ =~= v@.skip(7));
                string_of(t.as_slice())
            } else {
                String::new()
            }
        },
        None => String::new(),
    }
}

/// `subtle::ConstantTimeEq::ct_eq` on the UTF-8 bytes of two strings,
/// converted to `bool`. Trusted: true exactly when the strings are equal
/// (the slices compare equal iff their bytes do, and UTF-8 is injective).
#[verifier::external_body]
fn ct_eq_str(a: &str, b: &str) -> (r: bool)
    ensures
        r == (a@ == b@),
{
    bool::from(a.as_bytes().ct_eq(b.as_bytes()))
}

// ───────────────────────────── decisions ───────────────────────────────────

/// An error answer: HTTP status and message.
pub struct ApiError {
    pub status: u16,
    pub error: String,
}

pub open spec fn err_view(e: ApiError) -> (u16, Seq<char>) {
    (e.status, e.error@)
}

pub(crate) fn api_error(status: u16, msg: &str) -> (r: ApiError)
    ensures
        r.status == status,
        r.error@ == msg@,
{
    ApiError { status, error: string_of(chars_of(msg).as_slice()) }
}

/// The server-side backends and configuration the decisions consult.
pub struct ServerState {
    pub config: AppConfig,
    /// The server's own backend.
    pub client: OpenAiClient,
    /// The gated backend, if configured.
    pub gated_client: Option<OpenAiClient>,
    /// The text-to-speech backend, if configured.
    pub tts_client: Option<OpenAiClient>,
}

pub open spec fn auth_cookie(a: RequestAuth) -> Option<Seq<char>> {
    opt_view(a.cookie)
}

pub open spec fn auth_bearer(a: RequestAuth) -> Seq<char> {
    bearer_of(opt_view(a.authorization))
}

/// The stored credentials of the request's session, if it has a valid one.
pub open spec fn session_of(sessions: Map<Seq<char>, CredView>, a: RequestAuth) -> Option<
    CredView,
> {
    match session_id_of(auth_cookie(a)) {
        Some(sid) => if sessions.contains_key(sid) {
            Some(sessions[sid])
        } else {
            None
        },
        None => None,
    }
}

fn session_lookup<'a>(sessions: &'a SessionStore, auth: &RequestAuth) -> (r: Option<
    &'a SessionCredentials,
>)
    requires
        sessions.wf(),
    ensures
        match r {
            Some(c) => session_of(sessions.view(), *auth) == Some(cred_view(*c)),
            None => session_of(sessions.view(), *auth) is None,
        },
{
    let cookie = match &auth.cookie {
        Some(c) => Some(c.as_str()),
        None => None,
    };
    match get_session_id(cookie) {
        Some(sid) => sessions.get(sid.as_str()),
        None => None,
    }
}

fn request_bearer(auth: &RequestAuth) -> (r: String)
    ensures
        r@ == auth_bearer(*auth),
{
    let a = match &auth.authorization {
        Some(x) => Some(x.as_str()),
        None => None,
    };
    bearer_token(a)
}

pub open spec fn server_configured(c: AppConfig) -> bool {
    c.api_base_url@.len() > 0 && c.api_key@.len() > 0
}

pub open spec fn tts_configured(c: AppConfig) -> bool {
    c.tts_api_base_url@.len() > 0 && c.tts_api_key@.len() > 0
}

/// Whether a request may use the service: a valid session, or (in gated
/// mode) the access key as bearer token, or (in personal mode, no access key)
/// a server that has its own credentials.
pub open spec fn authentication(
    sessions: Map<Seq<char>, CredView>,
    c: AppConfig,
    a: RequestAuth,
) -> Result<(), (u16, Seq<char>)> {
    if session_of(sessions, a) is Some {
        Ok(())
    } else if c.gated_access_key@.len() == 0 {
        if server_configured(c) || tts_configured(c) {
            Ok(())
        } else {
            Err((401, "Direct API access is disabled. Use the web interface."@))
        }
    } else if auth_bearer(a) == c.gated_access_key@ {
        Ok(())
    } else {
        Err((401, "Invalid or missing access key."@))
    }
}

/// Validate the bearer token against `access_key` in constant time.
pub fn verify_bearer(auth: &RequestAuth, access_key: &str) -> (r: Result<(), ApiError>)
    ensures
        match r {
            Ok(()) => auth_bearer(*auth) == access_key@,
            Err(e) => auth_bearer(*auth) != access_key@ && err_view(e) == (
                401u16,
                "Invalid or missing access key."@,
            ),
        },
{
    let provided = request_bearer(auth);
    if !ct_eq_str(provided.as_str(), access_key) {
        return Err(api_error(401, "Invalid or missing access key."));
    }
    Ok(())
}

/// Verify the request is authenticated (session cookie or bearer token).
pub fn check_authenticated(state: &ServerState, sessions: &SessionStore, auth: &RequestAuth) -> (r:
    Result<(), ApiError>)
    requires
        sessions.wf(),
    ensures
        match r {
            Ok(()) => authentication(sessions.view(), state.config, *auth) == Ok::<
                (),
                (u16, Seq<char>),
            >(()),
            Err(e) => authentication(sessions.view(), state.config, *auth) == Err::<
                (),
                (u16, Seq<char>),
            >(err_view(e)),
        },
{
    if session_lookup(sessions, auth).is_some() {
        return Ok(());
    }
    let access_key = &state.config.gated_access_key;
    if access_key.as_str().is_empty() {
        if state.config.is_configured() || state.config.is_tts_configured() {
            return Ok(());
        }
        return Err(api_error(401, "Direct API access is disabled. Use the web interface."));
    }
    verify_bearer(auth, access_key.as_str())
}

/// The input character limit for a request: by its session's tier (free
/// and gated tiers have configured limits, BYOK is unlimited); a request
/// authenticated with the gated access key gets the gated limit; anything
/// else is unlimited.
pub open spec fn char_limit_for(
    sessions: Map<Seq<char>, CredView>,
    c: AppConfig,
    a: RequestAuth,
) -> Option<usize> {
    match session_of(sessions, a) {
        Some(cr) => match cr.2 {
            SessionTier::Free => c.free_tier_char_limit,
            SessionTier::Gated => c.gated_char_limit,
            SessionTier::Byok => None,
        },
        None => if c.gated_access_key@.len() > 0 && auth_bearer(a) == c.gated_access_key@ {
            c.gated_char_limit
        } else {
            None
        },
    }
}

/// Returns the character limit for the request, or `None` for unlimited.
pub fn get_char_limit(state: &ServerState, sessions: &SessionStore, auth: &RequestAuth) -> (r:
    Option<usize>)
    requires
        sessions.wf(),
    ensures
        r == char_limit_for(sessions.view(), state.config, *auth),
{
    if let Some(creds) = session_lookup(sessions, auth) {
        return match creds.tier {
            SessionTier::Free => state.config.free_tier_char_limit,
            SessionTier::Gated => state.config.gated_char_limit,
            SessionTier::Byok => None,
        };
    }
    let access_key = &state.config.gated_access_key;
    if !access_key.as_str().is_empty() && verify_bearer(auth, access_key.as_str()).is_ok() {
        return state.config.gated_char_limit;
    }
    None
}

/// Endpoint (trailing slashes removed) and key of a client.
pub open spec fn client_view(c: OpenAiClient) -> (Seq<char>, Seq<char>) {
    (c.base_url@, c.api_key@)
}

/// The client built from an endpoint and key.
pub open spec fn creds_client(endpoint: Seq<char>, key: Seq<char>) -> (Seq<char>, Seq<char>) {
    (endpoint.take(trail_c(endpoint, '/', endpoint.len() as int)), key)
}

pub open spec fn opt_client(c: Option<OpenAiClient>) -> Option<(Seq<char>, Seq<char>)> {
    match c {
        Some(x) => Some(client_view(x)),
        None => None,
    }
}

/// Both per-request credentials are present and non-empty.
pub open spec fn request_creds(endpoint: Option<Seq<char>>, api_key: Option<Seq<char>>) -> Option<
    (Seq<char>, Seq<char>),
> {
    match (endpoint, api_key) {
        (Some(e), Some(k)) => if e.len() > 0 && k.len() > 0 {
            Some(creds_client(e, k))
        } else {
            None
        },
        _ => None,
    }
}

/// The backend serving a request. A session dispatches by tier (free: the
/// server's backend; gated: the gated backend if any; BYOK: its own
/// credentials). Without a session: personal mode uses the server's
/// backend when it has credentials; gated mode requires the access key as
/// bearer token and then prefers per-request credentials, the gated
/// backend, and the server's backend, in that order.
pub open spec fn client_for(
    sessions: Map<Seq<char>, CredView>,
    s: ServerState,
    endpoint: Option<Seq<char>>,
    api_key: Option<Seq<char>>,
    a: RequestAuth,
) -> Result<(Seq<char>, Seq<char>), (u16, Seq<char>)> {
    match session_of(sessions, a) {
        Some(cr) => match cr.2 {
            SessionTier::Free => Ok(client_view(s.client)),
            SessionTier::Gated => match opt_client(s.gated_client) {
                Some(g) => Ok(g),
                None => Ok(client_view(s.client)),
            },
            SessionTier::Byok => Ok(creds_client(cr.0, cr.1)),
        },
        None => if s.config.gated_access_key@.len() == 0 {
            if server_configured(s.config) {
                Ok(client_view(s.client))
            } else {
                Err(
                    (
                        401,
                        "No API credentials configured. Please set up your endpoint via the web interface."@,
                    ),
                )
            }
        } else if auth_bearer(a).len() == 0 {
            Err(
                (
                    401,
                    "Authentication required. Provide a Bearer token or use the web interface."@,
                ),
            )
        } else if auth_bearer(a) != s.config.gated_access_key@ {
            Err((401, "Invalid access key."@))
        } else if request_creds(endpoint, api_key) is Some {
            Ok(request_creds(endpoint, api_key)->0)
        } else if s.gated_client is Some {
            Ok(opt_client(s.gated_client)->0)
        } else if server_configured(s.config) {
            Ok(client_view(s.client))
        } else {
            Err((400, "No API credentials configured. Provide endpoint and api_key in the request."@))
        },
    }
}

pub open spec fn opt_ref_view(o: Option<&str>) -> Option<Seq<char>> {
    match o {
        Some(s) => Some(s@),
        None => None,
    }
}

fn overlay_client(endpoint: Option<&str>, api_key: Option<&str>) -> (r: Option<OpenAiClient>)
    ensures
        opt_client(r) == request_creds(opt_ref_view(endpoint), opt_ref_view(api_key)),
{
    if let (Some(ep), Some(key)) = (endpoint, api_key) {
        if !ep.is_empty() && !key.is_empty() {
            return Some(OpenAiClient::with_credentials(ep, key));
        }
    }
    None
}

/// Resolves the backend for a request (see [`client_for`]).
pub fn resolve_client(
    state: &ServerState,
    sessions: &SessionStore,
    endpoint: Option<&str>,
    api_key: Option<&str>,
    auth: &RequestAuth,
) -> (r: Result<OpenAiClient, ApiError>)
    requires
        sessions.wf(),
    ensures
        match r {
            Ok(c) => client_for(
                sessions.view(),
                *state,
                opt_ref_view(endpoint),
                opt_ref_view(api_key),
                *auth,
            ) == Ok::<(Seq<char>, Seq<char>), (u16, Seq<char>)>(client_view(c)),
            Err(e) => client_for(
                sessions.view(),
                *state,
                opt_ref_view(endpoint),
                opt_ref_view(api_key),
                *auth,
            ) == Err::<(Seq<char>, Seq<char>), (u16, Seq<char>)>(err_view(e)),
        },
{
    if let Some(creds) = session_lookup(sessions, auth) {
        return match creds.tier {
            SessionTier::Free => Ok(state.client.duplicate()),
            SessionTier::Gated => match &state.gated_client {
                Some(g) => Ok(g.duplicate()),
                None => Ok(state.client.duplicate()),
            },
            SessionTier::Byok => Ok(
                OpenAiClient::with_credentials(creds.endpoint.as_str(), creds.api_key.as_str()),
            ),
        };
    }
    let access_key = &state.config.gated_access_key;
    if access_key.as_str().is_empty() {
        if state.config.is_configured() {
            return Ok(state.client.duplicate());
        }
        return Err(
            api_error(
                401,
                "No API credentials configured. Please set up your endpoint via the web interface.",
            ),
        );
    }
    let provided = request_bearer(auth);
    if provided.as_str().is_empty() {
        return Err(
            api_error(
                401,
                "Authentication required. Provide a Bearer token or use the web interface.",
            ),
        );
    }
    if !ct_eq_str(provided.as_str(), access_key.as_str()) {
        return Err(api_error(401, "Invalid access key."));
    }
    if let Some(c) = overlay_client(endpoint, api_key) {
        return Ok(c);
    }
    if let Some(g) = &state.gated_client {
        return Ok(g.duplicate());
    }
    if state.config.is_configured() {
        return Ok(state.client.duplicate());
    }
    Err(api_error(400, "No API credentials configured. Provide endpoint and api_key in the request."))
}

/// Like [`client_for`], but a gated session may overlay its own translation
/// endpoint with per-request credentials.
pub open spec fn translation_client_for(
    sessions: Map<Seq<char>, CredView>,
    s: ServerState,
    endpoint: Option<Seq<char>>,
    api_key: Option<Seq<char>>,
    a: RequestAuth,
) -> Result<(Seq<char>, Seq<char>), (u16, Seq<char>)> {
    match session_of(sessions, a) {
        Some(cr) => if cr.2 == SessionTier::Gated && request_creds(endpoint, api_key) is Some {
            Ok(request_creds(endpoint, api_key)->0)
        } else {
            client_for(sessions, s, endpoint, api_key, a)
        },
        None => client_for(sessions, s, endpoint, api_key, a),
    }
}

/// Resolves the translation backend (see [`translation_client_for`]).
pub fn resolve_translation_client(
    state: &ServerState,
    sessions: &SessionStore,
    endpoint: Option<&str>,
    api_key: Option<&str>,
    auth: &RequestAuth,
) -> (r: Result<OpenAiClient, ApiError>)
    requires
        sessions.wf(),
    ensures
        match r {
            Ok(c) => translation_client_for(
                sessions.view(),
                *state,
                opt_ref_view(endpoint),
                opt_ref_view(api_key),
                *auth,
            ) == Ok::<(Seq<char>, Seq<char>), (u16, Seq<char>)>(client_view(c)),
            Err(e) => translation_client_for(
                sessions.view(),
                *state,
                opt_ref_view(endpoint),
                opt_ref_view(api_key),
                *auth,
            ) == Err::<(Seq<char>, Seq<char>), (u16, Seq<char>)>(err_view(e)),
        },
{
    if let Some(creds) = session_lookup(sessions, auth) {
        if creds.tier == SessionTier::Gated {
            if let Some(c) = overlay_client(endpoint, api_key) {
                return Ok(c);
            }
        }
    }
    resolve_client(state, sessions, endpoint, api_key, auth)
}

/// The text-to-speech backend: per-request credentials first, then the
/// server's TTS backend.
pub open spec fn tts_client_for(
    s: ServerState,
    endpoint: Option<Seq<char>>,
    api_key: Option<Seq<char>>,
) -> Result<(Seq<char>, Seq<char>), (u16, Seq<char>)> {
    if request_creds(endpoint, api_key) is Some {
        Ok(request_creds(endpoint, api_key)->0)
    } else if s.tts_client is Some {
        Ok(opt_client(s.tts_client)->0)
    } else {
        Err(
            (
                404,
                "No TTS backend configured. Provide tts_endpoint and tts_api_key in the request or configure TTS_API_BASE_URL on the server."@,
            ),
        )
    }
}

/// Resolves the text-to-speech backend (see [`tts_client_for`]).
pub fn resolve_tts_client(
    state: &ServerState,
    tts_endpoint: Option<&str>,
    tts_api_key: Option<&str>,
) -> (r: Result<OpenAiClient, ApiError>)
    ensures
        match r {
            Ok(c) => tts_client_for(*state, opt_ref_view(tts_endpoint), opt_ref_view(tts_api_key))
                == Ok::<(Seq<char>, Seq<char>), (u16, Seq<char>)>(client_view(c)),
            Err(e) => tts_client_for(
                *state,
                opt_ref_view(tts_endpoint),
                opt_ref_view(tts_api_key),
            ) == Err::<(Seq<char>, Seq<char>), (u16, Seq<char>)>(err_view(e)),
        },
{
    if let Some(c) = overlay_client(tts_endpoint, tts_api_key) {
        return Ok(c);
    }
    if let Some(tc) = &state.tts_client {
        return Ok(tc.duplicate());
    }
    Err(
        api_error(
            404,
            "No TTS backend configured. Provide tts_endpoint and tts_api_key in the request or configure TTS_API_BASE_URL on the server.",
        ),
    )
}

// ───────────────────────────── status and cookies ──────────────────────────

/// The tier a request is treated as for status display: its session's tier,
/// or the gated tier for a valid access key as bearer token.
pub open spec fn status_tier(
    sessions: Map<Seq<char>, CredView>,
    c: AppConfig,
    a: RequestAuth,
) -> Option<SessionTier> {
    match session_of(sessions, a) {
        Some(cr) => Some(cr.2),
        None => if c.gated_access_key@.len() > 0 && auth_bearer(a) == c.gated_access_key@ {
            Some(SessionTier::Gated)
        } else {
            None
        },
    }
}

/// The tier of the request for the status report.
pub fn session_tier_for_status(state: &ServerState, sessions: &SessionStore, auth: &RequestAuth) -> (r:
    Option<SessionTier>)
    requires
        sessions.wf(),
    ensures
        r == status_tier(sessions.view(), state.config, *auth),
{
    if let Some(creds) = session_lookup(sessions, auth) {
        return Some(creds.tier);
    }
    let key = &state.config.gated_access_key;
    if !key.as_str().is_empty() && verify_bearer(auth, key.as_str()).is_ok() {
        return Some(SessionTier::Gated);
    }
    None
}

/// The name of a tier in the status report.
pub fn tier_name(tier: SessionTier) -> (r: String)
    ensures
        r@ == match tier {
            SessionTier::Free => "free"@,
            SessionTier::Byok => "byok"@,
            SessionTier::Gated => "gated"@,
        },
{
    match tier {
        SessionTier::Free => string_of(chars_of("free").as_slice()),
        SessionTier::Byok => string_of(chars_of("byok").as_slice()),
        SessionTier::Gated => string_of(chars_of("gated").as_slice()),
    }
}

/// The character limit shown in the status report: the free or gated limit
/// for those tiers, unlimited otherwise.
pub fn status_char_limit(config: &AppConfig, tier: Option<SessionTier>) -> (r: Option<usize>)
    ensures
        r == match tier {
            Some(SessionTier::Free) => config.free_tier_char_limit,
            Some(SessionTier::Gated) => config.gated_char_limit,
            _ => None,
        },
{
    match tier {
        Some(SessionTier::Free) => config.free_tier_char_limit,
        Some(SessionTier::Gated) => config.gated_char_limit,
        _ => None,
    }
}

/// Whether loading the page should open an anonymous free-tier session:
/// only in gated mode with server credentials, and only for a browser
/// without a valid session.
pub fn needs_free_session(state: &ServerState, sessions: &SessionStore, auth: &RequestAuth) -> (r:
    bool)
    requires
        sessions.wf(),
    ensures
        r == (state.config.gated_api_base_url@.len() > 0 && state.config.gated_api_key@.len() > 0
            && state.config.gated_access_key@.len() > 0 && server_configured(state.config)
            && session_of(sessions.view(), *auth) is None),
{
    state.config.is_gated_configured() && state.config.is_configured() && session_lookup(
        sessions,
        auth,
    ).is_none()
}

/// `COOKIE_SECURE` is `1` or `true` (any ASCII case).
pub fn cookie_secure(setting: Option<&str>) -> (r: bool)
    ensures
        r == match setting {
            Some(v) => v@ == seq!['1'] || eq_ignore_ascii_case(v@, seq!['t', 'r', 'u', 'e']),
            None => false,
        },
{
    match setting {
        Some(v) => {
            let c = chars_of(v);
            let one: [char; 1] = ['1'];
            let t: [char; 4] = ['t', 'r', 'u', 'e'];
            assert(one@ =~= seq!['1']);
            assert(t@ =~= seq!['t', 'r', 'u', 'e']);
            chars_eq(c.as_slice(), one.as_slice()) || eq_ignore_ascii_case_chars(
                c.as_slice(),
                t.as_slice(),
            )
        },
        None => false,
    }
}

/// The `Set-Cookie` value for a session: path-wide, strict same-site,
/// HTTP-only, and `Secure` when requested; no `Max-Age`, so it ends with
/// the browser session.
pub fn make_session_cookie(sid: &str, secure: bool) -> (r: String)
    ensures
        r@ == "sid="@ + sid@ + if secure {
            "; Path=/; SameSite=Strict; HttpOnly; Secure"@
        } else {
            "; Path=/; SameSite=Strict; HttpOnly"@
        },
{
    let mut out: Vec<char> = Vec::new();
    push_str(&mut out, "sid=");
    push_str(&mut out, sid);
    if secure {
        push_str(&mut out, "; Path=/; SameSite=Strict; HttpOnly; Secure");
    } else {
        push_str(&mut out, "; Path=/; SameSite=Strict; HttpOnly");
    }
    string_of(out.as_slice())
}

/// The voice and model for speech in `lang`: the entry configured for that
/// language; a language with no voice is refused (HTTP 400).
pub fn tts_voice_entry<'a>(config: &'a AppConfig, lang: &str) -> (r: Result<&'a TtsVoiceEntry, ApiError>)
    ensures
        r matches Ok(e) ==> exists|i: int|
            0 <= i < config.tts_voice_map@.len() && (#[trigger] config.tts_voice_map@[i]).0@ == lang@
                && config.tts_voice_map@[i].1 == *e,
        r is Err <==> forall|i: int|
            0 <= i < config.tts_voice_map@.len() ==> (#[trigger] config.tts_voice_map@[i]).0@ != lang@,
        r matches Err(e) ==> err_view(e) == (400u16, "No TTS voice configured for language: "@ + lang@),
{
    match config.voice_for(lang) {
        Some(e) => Ok(e),
        None => {
            let mut out: Vec<char> = Vec::new();
            push_str(&mut out, "No TTS voice configured for language: ");
            push_str(&mut out, lang);
            Err(ApiError { status: 400, error: string_of(out.as_slice()) })
        },
    }
}

/// Rejects input longer than the tier's limit (HTTP 413).
pub fn check_char_limit(len: usize, limit: Option<usize>) -> (r: Result<(), ApiError>)
    ensures
        match r {
            Ok(()) => match limit {
                Some(l) => len <= l,
                None => true,
            },
            Err(e) => match limit {
                Some(l) => len > l && err_view(e) == (
                    413u16,
                    "Input is "@ + dec_str(len as nat) + " characters, which exceeds the "@
                        + dec_str(l as nat) + "-character limit for your access tier."@,
                ),
                None => false,
            },
        },
{
    match limit {
        Some(l) => if len > l {
            let mut out: Vec<char> = Vec::new();
            push_str(&mut out, "Input is ");
            push_decimal(&mut out, len);
            push_str(&mut out, " characters, which exceeds the ");
            push_decimal(&mut out, l);
            push_str(&mut out, "-character limit for your access tier.");
            Err(ApiError { status: 413, error: string_of(out.as_slice()) })
        } else {
            Ok(())
        },
        None => Ok(()),
    }
}

// ───────────────────────────── issuing sessions ────────────────────────────

/// Checks a gated-access request: the gated tier must be configured (else
/// HTTP 404) and the key must match the configured access key, compared in
/// constant time (else HTTP 401).
pub fn check_gated_access(config: &AppConfig, access_key: &str) -> (r: Result<(), ApiError>)
    ensures
        !(config.gated_api_base_url@.len() > 0 && config.gated_api_key@.len() > 0
            && config.gated_access_key@.len() > 0) ==> (r matches Err(e) && err_view(e) == (
            404u16,
            "Gated tier is not configured on this server"@,
        )),
        (config.gated_api_base_url@.len() > 0 && config.gated_api_key@.len() > 0
            && config.gated_access_key@.len() > 0) ==> if access_key@ == config.gated_access_key@ {
            r is Ok
        } else {
            r matches Err(e) && err_view(e) == (401u16, "Invalid access key"@)
        },
{
    if !config.is_gated_configured() {
        return Err(api_error(404, "Gated tier is not configured on this server"));
    }
    if !ct_eq_str(access_key, config.gated_access_key.as_str()) {
        return Err(api_error(401, "Invalid access key"));
    }
    Ok(())
}

/// The credentials of a gated session: the configured gated backend.
pub fn gated_credentials(config: &AppConfig) -> (r: SessionCredentials)
    ensures
        cred_view(r) == (config.gated_api_base_url@, config.gated_api_key@, SessionTier::Gated),
{
    SessionCredentials {
        endpoint: config.gated_api_base_url.clone(),
        api_key: config.gated_api_key.clone(),
        tier: SessionTier::Gated,
    }
}

/// Checks the body of a connection test: both the endpoint and the key are
/// required (else HTTP 400).
pub fn check_config_request(endpoint: &str, api_key: &str) -> (r: Result<(), ApiError>)
    ensures
        r is Ok <==> (endpoint@.len() > 0 && api_key@.len() > 0),
        r matches Err(e) ==> err_view(e) == (400u16, "endpoint and api_key are required"@),
{
    if endpoint.is_empty() || api_key.is_empty() {
        Err(api_error(400, "endpoint and api_key are required"))
    } else {
        Ok(())
    }
}

/// The credentials of a session opened with the caller's own endpoint.
pub fn byok_credentials(endpoint: &str, api_key: &str) -> (r: SessionCredentials)
    ensures
        cred_view(r) == (endpoint@, api_key@, SessionTier::Byok),
{
    SessionCredentials {
        endpoint: string_of(chars_of(endpoint).as_slice()),
        api_key: string_of(chars_of(api_key).as_slice()),
        tier: SessionTier::Byok,
    }
}

/// What a connection test concludes from the backend's status: success,
/// a refused key (401 or 403), or another failure.
#[derive(Clone, Copy, PartialEq, Eq, Structural, Debug)]
pub enum ConnectionCheck {
    Reachable,
    InvalidKey,
    Failed,
}

/// Classifies the status of the backend's model list.
pub fn connection_check(status: u16) -> (r: ConnectionCheck)
    ensures
        r == if 200 <= status < 300 {
            ConnectionCheck::Reachable
        } else if status == 401 || status == 403 {
            ConnectionCheck::InvalidKey
        } else {
            ConnectionCheck::Failed
        },
{
    if 200 <= status && status < 300 {
        ConnectionCheck::Reachable
    } else if status == 401 || status == 403 {
        ConnectionCheck::InvalidKey
    } else {
        ConnectionCheck::Failed
    }
}

} // verus!
