//! Account import: the importers' settings, credential and client-version checks, and the
//! choice between the stored client version and a freshly discovered one.
use vstd::prelude::*;
use crate::protobuf::{ImportError, Persist};
use crate::text::{is_control, is_control_spec, is_digit_spec, str_chars, trim, trim_spec};

verus! {

/// An account error with a message for the user.
pub fn fail(message: &str) -> (r: ImportError)
    ensures
        r matches ImportError::Account(m) && m@ == message@,
{
    ImportError::Account(message.to_owned())
}

/// The platform an account plays on.
#[derive(Debug, Clone, Copy, PartialEq, Eq, Structural)]
pub enum AccountChannel {
    Android,
    Ios,
}

impl AccountChannel {
    /// Channel id, platform id and client platform name sent to the game server.
    pub fn game(self) -> (r: (&'static str, &'static str, &'static str))
        ensures
            self == AccountChannel::Android ==> r.0@ == "1"@ && r.1@ == "2"@ && r.2@ == "Android"@,
            self == AccountChannel::Ios ==> r.0@ == "1000"@ && r.1@ == "1"@ && r.2@ == "iOS"@,
    {
        match self {
            AccountChannel::Android => ("1", "2", "Android"),
            AccountChannel::Ios => ("1000", "1", "iOS"),
        }
    }

    /// The device id the SDK login sends for the platform.
    pub fn bd_id(self) -> (r: &'static str)
        ensures
            self == AccountChannel::Android ==> r@ == "ec85a677-2f0e-4121-951f-da641cef481a-2ec55091-9b91-4687-a50b-6cc"@,
            self == AccountChannel::Ios ==> r@ == "801dec5f-93c9-4e0d-9aea-03db2d57da4b-72e7c926-9d82-498b-99c9-a54"@,
    {
        match self {
            AccountChannel::Android => "ec85a677-2f0e-4121-951f-da641cef481a-2ec55091-9b91-4687-a50b-6cc",
            AccountChannel::Ios => "801dec5f-93c9-4e0d-9aea-03db2d57da4b-72e7c926-9d82-498b-99c9-a54",
        }
    }
}

/// Login credentials of an account.
pub struct CredentialImportRequest {
    pub account: String,
    pub password: String,
    pub channel: AccountChannel,
}

/// Bytes of one character in UTF-8.
pub open spec fn utf8_width(c: char) -> int {
    if (c as u32) < 0x80 { 1 } else if (c as u32) < 0x800 { 2 } else if (c as u32) < 0x10000 { 3 } else { 4 }
}

/// Length of a string in UTF-8 bytes.
pub open spec fn byte_len(s: Seq<char>) -> int
    decreases s.len(),
{
    if s.len() == 0 { 0 } else { byte_len(s.drop_last()) + utf8_width(s.last()) }
}

proof fn lemma_byte_len_prefix_monotone(s: Seq<char>, k: int)
    requires
        0 <= k <= s.len(),
    ensures
        byte_len(s.subrange(0, k)) <= byte_len(s),
    decreases s.len() - k,
{
    if k < s.len() {
        lemma_byte_len_prefix_monotone(s, k + 1);
        assert(s.subrange(0, k + 1).drop_last() =~= s.subrange(0, k));
    } else {
        assert(s.subrange(0, k) =~= s);
    }
}

/// The number of bytes a string takes in UTF-8.
pub(crate) fn utf8_byte_len(s: &Vec<char>) -> (r: u128)
    ensures
        r == byte_len(s@),
{
    let mut total: u128 = 0;
    let mut i: usize = 0;
    while i < s.len()
        invariant
            i <= s@.len(),
            total == byte_len(s@.subrange(0, i as int)),
            total <= 4 * i,
        decreases s@.len() - i,
    {
        let c = s[i] as u32;
        let w: u128 = if c < 0x80 { 1 } else if c < 0x800 { 2 } else if c < 0x10000 { 3 } else { 4 };
        proof { assert(s@.subrange(0, i + 1).drop_last() =~= s@.subrange(0, i as int)); }
        total = total + w;
        i = i + 1;
    }
    proof { assert(s@.subrange(0, s@.len() as int) =~= s@); }
    total
}

/// Whether a string takes more than `limit` bytes in UTF-8.
fn utf8_len_exceeds(s: &Vec<char>, limit: usize) -> (r: bool)
    ensures
        r == (byte_len(s@) > limit),
{
    let mut total: usize = 0;
    let mut i: usize = 0;
    while i < s.len()
        invariant
            i <= s@.len(),
            total as int == byte_len(s@.subrange(0, i as int)),
            total <= limit,
        decreases s@.len() - i,
    {
        let u = s[i] as u32;
        let w: usize = if u < 0x80 { 1 } else if u < 0x800 { 2 } else if u < 0x10000 { 3 } else { 4 };
        proof {
            assert(s@.subrange(0, i + 1).drop_last() =~= s@.subrange(0, i as int));
        }
        if w > limit - total {
            proof { lemma_byte_len_prefix_monotone(s@, i + 1); }
            return true;
        }
        total = total + w;
        i = i + 1;
    }
    proof { assert(s@.subrange(0, i as int) =~= s@); }
    false
}

/// Some character is a control character.
pub open spec fn any_control(s: Seq<char>) -> bool {
    exists|i: int| 0 <= i < s.len() && #[trigger] is_control_spec(s[i])
}

/// A usable account name: not blank, at most 320 bytes, no control characters.
pub open spec fn valid_account(account: Seq<char>) -> bool {
    trim_spec(account).len() > 0 && byte_len(account) <= 320 && !any_control(account)
}

/// A usable password: not empty, at most 1024 bytes.
pub open spec fn valid_password(password: Seq<char>) -> bool {
    password.len() > 0 && byte_len(password) <= 1024
}

fn has_control(s: &Vec<char>) -> (r: bool)
    ensures
        r == any_control(s@),
{
    let mut i: usize = 0;
    while i < s.len()
        invariant
            i <= s@.len(),
            forall|k: int| 0 <= k < i ==> !#[trigger] is_control_spec(s@[k]),
        decreases s@.len() - i,
    {
        if is_control(s[i]) {
            proof { assert(is_control_spec(s@[i as int])); }
            return true;
        }
        i = i + 1;
    }
    false
}

impl CredentialImportRequest {
    /// Checks the credentials before anything is sent.
    pub fn validate(&self) -> (r: Result<(), ImportError>)
        ensures
            !valid_account(self.account@) ==> (r matches Err(ImportError::Account(m)) && m@ == "请输入有效的 Bilibili 账号"@),
            valid_account(self.account@) && !valid_password(self.password@)
                ==> (r matches Err(ImportError::Account(m)) && m@ == "请输入有效的密码"@),
            valid_account(self.account@) && valid_password(self.password@) ==> r is Ok,
    {
        let account = str_chars(self.account.as_str());
        if trim(&account).len() == 0 || utf8_len_exceeds(&account, 320) || has_control(&account) {
            return Err(fail("请输入有效的 Bilibili 账号"));
        }
        let password = str_chars(self.password.as_str());
        if password.len() == 0 || utf8_len_exceeds(&password, 1024) {
            return Err(fail("请输入有效的密码"));
        }
        Ok(())
    }
}

/// The outcome of a credential import: the player's configuration, game id, name, rank and
/// platform.
#[derive(Debug, Clone, PartialEq, Eq)]
pub struct CredentialImportResult<P> {
    pub player: P,
    pub game_uid: u64,
    pub name: String,
    pub rank: u64,
    pub channel: AccountChannel,
}

/// The game client's version numbers.
#[derive(Debug, Clone, PartialEq, Eq)]
pub struct ClientVersion {
    pub client: String,
    pub code: String,
    pub unity: String,
}

/// How many times `c` occurs in `s`.
pub open spec fn count_char(s: Seq<char>, c: char) -> int
    decreases s.len(),
{
    if s.len() == 0 {
        0
    } else {
        count_char(s.drop_last(), c) + if s.last() == c { 1int } else { 0int }
    }
}

/// A dotted version: three to eight non-empty runs of ASCII digits joined by dots, shorter
/// than 64 bytes. Put in terms of characters: only digits and dots, no dot first, last or
/// next to another, two to seven dots.
pub open spec fn dotted_version_spec(s: Seq<char>) -> bool {
    &&& s.len() > 0
    &&& s.len() < 64
    &&& forall|i: int| 0 <= i < s.len() ==> (#[trigger] is_digit_spec(s[i]) || s[i] == '.')
    &&& s[0] != '.'
    &&& s.last() != '.'
    &&& forall|i: int| 0 <= i < s.len() - 1 ==> !(#[trigger] s[i] == '.' && s[i + 1] == '.')
    &&& 2 <= count_char(s, '.') <= 7
}

/// Whether a string is a dotted version number.
pub fn dotted_version(s: &str) -> (r: bool)
    ensures
        r == dotted_version_spec(s@),
{
    let chars = str_chars(s);
    let n = chars.len();
    if n == 0 || n >= 64 {
        return false;
    }
    let mut dots: usize = 0;
    let mut i: usize = 0;
    while i < n
        invariant
            chars@ == s@,
            n == chars@.len(),
            0 < n < 64,
            i <= n,
            dots as int == count_char(chars@.subrange(0, i as int), '.'),
            dots <= i,
            forall|k: int| 0 <= k < i ==> (#[trigger] is_digit_spec(chars@[k]) || chars@[k] == '.'),
            forall|k: int| 0 <= k < i - 1 ==> !(#[trigger] chars@[k] == '.' && chars@[k + 1] == '.'),
            i > 0 ==> chars@[0] != '.',
        decreases n - i,
    {
        let c = chars[i];
        proof {
            assert(chars@.subrange(0, i + 1).drop_last() =~= chars@.subrange(0, i as int));
        }
        if c == '.' {
            if i == 0 || chars[i - 1] == '.' {
                proof {
                    if i > 0 {
                        assert(chars@[i - 1] == '.' && chars@[i as int] == '.');
                    }
                }
                return false;
            }
            dots = dots + 1;
        } else if !('0' <= c && c <= '9') {
            proof { assert(!(is_digit_spec(chars@[i as int]) || chars@[i as int] == '.')); }
            return false;
        }
        i = i + 1;
    }
    proof { assert(chars@.subrange(0, n as int) =~= chars@); }
    chars[n - 1] != '.' && 2 <= dots && dots <= 7
}

/// Every character is an ASCII digit.
pub open spec fn ascii_digits(s: Seq<char>) -> bool {
    forall|i: int| 0 <= i < s.len() ==> #[trigger] is_digit_spec(s[i])
}

/// An ASCII letter, digit or dot.
pub open spec fn alnum_or_dot(c: char) -> bool {
    ('0' <= c <= '9') || ('a' <= c <= 'z') || ('A' <= c <= 'Z') || c == '.'
}

/// A usable client version: a dotted client version, a version code of one to fifteen ASCII
/// digits, and a Unity version of 8 to 64 ASCII letters, digits and dots starting with "20".
pub open spec fn client_version_ok(client: Seq<char>, code: Seq<char>, unity: Seq<char>) -> bool {
    &&& dotted_version_spec(client)
    &&& 0 < code.len() < 16
    &&& ascii_digits(code)
    &&& 8 <= unity.len() <= 64
    &&& unity.len() >= 2 && unity[0] == '2' && unity[1] == '0'
    &&& forall|i: int| 0 <= i < unity.len() ==> #[trigger] alnum_or_dot(unity[i])
}

pub(crate) fn all_ascii_digits(s: &Vec<char>) -> (r: bool)
    ensures
        r == ascii_digits(s@),
{
    let mut i: usize = 0;
    while i < s.len()
        invariant
            i <= s@.len(),
            forall|k: int| 0 <= k < i ==> #[trigger] is_digit_spec(s@[k]),
        decreases s@.len() - i,
    {
        if !('0' <= s[i] && s[i] <= '9') {
            proof { assert(!is_digit_spec(s@[i as int])); }
            return false;
        }
        i = i + 1;
    }
    true
}

pub(crate) fn all_alnum_or_dot(s: &Vec<char>) -> (r: bool)
    ensures
        r == (forall|i: int| 0 <= i < s@.len() ==> #[trigger] alnum_or_dot(s@[i])),
{
    let mut i: usize = 0;
    while i < s.len()
        invariant
            i <= s@.len(),
            forall|k: int| 0 <= k < i ==> #[trigger] alnum_or_dot(s@[k]),
        decreases s@.len() - i,
    {
        let c = s[i];
        if !(('0' <= c && c <= '9') || ('a' <= c && c <= 'z') || ('A' <= c && c <= 'Z') || c == '.') {
            proof { assert(!alnum_or_dot(s@[i as int])); }
            return false;
        }
        i = i + 1;
    }
    true
}

impl ClientVersion {
    /// Checks the version numbers before they are sent or stored.
    pub fn validate(&self) -> (r: Result<(), ImportError>)
        ensures
            client_version_ok(self.client@, self.code@, self.unity@) ==> r is Ok,
            !client_version_ok(self.client@, self.code@, self.unity@)
                ==> (r matches Err(ImportError::Account(m)) && m@ == "国服客户端版本配置格式异常"@),
    {
        let code = str_chars(self.code.as_str());
        let unity = str_chars(self.unity.as_str());
        if !dotted_version(self.client.as_str()) || code.len() == 0 || code.len() >= 16
            || !all_ascii_digits(&code) || unity.len() < 8 || unity.len() > 64
            || !(unity[0] == '2' && unity[1] == '0') || !all_alnum_or_dot(&unity) {
            return Err(fail("国服客户端版本配置格式异常"));
        }
        Ok(())
    }
}

/// What a refresh answers: the discovered version when it is found, passes its own check
/// and `validate`, and is saved; else the first error on the way.
pub open spec fn refreshed_version<T, V, D, S>(validate: V, discover: D, save: S, r: Result<(ClientVersion, T), ImportError>) -> bool
    where
        V: Fn(&ClientVersion) -> Result<T, ImportError>,
        D: FnOnce() -> Result<ClientVersion, ImportError>,
        S: FnOnce(&ClientVersion) -> Result<(), ImportError>,
{
    exists|found: Result<ClientVersion, ImportError>| #[trigger] discover.ensures((), found) && match found {
        Err(e) => r == Err::<(ClientVersion, T), ImportError>(e),
        Ok(v) => if !client_version_ok(v.client@, v.code@, v.unity@) {
            r matches Err(ImportError::Account(m)) && m@ == "国服客户端版本配置格式异常"@
        } else {
            exists|checked: Result<T, ImportError>| #[trigger] validate.ensures((&v,), checked) && match checked {
                Err(e) => r == Err::<(ClientVersion, T), ImportError>(e),
                Ok(t) => exists|saved: Result<(), ImportError>| #[trigger] save.ensures((&v,), saved) && match saved {
                    Err(e) => r == Err::<(ClientVersion, T), ImportError>(e),
                    Ok(()) => r == Ok::<(ClientVersion, T), ImportError>((v, t)),
                },
            }
        },
    }
}

/// Where the client version is stored.
#[derive(Debug, Clone, PartialEq, Eq)]
pub struct VersionConfig {
    pub path: String,
}

impl VersionConfig {
    /// The store at `path`.
    pub fn new(path: String) -> (r: Self)
        ensures
            r.path == path,
    {
        VersionConfig { path }
    }

    /// Picks the client version to log in with: the stored one when it loads and passes
    /// `validate`; otherwise a discovered one, which must pass its own check and `validate`
    /// before it is saved and used. A refresh that fails never replaces the stored version.
    pub fn resolve<T, L, V, D, S>(&self, load: L, validate: V, discover: D, save: S) -> (r: Result<(ClientVersion, T), ImportError>)
        where
            L: FnOnce() -> Result<ClientVersion, ImportError>,
            V: Fn(&ClientVersion) -> Result<T, ImportError>,
            D: FnOnce() -> Result<ClientVersion, ImportError>,
            S: FnOnce(&ClientVersion) -> Result<(), ImportError>,
        requires
            load.requires(()),
            forall|v: &ClientVersion| #[trigger] validate.requires((v,)),
            discover.requires(()),
            forall|v: &ClientVersion| #[trigger] save.requires((v,)),
        ensures
            exists|loaded: Result<ClientVersion, ImportError>| #[trigger] load.ensures((), loaded) && match loaded {
                Err(_) => refreshed_version(validate, discover, save, r),
                Ok(v) => exists|checked: Result<T, ImportError>| #[trigger] validate.ensures((&v,), checked) && match checked {
                    Ok(t) => r == Ok::<(ClientVersion, T), ImportError>((v, t)),
                    Err(_) => refreshed_version(validate, discover, save, r),
                },
            },
    {
        let loaded = load();
        match loaded {
            Ok(version) => {
                let checked = validate(&version);
                match checked {
                    Ok(application) => return Ok((version, application)),
                    Err(_) => {},
                }
                let r = self.refresh(validate, discover, save);
                proof {
                    assert(validate.ensures((&version,), checked));
                }
                r
            },
            Err(_) => self.refresh(validate, discover, save),
        }
    }

    fn refresh<T, V, D, S>(&self, validate: V, discover: D, save: S) -> (r: Result<(ClientVersion, T), ImportError>)
        where
            V: Fn(&ClientVersion) -> Result<T, ImportError>,
            D: FnOnce() -> Result<ClientVersion, ImportError>,
            S: FnOnce(&ClientVersion) -> Result<(), ImportError>,
        requires
            forall|v: &ClientVersion| #[trigger] validate.requires((v,)),
            discover.requires(()),
            forall|v: &ClientVersion| #[trigger] save.requires((v,)),
        ensures
            refreshed_version(validate, discover, save, r),
    {
        proof { reveal_strlit("国服客户端版本配置格式异常"); }
        let found = discover();
        let version = match found {
            Ok(v) => v,
            Err(e) => {
                proof { assert(discover.ensures((), found)); }
                return Err(e);
            },
        };
        match version.validate() {
            Ok(()) => {},
            Err(e) => {
                proof { assert(discover.ensures((), found)); }
                return Err(e);
            },
        }
        let checked = validate(&version);
        let application = match checked {
            Ok(a) => a,
            Err(e) => {
                proof { assert(discover.ensures((), found)); assert(validate.ensures((&version,), checked)); }
                return Err(e);
            },
        };
        let saved = save(&version);
        proof {
            assert(discover.ensures((), found));
            assert(validate.ensures((&version,), checked));
            assert(save.ensures((&version,), saved));
        }
        match saved {
            Ok(()) => Ok((version, application)),
            Err(e) => Err(e),
        }
    }
}

/// The default place of the stored client version.
pub fn default_version_path() -> (r: String)
    ensures
        r@ == "var/bangdream-account/client-version.json"@,
{
    "var/bangdream-account/client-version.json".to_owned()
}

impl Default for VersionConfig {
    fn default() -> (r: Self)
        ensures
            r.path@ == "var/bangdream-account/client-version.json"@,
    {
        VersionConfig::new(default_version_path())
    }
}

/// Imports accounts by credentials; card episode data is read from `cards_dir`.
#[derive(Debug, Clone, PartialEq, Eq)]
pub struct CredentialImporter {
    pub cards_dir: Option<String>,
    pub versions: VersionConfig,
}

impl CredentialImporter {
    /// An importer with the default version store.
    pub fn new(cards_dir: Option<String>) -> (r: Self)
        ensures
            r.cards_dir == cards_dir,
            r.versions.path@ == "var/bangdream-account/client-version.json"@,
    {
        CredentialImporter { cards_dir, versions: VersionConfig::default() }
    }

    /// The same importer with its client version stored at `path`.
    pub fn with_version_config(self, path: String) -> (r: Self)
        ensures
            r.cards_dir == self.cards_dir,
            r.versions.path == path,
    {
        CredentialImporter { cards_dir: self.cards_dir, versions: VersionConfig::new(path) }
    }
}

impl Default for CredentialImporter {
    fn default() -> (r: Self)
        ensures
            r.cards_dir is None,
            r.versions.path@ == "var/bangdream-account/client-version.json"@,
    {
        CredentialImporter::new(None)
    }
}

/// Which player to import.
#[derive(Debug, Clone, Copy, PartialEq, Eq)]
pub struct ImportRequest {
    pub user_id: u64,
}

/// Imports a player's data with a stored device login; card episode ids found once are kept.
#[derive(Debug, Clone, PartialEq, Eq)]
pub struct BangDreamAccountImporter {
    persist_path: String,
    cards_dir: Option<String>,
    episode_ids_cache: Vec<(u64, [u64; 2])>,
}

/// The episode ids cached for `card_id`, the first entry for it.
pub open spec fn cached_ids(cache: Seq<(u64, [u64; 2])>, card_id: u64) -> Option<[u64; 2]>
    decreases cache.len(),
{
    if cache.len() == 0 {
        None
    } else if cache[0].0 == card_id {
        Some(cache[0].1)
    } else {
        cached_ids(cache.drop_first(), card_id)
    }
}

impl BangDreamAccountImporter {
    /// The stored login file.
    pub closed spec fn persist_path_spec(self) -> Seq<char> {
        self.persist_path@
    }

    /// Where card details are read from.
    pub closed spec fn cards_dir_spec(self) -> Option<Seq<char>> {
        match self.cards_dir {
            Some(d) => Some(d@),
            None => None,
        }
    }

    /// The episode ids kept for a card.
    pub closed spec fn cached(self, card_id: u64) -> Option<[u64; 2]> {
        cached_ids(self.episode_ids_cache@, card_id)
    }

    /// An importer using the login stored at `persist_path`, without card details.
    pub fn new(persist_path: String) -> (r: Result<Self, ImportError>)
        ensures
            r matches Ok(i) && i.persist_path_spec() == persist_path@ && i.cards_dir_spec() is None
                && forall|card: u64| #[trigger] i.cached(card) is None,
    {
        Ok(BangDreamAccountImporter { persist_path, cards_dir: None, episode_ids_cache: Vec::new() })
    }

    /// The same importer reading card details from `cards_dir`.
    pub fn with_cards_dir(self, cards_dir: Option<String>) -> (r: Self)
        ensures
            r.persist_path_spec() == self.persist_path_spec(),
            r.cards_dir_spec() == (match cards_dir { Some(d) => Some(d@), None => None::<Seq<char>> }),
            forall|card: u64| #[trigger] r.cached(card) == self.cached(card),
    {
        BangDreamAccountImporter {
            persist_path: self.persist_path,
            cards_dir,
            episode_ids_cache: self.episode_ids_cache,
        }
    }

    /// The stored login file.
    pub fn persist_path(&self) -> (r: &str)
        ensures
            r@ == self.persist_path_spec(),
    {
        self.persist_path.as_str()
    }

    /// The two episode ids of a card: cached when known; otherwise read with `load` from the
    /// cards directory (none without one) and cached when found.
    pub fn episode_ids_for_card<F: Fn(&str, u64) -> Option<[u64; 2]>>(&mut self, card_id: u64, load: F) -> (r: Option<[u64; 2]>)
        requires
            forall|dir: &str, card: u64| #[trigger] load.requires((dir, card)),
        ensures
            final(self).persist_path_spec() == old(self).persist_path_spec(),
            final(self).cards_dir_spec() == old(self).cards_dir_spec(),
            old(self).cached(card_id) matches Some(ids) ==> r == Some(ids) && final(self).cached(card_id) == Some(ids),
            old(self).cached(card_id) is None && old(self).cards_dir_spec() is None ==> r is None,
            old(self).cached(card_id) is None ==> (r matches Some(ids) ==> final(self).cached(card_id) == Some(ids)
                && exists|dir: &str| #[trigger] load.ensures((dir, card_id), r) && Some(dir@) == old(self).cards_dir_spec()),
            old(self).cached(card_id) is None && old(self).cards_dir_spec() is Some ==>
                exists|dir: &str| #[trigger] load.ensures((dir, card_id), r) && Some(dir@) == old(self).cards_dir_spec(),
            r is None ==> final(self).cached(card_id) == old(self).cached(card_id),
            forall|card: u64| card != card_id ==> #[trigger] final(self).cached(card) == old(self).cached(card),
    {
        let mut i: usize = 0;
        proof { assert(self.episode_ids_cache@.subrange(0, self.episode_ids_cache@.len() as int) =~= self.episode_ids_cache@); }
        while i < self.episode_ids_cache.len()
            invariant
                i <= self.episode_ids_cache@.len(),
                cached_ids(self.episode_ids_cache@, card_id) == cached_ids(self.episode_ids_cache@.subrange(i as int, self.episode_ids_cache@.len() as int), card_id),
            decreases self.episode_ids_cache@.len() - i,
        {
            proof {
                let rest = self.episode_ids_cache@.subrange(i as int, self.episode_ids_cache@.len() as int);
                assert(rest.drop_first() =~= self.episode_ids_cache@.subrange(i + 1, self.episode_ids_cache@.len() as int));
            }
            if self.episode_ids_cache[i].0 == card_id {
                return Some(self.episode_ids_cache[i].1);
            }
            i = i + 1;
        }
        proof {
            let rest = self.episode_ids_cache@.subrange(i as int, self.episode_ids_cache@.len() as int);
            assert(rest.len() == 0);
        }
        let found = match &self.cards_dir {
            Some(dir) => {
                let d = dir.as_str();
                let answer = load(d, card_id);
                proof { assert(load.ensures((d, card_id), answer)); }
                answer
            },
            None => None,
        };
        match found {
            Some(ids) => {
                let ghost before = self.episode_ids_cache@;
                self.episode_ids_cache.push((card_id, ids));
                proof {
                    lemma_cached_push(before, (card_id, ids));
                }
                Some(ids)
            },
            None => None,
        }
    }
}

proof fn lemma_cached_push(cache: Seq<(u64, [u64; 2])>, entry: (u64, [u64; 2]))
    requires
        cached_ids(cache, entry.0) is None,
    ensures
        cached_ids(cache.push(entry), entry.0) == Some(entry.1),
        forall|card: u64| card != entry.0 ==> #[trigger] cached_ids(cache.push(entry), card) == cached_ids(cache, card),
    decreases cache.len(),
{
    if cache.len() > 0 {
        assert(cache.push(entry).drop_first() =~= cache.drop_first().push(entry));
        lemma_cached_push(cache.drop_first(), entry);
        assert(cache.push(entry)[0] == cache[0]);
        assert forall|card: u64| card != entry.0 implies #[trigger] cached_ids(cache.push(entry), card) == cached_ids(cache, card) by {
            lemma_cached_push(cache.drop_first(), entry);
            let pushed = cache.push(entry);
            assert(pushed[0] == cache[0]);
            assert(pushed.len() > 0);
            if cache[0].0 != card {
                assert(cached_ids(pushed, card) == cached_ids(pushed.drop_first(), card));
                assert(cached_ids(cache, card) == cached_ids(cache.drop_first(), card));
                assert(cached_ids(cache.drop_first().push(entry), card) == cached_ids(cache.drop_first(), card));
            }
        }
    } else {
        assert(cache.push(entry).drop_first() =~= Seq::<(u64, [u64; 2])>::empty());
        assert(cache.push(entry)[0] == entry);
        assert forall|card: u64| card != entry.0 implies #[trigger] cached_ids(cache.push(entry), card) == cached_ids(cache, card) by {
            assert(cache.push(entry).drop_first() =~= Seq::<(u64, [u64; 2])>::empty());
            assert(cached_ids(cache.push(entry).drop_first(), card) is None);
        }
    }
}

/// The field a stored login lacks, checked in order: device id, SDK uid, SDK access key.
pub open spec fn missing_persist_field(p: Persist) -> Option<Seq<char>> {
    if trim_spec(p.device_id@).len() == 0 {
        Some("device_id"@)
    } else if trim_spec(p.sdk.uid@).len() == 0 {
        Some("sdk.uid"@)
    } else if trim_spec(p.sdk.access_key@).len() == 0 {
        Some("sdk.access_key"@)
    } else {
        None
    }
}

/// Checks that a stored login has what the login needs.
pub fn validate_persist(persist: &Persist) -> (r: Result<(), ImportError>)
    ensures
        match missing_persist_field(*persist) {
            Some(f) => r matches Err(ImportError::MissingPersistField(m)) && m@ == f,
            None => r is Ok,
        },
{
    if trim(&str_chars(persist.device_id.as_str())).len() == 0 {
        proof { reveal_strlit("device_id"); }
        return Err(ImportError::MissingPersistField("device_id"));
    }
    if trim(&str_chars(persist.sdk.uid.as_str())).len() == 0 {
        proof { reveal_strlit("sdk.uid"); }
        return Err(ImportError::MissingPersistField("sdk.uid"));
    }
    if trim(&str_chars(persist.sdk.access_key.as_str())).len() == 0 {
        proof { reveal_strlit("sdk.access_key"); }
        return Err(ImportError::MissingPersistField("sdk.access_key"));
    }
    Ok(())
}

/// The user agent of the Unity client.
pub fn unity_user_agent() -> (r: &'static str)
    ensures
        r@ == "UnityPlayer/2022.3.62f3c1 (UnityWebRequest/1.0, libcurl/8.10.1-DEV)"@,
{
    "UnityPlayer/2022.3.62f3c1 (UnityWebRequest/1.0, libcurl/8.10.1-DEV)"
}

} // verus!
