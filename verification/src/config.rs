//! Tunnel configuration: what it holds, how it is completed, and what makes it
//! invalid.
use crate::text;
use vstd::prelude::*;

verus! {

/// A backend target with its own authentication password.
///
/// A server matches the password that a client authenticates with; a client
/// authenticates with it.
#[derive(Debug, Clone)]
pub struct RemoteEntry {
    /// Target address as `host:port`.
    pub addr: String,
    /// Authentication password for this backend.
    pub password: String,
}

/// What a [`RemoteEntry`] stands for.
#[verifier::ext_equal]
pub struct RemoteView {
    pub addr: Seq<char>,
    pub password: Seq<char>,
}

impl View for RemoteEntry {
    type V = RemoteView;

    open spec fn view(&self) -> RemoteView {
        RemoteView { addr: self.addr@, password: self.password@ }
    }
}

/// What a list of remotes stands for.
pub open spec fn remote_views(v: Seq<RemoteEntry>) -> Seq<RemoteView> {
    v.map_values(|r: RemoteEntry| r@)
}

/// An element of a list of remotes as written in a configuration file.
#[derive(Debug, Clone)]
pub enum RawRemote {
    /// Just an address.
    Plain(String),
    /// An address and a password, which is empty where none is given.
    Full(String, String),
}

/// What a [`RawRemote`] stands for.
pub open spec fn raw_remote(r: RawRemote) -> RemoteView {
    match r {
        RawRemote::Plain(addr) => RemoteView { addr: addr@, password: Seq::empty() },
        RawRemote::Full(addr, password) => RemoteView { addr: addr@, password: password@ },
    }
}

/// The remotes of a tunnel as written in a configuration file.
#[derive(Debug, Clone)]
pub enum RawRemotes {
    /// One address.
    One(String),
    /// A list of addresses, with or without passwords.
    Many(Vec<RawRemote>),
}

/// What [`RawRemotes`] stand for; an empty list stands for nothing.
pub open spec fn raw_remotes(r: RawRemotes) -> Option<Seq<RemoteView>> {
    match r {
        RawRemotes::One(addr) => Some(
            seq![RemoteView { addr: addr@, password: Seq::empty() }],
        ),
        RawRemotes::Many(items) => if items@.len() == 0 {
            None
        } else {
            Some(items@.map_values(|i: RawRemote| raw_remote(i)))
        },
    }
}

/// A whole configuration.
#[derive(Debug, Clone)]
pub struct Config {
    pub log_level: String,
    pub tunnels: Vec<TunnelConfig>,
}

/// One tunnel.
#[derive(Debug, Clone)]
pub struct TunnelConfig {
    /// Local listen address, such as `[::]:1017` or `0.0.0.0:1017`.
    pub listen: String,
    /// Backend targets. A server has one for each password that a client may
    /// authenticate with; a client connects to the first.
    pub remotes: Vec<RemoteEntry>,
    /// The TLS server name to ask for.
    pub sni: String,
    /// Whether a client skips certificate verification.
    pub insecure: bool,
    /// The password of the remotes that have none of their own.
    pub password: String,
    /// Path of the certificate file, for a server.
    pub cert: Option<String>,
    /// Path of the private key file, for a server.
    pub key: Option<String>,
}

/// What a [`TunnelConfig`] stands for.
#[verifier::ext_equal]
pub struct TunnelView {
    pub listen: Seq<char>,
    pub remotes: Seq<RemoteView>,
    pub sni: Seq<char>,
    pub insecure: bool,
    pub password: Seq<char>,
    pub cert: Option<Seq<char>>,
    pub key: Option<Seq<char>>,
}

/// What an optional text stands for.
pub open spec fn text_view(s: Option<String>) -> Option<Seq<char>> {
    match s {
        Some(t) => Some(t@),
        None => None,
    }
}

impl View for TunnelConfig {
    type V = TunnelView;

    open spec fn view(&self) -> TunnelView {
        TunnelView {
            listen: self.listen@,
            remotes: remote_views(self.remotes@),
            sni: self.sni@,
            insecure: self.insecure,
            password: self.password@,
            cert: text_view(self.cert),
            key: text_view(self.key),
        }
    }
}

/// What a list of tunnels stands for.
pub open spec fn tunnel_views(v: Seq<TunnelConfig>) -> Seq<TunnelView> {
    v.map_values(|t: TunnelConfig| t@)
}

/// Which of the files that a server needs were found.
#[derive(Debug, Clone, Copy, PartialEq, Eq, Structural)]
pub struct FilesFound {
    pub cert: bool,
    pub key: bool,
}

/// Why a configuration is invalid. Tunnels and remotes go by their positions,
/// starting from 0.
#[derive(Debug)]
pub enum ConfigError {
    /// A tunnel without remotes.
    NoRemotes(usize),
    /// A remote without a password, in a tunnel without one.
    NoPassword(usize, usize),
    /// A certificate file that does not exist.
    CertMissing(usize, String),
    /// A key file that does not exist.
    KeyMissing(usize, String),
}

/// What a [`ConfigError`] stands for.
pub enum ConfigErrorView {
    NoRemotes(nat),
    NoPassword(nat, nat),
    CertMissing(nat, Seq<char>),
    KeyMissing(nat, Seq<char>),
}

impl View for ConfigError {
    type V = ConfigErrorView;

    open spec fn view(&self) -> ConfigErrorView {
        match self {
            ConfigError::NoRemotes(i) => ConfigErrorView::NoRemotes(*i as nat),
            ConfigError::NoPassword(i, j) => ConfigErrorView::NoPassword(*i as nat, *j as nat),
            ConfigError::CertMissing(i, p) => ConfigErrorView::CertMissing(*i as nat, p@),
            ConfigError::KeyMissing(i, p) => ConfigErrorView::KeyMissing(*i as nat, p@),
        }
    }
}

impl ConfigErrorView {
    /// The message shown for this error.
    pub open spec fn message_text(self) -> Seq<char> {
        match self {
            ConfigErrorView::NoRemotes(i) => "tunnel["@ + text::decimal(i)
                + "]: at least one remote address is required"@,
            ConfigErrorView::NoPassword(i, j) => "tunnel["@ + text::decimal(i) + "].remotes["@
                + text::decimal(j)
                + "]: no password set (add `password:` to the remote entry or at tunnel level)"@,
            ConfigErrorView::CertMissing(i, path) => "tunnel["@ + text::decimal(i)
                + "]: certificate file not found: "@ + path,
            ConfigErrorView::KeyMissing(i, path) => "tunnel["@ + text::decimal(i)
                + "]: key file not found: "@ + path,
        }
    }
}

impl ConfigError {
    /// The message shown for this error.
    pub fn message(&self) -> (r: String)
        ensures
            r@ == self@.message_text(),
    {
        let mut m: String = "tunnel[".to_owned();
        match self {
            ConfigError::NoRemotes(i) => {
                m.append(text::decimal_text(*i).as_str());
                m.append("]: at least one remote address is required");
            },
            ConfigError::NoPassword(i, j) => {
                m.append(text::decimal_text(*i).as_str());
                m.append("].remotes[");
                m.append(text::decimal_text(*j).as_str());
                m.append(
                    "]: no password set (add `password:` to the remote entry or at tunnel level)",
                );
            },
            ConfigError::CertMissing(i, path) => {
                m.append(text::decimal_text(*i).as_str());
                m.append("]: certificate file not found: ");
                m.append(path.as_str());
            },
            ConfigError::KeyMissing(i, path) => {
                m.append(text::decimal_text(*i).as_str());
                m.append("]: key file not found: ");
                m.append(path.as_str());
            },
        }
        m
    }
}

impl TunnelView {
    /// Whether the tunnel acts as a server: it has both a certificate and a
    /// key.
    pub open spec fn server(self) -> bool {
        self.cert is Some && self.key is Some
    }

    /// The tunnel with its own password on the remotes that have none.
    pub open spec fn filled(self) -> TunnelView {
        TunnelView {
            remotes: self.remotes.map_values(|r: RemoteView| filled_remote(r, self.password)),
            ..self
        }
    }

    /// The server name that a client asks for: the configured one, or else the
    /// host of the first remote.
    pub open spec fn name(self) -> Seq<char> {
        if self.sni.len() > 0 {
            self.sni
        } else {
            match text::rsplit_once(self.remotes[0].addr, ':') {
                Some((host, _)) => host,
                None => Seq::empty(),
            }
        }
    }
}

/// A remote with `fallback` for its password where it has none.
pub open spec fn filled_remote(r: RemoteView, fallback: Seq<char>) -> RemoteView {
    if r.password.len() == 0 {
        RemoteView { addr: r.addr, password: fallback }
    } else {
        r
    }
}

/// Position of the first remote without a password, or the number of remotes.
pub open spec fn first_open(remotes: Seq<RemoteView>) -> nat
    decreases remotes.len(),
{
    if remotes.len() == 0 {
        0
    } else if remotes[0].password.len() == 0 {
        0
    } else {
        1 + first_open(remotes.skip(1))
    }
}

/// What is wrong with the tunnel at position `i`.
pub open spec fn tunnel_error(i: nat, t: TunnelView, found: FilesFound) -> Option<
    ConfigErrorView,
> {
    if t.remotes.len() == 0 {
        Some(ConfigErrorView::NoRemotes(i))
    } else if t.password.len() == 0 && first_open(t.remotes) < t.remotes.len() {
        Some(ConfigErrorView::NoPassword(i, first_open(t.remotes)))
    } else if t.server() && !found.cert {
        Some(ConfigErrorView::CertMissing(i, t.cert->0))
    } else if t.server() && !found.key {
        Some(ConfigErrorView::KeyMissing(i, t.key->0))
    } else {
        None
    }
}

/// What is wrong with the first invalid tunnel from position `i` on.
pub open spec fn first_error(i: nat, tunnels: Seq<TunnelView>, found: Seq<FilesFound>) -> Option<
    ConfigErrorView,
>
    decreases tunnels.len() - i,
{
    if i >= tunnels.len() {
        None
    } else {
        match tunnel_error(i, tunnels[i as int], found[i as int]) {
            Some(e) => Some(e),
            None => first_error(i + 1, tunnels, found),
        }
    }
}

/// The log level in use where none is configured.
pub fn default_log_level() -> (r: String)
    ensures
        r@ == "info"@,
{
    "info".to_owned()
}

/// Reads the remotes of a tunnel: one address, or a list with at least one.
pub fn read_remotes(raw: RawRemotes) -> (r: Option<Vec<RemoteEntry>>)
    ensures
        match r {
            Some(v) => raw_remotes(raw) == Some(remote_views(v@)),
            None => raw_remotes(raw) is None,
        },
{
    let mut remotes: Vec<RemoteEntry> = Vec::new();
    match raw {
        RawRemotes::One(addr) => {
            remotes.push(RemoteEntry { addr, password: String::new() });
            assert(remote_views(remotes@) =~= seq![remotes@[0]@]);
            assert(remotes@[0].password@ =~= Seq::empty());
            Some(remotes)
        },
        RawRemotes::Many(items) => {
            if items.len() == 0 {
                return None;
            }
            let mut i: usize = 0;
            while i < items.len()
                invariant
                    i <= items.len(),
                    remotes.len() == i,
                    forall|k: int|
                        0 <= k < i ==> (#[trigger] remotes@[k])@ == raw_remote(items@[k]),
                decreases items.len() - i,
            {
                let entry = match &items[i] {
                    RawRemote::Plain(addr) => RemoteEntry {
                        addr: addr.clone(),
                        password: String::new(),
                    },
                    RawRemote::Full(addr, password) => RemoteEntry {
                        addr: addr.clone(),
                        password: password.clone(),
                    },
                };
                assert(entry@ =~= raw_remote(items@[i as int]));
                remotes.push(entry);
                i = i + 1;
            }
            assert(remote_views(remotes@) =~= items@.map_values(|i: RawRemote| raw_remote(i)));
            Some(remotes)
        },
    }
}

/// A file that a server needs and has not been told of.
#[derive(Debug, Clone, Copy, PartialEq, Eq, Structural)]
pub enum MissingFile {
    Cert,
    Key,
}

impl MissingFile {
    /// The text of [`MissingFile::message`].
    pub open spec fn message_text(self) -> Seq<char> {
        match self {
            MissingFile::Cert => "server mode requires `cert`"@,
            MissingFile::Key => "server mode requires `key`"@,
        }
    }

    /// The message shown for a missing file.
    pub fn message(self) -> (r: String)
        ensures
            r@ == self.message_text(),
    {
        match self {
            MissingFile::Cert => "server mode requires `cert`".to_owned(),
            MissingFile::Key => "server mode requires `key`".to_owned(),
        }
    }
}

impl TunnelConfig {
    /// The paths of the certificate and the key, which a server needs both. A
    /// missing certificate is reported first.
    pub fn server_files(&self) -> (r: Result<(String, String), MissingFile>)
        ensures
            match r {
                Ok((cert, key)) => self@.cert == Some(cert@) && self@.key == Some(key@),
                Err(MissingFile::Cert) => self@.cert is None,
                Err(MissingFile::Key) => self@.cert is Some && self@.key is None,
            },
            r is Ok <==> self@.server(),
    {
        match (&self.cert, &self.key) {
            (Some(cert), Some(key)) => Ok((cert.clone(), key.clone())),
            (Some(_), None) => Err(MissingFile::Key),
            (None, _) => Err(MissingFile::Cert),
        }
    }

    /// Whether this tunnel acts as a server: it has a certificate and a key.
    pub fn is_server(&self) -> (r: bool)
        ensures
            r == self@.server(),
            r == (self.cert is Some && self.key is Some),
    {
        self.cert.is_some() && self.key.is_some()
    }

    /// The first remote's address, which a client connects to.
    pub fn remote(&self) -> (r: &str)
        requires
            self.remotes@.len() > 0,
        ensures
            r@ == self@.remotes[0].addr,
            r@ == self.remotes@[0].addr@,
    {
        self.remotes[0].addr.as_str()
    }

    /// The server name that a client asks for.
    pub fn server_name(&self) -> (r: String)
        requires
            self.remotes@.len() > 0,
        ensures
            r@ == self@.name(),
            self.sni@.len() > 0 ==> r@ == self.sni@,
            self.sni@.len() == 0 ==> r@ == (match text::rsplit_once(self.remotes@[0].addr@, ':') {
                Some((host, _)) => host,
                None => Seq::empty(),
            }),
    {
        if self.sni.as_str().unicode_len() > 0 {
            return self.sni.clone();
        }
        let chars: Vec<char> = text::chars_of(self.remote());
        match text::cut_last(chars.as_slice(), ':') {
            Some((host, _)) => text::text_of(host),
            None => String::new(),
        }
    }
}

proof fn lemma_first_open_is(remotes: Seq<RemoteView>, k: nat)
    requires
        k <= remotes.len(),
        forall|j: int| 0 <= j < k ==> (#[trigger] remotes[j]).password.len() > 0,
        k < remotes.len() ==> remotes[k as int].password.len() == 0,
    ensures
        first_open(remotes) == k,
    decreases remotes.len(),
{
    if k > 0 {
        assert(remotes[0].password.len() > 0);
        assert forall|j: int| 0 <= j < k - 1 implies (#[trigger] remotes.skip(
            1,
        )[j]).password.len() > 0 by {
            assert(remotes.skip(1)[j] == remotes[j + 1]);
        }
        lemma_first_open_is(remotes.skip(1), (k - 1) as nat);
    }
}

/// Checks one tunnel and puts its own password on the remotes that have none.
fn complete_tunnel(i: usize, t: &mut TunnelConfig, found: FilesFound) -> (r: Option<ConfigError>)
    ensures
        match r {
            None => tunnel_error(i as nat, old(t)@, found) is None && final(t)@
                == old(t)@.filled(),
            Some(e) => tunnel_error(i as nat, old(t)@, found) == Some(e@),
        },
{
    let ghost before = t@;
    if t.remotes.len() == 0 {
        return Some(ConfigError::NoRemotes(i));
    }
    let no_fallback: bool = t.password.as_str().unicode_len() == 0;
    let mut j: usize = 0;
    while j < t.remotes.len()
        invariant
            j <= t.remotes.len(),
            t.remotes.len() == before.remotes.len(),
            before.remotes.len() > 0,
            before == old(t)@,
            t@.listen == before.listen,
            t@.sni == before.sni,
            t@.insecure == before.insecure,
            t@.password == before.password,
            t@.cert == before.cert,
            t@.key == before.key,
            no_fallback == (before.password.len() == 0),
            forall|k: int|
                0 <= k < j ==> (#[trigger] t.remotes@[k])@ == filled_remote(
                    before.remotes[k],
                    before.password,
                ),
            forall|k: int|
                j <= k < t.remotes.len() ==> (#[trigger] t.remotes@[k])@ == before.remotes[k],
            no_fallback ==> forall|k: int|
                0 <= k < j ==> (#[trigger] before.remotes[k]).password.len() > 0,
        decreases t.remotes.len() - j,
    {
        if t.remotes[j].password.as_str().unicode_len() == 0 {
            if no_fallback {
                proof {
                    assert(before.remotes[j as int] == t.remotes@[j as int]@);
                    lemma_first_open_is(before.remotes, j as nat);
                }
                return Some(ConfigError::NoPassword(i, j));
            }
            let fallback: String = t.password.clone();
            t.remotes[j].password = fallback;
        }
        j = j + 1;
    }
    assert(t@.remotes =~= before.filled().remotes);
    proof {
        if before.password.len() == 0 {
            lemma_first_open_is(before.remotes, before.remotes.len());
        }
    }
    if t.is_server() {
        if !found.cert {
            return match &t.cert {
                Some(path) => Some(ConfigError::CertMissing(i, path.clone())),
                None => None,
            };
        }
        if !found.key {
            return match &t.key {
                Some(path) => Some(ConfigError::KeyMissing(i, path.clone())),
                None => None,
            };
        }
    }
    None
}

/// Completes a configuration, or says what is wrong with its first invalid
/// tunnel. `found` tells for each tunnel which of its files exist; it matters
/// for servers alone.
pub fn normalize_config(config: Config, found: &[FilesFound]) -> (r: Result<Config, ConfigError>)
    requires
        found.len() == config.tunnels.len(),
    ensures
        match r {
            Ok(c) => {
                &&& first_error(0, tunnel_views(config.tunnels@), found@) is None
                &&& c.log_level@ == config.log_level@
                &&& tunnel_views(c.tunnels@) == tunnel_views(config.tunnels@).map_values(
                    |t: TunnelView| t.filled(),
                )
            },
            Err(e) => first_error(0, tunnel_views(config.tunnels@), found@) == Some(e@),
        },
{
    let ghost before = tunnel_views(config.tunnels@);
    let ghost level = config.log_level@;
    let mut done = config;
    let mut i: usize = 0;
    while i < done.tunnels.len()
        invariant
            i <= done.tunnels.len(),
            done.tunnels.len() == before.len(),
            found.len() == before.len(),
            before == tunnel_views(config.tunnels@),
            level == config.log_level@,
            done.log_level@ == level,
            first_error(0, before, found@) == first_error(i as nat, before, found@),
            forall|k: int| 0 <= k < i ==> (#[trigger] done.tunnels@[k])@ == before[k].filled(),
            forall|k: int|
                i <= k < done.tunnels.len() ==> (#[trigger] done.tunnels@[k])@ == before[k],
        decreases done.tunnels.len() - i,
    {
        match complete_tunnel(i, &mut done.tunnels[i], found[i]) {
            Some(e) => {
                return Err(e);
            },
            None => {},
        }
        i = i + 1;
    }
    assert(tunnel_views(done.tunnels@) =~= before.map_values(|t: TunnelView| t.filled()));
    Ok(done)
}

/// A valid configuration leaves no remote without a password: each keeps its
/// own, and those without one get that of their tunnel.
pub proof fn law_every_remote_has_a_password(
    tunnels: Seq<TunnelView>,
    found: Seq<FilesFound>,
    i: int,
    j: int,
)
    requires
        found.len() == tunnels.len(),
        first_error(0, tunnels, found) is None,
        0 <= i < tunnels.len(),
        0 <= j < tunnels[i].remotes.len(),
    ensures
        tunnels[i].filled().remotes[j].addr == tunnels[i].remotes[j].addr,
        tunnels[i].filled().remotes[j].password.len() > 0,
        tunnels[i].filled().remotes[j].password == (if tunnels[i].remotes[j].password.len() > 0 {
            tunnels[i].remotes[j].password
        } else {
            tunnels[i].password
        }),
{
    lemma_no_error(0, tunnels, found, i as nat);
    let remotes = tunnels[i].remotes;
    if tunnels[i].password.len() == 0 {
        lemma_first_open(remotes, j);
    }
}

proof fn lemma_no_error(from: nat, tunnels: Seq<TunnelView>, found: Seq<FilesFound>, i: nat)
    requires
        from <= i < tunnels.len(),
        first_error(from, tunnels, found) is None,
    ensures
        tunnel_error(i, tunnels[i as int], found[i as int]) is None,
    decreases i - from,
{
    if from < i {
        lemma_no_error(from + 1, tunnels, found, i);
    }
}

proof fn lemma_first_open(remotes: Seq<RemoteView>, j: int)
    requires
        first_open(remotes) >= remotes.len(),
        0 <= j < remotes.len(),
    ensures
        remotes[j].password.len() > 0,
    decreases remotes.len(),
{
    if j > 0 {
        lemma_first_open(remotes.skip(1), j - 1);
        assert(remotes.skip(1)[j - 1] == remotes[j]);
    }
}

/// Passwords that remotes have of their own make that of the tunnel
/// irrelevant.
pub proof fn law_own_passwords_are_kept(t: TunnelView)
    requires
        forall|j: int| 0 <= j < t.remotes.len() ==> (#[trigger] t.remotes[j]).password.len() > 0,
    ensures
        t.filled() == t,
{
    assert(t.filled().remotes =~= t.remotes);
}

/// A completed tunnel stays as it is when it is completed again.
pub proof fn law_completing_twice_changes_nothing(t: TunnelView)
    ensures
        t.filled().filled() == t.filled(),
{
    assert(t.filled().filled().remotes =~= t.filled().remotes);
}

/// A configured name is the one that a client asks for, whatever its remotes
/// are.
pub proof fn law_configured_name_is_used(t: TunnelView)
    requires
        t.sni.len() > 0,
    ensures
        t.name() == t.sni,
{
}

/// Without a configured name a client asks for the host of its first remote:
/// what stands in front of the last colon of the address, or nothing where
/// there is no colon.
pub proof fn law_host_names_the_server(t: TunnelView, host: Seq<char>, port: Seq<char>)
    requires
        t.sni.len() == 0,
        t.remotes.len() > 0,
    ensures
        t.remotes[0].addr == host + seq![':'] + port && !port.contains(':') ==> t.name() == host,
        !t.remotes[0].addr.contains(':') ==> t.name() == Seq::<char>::empty(),
{
    text::law_rsplit_once(t.remotes[0].addr, ':', host, port);
}

/// A tunnel is a server's if and only if it has both a certificate and a key.
pub proof fn law_server_has_both_files(t: TunnelView)
    ensures
        t.server() <==> (t.cert is Some && t.key is Some),
{
}

/// Completing a tunnel touches the passwords of its remotes alone.
pub proof fn law_only_passwords_are_filled(t: TunnelView, j: int)
    ensures
        t.filled().listen == t.listen,
        t.filled().sni == t.sni,
        t.filled().insecure == t.insecure,
        t.filled().password == t.password,
        t.filled().cert == t.cert,
        t.filled().key == t.key,
        t.filled().remotes.len() == t.remotes.len(),
        0 <= j < t.remotes.len() ==> {
            &&& t.filled().remotes[j].addr == t.remotes[j].addr
            &&& t.remotes[j].password.len() > 0 ==> t.filled().remotes[j].password
                == t.remotes[j].password
            &&& t.remotes[j].password.len() == 0 ==> t.filled().remotes[j].password == t.password
        },
{
}

/// Whether nothing is wrong with a tunnel: it has remotes, each of them a
/// password of its own or that of the tunnel, and the files of a server exist.
pub open spec fn valid_tunnel(t: TunnelView, found: FilesFound) -> bool {
    &&& t.remotes.len() > 0
    &&& t.password.len() > 0 || (forall|j: int|
        0 <= j < t.remotes.len() ==> (#[trigger] t.remotes[j]).password.len() > 0)
    &&& t.cert is Some && t.key is Some ==> found.cert && found.key
}

/// A configuration is accepted if and only if nothing is wrong with any of its
/// tunnels.
pub proof fn law_valid_configurations_are_accepted(
    tunnels: Seq<TunnelView>,
    found: Seq<FilesFound>,
)
    ensures
        first_error(0, tunnels, found) is None <==> (forall|i: int|
            0 <= i < tunnels.len() ==> valid_tunnel(#[trigger] tunnels[i], found[i])),
{
    if first_error(0, tunnels, found) is None {
        assert forall|i: int| 0 <= i < tunnels.len() implies valid_tunnel(
            #[trigger] tunnels[i],
            found[i],
        ) by {
            lemma_no_error(0, tunnels, found, i as nat);
            lemma_valid(i as nat, tunnels[i], found[i]);
        }
    }
    if forall|i: int| 0 <= i < tunnels.len() ==> valid_tunnel(#[trigger] tunnels[i], found[i]) {
        lemma_all_valid(0, tunnels, found);
    }
}

proof fn lemma_valid(i: nat, t: TunnelView, found: FilesFound)
    ensures
        tunnel_error(i, t, found) is None <==> valid_tunnel(t, found),
{
    lemma_open_position(t.remotes);
    if tunnel_error(i, t, found) is None && t.password.len() == 0 {
        assert forall|j: int| 0 <= j < t.remotes.len() implies (
        #[trigger] t.remotes[j]).password.len() > 0 by {
            lemma_first_open(t.remotes, j);
        }
    }
    if valid_tunnel(t, found) && t.password.len() == 0 && first_open(t.remotes)
        < t.remotes.len() {
        assert(t.remotes[first_open(t.remotes) as int].password.len() > 0);
    }
}

proof fn lemma_open_position(remotes: Seq<RemoteView>)
    ensures
        first_open(remotes) <= remotes.len(),
        first_open(remotes) < remotes.len() ==> remotes[first_open(
            remotes,
        ) as int].password.len() == 0,
        forall|j: int| 0 <= j < first_open(remotes) ==> (#[trigger] remotes[j]).password.len() > 0,
    decreases remotes.len(),
{
    if remotes.len() > 0 && remotes[0].password.len() > 0 {
        let rest = remotes.skip(1);
        lemma_open_position(rest);
        assert forall|j: int| 0 <= j < first_open(remotes) implies (
        #[trigger] remotes[j]).password.len() > 0 by {
            if j > 0 {
                assert(remotes[j] == rest[j - 1]);
            }
        }
    }
}

proof fn lemma_all_valid(from: nat, tunnels: Seq<TunnelView>, found: Seq<FilesFound>)
    requires
        forall|i: int| 0 <= i < tunnels.len() ==> valid_tunnel(#[trigger] tunnels[i], found[i]),
    ensures
        first_error(from, tunnels, found) is None,
    decreases tunnels.len() - from,
{
    if from < tunnels.len() {
        lemma_valid(from, tunnels[from as int], found[from as int]);
        lemma_all_valid(from + 1, tunnels, found);
    }
}

/// The first invalid tunnel decides what is reported: that it has no remotes;
/// else the first remote that has no password and gets none; else that the
/// certificate does not exist; else that the key does not.
pub proof fn law_first_fault_is_reported(
    tunnels: Seq<TunnelView>,
    found: Seq<FilesFound>,
    i: nat,
    j: nat,
)
    requires
        i < tunnels.len(),
        forall|k: int| 0 <= k < i ==> valid_tunnel(#[trigger] tunnels[k], found[k]),
    ensures
        ({
            let t = tunnels[i as int];
            let e = first_error(0, tunnels, found);
            let has_passwords = t.password.len() > 0 || (forall|k: int|
                0 <= k < t.remotes.len() ==> (#[trigger] t.remotes[k]).password.len() > 0);
            let server = t.cert is Some && t.key is Some;
            &&& t.remotes.len() == 0 ==> e == Some(ConfigErrorView::NoRemotes(i))
            &&& t.password.len() == 0 && j < t.remotes.len()
                && t.remotes[j as int].password.len() == 0 && (forall|k: int|
                0 <= k < j ==> (#[trigger] t.remotes[k]).password.len() > 0) ==> e == Some(
                ConfigErrorView::NoPassword(i, j),
            )
            &&& t.remotes.len() > 0 && has_passwords && server && !found[i as int].cert ==> e
                == Some(ConfigErrorView::CertMissing(i, t.cert->0))
            &&& t.remotes.len() > 0 && has_passwords && server && found[i as int].cert
                && !found[i as int].key ==> e == Some(ConfigErrorView::KeyMissing(i, t.key->0))
        }),
{
    let t = tunnels[i as int];
    lemma_errors_from(0, tunnels, found, i);
    lemma_open_position(t.remotes);
    let first = first_open(t.remotes);
    if t.password.len() == 0 && j < t.remotes.len() && t.remotes[j as int].password.len() == 0
        && (forall|k: int| 0 <= k < j ==> (#[trigger] t.remotes[k]).password.len() > 0) {
        lemma_first_open_is(t.remotes, j);
    }
    if first < t.remotes.len() {
        assert(t.remotes[first as int].password.len() == 0);
    }
}

proof fn lemma_errors_from(from: nat, tunnels: Seq<TunnelView>, found: Seq<FilesFound>, i: nat)
    requires
        from <= i < tunnels.len(),
        forall|k: int| 0 <= k < i ==> valid_tunnel(#[trigger] tunnels[k], found[k]),
    ensures
        first_error(from, tunnels, found) == first_error(i, tunnels, found),
    decreases i - from,
{
    if from < i {
        assert(valid_tunnel(tunnels[from as int], found[from as int]));
        lemma_valid(from, tunnels[from as int], found[from as int]);
        lemma_errors_from(from + 1, tunnels, found, i);
    }
}

/// Remotes are read as they are written: each keeps its address, and its
/// password if one is given; none is dropped, added or moved; and an empty list
/// is refused.
pub proof fn law_remotes_are_read_as_written(
    addr: String,
    password: String,
    items: Vec<RawRemote>,
    j: int,
)
    ensures
        raw_remotes(RawRemotes::One(addr)) matches Some(v) && v.len() == 1 && v[0].addr == addr@
            && v[0].password.len() == 0,
        items@.len() == 0 ==> raw_remotes(RawRemotes::Many(items)) is None,
        items@.len() > 0 ==> (raw_remotes(RawRemotes::Many(items)) matches Some(v) && v.len()
            == items@.len() && (0 <= j < items@.len() ==> (match items@[j] {
            RawRemote::Plain(a) => v[j].addr == a@ && v[j].password.len() == 0,
            RawRemote::Full(a, p) => v[j].addr == a@ && v[j].password == p@,
        }))),
{
}

/// What is wrong is said with the position of the tunnel, and of the remote,
/// and with the path that was looked for.
pub proof fn law_messages_name_the_fault(i: nat, j: nat, path: Seq<char>)
    ensures
        ConfigErrorView::NoRemotes(i).message_text() == "tunnel["@ + text::decimal(i)
            + "]: at least one remote address is required"@,
        ConfigErrorView::NoPassword(i, j).message_text() == "tunnel["@ + text::decimal(i)
            + "].remotes["@ + text::decimal(j)
            + "]: no password set (add `password:` to the remote entry or at tunnel level)"@,
        ConfigErrorView::CertMissing(i, path).message_text() == "tunnel["@ + text::decimal(i)
            + "]: certificate file not found: "@ + path,
        ConfigErrorView::KeyMissing(i, path).message_text() == "tunnel["@ + text::decimal(i)
            + "]: key file not found: "@ + path,
{
}

} // verus!
