//! How a client authenticates: its password names it by a hash, and a token
//! drawn from the live connection proves that it knows the password.
use crate::config;
use crate::config::RemoteEntry;
use crate::config::RemoteView;
use crate::digest;
use crate::tuic::packet;
use crate::wire;
use vstd::prelude::*;
use vstd::utf8::*;

verus! {

/// The length of the authentication command.
pub const AUTHENTICATE_LEN: usize = 50;

/// Closes a connection that did not authenticate.
pub const ERROR_AUTHENTICATION_FAILED: u32 = 0xfffffff1;

/// Closes a connection whose authentication command cannot be read.
pub const ERROR_BAD_COMMAND: u32 = 0xfffffff3;

/// A backend, and the password that leads to it.
#[derive(Debug, Clone)]
pub struct BackendEntry {
    pub addr: String,
    /// What the password names its clients by.
    pub uuid: [u8; 16],
    pub password: String,
}

/// What a [`BackendEntry`] stands for.
pub struct EntryView {
    pub addr: Seq<char>,
    pub uuid: Seq<u8>,
    pub password: Seq<char>,
}

impl View for BackendEntry {
    type V = EntryView;

    open spec fn view(&self) -> EntryView {
        EntryView { addr: self.addr@, uuid: self.uuid@, password: self.password@ }
    }
}

/// What a list of backends stands for.
pub open spec fn entry_views(v: Seq<BackendEntry>) -> Seq<EntryView> {
    v.map_values(|b: BackendEntry| b@)
}

/// What a password names its clients by: the first half of its hash.
pub open spec fn uuid_of(password: Seq<char>) -> Seq<u8> {
    digest::sha256_of(encode_utf8(password)).take(16)
}

/// The backend for a remote.
pub open spec fn entry_for(r: RemoteView) -> EntryView {
    EntryView { addr: r.addr, uuid: uuid_of(r.password), password: r.password }
}

/// The backends for the remotes of a tunnel.
pub open spec fn entries_for(remotes: Seq<RemoteView>) -> Seq<EntryView> {
    remotes.map_values(|r: RemoteView| entry_for(r))
}

/// Position of the first backend with the given name, or their number.
pub open spec fn first_entry(entries: Seq<EntryView>, uuid: Seq<u8>) -> int
    decreases entries.len(),
{
    if entries.len() == 0 {
        0
    } else if entries[0].uuid == uuid {
        0
    } else {
        1 + first_entry(entries.skip(1), uuid)
    }
}

/// Position of the first remote with the given password, or their number.
pub open spec fn first_with_password(remotes: Seq<RemoteView>, password: Seq<char>) -> int
    decreases remotes.len(),
{
    if remotes.len() == 0 {
        0
    } else if remotes[0].password == password {
        0
    } else {
        1 + first_with_password(remotes.skip(1), password)
    }
}

/// The bytes of the authentication command.
pub open spec fn authenticate_bytes(uuid: Seq<u8>, token: Seq<u8>) -> Seq<u8> {
    seq![packet::TUIC_VERSION, packet::TYPE_AUTHENTICATE] + uuid + token
}

/// Why a client is turned away.
#[derive(Debug, Clone, Copy, PartialEq, Eq, Structural)]
pub enum Rejection {
    /// It did not authenticate in time, or not as any backend's client.
    AuthFailed,
    /// Its authentication command cannot be read.
    BadCommand,
    /// The token that it should have sent cannot be drawn.
    TokenError,
}

impl Rejection {
    /// The code that the connection is closed with.
    pub open spec fn close_code(self) -> u32 {
        match self {
            Rejection::AuthFailed => ERROR_AUTHENTICATION_FAILED,
            Rejection::BadCommand => ERROR_BAD_COMMAND,
            Rejection::TokenError => ERROR_AUTHENTICATION_FAILED,
        }
    }

    /// The reason that the connection is closed with.
    pub open spec fn close_reason(self) -> Seq<char> {
        match self {
            Rejection::AuthFailed => "auth failed"@,
            Rejection::BadCommand => "bad Authenticate"@,
            Rejection::TokenError => "token error"@,
        }
    }

    /// The code that the connection is closed with.
    pub fn code(self) -> (r: u32)
        ensures
            r == self.close_code(),
            r == (if self is BadCommand {
                0xfffffff3u32
            } else {
                0xfffffff1u32
            }),
    {
        match self {
            Rejection::AuthFailed => ERROR_AUTHENTICATION_FAILED,
            Rejection::BadCommand => ERROR_BAD_COMMAND,
            Rejection::TokenError => ERROR_AUTHENTICATION_FAILED,
        }
    }

    /// The reason that the connection is closed with.
    pub fn reason(self) -> (r: &'static str)
        ensures
            r@ == self.close_reason(),
    {
        match self {
            Rejection::AuthFailed => "auth failed",
            Rejection::BadCommand => "bad Authenticate",
            Rejection::TokenError => "token error",
        }
    }
}

/// What a client claims: to be a client of the backend at this position. The
/// token is to prove it.
#[derive(Debug, Clone, Copy)]
pub struct Claim {
    pub backend: usize,
    pub uuid: [u8; 16],
    pub token: [u8; 32],
}

/// What an authentication command claims; without data, the client sent none
/// in time.
pub open spec fn claim_of(entries: Seq<EntryView>, data: Option<Seq<u8>>) -> Result<
    (int, Seq<u8>, Seq<u8>),
    Rejection,
> {
    match data {
        None => Err(Rejection::AuthFailed),
        Some(d) => if d.len() < AUTHENTICATE_LEN || d[0] != packet::TUIC_VERSION || d[1]
            != packet::TYPE_AUTHENTICATE {
            Err(Rejection::BadCommand)
        } else {
            let uuid = d.subrange(2, 18);
            let k = first_entry(entries, uuid);
            if k < entries.len() {
                Ok((k, uuid, d.subrange(18, 50)))
            } else {
                Err(Rejection::AuthFailed)
            }
        },
    }
}

/// What an optional byte string stands for.
pub open spec fn data_view(data: Option<&[u8]>) -> Option<Seq<u8>> {
    match data {
        Some(d) => Some(d@),
        None => None,
    }
}

/// The first half of a hash.
pub fn uuid_from_hash(h: &[u8; 32]) -> (r: [u8; 16])
    ensures
        r@ == h@.take(16),
{
    let r: [u8; 16] = [
        h[0],
        h[1],
        h[2],
        h[3],
        h[4],
        h[5],
        h[6],
        h[7],
        h[8],
        h[9],
        h[10],
        h[11],
        h[12],
        h[13],
        h[14],
        h[15],
    ];
    assert(r@ =~= h@.take(16));
    r
}

/// What a password names its clients by.
pub fn derive_uuid(password: &str) -> (r: [u8; 16])
    ensures
        r@ == uuid_of(password@),
        r@ == digest::sha256_of(encode_utf8(password@)).take(16),
{
    uuid_from_hash(&digest::sha256_digest(password.as_bytes()))
}

/// The backends for the remotes of a tunnel.
pub fn entries_of(remotes: &[RemoteEntry]) -> (r: Vec<BackendEntry>)
    ensures
        entry_views(r@) == entries_for(config::remote_views(remotes@)),
        r@.len() == remotes@.len(),
        forall|k: int|
            0 <= k < remotes@.len() ==> (#[trigger] r@[k]).addr@ == remotes@[k].addr@
                && r@[k].password@ == remotes@[k].password@ && r@[k].uuid@ == digest::sha256_of(
                encode_utf8(remotes@[k].password@),
            ).take(16),
{
    let mut out: Vec<BackendEntry> = Vec::new();
    let mut i: usize = 0;
    while i < remotes.len()
        invariant
            i <= remotes.len(),
            out.len() == i,
            forall|k: int| 0 <= k < i ==> (#[trigger] out@[k])@ == entry_for(remotes@[k]@),
            forall|k: int|
                0 <= k < i ==> (#[trigger] out@[k]).addr@ == remotes@[k].addr@
                    && out@[k].password@ == remotes@[k].password@ && out@[k].uuid@
                    == digest::sha256_of(encode_utf8(remotes@[k].password@)).take(16),
        decreases remotes.len() - i,
    {
        let entry: &RemoteEntry = &remotes[i];
        out.push(
            BackendEntry {
                addr: entry.addr.clone(),
                uuid: derive_uuid(entry.password.as_str()),
                password: entry.password.clone(),
            },
        );
        i = i + 1;
    }
    assert(entry_views(out@) =~= entries_for(config::remote_views(remotes@)));
    out
}

/// Builds the authentication command.
pub fn build_authenticate(uuid: &[u8; 16], token: &[u8; 32]) -> (r: Vec<u8>)
    ensures
        r@ == authenticate_bytes(uuid@, token@),
{
    let mut b: Vec<u8> = Vec::new();
    b.push(packet::TUIC_VERSION);
    b.push(packet::TYPE_AUTHENTICATE);
    wire::append_bytes(&mut b, uuid.as_slice());
    wire::append_bytes(&mut b, token.as_slice());
    assert(b@ =~= authenticate_bytes(uuid@, token@));
    b
}

/// Reads an authentication command, and finds the backend that it is for.
pub fn read_claim(entries: &[BackendEntry], data: Option<&[u8]>) -> (r: Result<Claim, Rejection>)
    ensures
        match r {
            Ok(c) => claim_of(entry_views(entries@), data_view(data)) == Ok::<
                (int, Seq<u8>, Seq<u8>),
                Rejection,
            >((c.backend as int, c.uuid@, c.token@)) && c.backend < entries@.len(),
            Err(e) => claim_of(entry_views(entries@), data_view(data)) == Err::<
                (int, Seq<u8>, Seq<u8>),
                Rejection,
            >(e),
        },
{
    let d: &[u8] = match data {
        Some(d) => d,
        None => {
            return Err(Rejection::AuthFailed);
        },
    };
    if d.len() < AUTHENTICATE_LEN || d[0] != packet::TUIC_VERSION || d[1]
        != packet::TYPE_AUTHENTICATE {
        return Err(Rejection::BadCommand);
    }
    let mut uuid: [u8; 16] = [0; 16];
    let mut token: [u8; 32] = [0; 32];
    let mut i: usize = 0;
    while i < 16
        invariant
            i <= 16,
            d.len() >= AUTHENTICATE_LEN,
            forall|k: int| 0 <= k < i ==> uuid@[k] == d@[2 + k],
        decreases 16 - i,
    {
        uuid[i] = d[2 + i];
        i = i + 1;
    }
    let mut j: usize = 0;
    while j < 32
        invariant
            j <= 32,
            d.len() >= AUTHENTICATE_LEN,
            forall|k: int| 0 <= k < j ==> token@[k] == d@[18 + k],
        decreases 32 - j,
    {
        token[j] = d[18 + j];
        j = j + 1;
    }
    assert(uuid@ =~= d@.subrange(2, 18));
    assert(token@ =~= d@.subrange(18, 50));
    let ghost all = entry_views(entries@);
    let mut backend: usize = 0;
    assert(all.skip(0) =~= all);
    while backend < entries.len()
        invariant
            backend <= entries.len(),
            all == entry_views(entries@),
            first_entry(all, uuid@) == backend + first_entry(all.skip(backend as int), uuid@),
            data matches Some(x) && x == d,
            d.len() >= AUTHENTICATE_LEN,
            d@[0] == packet::TUIC_VERSION,
            d@[1] == packet::TYPE_AUTHENTICATE,
            uuid@ == d@.subrange(2, 18),
            token@ == d@.subrange(18, 50),
        decreases entries.len() - backend,
    {
        assert(all.skip(backend as int)[0] == entries@[backend as int]@);
        assert(all.skip(backend as int).skip(1) =~= all.skip(backend + 1));
        if wire::same_bytes(entries[backend].uuid.as_slice(), uuid.as_slice()) {
            return Ok(Claim { backend, uuid, token });
        }
        backend = backend + 1;
    }
    Err(Rejection::AuthFailed)
}

/// Settles a claim against the token that its backend's password draws from
/// the connection, or none where it cannot be drawn. Returns the address of
/// the backend.
pub fn settle_claim(
    entries: &[BackendEntry],
    claim: &Claim,
    expected: Option<[u8; 32]>,
) -> (r: Result<String, Rejection>)
    requires
        claim.backend < entries@.len(),
    ensures
        match expected {
            None => r == Err::<String, Rejection>(Rejection::TokenError),
            Some(token) => if token@ == claim.token@ {
                r matches Ok(addr) && addr@ == entries@[claim.backend as int]@.addr
            } else {
                r == Err::<String, Rejection>(Rejection::AuthFailed)
            },
        },
{
    match expected {
        None => Err(Rejection::TokenError),
        Some(token) => {
            if wire::same_bytes(token.as_slice(), claim.token.as_slice()) {
                Ok(entries[claim.backend].addr.clone())
            } else {
                Err(Rejection::AuthFailed)
            }
        },
    }
}

/// Whether no configured password other than `password` names its clients
/// alike.
pub open spec fn unambiguous(remotes: Seq<RemoteView>, password: Seq<char>) -> bool {
    forall|i: int|
        0 <= i < remotes.len() && uuid_of(#[trigger] remotes[i].password) == uuid_of(password)
            ==> remotes[i].password == password
}

/// A server reads back the name and the token that a client sent.
pub proof fn law_authenticate_round_trip(uuid: Seq<u8>, token: Seq<u8>, entries: Seq<EntryView>)
    requires
        uuid.len() == 16,
        token.len() == 32,
    ensures
        claim_of(entries, Some(authenticate_bytes(uuid, token))) == (if first_entry(entries, uuid)
            < entries.len() {
            Ok::<(int, Seq<u8>, Seq<u8>), Rejection>((first_entry(entries, uuid), uuid, token))
        } else {
            Err(Rejection::AuthFailed)
        }),
{
    let d = authenticate_bytes(uuid, token);
    assert(d.subrange(2, 18) =~= uuid);
    assert(d.subrange(18, 50) =~= token);
}

/// A client's name leads to the first backend that is configured with its
/// password, and to none where there is no such backend, as long as no other
/// configured password names its clients alike.
pub proof fn law_password_routes(remotes: Seq<RemoteView>, password: Seq<char>)
    ensures
        unambiguous(remotes, password) ==> first_entry(entries_for(remotes), uuid_of(password))
            == first_with_password(remotes, password),
    decreases remotes.len(),
{
    let entries = entries_for(remotes);
    if remotes.len() > 0 && unambiguous(remotes, password) {
        assert(entries[0] == entry_for(remotes[0]));
        assert(uuid_of(remotes[0].password) == entries[0].uuid);
        let rest = remotes.skip(1);
        assert(entries.skip(1) =~= entries_for(rest));
        assert forall|i: int|
            0 <= i < rest.len() && uuid_of(#[trigger] rest[i].password) == uuid_of(
                password,
            ) implies rest[i].password == password by {
            assert(rest[i] == remotes[i + 1]);
            assert(uuid_of(remotes[i + 1].password) == uuid_of(password));
        }
        law_password_routes(rest, password);
    }
}

/// What a password names its clients by is the first half of the SHA-256 of all
/// of its UTF-8 bytes, and a backend goes by that of its remote's password.
pub proof fn law_whole_password_is_hashed(
    password: Seq<char>,
    remotes: Seq<RemoteView>,
    i: int,
)
    requires
        0 <= i < remotes.len(),
    ensures
        uuid_of(password) == digest::sha256_of(encode_utf8(password)).take(16),
        entries_for(remotes).len() == remotes.len(),
        entries_for(remotes)[i].uuid == digest::sha256_of(encode_utf8(remotes[i].password)).take(
            16,
        ),
        entries_for(remotes)[i].password == remotes[i].password,
        entries_for(remotes)[i].addr == remotes[i].addr,
{
}

/// A client whose password is that of the remote at `i`, and of none before it,
/// claims that remote; one whose password no remote has is turned away. All
/// that this takes is that the first halves of the SHA-256 digests of the
/// client's password and of another configured one are not alike.
pub proof fn law_own_password_leads_home(
    remotes: Seq<RemoteView>,
    password: Seq<char>,
    token: Seq<u8>,
    i: int,
)
    requires
        token.len() == 32,
        0 <= i <= remotes.len(),
        i < remotes.len() ==> remotes[i].password == password,
        forall|j: int| 0 <= j < i ==> (#[trigger] remotes[j]).password != password,
    ensures
        digest::sha256_of(encode_utf8(password)).len() == 32 && (forall|j: int|
            0 <= j < remotes.len() && digest::sha256_of(
                encode_utf8((#[trigger] remotes[j]).password),
            ).take(16) == digest::sha256_of(encode_utf8(password)).take(16) ==> remotes[j].password
                == password) ==> claim_of(
            entries_for(remotes),
            Some(
                seq![5u8, 0u8] + digest::sha256_of(encode_utf8(password)).take(16) + token,
            ),
        ) == (if i < remotes.len() {
            Ok::<(int, Seq<u8>, Seq<u8>), Rejection>(
                (i, digest::sha256_of(encode_utf8(password)).take(16), token),
            )
        } else {
            Err(Rejection::AuthFailed)
        }),
{
    let hash = digest::sha256_of(encode_utf8(password));
    let uuid = hash.take(16);
    if hash.len() == 32 && (forall|j: int|
        0 <= j < remotes.len() && digest::sha256_of(
            encode_utf8((#[trigger] remotes[j]).password),
        ).take(16) == uuid ==> remotes[j].password == password) {
        lemma_first_entry(remotes, password, i);
        law_authenticate_round_trip(uuid, token, entries_for(remotes));
    }
}

proof fn lemma_first_entry(remotes: Seq<RemoteView>, password: Seq<char>, i: int)
    requires
        0 <= i <= remotes.len(),
        i < remotes.len() ==> remotes[i].password == password,
        forall|j: int| 0 <= j < i ==> (#[trigger] remotes[j]).password != password,
        forall|j: int|
            0 <= j < remotes.len() && uuid_of((#[trigger] remotes[j]).password) == uuid_of(
                password,
            ) ==> remotes[j].password == password,
    ensures
        first_entry(entries_for(remotes), uuid_of(password)) == i,
    decreases remotes.len(),
{
    if remotes.len() > 0 {
        let rest = remotes.skip(1);
        assert(entries_for(remotes).skip(1) =~= entries_for(rest));
        assert(entries_for(remotes)[0].uuid == uuid_of(remotes[0].password));
        if i > 0 {
            assert(remotes[0].password != password);
            assert forall|j: int| 0 <= j < i - 1 implies (#[trigger] rest[j]).password
                != password by {
                assert(rest[j] == remotes[j + 1]);
            }
            assert forall|j: int|
                0 <= j < rest.len() && uuid_of((#[trigger] rest[j]).password) == uuid_of(
                    password,
                ) implies rest[j].password == password by {
                assert(rest[j] == remotes[j + 1]);
            }
            assert(i - 1 < rest.len() ==> rest[i - 1] == remotes[i]);
            lemma_first_entry(rest, password, i - 1);
        }
    }
}

/// A client is turned away that sends no authentication command in time, or one
/// that cannot be read: one shorter than 50 bytes, or of another version or
/// type. Whatever follows the 50 bytes does not matter.
pub proof fn law_unreadable_claims_are_refused(
    entries: Seq<EntryView>,
    data: Seq<u8>,
    rest: Seq<u8>,
)
    ensures
        claim_of(entries, None) == Err::<(int, Seq<u8>, Seq<u8>), Rejection>(
            Rejection::AuthFailed,
        ),
        data.len() < 50 || data[0] != 5 || data[1] != 0 <==> claim_of(entries, Some(data)) == Err::<
            (int, Seq<u8>, Seq<u8>),
            Rejection,
        >(Rejection::BadCommand),
        data.len() >= 50 ==> claim_of(entries, Some(data + rest)) == claim_of(entries, Some(data)),
        claim_of(entries, Some(data)) matches Ok((k, uuid, token)) ==> 0 <= k < entries.len()
            && entries[k].uuid == uuid && uuid == data.subrange(2, 18) && token == data.subrange(
            18,
            50,
        ),
{
    if data.len() >= 50 {
        assert((data + rest).subrange(2, 18) =~= data.subrange(2, 18));
        assert((data + rest).subrange(18, 50) =~= data.subrange(18, 50));
        lemma_entry_found(entries, data.subrange(2, 18));
    }
}

proof fn lemma_entry_found(entries: Seq<EntryView>, uuid: Seq<u8>)
    ensures
        0 <= first_entry(entries, uuid) <= entries.len(),
        first_entry(entries, uuid) < entries.len() ==> entries[first_entry(entries, uuid)].uuid
            == uuid,
    decreases entries.len(),
{
    if entries.len() > 0 {
        lemma_entry_found(entries.skip(1), uuid);
    }
}

/// A name leads to the first backend that goes by it, and to none where none
/// does. `i` is the position of that backend, or the number of backends.
pub proof fn law_first_match_wins(entries: Seq<EntryView>, uuid: Seq<u8>, i: int)
    requires
        0 <= i <= entries.len(),
        i < entries.len() ==> entries[i].uuid == uuid,
        forall|j: int| 0 <= j < i ==> (#[trigger] entries[j]).uuid != uuid,
    ensures
        first_entry(entries, uuid) == i,
    decreases entries.len(),
{
    if i > 0 {
        let rest = entries.skip(1);
        assert(entries[0].uuid != uuid);
        assert forall|j: int| 0 <= j < i - 1 implies (#[trigger] rest[j]).uuid != uuid by {
            assert(rest[j] == entries[j + 1]);
        }
        law_first_match_wins(rest, uuid, i - 1);
    }
}

/// The authentication command is 50 bytes: the version 5, the type 0, the name
/// and the token.
pub proof fn law_authenticate_layout(uuid: Seq<u8>, token: Seq<u8>)
    requires
        uuid.len() == 16,
        token.len() == 32,
    ensures
        authenticate_bytes(uuid, token).len() == 50,
        authenticate_bytes(uuid, token)[0] == 5,
        authenticate_bytes(uuid, token)[1] == 0,
        authenticate_bytes(uuid, token).subrange(2, 18) == uuid,
        authenticate_bytes(uuid, token).subrange(18, 50) == token,
{
}

} // verus!
