//! How a client introduces itself: the authentication message in front of a
//! session, the settings that both sides exchange, and the backend that a
//! password leads to.
use crate::anytls::frame;
use crate::config;
use crate::config::RemoteEntry;
use crate::config::RemoteView;
use crate::digest;
use crate::padding;
use crate::padding::PaddingScheme;
use crate::random;
use crate::wire;
use vstd::prelude::*;
use vstd::slice::slice_subrange;
use vstd::utf8::*;

verus! {

/// The stream that a new session opens at once.
pub const FIRST_STREAM: u32 = 1;

/// A backend, and the hash of the password that leads to it.
#[derive(Debug, Clone)]
pub struct Backend {
    pub addr: String,
    pub hash: [u8; 32],
}

/// What a [`Backend`] stands for.
pub struct BackendView {
    pub addr: Seq<char>,
    pub hash: Seq<u8>,
}

impl View for Backend {
    type V = BackendView;

    open spec fn view(&self) -> BackendView {
        BackendView { addr: self.addr@, hash: self.hash@ }
    }
}

/// What a list of backends stands for.
pub open spec fn backend_views(v: Seq<Backend>) -> Seq<BackendView> {
    v.map_values(|b: Backend| b@)
}

/// The hash that a password goes by.
pub open spec fn password_hash(password: Seq<char>) -> Seq<u8> {
    digest::sha256_of(encode_utf8(password))
}

/// The backend for a remote.
pub open spec fn backend_for(r: RemoteView) -> BackendView {
    BackendView { addr: r.addr, hash: password_hash(r.password) }
}

/// The backends for the remotes of a tunnel.
pub open spec fn backends_for(remotes: Seq<RemoteView>) -> Seq<BackendView> {
    remotes.map_values(|r: RemoteView| backend_for(r))
}

/// The address of the first backend with the given hash.
pub open spec fn matching(backends: Seq<BackendView>, hash: Seq<u8>) -> Option<Seq<char>>
    decreases backends.len(),
{
    if backends.len() == 0 {
        None
    } else if backends[0].hash == hash {
        Some(backends[0].addr)
    } else {
        matching(backends.skip(1), hash)
    }
}

/// The address of the first remote with the given password.
pub open spec fn first_remote(remotes: Seq<RemoteView>, password: Seq<char>) -> Option<Seq<char>>
    decreases remotes.len(),
{
    if remotes.len() == 0 {
        None
    } else if remotes[0].password == password {
        Some(remotes[0].addr)
    } else {
        first_remote(remotes.skip(1), password)
    }
}

/// The largest length of padding that the field in front of it can describe.
pub const MAX_AUTH_PADDING: usize = 0xFFFF;

/// The padding that is sent: as much of it as its length field can describe.
pub open spec fn sent_padding(pad: Seq<u8>) -> Seq<u8> {
    if pad.len() <= MAX_AUTH_PADDING {
        pad
    } else {
        pad.take(MAX_AUTH_PADDING as int)
    }
}

/// The authentication message: the hash, the length of the padding, and the
/// padding.
pub open spec fn auth_bytes(hash: Seq<u8>, pad: Seq<u8>) -> Seq<u8> {
    hash + wire::be16(sent_padding(pad).len() as u16) + sent_padding(pad)
}

/// The hash in front of `bytes`, and the length of the whole authentication
/// message, once it is there.
pub open spec fn auth_at(bytes: Seq<u8>) -> Option<(Seq<u8>, nat)> {
    if bytes.len() < 34 {
        None
    } else {
        let n = wire::u16_at(bytes.subrange(32, 34), 0) as int;
        if bytes.len() < 34 + n {
            None
        } else {
            Some((bytes.take(32), (34 + n) as nat))
        }
    }
}

/// The settings that a client sends.
pub open spec fn client_settings(md5: Seq<char>) -> Seq<char> {
    "v=2\nclient=anyst/0.1.0\npadding-md5="@ + md5 + "\n"@
}

/// The settings that a server answers with.
pub open spec fn server_settings(md5: Seq<char>) -> Seq<char> {
    "v=2\nserver=anyst/0.1.0\npadding-md5="@ + md5 + "\n"@
}

/// The name that peers know a scheme text by.
pub open spec fn scheme_name(raw: Seq<char>) -> Seq<char> {
    digest::hex_lower(digest::md5_of(encode_utf8(raw)))
}

/// The first packet of a session: the settings and the request for the first
/// stream.
pub open spec fn first_packet_bytes(raw: Seq<char>) -> Seq<u8> {
    frame::frame_bytes(frame::CMD_SETTINGS, 0, encode_utf8(client_settings(scheme_name(raw))))
        + frame::frame_bytes(frame::CMD_SYN, FIRST_STREAM, seq![frame::ATYP_NONE])
}

/// A hash that no backend has.
#[derive(Debug, Clone, Copy)]
pub struct UnknownHash {
    pub hash: [u8; 32],
}

impl UnknownHash {
    /// The message shown for this error, with the first four bytes of the
    /// hash.
    pub open spec fn message_text(self) -> Seq<char> {
        "authentication failed: no matching password for hash ["@ + digest::hex_lower(
            self.hash@.subrange(0, 1),
        ) + ", "@ + digest::hex_lower(self.hash@.subrange(1, 2)) + ", "@ + digest::hex_lower(
            self.hash@.subrange(2, 3),
        ) + ", "@ + digest::hex_lower(self.hash@.subrange(3, 4)) + "]..."@
    }

    /// The message shown for this error.
    pub fn message(&self) -> (r: String)
        ensures
            r@ == self.message_text(),
            r@ == "authentication failed: no matching password for hash ["@ + digest::hex_lower(
                seq![self.hash@[0]],
            ) + ", "@ + digest::hex_lower(seq![self.hash@[1]]) + ", "@ + digest::hex_lower(
                seq![self.hash@[2]],
            ) + ", "@ + digest::hex_lower(seq![self.hash@[3]]) + "]..."@,
    {
        proof {
            assert(self.hash@.subrange(0, 1) =~= seq![self.hash@[0]]);
            assert(self.hash@.subrange(1, 2) =~= seq![self.hash@[1]]);
            assert(self.hash@.subrange(2, 3) =~= seq![self.hash@[2]]);
            assert(self.hash@.subrange(3, 4) =~= seq![self.hash@[3]]);
        }
        let h: &[u8] = self.hash.as_slice();
        let mut m: String = "authentication failed: no matching password for hash [".to_owned();
        m.append(digest::hex_text(slice_subrange(h, 0, 1)).as_str());
        m.append(", ");
        m.append(digest::hex_text(slice_subrange(h, 1, 2)).as_str());
        m.append(", ");
        m.append(digest::hex_text(slice_subrange(h, 2, 3)).as_str());
        m.append(", ");
        m.append(digest::hex_text(slice_subrange(h, 3, 4)).as_str());
        m.append("]...");
        m
    }
}

/// Hashes the passwords of all remotes, once for all sessions.
pub fn backends_of(remotes: &[RemoteEntry]) -> (r: Vec<Backend>)
    ensures
        backend_views(r@) == backends_for(config::remote_views(remotes@)),
        r@.len() == remotes@.len(),
        forall|k: int|
            0 <= k < remotes@.len() ==> (#[trigger] r@[k]).addr@ == remotes@[k].addr@
                && r@[k].hash@ == digest::sha256_of(encode_utf8(remotes@[k].password@)),
{
    let mut out: Vec<Backend> = Vec::new();
    let mut i: usize = 0;
    while i < remotes.len()
        invariant
            i <= remotes.len(),
            out.len() == i,
            forall|k: int| 0 <= k < i ==> (#[trigger] out@[k])@ == backend_for(remotes@[k]@),
            forall|k: int|
                0 <= k < i ==> (#[trigger] out@[k]).addr@ == remotes@[k].addr@ && out@[k].hash@
                    == digest::sha256_of(encode_utf8(remotes@[k].password@)),
        decreases remotes.len() - i,
    {
        let entry: &RemoteEntry = &remotes[i];
        out.push(
            Backend {
                addr: entry.addr.clone(),
                hash: digest::sha256_password(entry.password.as_str()),
            },
        );
        i = i + 1;
    }
    assert(backend_views(out@) =~= backends_for(config::remote_views(remotes@)));
    out
}

/// The address of the backend that a client's hash leads to.
pub fn find_backend(backends: &[Backend], hash: &[u8; 32]) -> (r: Result<String, UnknownHash>)
    ensures
        match r {
            Ok(addr) => matching(backend_views(backends@), hash@) == Some(addr@),
            Err(e) => matching(backend_views(backends@), hash@) is None && e.hash == *hash,
        },
{
    let ghost all = backend_views(backends@);
    let mut i: usize = 0;
    assert(all.skip(0) =~= all);
    while i < backends.len()
        invariant
            i <= backends.len(),
            all == backend_views(backends@),
            matching(all, hash@) == matching(all.skip(i as int), hash@),
        decreases backends.len() - i,
    {
        assert(all.skip(i as int)[0] == backends@[i as int]@);
        assert(all.skip(i as int).skip(1) =~= all.skip(i + 1));
        if wire::same_bytes(backends[i].hash.as_slice(), hash.as_slice()) {
            return Ok(backends[i].addr.clone());
        }
        i = i + 1;
    }
    Err(UnknownHash { hash: *hash })
}

/// The authentication message for a password, with the given padding.
pub fn auth_message_with(password: &str, pad: &[u8]) -> (r: Vec<u8>)
    ensures
        r@ == auth_bytes(password_hash(password@), pad@),
        r@.take(32) == digest::sha256_of(encode_utf8(password@)),
        pad@.len() <= 0xFFFF ==> r@ == digest::sha256_of(encode_utf8(password@)) + seq![
            (pad@.len() / 256) as u8,
            (pad@.len() % 256) as u8,
        ] + pad@,
{
    let hash: [u8; 32] = digest::sha256_password(password);
    let len: usize = if pad.len() <= MAX_AUTH_PADDING {
        pad.len()
    } else {
        MAX_AUTH_PADDING
    };
    let sent: &[u8] = slice_subrange(pad, 0, len);
    assert(sent@ =~= sent_padding(pad@));
    let mut msg: Vec<u8> = Vec::new();
    wire::append_bytes(&mut msg, hash.as_slice());
    wire::append_be16(&mut msg, len as u16);
    wire::append_bytes(&mut msg, sent);
    assert(msg@ =~= auth_bytes(password_hash(password@), pad@));
    assert(msg@.take(32) =~= hash@);
    assert(pad@.len() <= 0xFFFF ==> sent@ =~= pad@);
    msg
}

/// The authentication message for a password, with random padding of a length
/// that the scheme allows; what its length field could not describe is not
/// sent.
pub fn auth_message(password: &str, scheme: &PaddingScheme) -> (r: Vec<u8>)
    ensures
        exists|pad: Seq<u8>|
            padding::padding0_fits(scheme@, pad.len()) && r@ == #[trigger] auth_bytes(
                password_hash(password@),
                pad,
            ),
        r@.take(32) == digest::sha256_of(encode_utf8(password@)),
{
    let len: usize = scheme.padding0_len();
    let drawn: usize = if len <= MAX_AUTH_PADDING {
        len
    } else {
        MAX_AUTH_PADDING
    };
    let pad: Vec<u8> = random::random_bytes(drawn);
    let msg: Vec<u8> = auth_message_with(password, pad.as_slice());
    proof {
        let whole = pad@ + wire::zero_bytes((len - drawn) as nat);
        assert(sent_padding(whole) =~= sent_padding(pad@));
        assert(msg@ == auth_bytes(password_hash(password@), whole));
        assert(padding::padding0_fits(scheme@, whole.len()));
    }
    msg
}

/// The length of the padding that follows its two-byte length field.
pub fn padding_len(field: &[u8; 2]) -> (r: usize)
    ensures
        r == wire::u16_at(field@, 0),
        r == field@[0] * 256 + field@[1],
{
    wire::read_be16(field.as_slice(), 0) as usize
}

/// Builds the first packet of a session.
pub fn first_packet(scheme: &PaddingScheme) -> (r: Vec<u8>)
    ensures
        r@ == first_packet_bytes(scheme.raw@),
        r@ == frame::frame_bytes(
            4,
            0,
            encode_utf8(
                "v=2\nclient=anyst/0.1.0\npadding-md5="@ + digest::hex_lower(
                    digest::md5_of(encode_utf8(scheme.raw@)),
                ) + "\n"@,
            ),
        ) + frame::frame_bytes(1, 1, seq![0u8]),
{
    let mut settings: String = "v=2\nclient=anyst/0.1.0\npadding-md5=".to_owned();
    settings.append(scheme.md5_hex().as_str());
    settings.append("\n");
    let mut packet: Vec<u8> = frame::encode_frame(
        frame::CMD_SETTINGS,
        0,
        settings.as_str().as_bytes(),
    );
    let none: [u8; 1] = [frame::ATYP_NONE];
    assert(none@ =~= seq![frame::ATYP_NONE]);
    let syn: Vec<u8> = frame::encode_frame(frame::CMD_SYN, FIRST_STREAM, none.as_slice());
    wire::append_bytes(&mut packet, syn.as_slice());
    packet
}

/// The server's answer to a client's settings.
pub fn server_settings_frame(scheme: &PaddingScheme) -> (r: Vec<u8>)
    ensures
        r@ == frame::frame_bytes(
            frame::CMD_SERVER_SETTINGS,
            0,
            encode_utf8(server_settings(scheme_name(scheme.raw@))),
        ),
        r@ == frame::frame_bytes(
            10,
            0,
            encode_utf8(
                "v=2\nserver=anyst/0.1.0\npadding-md5="@ + digest::hex_lower(
                    digest::md5_of(encode_utf8(scheme.raw@)),
                ) + "\n"@,
            ),
        ),
{
    let mut settings: String = "v=2\nserver=anyst/0.1.0\npadding-md5=".to_owned();
    settings.append(scheme.md5_hex().as_str());
    settings.append("\n");
    frame::encode_frame(frame::CMD_SERVER_SETTINGS, 0, settings.as_str().as_bytes())
}

/// A server reads back the hash that a client sent, and knows where the
/// session starts, whatever the padding.
pub proof fn law_auth_round_trip(hash: Seq<u8>, pad: Seq<u8>, rest: Seq<u8>)
    requires
        hash.len() == 32,
    ensures
        auth_at(auth_bytes(hash, pad) + rest) == Some((hash, auth_bytes(hash, pad).len())),
{
    let bytes = auth_bytes(hash, pad) + rest;
    let field = bytes.subrange(32, 34);
    let n = sent_padding(pad).len() as u16;
    assert(field =~= wire::be16(n));
    assert(field.subrange(0, 2) =~= field);
    wire::lemma_be16_at(field, 0, n);
    assert(bytes.take(32) =~= hash);
}

/// Whether no configured password other than `password` has its hash.
pub open spec fn unambiguous(remotes: Seq<RemoteView>, password: Seq<char>) -> bool {
    forall|i: int|
        0 <= i < remotes.len() && digest::sha256_of(encode_utf8(#[trigger] remotes[i].password))
            == digest::sha256_of(encode_utf8(password)) ==> remotes[i].password == password
}

/// A client reaches the first backend that is configured with its password,
/// and none where there is no such backend, as long as no other configured
/// password has the same hash.
pub proof fn law_password_routes(remotes: Seq<RemoteView>, password: Seq<char>)
    ensures
        unambiguous(remotes, password) ==> matching(
            backends_for(remotes),
            password_hash(password),
        ) == first_remote(remotes, password),
        unambiguous(remotes, password) ==> matching(
            backends_for(remotes),
            digest::sha256_of(encode_utf8(password)),
        ) == first_remote(remotes, password),
    decreases remotes.len(),
{
    let backends = backends_for(remotes);
    if remotes.len() > 0 && unambiguous(remotes, password) {
        assert(backends[0] == backend_for(remotes[0]));
        assert(password_hash(remotes[0].password) == backends[0].hash);
        let rest = remotes.skip(1);
        assert(backends.skip(1) =~= backends_for(rest));
        assert forall|i: int|
            0 <= i < rest.len() && digest::sha256_of(encode_utf8(#[trigger] rest[i].password))
                == digest::sha256_of(encode_utf8(password)) implies rest[i].password
            == password by {
            assert(rest[i] == remotes[i + 1]);
            assert(digest::sha256_of(encode_utf8(remotes[i + 1].password)) == digest::sha256_of(
                encode_utf8(password),
            ));
        }
        law_password_routes(rest, password);
    }
}

/// The hash that a password goes by is the SHA-256 of all of its UTF-8 bytes,
/// for a client and for a server alike: a message starts with that of the
/// client's password, and a backend goes by that of its remote's.
pub proof fn law_whole_password_is_hashed(
    password: Seq<char>,
    pad: Seq<u8>,
    remotes: Seq<RemoteView>,
    i: int,
)
    requires
        0 <= i < remotes.len(),
    ensures
        digest::sha256_of(encode_utf8(password)).len() == 32 ==> auth_bytes(
            password_hash(password),
            pad,
        ).take(32) == digest::sha256_of(encode_utf8(password)),
        backends_for(remotes).len() == remotes.len(),
        backends_for(remotes)[i].hash == digest::sha256_of(encode_utf8(remotes[i].password)),
        backends_for(remotes)[i].addr == remotes[i].addr,
{
    if digest::sha256_of(encode_utf8(password)).len() == 32 {
        assert(auth_bytes(password_hash(password), pad).take(32) =~= digest::sha256_of(
            encode_utf8(password),
        ));
    }
}

/// A client whose password is that of the remote at `i`, and of none before
/// it, reaches that remote; one whose password no remote has reaches none. All
/// that this takes is that SHA-256 does not give the client's password and
/// another configured one the same digest.
pub proof fn law_own_password_leads_home(remotes: Seq<RemoteView>, password: Seq<char>, i: int)
    requires
        0 <= i <= remotes.len(),
        i < remotes.len() ==> remotes[i].password == password,
        forall|j: int| 0 <= j < i ==> (#[trigger] remotes[j]).password != password,
    ensures
        (forall|j: int|
            0 <= j < remotes.len() && digest::sha256_of(
                encode_utf8((#[trigger] remotes[j]).password),
            ) == digest::sha256_of(encode_utf8(password)) ==> remotes[j].password == password)
            ==> matching(backends_for(remotes), digest::sha256_of(encode_utf8(password))) == (if i
            < remotes.len() {
            Some(remotes[i].addr)
        } else {
            None
        }),
    decreases remotes.len(),
{
    let hash = digest::sha256_of(encode_utf8(password));
    let backends = backends_for(remotes);
    let rest = remotes.skip(1);
    if remotes.len() > 0 && (forall|j: int|
        0 <= j < remotes.len() && digest::sha256_of(encode_utf8((#[trigger] remotes[j]).password))
            == hash ==> remotes[j].password == password) {
        assert(backends.skip(1) =~= backends_for(rest));
        assert(backends[0].hash == digest::sha256_of(encode_utf8(remotes[0].password)));
        if i > 0 {
            assert forall|j: int| 0 <= j < i - 1 implies (#[trigger] rest[j]).password
                != password by {
                assert(rest[j] == remotes[j + 1]);
            }
            assert forall|j: int|
                0 <= j < rest.len() && digest::sha256_of(
                    encode_utf8((#[trigger] rest[j]).password),
                ) == hash implies rest[j].password == password by {
                assert(rest[j] == remotes[j + 1]);
            }
            assert(i - 1 < rest.len() ==> rest[i - 1] == remotes[i]);
            assert(remotes[0].password != password);
            law_own_password_leads_home(rest, password, i - 1);
        }
    }
}

/// The layout of the authentication message: the hash, the length of the
/// padding with its high byte first, and the padding. Padding beyond 65535
/// bytes is not sent.
pub proof fn law_auth_layout(hash: Seq<u8>, pad: Seq<u8>)
    ensures
        pad.len() <= 0xFFFF ==> auth_bytes(hash, pad) == hash + seq![
            (pad.len() / 256) as u8,
            (pad.len() % 256) as u8,
        ] + pad,
        pad.len() > 0xFFFF ==> auth_bytes(hash, pad) == auth_bytes(hash, pad.take(0xFFFF)),
{
    if pad.len() > 0xFFFF {
        assert(pad.take(0xFFFF).take(0xFFFF) =~= pad.take(0xFFFF));
    }
}

/// A server waits for the whole authentication message.
pub proof fn law_cut_off_auth_waits(hash: Seq<u8>, pad: Seq<u8>, n: int)
    requires
        hash.len() == 32,
        pad.len() <= 0xFFFF,
        0 <= n < 34 + pad.len(),
    ensures
        auth_at(auth_bytes(hash, pad).take(n)) is None,
{
    let bytes = auth_bytes(hash, pad).take(n);
    if n >= 34 {
        let field = bytes.subrange(32, 34);
        assert(field =~= wire::be16(pad.len() as u16));
        assert(field.subrange(0, 2) =~= field);
        wire::lemma_be16_at(field, 0, pad.len() as u16);
    }
}

/// A hash leads to the first backend that has it, and to none where none has
/// it. `i` is the position of that backend, or the number of backends.
pub proof fn law_first_match_wins(backends: Seq<BackendView>, hash: Seq<u8>, i: int)
    requires
        0 <= i <= backends.len(),
        i < backends.len() ==> backends[i].hash == hash,
        forall|j: int| 0 <= j < i ==> (#[trigger] backends[j]).hash != hash,
    ensures
        matching(backends, hash) == (if i < backends.len() {
            Some(backends[i].addr)
        } else {
            None
        }),
    decreases backends.len(),
{
    if i > 0 {
        let rest = backends.skip(1);
        assert(backends[0].hash != hash);
        assert forall|j: int| 0 <= j < i - 1 implies (#[trigger] rest[j]).hash != hash by {
            assert(rest[j] == backends[j + 1]);
        }
        law_first_match_wins(rest, hash, i - 1);
    }
}

/// The first packet introduces the client, by the protocol version, its name
/// and the digest of its padding scheme, and asks for stream 1 without naming
/// an address.
pub proof fn law_first_packet(raw: Seq<char>)
    ensures
        first_packet_bytes(raw) == frame::frame_bytes(
            4,
            0,
            encode_utf8(
                "v=2\nclient=anyst/0.1.0\npadding-md5="@ + digest::hex_lower(
                    digest::md5_of(encode_utf8(raw)),
                ) + "\n"@,
            ),
        ) + frame::frame_bytes(1, 1, seq![0u8]),
{
}

/// What a server makes of what a client sent: once the 34 bytes in front of the
/// padding and all of the padding are there, the hash is the first 32 of them.
pub proof fn law_auth_is_read(bytes: Seq<u8>)
    ensures
        auth_at(bytes) is Some <==> bytes.len() >= 34 && bytes.len() >= 34 + bytes[32] * 256
            + bytes[33],
        auth_at(bytes) matches Some((hash, n)) ==> hash == bytes.take(32) && n == 34 + bytes[32]
            * 256 + bytes[33],
{
    if bytes.len() >= 34 {
        let field = bytes.subrange(32, 34);
        assert(field[0] == bytes[32] && field[1] == bytes[33]);
    }
}

} // verus!
