//! Salamander obfuscation: every packet is an 8-byte random salt followed by
//! the payload XOR-ed with a 32-byte BLAKE2b-256 key derived from the
//! pre-shared key and the salt.

use vstd::prelude::*;

verus! {

/// Shortest pre-shared key that [`Salamander::new`] accepts.
pub const SM_PSK_MIN_LEN: usize = 4;

/// Length of the salt that prefixes every obfuscated packet.
pub const SM_SALT_LEN: usize = 8;

/// Length of the derived key.
pub const SM_KEY_LEN: usize = 32;

/// BLAKE2b with a 32-byte output, as computed by the `blake2` crate.
pub uninterp spec fn blake2b_256(data: Seq<u8>) -> Seq<u8>;

/// Calls `blake2::Blake2b256::digest` (BLAKE2b with a 32-byte output) on `data`.
/// Trusted: the digest is the named function `blake2b_256` of the input bytes.
#[verifier::external_body]
fn blake2b_256_digest(data: &[u8]) -> (digest: [u8; 32])
    ensures
        digest@ == blake2b_256(data@),
{
    <blake2::Blake2b256 as blake2::Digest>::digest(data).into()
}

/// Calls `rand::rng()`, the lazily-seeded thread-local generator.
/// Nothing is claimed of the generator it returns.
#[verifier::external_body]
fn thread_rng() -> rand::rngs::ThreadRng {
    rand::rng()
}

/// Builds the `std::io::Error` (kind `InvalidInput`, message "psk too short")
/// that a rejected pre-shared key is answered with; nothing is claimed of it.
#[verifier::external_body]
fn psk_too_short_error() -> std::io::Error {
    std::io::Error::new(std::io::ErrorKind::InvalidInput, "psk too short")
}

#[verifier::external_type_specification]
#[verifier::external_body]
pub struct ExThreadRng(rand::rngs::ThreadRng);

#[verifier::external_type_specification]
#[verifier::external_body]
pub struct ExIoError(std::io::Error);

/// A source of fresh salts for [`Salamander::obfuscate`].
pub trait SaltSource: Sized {
    /// The source once one salt has been drawn from it.
    spec fn after_draw(&self) -> Self;

    /// The source, in its present state, may yield `salt` as its next salt.
    spec fn may_yield(&self, salt: [u8; 8]) -> bool;

    /// Draws the next 8 salt bytes.
    fn next_salt(&mut self) -> (salt: [u8; 8])
        ensures
            *final(self) == old(self).after_draw(),
            old(self).may_yield(salt),
    ;
}

/// Fills 8 bytes with `rand::Rng::fill_bytes` on the thread-local generator.
/// The bytes are random, so nothing is claimed of them. A `ThreadRng` is a
/// shared handle (`Rc`) to the thread's generator, and filling bytes
/// advances that generator behind the handle, leaving the handle itself as
/// it was.
#[verifier::external_body]
fn thread_rng_salt(rng: &mut rand::rngs::ThreadRng) -> (salt: [u8; 8])
    ensures
        *final(rng) == *old(rng),
{
    let mut salt = [0u8; 8];
    rand::Rng::fill_bytes(rng, &mut salt);
    salt
}

impl SaltSource for rand::rngs::ThreadRng {
    /// Drawing leaves the handle as it was.
    open spec fn after_draw(&self) -> Self {
        *self
    }

    /// Any 8 bytes may come out of the generator.
    open spec fn may_yield(&self, salt: [u8; 8]) -> bool {
        true
    }

    fn next_salt(&mut self) -> (salt: [u8; 8]) {
        thread_rng_salt(self)
    }
}

/// `data` with byte `i` XOR-ed with `key[i % 32]`.
pub open spec fn keystream_xor(data: Seq<u8>, key: Seq<u8>) -> Seq<u8> {
    Seq::new(data.len(), |i: int| data[i] ^ key[i % 32])
}

/// The key derived from the pre-shared key and a salt.
pub open spec fn session_key(psk: Seq<u8>, salt: Seq<u8>) -> Seq<u8> {
    blake2b_256(psk + salt)
}

/// The packet that carries `data` under `salt`.
pub open spec fn obfuscated_packet(psk: Seq<u8>, salt: Seq<u8>, data: Seq<u8>) -> Seq<u8> {
    salt + keystream_xor(data, session_key(psk, salt))
}

/// The payload that `packet` carries (its first 8 bytes are the salt).
pub open spec fn deobfuscated_payload(psk: Seq<u8>, packet: Seq<u8>) -> Seq<u8> {
    keystream_xor(packet.skip(8), session_key(psk, packet.take(8)))
}

/// Packet obfuscator keyed by a pre-shared key, drawing salts from `R`.
pub struct Salamander<R> {
    buf: Vec<u8>,
    rng: R,
}

impl<R> Salamander<R> {
    /// The pre-shared key.
    pub closed spec fn psk(&self) -> Seq<u8> {
        self.buf@.take(self.buf@.len() - 8)
    }

    /// The salt source.
    pub closed spec fn salt_source(&self) -> R {
        self.rng
    }

    /// The buffer holds the key (at least 4 bytes) and room for a salt.
    pub closed spec fn wf(&self) -> bool {
        self.buf@.len() >= 12
    }

    /// Keeps `psk` (followed by room for a salt); refuses a key shorter than
    /// 4 bytes with an `InvalidInput` error.
    pub fn new(psk: &[u8], rng: R) -> (res: std::io::Result<Self>)
        requires
            psk@.len() + 8 <= usize::MAX,
        ensures
            res is Ok <==> psk@.len() >= SM_PSK_MIN_LEN,
            res matches Ok(s) ==> s.wf() && s.psk() == psk@ && s.salt_source() == rng,
    {
        let mut buf: Vec<u8> = Vec::with_capacity(psk.len() + SM_SALT_LEN);
        let mut i: usize = 0;
        while i < psk.len()
            invariant
                i <= psk@.len(),
                buf@ == psk@.take(i as int),
            decreases psk@.len() - i,
        {
            buf.push(psk[i]);
            i = i + 1;
        }
        let mut j: usize = 0;
        while j < SM_SALT_LEN
            invariant
                j <= 8,
                buf@.len() == psk@.len() + j,
                buf@.take(psk@.len() as int) == psk@,
            decreases 8 - j,
        {
            buf.push(0u8);
            j = j + 1;
        }
        if psk.len() >= SM_PSK_MIN_LEN {
            Ok(Salamander { buf, rng })
        } else {
            Err(psk_too_short_error())
        }
    }

    /// Writes `salt` behind the pre-shared key and hashes the two.
    fn key(&mut self, salt: &[u8]) -> (key: [u8; 32])
        requires
            old(self).wf(),
            salt@.len() == 8,
        ensures
            final(self).wf(),
            key@ == session_key(old(self).psk(), salt@),
            final(self).psk() == old(self).psk(),
            final(self).salt_source() == old(self).salt_source(),
    {
        let offset = self.buf.len() - SM_SALT_LEN;
        let ghost psk = self.buf@.take(offset as int);
        let mut i: usize = 0;
        while i < SM_SALT_LEN
            invariant
                i <= 8,
                offset + 8 == self.buf.len(),
                self.buf@.len() >= 12,
                self.rng == old(self).rng,
                self.buf@.take(offset as int) == psk,
                forall|k: int| 0 <= k < i ==> self.buf@[offset + k] == salt@[k],
                salt@.len() == 8,
            decreases 8 - i,
        {
            self.buf.set(offset + i, salt[i]);
            i = i + 1;
        }
        assert(self.buf@ =~= psk + salt@);
        blake2b_256_digest(self.buf.as_slice())
    }

    /// Writes the packet for `in_data` under the given `salt` into `out_data`
    /// and returns its length, or returns 0 and leaves `out_data` untouched
    /// when it is too short for the packet.
    pub fn obfuscate_with_salt(&mut self, salt: &[u8; 8], in_data: &[u8], out_data: &mut [u8]) -> (n: usize)
        requires
            old(self).wf(),
            in_data@.len() + 8 <= usize::MAX,
        ensures
            final(self).wf(),
            final(out_data)@.len() == old(out_data)@.len(),
            old(out_data)@.len() < in_data@.len() + 8 ==> n == 0 && final(out_data)@ == old(out_data)@
                && *final(self) == *old(self),
            old(out_data)@.len() >= in_data@.len() + 8 ==> {
                &&& n == in_data@.len() + 8
                &&& final(out_data)@ == obfuscated_packet(old(self).psk(), salt@, in_data@)
                    + old(out_data)@.skip(n as int)
            },
            final(self).psk() == old(self).psk(),
            final(self).salt_source() == old(self).salt_source(),
    {
        let out_len = SM_SALT_LEN + in_data.len();
        if out_data.len() < out_len {
            return 0;
        }
        let mut i: usize = 0;
        while i < SM_SALT_LEN
            invariant
                i <= 8,
                out_data@.len() == old(out_data)@.len(),
                out_data@.len() >= out_len,
                forall|k: int| 0 <= k < i ==> out_data@[k] == salt@[k],
                forall|k: int| out_len <= k < out_data@.len() ==> out_data@[k] == old(out_data)@[k],
                out_len == 8 + in_data@.len(),
            decreases 8 - i,
        {
            out_data[i] = salt[i];
            i = i + 1;
        }
        let key = self.key(salt);
        let mut j: usize = 0;
        while j < in_data.len()
            invariant
                j <= in_data@.len(),
                out_data@.len() == old(out_data)@.len(),
                out_data@.len() >= out_len,
                out_len == 8 + in_data@.len(),
                key@.len() == 32,
                forall|k: int| 0 <= k < 8 ==> out_data@[k] == salt@[k],
                forall|k: int| 0 <= k < j ==> out_data@[8 + k] == in_data@[k] ^ key@[k % 32],
                forall|k: int| out_len <= k < out_data@.len() ==> out_data@[k] == old(out_data)@[k],
            decreases in_data@.len() - j,
        {
            out_data[SM_SALT_LEN + j] = in_data[j] ^ key[j % SM_KEY_LEN];
            j = j + 1;
        }
        assert(out_data@ =~= obfuscated_packet(old(self).psk(), salt@, in_data@)
            + old(out_data)@.skip(out_len as int));
        out_len
    }

    /// Turns the packet for `in_data` into `out_data` and returns its length,
    /// or returns 0 and leaves `out_data` untouched when it is too short.
    pub fn obfuscate(&mut self, in_data: &[u8], out_data: &mut [u8]) -> (n: usize) where R: SaltSource
        requires
            old(self).wf(),
            in_data@.len() + 8 <= usize::MAX,
        ensures
            final(self).wf(),
            final(out_data)@.len() == old(out_data)@.len(),
            old(out_data)@.len() < in_data@.len() + 8 ==> n == 0 && final(out_data)@ == old(out_data)@
                && *final(self) == *old(self),
            old(out_data)@.len() >= in_data@.len() + 8 ==> {
                &&& n == in_data@.len() + 8
                &&& final(out_data)@ == obfuscated_packet(
                    old(self).psk(),
                    final(out_data)@.take(8),
                    in_data@,
                ) + old(out_data)@.skip(n as int)
                &&& final(self).salt_source() == old(self).salt_source().after_draw()
                &&& exists|salt: [u8; 8]|
                    #[trigger] old(self).salt_source().may_yield(salt) && salt@ == final(out_data)@.take(8)
            },
            final(self).psk() == old(self).psk(),
    {
        let out_len = SM_SALT_LEN + in_data.len();
        if out_data.len() < out_len {
            return 0;
        }
        let salt = self.rng.next_salt();
        assert(old(self).salt_source().may_yield(salt));
        let n = self.obfuscate_with_salt(&salt, in_data, out_data);
        assert(out_data@.take(8) =~= salt@);
        n
    }

    /// Writes the payload carried by the packet `in_data` into `out_data` and
    /// returns its length, or returns 0 and leaves `out_data` untouched when
    /// the packet holds no payload or `out_data` is too short.
    pub fn deobfuscate(&mut self, in_data: &[u8], out_data: &mut [u8]) -> (n: usize)
        requires
            old(self).wf(),
        ensures
            final(self).wf(),
            final(out_data)@.len() == old(out_data)@.len(),
            (in_data@.len() <= 8 || old(out_data)@.len() < in_data@.len() - 8) ==> n == 0
                && final(out_data)@ == old(out_data)@,
            (in_data@.len() > 8 && old(out_data)@.len() >= in_data@.len() - 8) ==> {
                &&& n == in_data@.len() - 8
                &&& final(out_data)@ == deobfuscated_payload(old(self).psk(), in_data@)
                    + old(out_data)@.skip(n as int)
            },
            final(self).psk() == old(self).psk(),
            final(self).salt_source() == old(self).salt_source(),
    {
        if in_data.len() <= SM_SALT_LEN {
            return 0;
        }
        let out_len = in_data.len() - SM_SALT_LEN;
        if out_len > out_data.len() {
            return 0;
        }
        let (salt, body) = in_data.split_at(SM_SALT_LEN);
        let key = self.key(salt);
        let mut j: usize = 0;
        while j < out_len
            invariant
                j <= out_len,
                out_len == body@.len(),
                body@ == in_data@.skip(8),
                out_data@.len() == old(out_data)@.len(),
                out_data@.len() >= out_len,
                key@.len() == 32,
                forall|k: int| 0 <= k < j ==> out_data@[k] == body@[k] ^ key@[k % 32],
                forall|k: int| out_len <= k < out_data@.len() ==> out_data@[k] == old(out_data)@[k],
            decreases out_len - j,
        {
            out_data[j] = body[j] ^ key[j % SM_KEY_LEN];
            j = j + 1;
        }
        assert(salt@ =~= in_data@.take(8));
        assert(out_data@ =~= deobfuscated_payload(old(self).psk(), in_data@)
            + old(out_data)@.skip(out_len as int));
        out_len
    }
}

impl Salamander<rand::rngs::ThreadRng> {
    /// [`Salamander::new`] with the thread-local random generator.
    pub fn new_thread(psk: &[u8]) -> (res: std::io::Result<Self>)
        requires
            psk@.len() + 8 <= usize::MAX,
        ensures
            res is Ok <==> psk@.len() >= SM_PSK_MIN_LEN,
            res matches Ok(s) ==> s.wf() && s.psk() == psk@,
    {
        Salamander::new(psk, thread_rng())
    }
}

/// XOR-ing twice with the same key byte gives the byte back.
proof fn lemma_xor_twice(a: u8, b: u8)
    ensures
        (a ^ b) ^ b == a,
{
    assert((a ^ b) ^ b == a) by (bit_vector);
}

/// Deobfuscating a packet gives back the payload it was obfuscated from,
/// whatever the salt.
pub proof fn lemma_deobfuscate_inverts_obfuscate(psk: Seq<u8>, salt: Seq<u8>, data: Seq<u8>)
    requires
        salt.len() == SM_SALT_LEN,
    ensures
        deobfuscated_payload(psk, obfuscated_packet(psk, salt, data)) == data,
{
    let packet = obfuscated_packet(psk, salt, data);
    let key = session_key(psk, salt);
    assert(packet.take(8) =~= salt);
    assert(packet.skip(8) =~= keystream_xor(data, key));
    assert forall|i: int| 0 <= i < data.len() implies deobfuscated_payload(psk, packet)[i] == data[i] by {
        lemma_xor_twice(data[i], key[i % 32]);
    }
    assert(deobfuscated_payload(psk, packet) =~= data);
}

/// An obfuscated packet is the payload's length plus the salt.
pub proof fn lemma_obfuscated_length(psk: Seq<u8>, salt: Seq<u8>, data: Seq<u8>)
    requires
        salt.len() == SM_SALT_LEN,
    ensures
        obfuscated_packet(psk, salt, data).len() == data.len() + SM_SALT_LEN,
        deobfuscated_payload(psk, obfuscated_packet(psk, salt, data)).len() == data.len(),
{
    lemma_deobfuscate_inverts_obfuscate(psk, salt, data);
}

} // verus!
