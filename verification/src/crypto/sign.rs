//! The signing key of a node.
//!
//! The secret key is kept in a file of exactly 32 bytes.

use crate::outside::ed25519;
use crate::outside::random;
use crate::types::node_id::NodeId;
use crate::types::text;
use vstd::prelude::*;
use vstd::string::*;

verus! {

/// Why no identity could be made from the contents of a key file.
#[derive(Clone, Copy, Debug, PartialEq, Eq)]
pub enum IdentityError {
    /// The file holds another number of bytes than a secret key has.
    KeyLength { found: usize },
}

impl IdentityError {
    /// The error in words.
    pub fn message(&self) -> (words: String)
        ensures
            words@ == ("node.key must be 32 bytes, found "@ + text::decimal(self->found as nat)
                + " bytes"@),
    {
        match self {
            IdentityError::KeyLength { found } => text::with_number(
                "node.key must be 32 bytes, found ",
                *found as u64,
                " bytes",
            ),
        }
    }
}

/// Signs with the secret key of a node.
pub struct KeyStore {
    secret: [u8; 32],
    key_path: String,
}

impl KeyStore {
    /// The secret key.
    pub closed spec fn secret(&self) -> Seq<u8> {
        self.secret@
    }

    /// The name of the key file.
    pub closed spec fn path(&self) -> Seq<char> {
        self.key_path@
    }

    /// The key store for a key file with the given contents.
    pub fn from_key_file(key_path: String, contents: &[u8]) -> (store: Result<
        KeyStore,
        IdentityError,
    >)
        ensures
            store is Ok <==> contents@.len() == 32,
            store matches Ok(keys) ==> keys.secret() == contents@ && keys.path() == key_path@,
            store matches Err(e) ==> e == (IdentityError::KeyLength {
                found: contents@.len() as usize,
            }),
    {
        if contents.len() != 32 {
            return Err(IdentityError::KeyLength { found: contents.len() });
        }
        let mut secret: [u8; 32] = [0u8; 32];
        let mut i: usize = 0;
        while i < 32
            invariant
                i <= 32,
                contents@.len() == 32,
                forall|j: int| 0 <= j < i ==> secret@[j] == contents@[j],
            decreases 32 - i,
        {
            secret[i] = contents[i];
            i = i + 1;
        }
        assert(secret@ =~= contents@);
        Ok(KeyStore { secret, key_path })
    }

    /// A key store with a random secret key; any key may come out.
    pub fn generate(key_path: String) -> (keys: KeyStore)
        ensures
            keys.path() == key_path@,
            keys.secret().len() == 32,
    {
        KeyStore { secret: random::random_key(), key_path }
    }

    /// The contents of the key file.
    pub fn secret_bytes(&self) -> (secret: &[u8; 32])
        ensures
            secret@ == self.secret(),
    {
        &self.secret
    }

    /// The signature of `msg`. It is accepted under the node's own identifier.
    pub fn sign(&self, msg: &[u8]) -> (signature: [u8; 64])
        ensures
            signature@ == ed25519::ed25519_signature(self.secret(), msg@),
            ed25519::ed25519_accepts(
                ed25519::ed25519_public(self.secret()),
                msg@,
                signature@,
            ),
    {
        ed25519::sign_message(&self.secret, msg)
    }

    /// Whether `sig` is a signature of `msg` by the node `pubkey`.
    pub fn verify(&self, msg: &[u8], sig: &[u8; 64], pubkey: &NodeId) -> (ok: bool)
        ensures
            ok == ed25519::ed25519_accepts(pubkey@, msg@, sig@),
    {
        verify_signature(msg, sig, pubkey)
    }

    /// The identifier of the node: its public key.
    pub fn node_id(&self) -> (id: NodeId)
        ensures
            id@ == ed25519::ed25519_public(self.secret()),
    {
        NodeId::from_bytes(ed25519::public_key(&self.secret))
    }

    /// The name of the key file.
    pub fn key_path(&self) -> (path: &str)
        ensures
            path@ == self.path(),
    {
        self.key_path.as_str()
    }
}

/// Whether `sig` is a signature of `msg` by the node `pubkey`.
pub fn verify_signature(msg: &[u8], sig: &[u8; 64], pubkey: &NodeId) -> (ok: bool)
    ensures
        ok == ed25519::ed25519_accepts(pubkey@, msg@, sig@),
{
    ed25519::check_signature(pubkey.as_bytes(), msg, sig)
}

}
