//! The wallet's accounts and the creation of a new one from its keys.
use vstd::prelude::*;

verus! {

/// An account: its name and its key pair.
#[derive(Debug)]
pub struct Account {
    pub name: Vec<u8>,
    pub private_key: [u8; 32],
    /// Compressed: a parity byte, 2 or 3, then the 32-byte x coordinate.
    pub public_key: [u8; 33],
}

/// The accounts in the order they were created, and the one selected.
#[derive(Debug)]
pub struct Wallet {
    pub accounts: Vec<Account>,
    pub selected: Option<usize>,
}

/// Why an account was not created.
#[derive(Debug, Clone, Copy, PartialEq, Eq, Structural)]
pub enum ErrorAccount {
    InvalidPrivateKey,
    InvalidPublicKey,
}

/// A compressed public key: 33 bytes, the first of them 2 or 3.
pub open spec fn valid_public_key(k: Seq<u8>) -> bool {
    k.len() == 33 && (k[0] == 2 || k[0] == 3)
}

impl Wallet {
    /// A wallet without accounts.
    pub fn new() -> (r: Wallet)
        ensures
            r.accounts@.len() == 0,
            r.selected is None,
    {
        Wallet { accounts: Vec::new(), selected: None }
    }
}

/// Adds the account `name` with the given keys to `wallet`. A private key of
/// other than 32 bytes, or a public key that is not a compressed one, leaves
/// the wallet as it was and says which key was refused.
pub fn create_account(wallet: &mut Wallet, name: Vec<u8>, private_key: &Vec<u8>, public_key: &Vec<u8>) -> (r: Result<(), ErrorAccount>)
    ensures
        r == Err::<(), ErrorAccount>(ErrorAccount::InvalidPrivateKey) <==> private_key@.len() != 32,
        r == Err::<(), ErrorAccount>(ErrorAccount::InvalidPublicKey) <==> private_key@.len() == 32
            && !valid_public_key(public_key@),
        r is Err ==> *final(wallet) == *old(wallet),
        r is Ok ==> {
            let n = old(wallet).accounts@.len();
            &&& final(wallet).accounts@.len() == n + 1
            &&& final(wallet).accounts@.subrange(0, n as int) == old(wallet).accounts@
            &&& final(wallet).accounts@[n as int].name@ == name@
            &&& final(wallet).accounts@[n as int].private_key@ == private_key@
            &&& final(wallet).accounts@[n as int].public_key@ == public_key@
            &&& final(wallet).selected == old(wallet).selected
        },
{
    if private_key.len() != 32 {
        return Err(ErrorAccount::InvalidPrivateKey);
    }
    if public_key.len() != 33 || (public_key[0] != 2 && public_key[0] != 3) {
        return Err(ErrorAccount::InvalidPublicKey);
    }
    let mut private: [u8; 32] = [0u8; 32];
    let mut i: usize = 0;
    while i < 32
        invariant
            i <= 32,
            private_key@.len() == 32,
            forall|j: int| 0 <= j < i ==> private@[j] == private_key@[j],
        decreases 32 - i,
    {
        private[i] = private_key[i];
        i = i + 1;
    }
    let mut public: [u8; 33] = [0u8; 33];
    let mut k: usize = 0;
    while k < 33
        invariant
            k <= 33,
            public_key@.len() == 33,
            forall|j: int| 0 <= j < k ==> public@[j] == public_key@[j],
        decreases 33 - k,
    {
        public[k] = public_key[k];
        k = k + 1;
    }
    assert(private@ =~= private_key@);
    assert(public@ =~= public_key@);
    let ghost before = wallet.accounts@;
    wallet.accounts.push(Account { name, private_key: private, public_key: public });
    assert(wallet.accounts@.subrange(0, before.len() as int) =~= before);
    Ok(())
}

} // verus!
