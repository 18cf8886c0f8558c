use vstd::prelude::*;

verus! {

/// A wallet entry: the public key that identifies a sharing session, and
/// the degree of the polynomial its secret was shared with.
#[derive(Clone, Debug)]
pub struct Wallet {
    /// Public key of the wallet, as hexadecimal text.
    pub pub_key: String,
    /// Degree of the sharing polynomial for this wallet's secret.
    pub degree: u8,
}

impl Wallet {
    /// Builds a wallet from its public key and sharing degree.
    pub fn new(pub_key: String, degree: u8) -> (r: Self)
        ensures
            r.pub_key@ == pub_key@,
            r.degree == degree,
    {
        Self { pub_key, degree }
    }

    /// Returns a field-for-field copy of the wallet.
    pub fn copy(&self) -> (r: Wallet)
        ensures
            r.pub_key@ == self.pub_key@,
            r.degree == self.degree,
    {
        Wallet { pub_key: self.pub_key.clone(), degree: self.degree }
    }
}

} // verus!
