//! Identifiers of plans and subscriptions: the Base58 text, in the Bitcoin
//! alphabet, of an account's name followed by the decimal digits of a time.

use vstd::prelude::*;
use vstd::utf8::encode_utf8;

verus! {

/// The ASCII decimal digits of `n`, most significant first, without leading zeros.
pub open spec fn decimal_ascii(n: nat) -> Seq<u8>
    decreases n,
{
    if n < 10 {
        seq![(48 + n) as u8]
    } else {
        decimal_ascii(n / 10).push((48 + n % 10) as u8)
    }
}

/// The bytes from which an identifier is made: the UTF-8 bytes of the account's
/// name, then the decimal digits of the time.
pub open spec fn id_seed(account: Seq<char>, ts: u64) -> Seq<u8> {
    encode_utf8(account) + decimal_ascii(ts as nat)
}

/// The Base58 text of `input` in the Bitcoin alphabet, as the `bs58` crate
/// computes it.
pub uninterp spec fn bs58_bitcoin_encoding(input: Seq<u8>) -> Seq<char>;

/// The identifier derived from `account` at time `ts`.
pub open spec fn spec_derive_id(account: Seq<char>, ts: u64) -> Seq<char> {
    bs58_bitcoin_encoding(id_seed(account, ts))
}

/// Calls `bs58::encode(input).with_alphabet(Alphabet::BITCOIN).into_string()`
/// (the `bs58` that `near_sdk` re-exports). The contract claims only that the
/// text is the Base58 encoding of exactly these bytes; what that text is, is
/// left to the name `bs58_bitcoin_encoding`.
#[verifier::external_body]
fn bs58_encode(input: &Vec<u8>) -> (text: String)
    ensures
        text@ == bs58_bitcoin_encoding(input@),
{
    near_sdk::bs58::encode(input).with_alphabet(near_sdk::bs58::Alphabet::BITCOIN).into_string()
}

fn push_decimal(out: &mut Vec<u8>, n: u64)
    ensures
        final(out)@ == old(out)@ + decimal_ascii(n as nat),
    decreases n,
{
    if n >= 10 {
        push_decimal(out, n / 10);
        let d: u8 = (n % 10) as u8;
        out.push(48 + d);
        assert(final(out)@ =~= old(out)@ + decimal_ascii(n as nat));
    } else {
        let d: u8 = n as u8;
        out.push(48 + d);
        assert(final(out)@ =~= old(out)@ + decimal_ascii(n as nat));
    }
}

/// The identifier that the contract gives to what `account` creates at time `ts`.
pub fn derive_id(account: &String, ts: u64) -> (id: String)
    ensures
        id@ == spec_derive_id(account@, ts),
{
    let bytes: &[u8] = account.as_str().as_bytes();
    let mut seed: Vec<u8> = Vec::new();
    let n = bytes.len();
    let mut i: usize = 0;
    while i < n
        invariant
            n == bytes@.len(),
            i <= n,
            seed@ == bytes@.subrange(0, i as int),
        decreases n - i,
    {
        seed.push(bytes[i]);
        i = i + 1;
        assert(seed@ =~= bytes@.subrange(0, i as int));
    }
    assert(seed@ =~= encode_utf8(account@));
    push_decimal(&mut seed, ts);
    bs58_encode(&seed)
}

} // verus!
