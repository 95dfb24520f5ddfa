//! Who mines: a wallet address, and what is sent under it.

use crate::address::{
    base58_text, be_value, is_address, is_address_of, leading, lemma_addresses_are_those_of_keys,
    lemma_every_key_has_an_address, lemma_key_is_unique, parse_pubkey,
};
use crate::search::Best;
use crate::wire::{
    lemma_ready_layout, lemma_solution_layout, ready_bytes, ready_message, solution_bytes,
    solution_message,
};
use base64::Engine;
use vstd::prelude::*;
use vstd::utf8::{encode_utf8, is_ascii_chars_encode_utf8};

verus! {

/// The character of the standard base64 alphabet that stands for six bits.
pub open spec fn base64_char(n: int) -> char {
    if n < 26 {
        (n + 0x41) as char
    } else if n < 52 {
        (n - 26 + 0x61) as char
    } else if n < 62 {
        (n - 52 + 0x30) as char
    } else if n == 62 {
        '+'
    } else {
        '/'
    }
}

/// The standard base64 encoding of `s`: each three bytes are four characters of six bits, and the
/// last four are padded.
pub open spec fn base64_text(s: Seq<u8>) -> Seq<char>
    decreases s.len(),
{
    if s.len() == 0 {
        Seq::empty()
    } else {
        let n = s[0] * 0x1_0000 + (if s.len() > 1 {
            s[1] * 0x100
        } else {
            0
        }) + (if s.len() > 2 {
            s[2] as int
        } else {
            0
        });
        let four = seq![
            base64_char(n / 0x4_0000),
            base64_char(n / 0x1000 % 64),
            if s.len() > 1 {
                base64_char(n / 64 % 64)
            } else {
                '='
            },
            if s.len() > 2 {
                base64_char(n % 64)
            } else {
                '='
            },
        ];
        if s.len() <= 3 {
            four
        } else {
            four + base64_text(s.skip(3))
        }
    }
}

/// Calls `base64::Engine::encode` of `base64::prelude::BASE64_STANDARD`: the encoding of RFC 4648
/// with the standard alphabet and padding. The bound keeps the text within what can be allocated.
#[verifier::external_body]
fn base64_standard(bytes: &[u8]) -> (text: String)
    requires
        (bytes@.len() + 2) / 3 * 4 <= isize::MAX,
    ensures
        text@ == base64_text(bytes@),
{
    base64::prelude::BASE64_STANDARD.encode(bytes)
}

/// A wallet address, and the public key that it stands for.
pub struct Miner {
    address: String,
    pubkey: [u8; 32],
}

impl Miner {
    /// The address.
    pub closed spec fn address(self) -> Seq<char> {
        self.address@
    }

    /// The public key.
    pub closed spec fn pubkey(self) -> Seq<u8> {
        self.pubkey@
    }

    #[verifier::type_invariant]
    spec fn well_formed(self) -> bool {
        &&& is_address_of(self.address@, self.pubkey@)
        &&& encode_utf8(self.address@).len() <= 44
    }

    /// The miner with this address, if it is the address of a public key.
    pub fn from_address(address: &str) -> (miner: Option<Miner>)
        ensures
            match miner {
                Some(miner) => {
                    &&& miner.address() == address@
                    &&& is_address_of(address@, miner.pubkey())
                    &&& miner.pubkey().len() == 32
                },
                None => !is_address(address@),
            },
    {
        match parse_pubkey(address) {
            Some(pubkey) => Some(Miner { address: address.to_owned(), pubkey }),
            None => None,
        }
    }

    /// The message that asks for a task, sent `now` seconds after the epoch.
    pub fn ready_message(&self, now: u64) -> (message: Vec<u8>)
        ensures
            message@ == ready_bytes(self.pubkey(), now),
            self.pubkey().len() == 32,
            message@.len() == 44,
    {
        proof {
            lemma_ready_layout(self.pubkey@, now);
        }
        ready_message(&self.pubkey, now)
    }

    /// The message that reports the best of a round.
    pub fn solution_message(&self, best: &Best) -> (message: Vec<u8>)
        ensures
            message@ == solution_bytes(best.hash@.0, best.nonce, self.pubkey()),
            self.pubkey().len() == 32,
            message@.len() == 60,
    {
        proof {
            lemma_solution_layout(best.hash@.0, best.nonce, self.pubkey@);
        }
        solution_message(&best.hash.d, best.nonce, &self.pubkey)
    }

    /// The value of the header that names the miner to a server: the address with no password.
    pub fn authorization(&self) -> (value: String)
        ensures
            value@ == basic_authorization(self.address()),
    {
        proof {
            use_type_invariant(self);
        }
        let mut credentials = self.address.clone();
        credentials.append(":");
        proof {
            reveal_strlit(":");
            lemma_encode_utf8_concat(self.address@, ":"@);
            reveal_with_fuel(encode_utf8, 2);
        }
        let mut value = "Basic ".to_owned();
        value.append(base64_standard(credentials.as_str().as_bytes()).as_str());
        value
    }
}

/// A public key has 32 bytes.
pub proof fn lemma_pubkey_length(miner: Miner)
    ensures
        miner.pubkey().len() == 32,
{
}

/// The header value for an address with an empty password.
pub open spec fn basic_authorization(address: Seq<char>) -> Seq<char> {
    "Basic "@ + base64_text(encode_utf8(address + ":"@))
}

/// The address of a key makes a miner with that key, and with no other.
pub proof fn lemma_miner_of_an_address(address: &str, miner: Option<Miner>, key: Seq<u8>)
    requires
        call_ensures(Miner::from_address, (address,), miner),
        key.len() == 32,
    ensures
        address@ == Seq::new(leading(key, 0u8), |i: int| '1') + base58_text(be_value(key) as nat)
            <==> (miner matches Some(miner) && miner.pubkey() == key),
        miner matches Some(miner) ==> miner.address() == address@,
{
    lemma_every_key_has_an_address(key);
    if let Some(miner) = miner {
        lemma_addresses_are_those_of_keys(address@, miner.pubkey());
        if is_address_of(address@, key) {
            lemma_key_is_unique(address@, key, miner.pubkey());
        }
    }
}

/// A miner asks for tasks with 44 bytes: a zero, its public key, the time, lowest byte first, and
/// three times the letter x.
pub proof fn lemma_ready_message(miner: &Miner, now: u64, message: Vec<u8>)
    requires
        call_ensures(Miner::ready_message, (miner, now), message),
    ensures
        message@.len() == 44,
        message@[0] == 0,
        message@.subrange(1, 33) == miner.pubkey(),
        forall|i: int|
            33 <= i < 41 ==> #[trigger] message@[i] == (now >> (8 * (i - 33)) as u64) & 0xff,
        message@[41] == 0x78 && message@[42] == 0x78 && message@[43] == 0x78,
{
    lemma_ready_layout(miner.pubkey(), now);
}

/// A miner reports a solution with 60 bytes: a two, the digest, the nonce, lowest byte first, its
/// public key, and three times the letter x.
pub proof fn lemma_solution_message(miner: &Miner, best: &Best, message: Vec<u8>)
    requires
        call_ensures(Miner::solution_message, (miner, best), message),
    ensures
        message@.len() == 60,
        message@[0] == 2,
        message@.subrange(1, 17) == best.hash.d@,
        forall|i: int|
            17 <= i < 25 ==> #[trigger] message@[i] == (best.nonce >> (8 * (i - 17)) as u64)
                & 0xff,
        message@.subrange(25, 57) == miner.pubkey(),
        message@[57] == 0x78 && message@[58] == 0x78 && message@[59] == 0x78,
{
    lemma_solution_layout(best.hash@.0, best.nonce, miner.pubkey());
}

/// A miner names itself by the base64 text of the bytes of its address and a colon.
pub proof fn lemma_authorization(miner: &Miner, value: String)
    requires
        call_ensures(Miner::authorization, (miner,), value),
    ensures
        value@ == "Basic "@ + base64_text(encode_utf8(miner.address()).push(0x3a)),
{
    reveal_strlit(":");
    lemma_encode_utf8_concat(miner.address(), ":"@);
    is_ascii_chars_encode_utf8(":"@);
    assert(encode_utf8(":"@) =~= seq![0x3au8]);
    assert(encode_utf8(miner.address()) + encode_utf8(":"@) =~= encode_utf8(miner.address()).push(
        0x3a,
    ));
}

/// The encoding of a text is that of its parts, one after the other.
proof fn lemma_encode_utf8_concat(a: Seq<char>, b: Seq<char>)
    ensures
        encode_utf8(a + b) == encode_utf8(a) + encode_utf8(b),
    decreases a.len(),
{
    if a.len() == 0 {
        assert(a + b =~= b);
        assert(encode_utf8(a) + encode_utf8(b) =~= encode_utf8(b));
    } else {
        lemma_encode_utf8_concat(a.drop_first(), b);
        assert((a + b).drop_first() =~= a.drop_first() + b);
        assert(encode_utf8(a + b) =~= encode_utf8(a) + encode_utf8(b));
    }
}

} // verus!
