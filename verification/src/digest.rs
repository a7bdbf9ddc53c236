//! Content hashes: SHA-1 (through the `sha1` crate) and their lower-case hex spelling.
use vstd::prelude::*;
use sha1::{Digest, Sha1};
use crate::text::push_char;

verus! {

/// A running SHA-1 (a `sha1::Sha1`, which Verus cannot declare: its type parameters are
/// type-level numbers). Only the wrappers below touch the hasher.
#[verifier::external_body]
pub struct ContentHasher {
    h: Sha1,
}

/// The SHA-1 digest of `data` (what `sha1` computes).
pub uninterp spec fn sha1_digest(data: Seq<u8>) -> Seq<u8>;

/// The bytes fed to a hasher so far.
pub uninterp spec fn sha1_input(h: ContentHasher) -> Seq<u8>;

/// `Sha1::new` (through `Digest`): a hasher that has been fed nothing.
#[verifier::external_body]
fn sha1_new() -> (h: ContentHasher)
    ensures
        sha1_input(h) == Seq::<u8>::empty(),
{
    ContentHasher { h: Sha1::new() }
}

/// `Digest::update` on a `Sha1`: appends `data` to what the hasher has been fed.
#[verifier::external_body]
fn sha1_update(h: &mut ContentHasher, data: &[u8])
    ensures
        sha1_input(*final(h)) == sha1_input(*old(h)) + data@,
{
    h.h.update(data);
}

/// `Digest::finalize` on a `Sha1`: the 20-byte digest of everything it was fed.
#[verifier::external_body]
fn sha1_finalize(h: ContentHasher) -> (d: Vec<u8>)
    ensures
        d@ == sha1_digest(sha1_input(h)),
        d@.len() == 20,
{
    h.h.finalize().to_vec()
}

/// The lower-case hex digit for `n < 16`.
pub open spec fn hex_digit(n: int) -> char {
    if n < 10 {
        (n + 48) as char
    } else {
        (n + 87) as char
    }
}

/// Two lower-case hex digits per byte, most significant first.
pub open spec fn hex_spec(bytes: Seq<u8>) -> Seq<char>
    decreases bytes.len(),
{
    if bytes.len() == 0 {
        Seq::empty()
    } else {
        hex_spec(bytes.drop_last()) + seq![
            hex_digit(bytes.last() as int / 16),
            hex_digit(bytes.last() as int % 16),
        ]
    }
}

pub proof fn lemma_hex_len(bytes: Seq<u8>)
    ensures
        hex_spec(bytes).len() == 2 * bytes.len(),
    decreases bytes.len(),
{
    if bytes.len() > 0 {
        lemma_hex_len(bytes.drop_last());
    }
}

fn hex_char(n: u8) -> (c: char)
    requires
        n < 16,
    ensures
        c == hex_digit(n as int),
{
    if n < 10 {
        (n + 48) as char
    } else {
        (n + 87) as char
    }
}

/// Lower-case hex of `bytes`.
pub fn hex(bytes: &[u8]) -> (s: String)
    ensures
        s@ == hex_spec(bytes@),
{
    let mut s = String::new();
    let mut i: usize = 0;
    while i < bytes.len()
        invariant
            0 <= i <= bytes.len(),
            s@ == hex_spec(bytes@.take(i as int)),
        decreases bytes.len() - i,
    {
        let b = bytes[i];
        push_char(&mut s, hex_char(b / 16));
        push_char(&mut s, hex_char(b % 16));
        assert(bytes@.take(i + 1).drop_last() =~= bytes@.take(i as int));
        assert(s@ =~= hex_spec(bytes@.take(i + 1)));
        i += 1;
    }
    assert(bytes@.take(bytes.len() as int) =~= bytes@);
    s
}

/// Hex SHA-1 of `data` (40 lower-case hex digits).
pub fn sha1_hex(data: &[u8]) -> (s: String)
    ensures
        s@ == hex_spec(sha1_digest(data@)),
        s@.len() == 40,
{
    let mut h = sha1_new();
    sha1_update(&mut h, data);
    let d = sha1_finalize(h);
    assert(Seq::<u8>::empty() + data@ =~= data@);
    proof {
        lemma_hex_len(d@);
    }
    hex(d.as_slice())
}

impl ContentHasher {
    /// A hasher that has been fed nothing.
    pub fn new() -> (c: ContentHasher)
        ensures
            sha1_input(c) == Seq::<u8>::empty(),
    {
        sha1_new()
    }

    /// Feeds `data`.
    pub fn update(&mut self, data: &[u8])
        ensures
            sha1_input(*final(self)) == sha1_input(*old(self)) + data@,
    {
        sha1_update(self, data);
    }

    /// The hex SHA-1 of everything fed.
    pub fn finish_hex(self) -> (s: String)
        ensures
            s@ == hex_spec(sha1_digest(sha1_input(self))),
            s@.len() == 40,
    {
        let d = sha1_finalize(self);
        proof {
            lemma_hex_len(d@);
        }
        hex(d.as_slice())
    }
}

} // verus!
