//! The laws the cipher obeys, proved once and for all from the contracts
//! of the engine's operations.

use vstd::prelude::*;
use vstd::arithmetic::div_mod::lemma_add_mod_noop;
use vstd::arithmetic::div_mod::lemma_add_mod_noop_right;
use vstd::arithmetic::div_mod::lemma_mod_add_multiples_vanish;
use vstd::arithmetic::div_mod::lemma_mod_division_less_than_divisor;
use vstd::arithmetic::div_mod::lemma_small_mod;
use crate::alphabet::lemma_index_of_unique;
use crate::alphabet::sorted_unique;
use crate::pad::decrypt_key_ints;
use crate::pad::key_ints;
use crate::pad::spec_encrypt_char;
use crate::pad::spec_key_str;
use crate::pad::spec_transform;

verus! {

/// Rotating a character of the alphabet forward by `k` and then by `n - k`
/// returns the character: the decrypt-key formula inverts encryption, one
/// character at a time.
pub proof fn lemma_encrypt_char_round_trip(alpha: Seq<char>, c: char, k: int)
    requires
        sorted_unique(alpha),
        alpha.contains(c),
        0 <= k < alpha.len(),
    ensures
        spec_encrypt_char(alpha, spec_encrypt_char(alpha, c, k), alpha.len() - k) == c,
{
    let n = alpha.len() as int;
    let i = alpha.index_of(c);
    assert(0 <= i < n && alpha[i] == c) by {
        assert(exists|j: int| 0 <= j < alpha.len() && alpha[j] == c);
    }
    lemma_mod_division_less_than_divisor(i + k, n);
    let p = (i + k) % n;
    let e = alpha[p];
    assert(alpha.contains(e));
    lemma_index_of_unique(alpha, p, e);
    assert(spec_encrypt_char(alpha, c, k) == e) by {
        lemma_index_of_unique(alpha, i, c);
    }
    assert((p + (n - k)) % n == i) by {
        lemma_add_mod_noop_right(p, n - k, n);
        lemma_add_mod_noop(i + k, n - k, n);
        assert((p + (n - k)) % n == (i + n) % n);
        lemma_mod_add_multiples_vanish(i, n);
        lemma_small_mod(i as nat, n as nat);
    }
}

/// One keyed rotation followed by its inverse returns any character, in or
/// out of the alphabet: a pass-through character is left alone twice.
pub proof fn lemma_any_char_round_trip(alpha: Seq<char>, c: char, k: int)
    requires
        sorted_unique(alpha),
        alpha.len() > 0,
        0 <= k < alpha.len(),
    ensures
        spec_encrypt_char(alpha, spec_encrypt_char(alpha, c, k), alpha.len() - k) == c,
{
    if alpha.contains(c) {
        lemma_encrypt_char_round_trip(alpha, c, k);
    }
}

/// Decrypting an encryption of `s` returns `s`, whenever `s` is no longer
/// than the key and the alphabet is unchanged between the two calls.
pub proof fn lemma_transform_round_trip(alpha: Seq<char>, key: Seq<usize>, s: Seq<char>)
    requires
        sorted_unique(alpha),
        alpha.len() > 0,
        forall|i: int| 0 <= i < key.len() ==> (key[i] as int) < alpha.len(),
        s.len() <= key.len(),
    ensures
        spec_transform(
            alpha,
            decrypt_key_ints(key, alpha.len() as int),
            spec_transform(alpha, key_ints(key), s),
        ) == s,
{
    let n = alpha.len() as int;
    let enc = spec_transform(alpha, key_ints(key), s);
    let dec = spec_transform(alpha, decrypt_key_ints(key, n), enc);
    assert(enc.len() == s.len());
    assert(dec.len() == s.len());
    assert forall|j: int| 0 <= j < s.len() implies dec[j] == s[j] by {
        assert(enc[j] == spec_encrypt_char(alpha, s[j], key[j] as int));
        lemma_any_char_round_trip(alpha, s[j], key[j] as int);
    }
    assert(dec =~= s);
}

/// After a key has been set from a string, rendering the key back as
/// characters returns exactly that string.
pub proof fn lemma_set_key_round_trip(alpha: Seq<char>, key: Seq<usize>, s: Seq<char>)
    requires
        key.len() == s.len(),
        forall|i: int|
            0 <= i < key.len() ==> (key[i] as int) < alpha.len() && alpha[key[i] as int] == s[i],
    ensures
        spec_key_str(alpha, key) == s,
{
    assert(spec_key_str(alpha, key) =~= s);
}

/// Truncation: when the input is at least as long as the key, the
/// transform's output is exactly as long as the key, never the input.
pub proof fn lemma_truncation(alpha: Seq<char>, key: Seq<int>, input: Seq<char>)
    requires
        input.len() >= key.len(),
    ensures
        spec_transform(alpha, key, input).len() == key.len(),
{
}

} // verus!
