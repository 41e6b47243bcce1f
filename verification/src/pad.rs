//! The cipher engine: a sorted alphabet together with an encryption key of
//! alphabet indices, and the keyed rotation transforms over them.

use vstd::prelude::*;
use vstd::string::StrSliceExecFns;
use vstd::arithmetic::div_mod::lemma_add_mod_noop;
use vstd::arithmetic::div_mod::lemma_small_mod;
use crate::alphabet::find_char;
use crate::alphabet::find_valid_characters;
use crate::alphabet::insert_sorted;
use crate::alphabet::is_ascii_letter;
use crate::alphabet::lemma_index_of_unique;
use crate::alphabet::lemma_sorted_unique_len;
use crate::alphabet::sorted_unique;
use crate::rng::get_one_time_pad_key;

verus! {

/// What one keyed rotation returns: a character of the alphabet moves
/// forward by `key` positions, wrapping around; any other character passes
/// through unchanged.
pub open spec fn spec_encrypt_char(alpha: Seq<char>, c: char, key: int) -> char
    recommends
        alpha.len() > 0,
        0 <= key,
{
    if alpha.contains(c) {
        alpha[(alpha.index_of(c) + key) % (alpha.len() as int)]
    } else {
        c
    }
}

/// The truncating zip of an input with a key: each input character is paired
/// with the key element at the same position and rotated; the result stops
/// at the shorter of the two sequences.
pub open spec fn spec_transform(alpha: Seq<char>, key: Seq<int>, input: Seq<char>) -> Seq<char> {
    Seq::new(
        if input.len() <= key.len() {
            input.len()
        } else {
            key.len()
        },
        |i: int| spec_encrypt_char(alpha, input[i], key[i]),
    )
}

/// An encryption key, read as mathematical integers.
pub open spec fn key_ints(key: Seq<usize>) -> Seq<int> {
    key.map_values(|k: usize| k as int)
}

/// The decryption key derived from an encryption key over an alphabet of
/// `n` characters: `n - k` for each element `k`.
pub open spec fn decrypt_key_ints(key: Seq<usize>, n: int) -> Seq<int> {
    key.map_values(|k: usize| n - k)
}

/// The encryption key rendered as the characters it indexes.
pub open spec fn spec_key_str(alpha: Seq<char>, key: Seq<usize>) -> Seq<char> {
    Seq::new(key.len(), |i: int| alpha[key[i] as int])
}

/// The cipher engine: an alphabet of distinct characters sorted by code
/// point, and an encryption key of indices into it.
pub struct OneTimePad {
    pub valid_chars: Vec<char>,
    pub encrypt_key: Vec<usize>,
}

impl OneTimePad {
    /// The engine's invariant: the alphabet is sorted and duplicate-free,
    /// holds the 52 ASCII letters, and every key element indexes into it.
    pub open spec fn wf(self) -> bool {
        &&& sorted_unique(self.valid_chars@)
        &&& (forall|c: char| is_ascii_letter(c) ==> self.valid_chars@.contains(c))
        &&& (forall|i: int|
            0 <= i < self.encrypt_key@.len() ==> (self.encrypt_key@[i] as int)
                < self.valid_chars@.len())
    }

    /// The alphabet always holds at least the letter `A`, so it is never
    /// empty and no rotation ever divides by zero.
    pub proof fn lemma_alphabet_nonempty(self)
        requires
            self.wf(),
        ensures
            self.valid_chars@.len() > 0,
    {
        assert(is_ascii_letter('A'));
        assert(self.valid_chars@.contains('A'));
    }

    /// Builds an engine whose alphabet holds the ASCII letters and the
    /// characters of `extra_chars`, with a fresh random key of `keysize`
    /// uniformly drawn alphabet indices.
    pub fn new(keysize: usize, extra_chars: &str) -> (r: OneTimePad)
        ensures
            r.wf(),
            forall|c: char|
                r.valid_chars@.contains(c) <==> (is_ascii_letter(c) || extra_chars@.contains(c)),
            r.encrypt_key@.len() == keysize,
    {
        let valid_chars_ = find_valid_characters(extra_chars);
        let nchar = valid_chars_.len();
        proof {
            assert(is_ascii_letter('A'));
            assert(valid_chars_@.contains('A'));
        }
        OneTimePad { valid_chars: valid_chars_, encrypt_key: get_one_time_pad_key(nchar, keysize) }
    }

    /// One keyed rotation.  A character of the alphabet at index `i` is
    /// replaced by the character at `(i + key) mod n`; a character outside
    /// the alphabet passes through unchanged.
    pub fn encrypt_char(&self, chr: char, key: usize) -> (r: char)
        requires
            self.wf(),
        ensures
            r == spec_encrypt_char(self.valid_chars@, chr, key as int),
    {
        let nchr = self.valid_chars.len();
        proof {
            self.lemma_alphabet_nonempty();
            lemma_sorted_unique_len(self.valid_chars@);
        }
        match find_char(&self.valid_chars, chr) {
            Ok(idx) => {
                let k: usize = key % nchr;
                let j: usize = (idx + k) % nchr;
                proof {
                    lemma_index_of_unique(self.valid_chars@, idx as int, chr);
                    lemma_small_mod(idx as nat, nchr as nat);
                    lemma_add_mod_noop(idx as int, key as int, nchr as int);
                }
                self.valid_chars[j]
            }
            Err(_) => chr,
        }
    }

    /// The decryption key: `n - k` for each key element `k`, where `n` is
    /// the alphabet size.  Fed back through the forward rotation, `n - k`
    /// wraps around modulo `n` and undoes the rotation by `k`.
    pub fn decrypt_key(&self) -> (r: Vec<usize>)
        requires
            self.wf(),
        ensures
            r@.len() == self.encrypt_key@.len(),
            forall|i: int|
                0 <= i < r@.len() ==> r@[i] as int == self.valid_chars@.len()
                    - self.encrypt_key@[i] as int,
    {
        let nchr = self.valid_chars.len();
        let mut r: Vec<usize> = Vec::new();
        let mut i: usize = 0;
        while i < self.encrypt_key.len()
            invariant
                self.wf(),
                nchr == self.valid_chars@.len(),
                i <= self.encrypt_key@.len(),
                r@.len() == i as int,
                forall|j: int|
                    0 <= j < i ==> r@[j] as int == self.valid_chars@.len()
                        - self.encrypt_key@[j] as int,
            decreases self.encrypt_key@.len() - i,
        {
            let k = self.encrypt_key[i];
            r.push(nchr - k);
            i = i + 1;
        }
        r
    }

    /// Encrypts `input` against the encryption key: a truncating zip, so
    /// the result is as long as the shorter of input and key.
    pub fn encrypt_string(&self, input: &str) -> (r: String)
        requires
            self.wf(),
        ensures
            r@ == spec_transform(self.valid_chars@, key_ints(self.encrypt_key@), input@),
    {
        let n_in = input.unicode_len();
        let n_key = self.encrypt_key.len();
        let m = if n_in <= n_key {
            n_in
        } else {
            n_key
        };
        let mut out = String::new();
        let mut i: usize = 0;
        while i < m
            invariant
                self.wf(),
                n_in == input@.len(),
                n_key == self.encrypt_key@.len(),
                m == if n_in <= n_key {
                    n_in
                } else {
                    n_key
                },
                i <= m,
                out@.len() == i as int,
                forall|j: int|
                    0 <= j < i ==> out@[j] == spec_encrypt_char(
                        self.valid_chars@,
                        input@[j],
                        self.encrypt_key@[j] as int,
                    ),
            decreases m - i,
        {
            let c = input.get_char(i);
            let k = self.encrypt_key[i];
            let e = self.encrypt_char(c, k);
            push_char(&mut out, e);
            i = i + 1;
        }
        proof {
            assert(out@ =~= spec_transform(self.valid_chars@, key_ints(self.encrypt_key@), input@));
        }
        out
    }

    /// Decrypts `input`: the same truncating zip, against the decryption
    /// key derived from the encryption key.
    pub fn decrypt_string(&self, input: &str) -> (r: String)
        requires
            self.wf(),
        ensures
            r@ == spec_transform(
                self.valid_chars@,
                decrypt_key_ints(self.encrypt_key@, self.valid_chars@.len() as int),
                input@,
            ),
    {
        let dkey = self.decrypt_key();
        let n_in = input.unicode_len();
        let n_key = dkey.len();
        let m = if n_in <= n_key {
            n_in
        } else {
            n_key
        };
        let mut out = String::new();
        let mut i: usize = 0;
        while i < m
            invariant
                self.wf(),
                n_in == input@.len(),
                n_key == dkey@.len(),
                dkey@.len() == self.encrypt_key@.len(),
                forall|j: int|
                    0 <= j < dkey@.len() ==> dkey@[j] as int == self.valid_chars@.len()
                        - self.encrypt_key@[j] as int,
                m == if n_in <= n_key {
                    n_in
                } else {
                    n_key
                },
                i <= m,
                out@.len() == i as int,
                forall|j: int|
                    0 <= j < i ==> out@[j] == spec_encrypt_char(
                        self.valid_chars@,
                        input@[j],
                        self.valid_chars@.len() - self.encrypt_key@[j] as int,
                    ),
            decreases m - i,
        {
            let c = input.get_char(i);
            let k = dkey[i];
            let e = self.encrypt_char(c, k);
            push_char(&mut out, e);
            i = i + 1;
        }
        proof {
            assert(out@ =~= spec_transform(
                self.valid_chars@,
                decrypt_key_ints(self.encrypt_key@, self.valid_chars@.len() as int),
                input@,
            ));
        }
        out
    }

    /// Replaces the encryption key by the indices of the characters of
    /// `encrypt_key` in the alphabet.  A character not yet in the alphabet
    /// first extends it: the alphabet grows by exactly the missing
    /// characters (staying sorted and duplicate-free) and the whole string
    /// is scanned again against the larger alphabet, so re-keying always
    /// succeeds.  The previous key is replaced wholesale.
    pub fn set_encrypt_key(&mut self, encrypt_key: &str)
        requires
            old(self).wf(),
        ensures
            final(self).wf(),
            forall|c: char|
                final(self).valid_chars@.contains(c) <==> (old(self).valid_chars@.contains(c)
                    || encrypt_key@.contains(c)),
            final(self).encrypt_key@.len() == encrypt_key@.len(),
            forall|i: int|
                0 <= i < encrypt_key@.len()
                    ==> final(self).valid_chars@[final(self).encrypt_key@[i] as int]
                    == encrypt_key@[i],
    {
        let scan1 = scan_key(&self.valid_chars, encrypt_key);
        let new_key = scan1.0;
        let missing = scan1.1;
        if missing.len() > 0 {
            let ghost old_alpha = self.valid_chars@;
            let mut t: usize = 0;
            while t < missing.len()
                invariant
                    sorted_unique(self.valid_chars@),
                    t <= missing@.len(),
                    forall|c: char| old_alpha.contains(c) ==> self.valid_chars@.contains(c),
                    forall|j: int|
                        0 <= j < t ==> self.valid_chars@.contains(#[trigger] missing@[j]),
                    forall|c: char|
                        self.valid_chars@.contains(c) ==> old_alpha.contains(c)
                            || missing@.contains(c),
                decreases missing@.len() - t,
            {
                let c = missing[t];
                insert_sorted(&mut self.valid_chars, c);
                t = t + 1;
            }
            proof {
                assert forall|c: char|
                    self.valid_chars@.contains(c) <==> (old_alpha.contains(c)
                        || encrypt_key@.contains(c)) by {
                    if missing@.contains(c) {
                        let j = choose|j: int| 0 <= j < missing@.len() && missing@[j] == c;
                        assert(self.valid_chars@.contains(missing@[j]));
                    }
                    if encrypt_key@.contains(c) && !old_alpha.contains(c) {
                        let j = choose|j: int|
                            0 <= j < encrypt_key@.len() && encrypt_key@[j] == c;
                        assert(old_alpha.contains(encrypt_key@[j]) || missing@.contains(
                            encrypt_key@[j],
                        ));
                        let t0 = choose|t0: int| 0 <= t0 < missing@.len() && missing@[t0] == c;
                        assert(self.valid_chars@.contains(missing@[t0]));
                    }
                }
                assert forall|j: int| 0 <= j < encrypt_key@.len() implies self.valid_chars@.contains(
                    #[trigger] encrypt_key@[j],
                ) by {
                    assert(encrypt_key@.contains(encrypt_key@[j]));
                }
            }
            let scan2 = scan_key(&self.valid_chars, encrypt_key);
            let new_key2 = scan2.0;
            let missing2 = scan2.1;
            proof {
                if missing2@.len() > 0 {
                    let m0 = missing2@[0];
                    assert(missing2@.contains(m0));
                    assert(scan2.1@.contains(m0));
                    assert(encrypt_key@.contains(m0));
                    let j = choose|j: int| 0 <= j < encrypt_key@.len() && encrypt_key@[j] == m0;
                    assert(self.valid_chars@.contains(encrypt_key@[j]));
                }
                assert forall|c: char| is_ascii_letter(c) implies self.valid_chars@.contains(c) by {
                    assert(old_alpha.contains(c));
                }
            }
            self.encrypt_key = new_key2;
        } else {
            proof {
                assert forall|c: char|
                    self.valid_chars@.contains(c) <==> (self.valid_chars@.contains(c)
                        || encrypt_key@.contains(c)) by {
                    if encrypt_key@.contains(c) {
                        let j = choose|j: int|
                            0 <= j < encrypt_key@.len() && encrypt_key@[j] == c;
                        assert(self.valid_chars@.contains(encrypt_key@[j]) || missing@.contains(
                            encrypt_key@[j],
                        ));
                    }
                }
            }
            self.encrypt_key = new_key;
        }
    }

    /// Renders the encryption key as the characters it indexes in the
    /// alphabet, in key order.
    pub fn get_key_str(&self) -> (r: String)
        requires
            self.wf(),
        ensures
            r@ == spec_key_str(self.valid_chars@, self.encrypt_key@),
    {
        let mut chars: Vec<char> = Vec::new();
        let mut i: usize = 0;
        while i < self.encrypt_key.len()
            invariant
                self.wf(),
                i <= self.encrypt_key@.len(),
                chars@.len() == i as int,
                forall|j: int|
                    0 <= j < i ==> chars@[j] == self.valid_chars@[self.encrypt_key@[j] as int],
            decreases self.encrypt_key@.len() - i,
        {
            let k = self.encrypt_key[i];
            chars.push(self.valid_chars[k]);
            i = i + 1;
        }
        let r = get_string(&chars);
        proof {
            assert(r@ =~= spec_key_str(self.valid_chars@, self.encrypt_key@));
        }
        r
    }
}

/// One scanning pass of re-keying: looks every character of `key_str` up
/// in `alpha`.  Characters that are found contribute their index to the
/// first component; the distinct missing characters are collected, sorted,
/// in the second.  When nothing is missing the first component is the
/// complete new key.
fn scan_key(alpha: &Vec<char>, key_str: &str) -> (r: (Vec<usize>, Vec<char>))
    requires
        sorted_unique(alpha@),
    ensures
        sorted_unique(r.1@),
        forall|c: char| r.1@.contains(c) ==> !alpha@.contains(c) && key_str@.contains(c),
        forall|j: int|
            0 <= j < key_str@.len() ==> alpha@.contains(#[trigger] key_str@[j]) || r.1@.contains(
                key_str@[j],
            ),
        r.1@.len() == 0 ==> r.0@.len() == key_str@.len(),
        r.1@.len() == 0 ==> forall|j: int|
            #![trigger r.0@[j]]
            0 <= j < key_str@.len() ==> (r.0@[j] as int) < alpha@.len() && alpha@[r.0@[j] as int]
                == key_str@[j],
{
    let n = key_str.unicode_len();
    let mut found: Vec<usize> = Vec::new();
    let mut missing: Vec<char> = Vec::new();
    let mut i: usize = 0;
    while i < n
        invariant
            sorted_unique(alpha@),
            n == key_str@.len(),
            i <= n,
            sorted_unique(missing@),
            forall|c: char| missing@.contains(c) ==> !alpha@.contains(c),
            forall|c: char| missing@.contains(c) ==> key_str@.contains(c),
            forall|j: int|
                0 <= j < i ==> alpha@.contains(#[trigger] key_str@[j]) || missing@.contains(
                    key_str@[j],
                ),
            missing@.len() == 0 ==> found@.len() == i as int,
            missing@.len() == 0 ==> forall|j: int|
                #![trigger found@[j]]
                0 <= j < i ==> (found@[j] as int) < alpha@.len() && alpha@[found@[j] as int]
                    == key_str@[j],
        decreases n - i,
    {
        let c = key_str.get_char(i);
        match find_char(alpha, c) {
            Ok(idx) => {
                proof {
                    assert(alpha@.contains(c)) by {
                        assert(alpha@[idx as int] == c);
                    }
                }
                let ghost pre_found = found@;
                found.push(idx);
                proof {
                    if missing@.len() == 0 {
                        assert forall|j: int|
                            0 <= j < i + 1 implies (found@[j] as int) < alpha@.len() && alpha@[
                            found@[j] as int] == key_str@[j] by {
                            if j < i as int {
                                assert(found@[j] == pre_found[j]);
                            } else {
                                assert(found@[j] == idx);
                                assert(key_str@[i as int] == c);
                            }
                        }
                    }
                }
            }
            Err(_) => {
                proof {
                    assert(key_str@.contains(c)) by {
                        assert(key_str@[i as int] == c);
                    }
                }
                insert_sorted(&mut missing, c);
            }
        }
        i = i + 1;
    }
    (found, missing)
}

/// Relies on `String::push`: appends exactly the one character to the end
/// of the string.
#[verifier::external_body]
fn push_char(s: &mut String, c: char)
    ensures
        final(s)@ == old(s)@.push(c),
{
    s.push(c);
}

/// Joins a sequence of characters into the string that holds exactly those
/// characters, in order.
pub fn get_string(input: &Vec<char>) -> (r: String)
    ensures
        r@ == input@,
{
    let mut out = String::new();
    let mut i: usize = 0;
    while i < input.len()
        invariant
            i <= input@.len(),
            out@.len() == i as int,
            forall|j: int| 0 <= j < i ==> out@[j] == input@[j],
        decreases input@.len() - i,
    {
        push_char(&mut out, input[i]);
        i = i + 1;
    }
    proof {
        assert(out@ =~= input@);
    }
    out
}

} // verus!
