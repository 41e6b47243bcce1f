//! Construction and maintenance of the cipher alphabet: a sequence of
//! distinct characters kept sorted ascending by code point.

use vstd::prelude::*;
use vstd::string::StrSliceExecFns;

verus! {

/// The characters of `s` are strictly increasing by code point, so the
/// sequence is both sorted and free of duplicates.
pub open spec fn sorted_unique(s: Seq<char>) -> bool {
    forall|i: int, j: int| 0 <= i < j < s.len() ==> (s[i] as u32) < (s[j] as u32)
}

/// `c` is one of the 52 ASCII letters that seed every alphabet.
pub open spec fn is_ascii_letter(c: char) -> bool {
    (65 <= c as u32 && c as u32 <= 90) || (97 <= c as u32 && c as u32 <= 122)
}

/// Two characters with the same code point are the same character.
pub proof fn lemma_char_code_injective(a: char, b: char)
    requires
        a as u32 == b as u32,
    ensures
        a == b,
{
}

/// Distinct characters have distinct code points.
pub proof fn lemma_char_code_distinct(a: char, b: char)
    requires
        a != b,
    ensures
        a as u32 != b as u32,
{
    if a as u32 == b as u32 {
        lemma_char_code_injective(a, b);
    }
}

/// The 26 uppercase then 26 lowercase ASCII letters, in code-point order.
pub fn get_upper_lower_chars() -> (r: Vec<char>)
    ensures
        sorted_unique(r@),
        r@.len() == 52,
        forall|c: char| r@.contains(c) <==> is_ascii_letter(c),
{
    let mut r: Vec<char> = Vec::new();
    let mut i: u8 = 0;
    while i < 26
        invariant
            i <= 26,
            r@.len() == i as int,
            forall|j: int| 0 <= j < i as int ==> (r@[j] as u32) == 65 + j,
        decreases 26 - i as int,
    {
        r.push((65 + i) as char);
        i = i + 1;
    }
    let mut k: u8 = 0;
    while k < 26
        invariant
            k <= 26,
            r@.len() == 26 + k as int,
            forall|j: int| 0 <= j < 26 ==> (r@[j] as u32) == 65 + j,
            forall|j: int| 26 <= j < 26 + k as int ==> (r@[j] as u32) == 97 + (j - 26),
        decreases 26 - k as int,
    {
        r.push((97 + k) as char);
        k = k + 1;
    }
    proof {
        assert forall|c: char| r@.contains(c) implies is_ascii_letter(c) by {
            let j = choose|j: int| 0 <= j < r@.len() && r@[j] == c;
        }
        assert forall|c: char| is_ascii_letter(c) implies r@.contains(c) by {
            if 65 <= c as u32 && c as u32 <= 90 {
                let j = c as u32 - 65;
                assert(r@[j] as u32 == c as u32);
                assert(r@[j] == c) by {
                    lemma_char_code_injective(r@[j], c);
                }
            } else {
                let j = c as u32 - 97 + 26;
                assert(r@[j] as u32 == c as u32);
                assert(r@[j] == c) by {
                    lemma_char_code_injective(r@[j], c);
                }
            }
        }
    }
    r
}

/// In a strictly increasing character sequence, the character at position
/// `i` has a code point of at least `i`.
proof fn lemma_sorted_unique_lower_bound(s: Seq<char>, i: int)
    requires
        sorted_unique(s),
        0 <= i < s.len(),
    ensures
        s[i] as u32 >= i,
    decreases i,
{
    if i > 0 {
        lemma_sorted_unique_lower_bound(s, i - 1);
        assert((s[i - 1] as u32) < (s[i] as u32));
    }
}

/// A sequence of distinct characters can never hold more characters than
/// there are Unicode scalar values, so its length is bounded.
pub proof fn lemma_sorted_unique_len(s: Seq<char>)
    requires
        sorted_unique(s),
    ensures
        s.len() <= 0x110000,
{
    if s.len() > 0x110000 {
        lemma_sorted_unique_lower_bound(s, 0x110000);
        vstd::utf8::char_is_scalar(s[0x110000]);
        assert(s[0x110000] as u32 <= 0x10FFFF);
    }
}

/// In a sorted, duplicate-free sequence a character occurs at one position
/// only, so `index_of` returns exactly the position it is seen at.
pub proof fn lemma_index_of_unique(alpha: Seq<char>, idx: int, c: char)
    requires
        sorted_unique(alpha),
        0 <= idx < alpha.len(),
        alpha[idx] == c,
    ensures
        alpha.contains(c),
        alpha.index_of(c) == idx,
{
    assert(alpha.contains(c));
    let j = alpha.index_of(c);
    assert(exists|i: int| 0 <= i < alpha.len() && alpha[i] == c);
    assert(0 <= j < alpha.len() && alpha[j] == c);
    if j < idx {
        assert((alpha[j] as u32) < (alpha[idx] as u32));
    } else if j > idx {
        assert((alpha[idx] as u32) < (alpha[j] as u32));
    }
}

/// Binary search over a sorted alphabet, with the contract of
/// `slice::binary_search`: `Ok(i)` gives the position of `c`, `Err(i)` the
/// position at which `c` would be inserted to keep the order.
pub fn find_char(v: &Vec<char>, c: char) -> (r: Result<usize, usize>)
    requires
        sorted_unique(v@),
    ensures
        match r {
            Ok(i) => i < v@.len() && v@[i as int] == c,
            Err(i) => i <= v@.len() && !v@.contains(c) && (forall|j: int|
                0 <= j < v@.len() ==> ((j < i as int) <==> (v@[j] as u32) < c as u32)),
        },
{
    let mut lo: usize = 0;
    let mut hi: usize = v.len();
    while lo < hi
        invariant
            sorted_unique(v@),
            lo <= hi <= v@.len(),
            forall|j: int| 0 <= j < lo ==> (v@[j] as u32) < c as u32,
            forall|j: int| hi <= j < v@.len() ==> (v@[j] as u32) > c as u32,
        decreases hi - lo,
    {
        let mid: usize = lo + (hi - lo) / 2;
        let m: char = v[mid];
        if (m as u32) < (c as u32) {
            lo = mid + 1;
        } else if (c as u32) < (m as u32) {
            hi = mid;
        } else {
            proof {
                lemma_char_code_injective(m, c);
            }
            return Ok(mid);
        }
    }
    proof {
        assert(forall|j: int| 0 <= j < v@.len() ==> v@[j] != c);
    }
    Err(lo)
}

/// Inserts `c` at its sorted position unless it is already present, so the
/// alphabet stays sorted and duplicate-free while only gaining `c`.
pub fn insert_sorted(v: &mut Vec<char>, c: char)
    requires
        sorted_unique(old(v)@),
    ensures
        sorted_unique(final(v)@),
        forall|d: char| final(v)@.contains(d) <==> (old(v)@.contains(d) || d == c),
        old(v)@.contains(c) ==> final(v)@ == old(v)@,
        !old(v)@.contains(c) ==> final(v)@.len() == old(v)@.len() + 1,
{
    match find_char(v, c) {
        Ok(_) => {}
        Err(i) => {
            let ghost pre = v@;
            v.insert(i, c);
            proof {
                assert(v@ == pre.insert(i as int, c));
                assert forall|d: char| v@.contains(d) implies (pre.contains(d) || d == c) by {
                    let j = choose|j: int| 0 <= j < v@.len() && v@[j] == d;
                    if j < i as int {
                        assert(pre[j] == d);
                    } else if j > i as int {
                        assert(pre[j - 1] == d);
                    }
                }
                assert forall|d: char| pre.contains(d) implies v@.contains(d) by {
                    let j = choose|j: int| 0 <= j < pre.len() && pre[j] == d;
                    if j < i as int {
                        assert(v@[j] == d);
                    } else {
                        assert(v@[j + 1] == d);
                    }
                }
                assert(v@[i as int] == c);
                assert forall|a: int, b: int| 0 <= a < b < v@.len() implies (v@[a] as u32) < (
                v@[b] as u32) by {
                    if b < i as int {
                        assert(v@[a] == pre[a] && v@[b] == pre[b]);
                    } else if a < i as int && b == i as int {
                        assert(v@[a] == pre[a] && (pre[a] as u32) < c as u32);
                    } else if a < i as int && b > i as int {
                        assert(v@[a] == pre[a] && v@[b] == pre[b - 1]);
                        assert((pre[a] as u32) < c as u32);
                        assert(!(b - 1 < i as int));
                        assert(!((pre[b - 1] as u32) < c as u32));
                        assert(pre[b - 1] != c);
                        lemma_char_code_distinct(pre[b - 1], c);
                    } else if a == i as int {
                        assert(v@[b] == pre[b - 1]);
                        assert(!((pre[b - 1] as u32) < c as u32));
                        assert(pre[b - 1] != c);
                        lemma_char_code_distinct(pre[b - 1], c);
                    } else {
                        assert(v@[a] == pre[a - 1] && v@[b] == pre[b - 1]);
                    }
                }
            }
        }
    }
}

/// Builds the alphabet: the 52 ASCII letters together with every character
/// of `input`, sorted ascending by code point, without duplicates.
pub fn find_valid_characters(input: &str) -> (r: Vec<char>)
    ensures
        sorted_unique(r@),
        forall|c: char| r@.contains(c) <==> (is_ascii_letter(c) || input@.contains(c)),
{
    let mut r = get_upper_lower_chars();
    let n: usize = input.unicode_len();
    let mut i: usize = 0;
    while i < n
        invariant
            n == input@.len(),
            i <= n,
            sorted_unique(r@),
            forall|c: char| is_ascii_letter(c) ==> r@.contains(c),
            forall|c: char| r@.contains(c) ==> is_ascii_letter(c) || input@.contains(c),
            forall|j: int| 0 <= j < i ==> r@.contains(#[trigger] input@[j]),
        decreases n - i,
    {
        let c = input.get_char(i);
        let ghost pre = r@;
        insert_sorted(&mut r, c);
        proof {
            assert(input@.contains(c)) by {
                assert(input@[i as int] == c);
            }
            assert forall|j: int| 0 <= j < i + 1 implies r@.contains(#[trigger] input@[j]) by {
                if j < i as int {
                    assert(pre.contains(input@[j]));
                }
            }
        }
        i = i + 1;
    }
    proof {
        assert forall|c: char| is_ascii_letter(c) || input@.contains(c) implies r@.contains(c) by {
            if input@.contains(c) {
                let j = choose|j: int| 0 <= j < input@.len() && input@[j] == c;
                assert(r@.contains(input@[j]));
            }
        }
    }
    r
}

} // verus!
