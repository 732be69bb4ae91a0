//! Byte-level operations on names: equality, lexicographic order, prefixes and
//! membership.
//!
//! Library and symbol names are compared the way the dynamic loader sees them, as
//! the UTF-8 bytes of the text.

use vstd::prelude::*;
use vstd::string::*;
use vstd::utf8::*;

verus! {

/// The byte `@`, which separates a symbol's name from its version.
pub const VERSION_MARK: u8 = 0x40;

/// The UTF-8 bytes of a text.
pub open spec fn bytes_of(text: Seq<char>) -> Seq<u8> {
    encode_utf8(text)
}

/// The UTF-8 bytes of each text of a list.
pub open spec fn bytes_of_each(texts: Seq<Seq<char>>) -> Seq<Seq<u8>> {
    texts.map_values(|t: Seq<char>| bytes_of(t))
}

/// The views of a list of strings.
pub open spec fn texts_of(strings: Seq<String>) -> Seq<Seq<char>> {
    strings.map_values(|s: String| s@)
}

/// Two texts with the same bytes are the same text.
pub proof fn lemma_bytes_injective(a: Seq<char>, b: Seq<char>)
    requires
        bytes_of(a) == bytes_of(b),
    ensures
        a == b,
{
    encode_utf8_decode_utf8(a);
    encode_utf8_decode_utf8(b);
}

/// `a` comes before `b` because of position `k`: both agree before `k`, and at `k`
/// either `a` ends while `b` goes on, or `a` holds the smaller byte.
pub open spec fn precedes_at(a: Seq<u8>, b: Seq<u8>, k: int) -> bool {
    &&& 0 <= k <= a.len()
    &&& k < b.len()
    &&& forall|i: int| 0 <= i < k ==> a[i] == b[i]
    &&& (k == a.len() || a[k] < b[k])
}

/// Strict lexicographic order on byte strings.
pub open spec fn lex_lt(a: Seq<u8>, b: Seq<u8>) -> bool {
    exists|k: int| precedes_at(a, b, k)
}

/// How one byte string stands to another in lexicographic order.
#[derive(Debug, Clone, Copy, PartialEq, Eq, Structural)]
pub enum Standing {
    Before,
    Same,
    After,
}

/// The standing of `a` relative to `b`.
pub open spec fn standing(a: Seq<u8>, b: Seq<u8>) -> Standing {
    if a == b {
        Standing::Same
    } else if lex_lt(a, b) {
        Standing::Before
    } else {
        Standing::After
    }
}

/// No byte string comes before itself, and of two strings at most one comes
/// before the other.
pub proof fn lemma_lex_asymmetric(a: Seq<u8>, b: Seq<u8>)
    requires
        lex_lt(a, b),
    ensures
        !lex_lt(b, a),
        a != b,
{
    let k = choose|k: int| precedes_at(a, b, k);
    if a == b {
        assert(false);
    }
    if lex_lt(b, a) {
        let j = choose|j: int| precedes_at(b, a, j);
        if j < k {
            assert(a[j] == b[j]);
        } else if k < j {
            assert(b[k] == a[k]);
        }
        assert(false);
    }
}

proof fn lemma_lex_total_from(a: Seq<u8>, b: Seq<u8>, k: int)
    requires
        a != b,
        0 <= k <= a.len(),
        k <= b.len(),
        forall|i: int| 0 <= i < k ==> a[i] == b[i],
    ensures
        lex_lt(a, b) || lex_lt(b, a),
    decreases a.len() - k,
{
    if k == a.len() {
        if k == b.len() {
            assert(a =~= b);
        } else {
            assert(precedes_at(a, b, k));
        }
    } else if k == b.len() {
        assert(precedes_at(b, a, k));
    } else if a[k] < b[k] {
        assert(precedes_at(a, b, k));
    } else if b[k] < a[k] {
        assert(precedes_at(b, a, k));
    } else {
        lemma_lex_total_from(a, b, k + 1);
    }
}

/// Of two different byte strings one comes before the other.
pub proof fn lemma_lex_total(a: Seq<u8>, b: Seq<u8>)
    requires
        a != b,
    ensures
        lex_lt(a, b) || lex_lt(b, a),
{
    lemma_lex_total_from(a, b, 0);
}

/// The lexicographic order is transitive.
pub proof fn lemma_lex_transitive(a: Seq<u8>, b: Seq<u8>, c: Seq<u8>)
    requires
        lex_lt(a, b),
        lex_lt(b, c),
    ensures
        lex_lt(a, c),
{
    let j = choose|j: int| precedes_at(a, b, j);
    let k = choose|k: int| precedes_at(b, c, k);
    let m = if j <= k {
        j
    } else {
        k
    };
    assert forall|i: int| 0 <= i < m implies a[i] == c[i] by {
        assert(a[i] == b[i]);
        assert(b[i] == c[i]);
    }
    if j < k {
        assert(b[j] == c[j]);
    } else if k < j {
        assert(a[k] == b[k]);
    }
    assert(precedes_at(a, c, m));
}

/// A byte string never comes before one of its own prefixes.
pub proof fn lemma_prefix_not_after(prefix: Seq<u8>, whole: Seq<u8>)
    requires
        prefix.is_prefix_of(whole),
    ensures
        !lex_lt(whole, prefix),
{
    if lex_lt(whole, prefix) {
        let k = choose|k: int| precedes_at(whole, prefix, k);
        assert(whole.subrange(0, prefix.len() as int)[k] == whole[k]);
        assert(false);
    }
}

/// Compares two byte strings lexicographically.
pub fn compare_bytes(a: &[u8], b: &[u8]) -> (order: Standing)
    ensures
        order == standing(a@, b@),
        order == Standing::After ==> lex_lt(b@, a@),
{
    let mut i: usize = 0;
    while i < a.len() && i < b.len()
        invariant
            i <= a.len(),
            i <= b.len(),
            forall|j: int| 0 <= j < i ==> a@[j] == b@[j],
        decreases a.len() - i,
    {
        if a[i] < b[i] {
            proof {
                assert(precedes_at(a@, b@, i as int));
                lemma_lex_asymmetric(a@, b@);
            }
            return Standing::Before;
        }
        if a[i] > b[i] {
            proof {
                assert(precedes_at(b@, a@, i as int));
                lemma_lex_asymmetric(b@, a@);
            }
            return Standing::After;
        }
        i += 1;
    }
    if a.len() < b.len() {
        proof {
            assert(precedes_at(a@, b@, i as int));
            lemma_lex_asymmetric(a@, b@);
        }
        Standing::Before
    } else if a.len() > b.len() {
        proof {
            assert(precedes_at(b@, a@, i as int));
            lemma_lex_asymmetric(b@, a@);
        }
        Standing::After
    } else {
        assert(a@ =~= b@);
        Standing::Same
    }
}

/// Whether two byte strings are equal.
pub fn bytes_equal(a: &[u8], b: &[u8]) -> (equal: bool)
    ensures
        equal == (a@ == b@),
{
    if a.len() != b.len() {
        return false;
    }
    let mut i: usize = 0;
    while i < a.len()
        invariant
            i <= a.len(),
            a.len() == b.len(),
            forall|j: int| 0 <= j < i ==> a@[j] == b@[j],
        decreases a.len() - i,
    {
        if a[i] != b[i] {
            return false;
        }
        i += 1;
    }
    assert(a@ =~= b@);
    true
}

/// Whether two texts are equal.
pub fn text_equal(a: &str, b: &str) -> (equal: bool)
    ensures
        equal == (a@ == b@),
{
    let equal = bytes_equal(a.as_bytes(), b.as_bytes());
    proof {
        if equal {
            lemma_bytes_injective(a@, b@);
        }
    }
    equal
}

/// Whether `whole` begins with `prefix`.
pub fn starts_with(whole: &[u8], prefix: &[u8]) -> (begins: bool)
    ensures
        begins == prefix@.is_prefix_of(whole@),
{
    if prefix.len() > whole.len() {
        return false;
    }
    let mut i: usize = 0;
    while i < prefix.len()
        invariant
            i <= prefix.len(),
            prefix.len() <= whole.len(),
            forall|j: int| 0 <= j < i ==> prefix@[j] == whole@[j],
        decreases prefix.len() - i,
    {
        if prefix[i] != whole[i] {
            assert(whole@.subrange(0, prefix@.len() as int)[i as int] == whole@[i as int]);
            return false;
        }
        i += 1;
    }
    assert(prefix@ =~= whole@.subrange(0, prefix@.len() as int));
    true
}

/// Whether a byte occurs in a byte string.
pub fn contains_byte(bytes: &[u8], byte: u8) -> (found: bool)
    ensures
        found == bytes@.contains(byte),
{
    let mut i: usize = 0;
    while i < bytes.len()
        invariant
            i <= bytes.len(),
            forall|j: int| 0 <= j < i ==> bytes@[j] != byte,
        decreases bytes.len() - i,
    {
        if bytes[i] == byte {
            return true;
        }
        i += 1;
    }
    false
}

/// Whether a text occurs in a list of strings.
pub fn contains_text(list: &Vec<String>, text: &str) -> (found: bool)
    ensures
        found == texts_of(list@).contains(text@),
{
    let mut i: usize = 0;
    while i < list.len()
        invariant
            i <= list.len(),
            forall|j: int| 0 <= j < i ==> list@[j]@ != text@,
        decreases list.len() - i,
    {
        if text_equal(list[i].as_str(), text) {
            assert(texts_of(list@)[i as int] == text@);
            return true;
        }
        i += 1;
    }
    assert forall|j: int| 0 <= j < texts_of(list@).len() implies texts_of(list@)[j] != text@ by {
        assert(texts_of(list@)[j] == list@[j]@);
    }
    false
}

/// A copy of a list of strings.
pub fn copy_texts(list: &Vec<String>) -> (copy: Vec<String>)
    ensures
        copy@ == list@,
{
    let mut copy: Vec<String> = Vec::new();
    let mut i: usize = 0;
    while i < list.len()
        invariant
            i <= list.len(),
            copy@ == list@.subrange(0, i as int),
        decreases list.len() - i,
    {
        copy.push(list[i].clone());
        assert(copy@ =~= list@.subrange(0, i + 1));
        i += 1;
    }
    assert(list@.subrange(0, list@.len() as int) =~= list@);
    copy
}

} // verus!
