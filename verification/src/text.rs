//! Character-sequence helpers: lexicographic order, prefix tests, the
//! validation rules for bucket names and object keys, and the derivation of
//! blob-store paths from (bucket, key).

use vstd::prelude::*;
use vstd::string::*;

verus! {

/// Strict lexicographic order on character sequences, by code point.
pub open spec fn lex_lt(a: Seq<char>, b: Seq<char>) -> bool
    decreases a.len(),
{
    if b.len() == 0 {
        false
    } else if a.len() == 0 {
        true
    } else if a[0] != b[0] {
        (a[0] as int) < (b[0] as int)
    } else {
        lex_lt(a.skip(1), b.skip(1))
    }
}

pub proof fn lemma_lex_lt_irrefl(a: Seq<char>)
    ensures
        !lex_lt(a, a),
    decreases a.len(),
{
    if a.len() > 0 {
        lemma_lex_lt_irrefl(a.skip(1));
    }
}

pub proof fn lemma_lex_lt_trans(a: Seq<char>, b: Seq<char>, c: Seq<char>)
    requires
        lex_lt(a, b),
        lex_lt(b, c),
    ensures
        lex_lt(a, c),
    decreases a.len() + b.len() + c.len(),
{
    if a.len() == 0 {
    } else {
        if a[0] == b[0] && b[0] == c[0] {
            lemma_lex_lt_trans(a.skip(1), b.skip(1), c.skip(1));
        }
    }
}

/// Any two character sequences are ordered or equal.
pub proof fn lemma_lex_lt_total(a: Seq<char>, b: Seq<char>)
    ensures
        lex_lt(a, b) || lex_lt(b, a) || a == b,
    decreases a.len(),
{
    if a.len() == 0 && b.len() == 0 {
        assert(a =~= b);
    } else if a.len() != 0 && b.len() != 0 && a[0] == b[0] {
        lemma_lex_lt_total(a.skip(1), b.skip(1));
        if !lex_lt(a, b) && !lex_lt(b, a) {
            assert(a.skip(1) == b.skip(1));
            assert(a =~= seq![a[0]] + a.skip(1));
            assert(b =~= seq![b[0]] + b.skip(1));
        }
    }
}

/// Compare two strings in lexicographic (code point) order.
pub fn str_lt(a: &str, b: &str) -> (r: bool)
    ensures
        r == lex_lt(a@, b@),
{
    let alen: usize = a.unicode_len();
    let blen: usize = b.unicode_len();
    let mut i: usize = 0;
    proof {
        assert(a@.skip(0) =~= a@);
        assert(b@.skip(0) =~= b@);
    }
    loop
        invariant
            i <= alen,
            i <= blen,
            alen == a@.len(),
            blen == b@.len(),
            lex_lt(a@, b@) == lex_lt(a@.skip(i as int), b@.skip(i as int)),
        decreases alen - i,
    {
        if i == blen {
            return false;
        }
        if i == alen {
            return true;
        }
        let ca = a.get_char(i);
        let cb = b.get_char(i);
        if ca != cb {
            return (ca as u32) < (cb as u32);
        }
        proof {
            assert(a@.skip(i as int).skip(1) =~= a@.skip(i as int + 1));
            assert(b@.skip(i as int).skip(1) =~= b@.skip(i as int + 1));
        }
        i = i + 1;
    }
}

/// Test two strings for equality of their character sequences.
pub fn str_eq(a: &str, b: &str) -> (r: bool)
    ensures
        r == (a@ == b@),
{
    let alen: usize = a.unicode_len();
    let blen: usize = b.unicode_len();
    if alen != blen {
        return false;
    }
    let mut i: usize = 0;
    while i < alen
        invariant
            i <= alen,
            alen == a@.len(),
            alen == b@.len(),
            forall|j: int| 0 <= j < i ==> a@[j] == b@[j],
        decreases alen - i,
    {
        if a.get_char(i) != b.get_char(i) {
            return false;
        }
        i = i + 1;
    }
    proof {
        assert(a@ =~= b@);
    }
    true
}

pub open spec fn is_prefix_of(p: Seq<char>, s: Seq<char>) -> bool {
    p.len() <= s.len() && forall|j: int| 0 <= j < p.len() ==> s[j] == p[j]
}

/// Does `s` start with the characters of `p`?
pub fn str_has_prefix(s: &str, p: &str) -> (r: bool)
    ensures
        r == is_prefix_of(p@, s@),
{
    let slen: usize = s.unicode_len();
    let plen: usize = p.unicode_len();
    if plen > slen {
        return false;
    }
    let mut i: usize = 0;
    while i < plen
        invariant
            i <= plen,
            plen <= slen,
            slen == s@.len(),
            plen == p@.len(),
            forall|j: int| 0 <= j < i ==> s@[j] == p@[j],
        decreases plen - i,
    {
        if s.get_char(i) != p.get_char(i) {
            return false;
        }
        i = i + 1;
    }
    true
}

/// The characters a bucket name may hold: ASCII letters, digits, hyphen,
/// underscore.
pub open spec fn is_bucket_char(c: char) -> bool {
    let v = c as int;
    (48 <= v && v <= 57) || (65 <= v && v <= 90) || (97 <= v && v <= 122) || v == 45 || v == 95
}

/// A valid bucket name: 3 to 30 characters from the bucket charset.
pub open spec fn valid_bucket_name(n: Seq<char>) -> bool {
    3 <= n.len() && n.len() <= 30 && forall|i: int|
        0 <= i < n.len() ==> is_bucket_char(#[trigger] n[i])
}

/// Check the bucket-name validation rule.
pub fn bucket_name_ok(name: &str) -> (r: bool)
    ensures
        r == valid_bucket_name(name@),
{
    let len: usize = name.unicode_len();
    if len < 3 || len > 30 {
        return false;
    }
    let mut i: usize = 0;
    while i < len
        invariant
            i <= len,
            len == name@.len(),
            3 <= len && len <= 30,
            forall|j: int| 0 <= j < i ==> is_bucket_char(#[trigger] name@[j]),
        decreases len - i,
    {
        let v = name.get_char(i) as u32;
        if !((48 <= v && v <= 57) || (65 <= v && v <= 90) || (97 <= v && v <= 122) || v == 45
            || v == 95) {
            return false;
        }
        i = i + 1;
    }
    true
}

/// A `..` path segment starts at position `i` of `k`.
pub open spec fn dotdot_segment_at(k: Seq<char>, i: int) -> bool {
    &&& 0 <= i
    &&& i + 2 <= k.len()
    &&& (i == 0 || k[i - 1] == '/')
    &&& k[i] == '.'
    &&& k[i + 1] == '.'
    &&& (i + 2 == k.len() || k[i + 2] == '/')
}

/// A valid object key: 1 to 1024 characters, neither starting nor ending
/// with `/`, and holding no `..` path segment (so a derived storage path can
/// never escape its bucket's subtree).
pub open spec fn valid_object_key(k: Seq<char>) -> bool {
    &&& 1 <= k.len() && k.len() <= 1024
    &&& k[0] != '/'
    &&& k[k.len() - 1] != '/'
    &&& forall|i: int| !dotdot_segment_at(k, i)
}

/// Check the object-key validation rule.
pub fn object_key_ok(key: &str) -> (r: bool)
    ensures
        r == valid_object_key(key@),
{
    let len: usize = key.unicode_len();
    if len == 0 || len > 1024 {
        return false;
    }
    if key.get_char(0) == '/' || key.get_char(len - 1) == '/' {
        return false;
    }
    let mut i: usize = 0;
    while i + 2 <= len
        invariant
            i <= len,
            len == key@.len(),
            1 <= len && len <= 1024,
            forall|j: int| j < i ==> !dotdot_segment_at(key@, j),
        decreases len - i,
    {
        let sep_before = i == 0 || key.get_char(i - 1) == '/';
        let sep_after = i + 2 == len || key.get_char(i + 2) == '/';
        if sep_before && key.get_char(i) == '.' && key.get_char(i + 1) == '.' && sep_after {
            assert(dotdot_segment_at(key@, i as int));
            return false;
        }
        i = i + 1;
    }
    assert forall|j: int| !dotdot_segment_at(key@, j) by {
        if j >= i {
            assert(j + 2 > len);
        }
    }
    true
}

/// The path under which (namespace, name) is stored: the two joined by `/`.
pub open spec fn path_join(a: Seq<char>, b: Seq<char>) -> Seq<char> {
    a + seq!['/'] + b
}

/// Join two path components with `/`.
pub fn join_path(a: &str, b: &str) -> (r: String)
    ensures
        r@ == path_join(a@, b@),
{
    let mut s = String::from_str(a);
    s.append("/");
    s.append(b);
    proof {
        reveal_strlit("/");
        assert(("/")@ =~= seq!['/']);
        assert(s@ =~= path_join(a@, b@));
    }
    s
}

/// Path derivation is injective: as long as the first component holds no
/// separator, distinct (component, rest) pairs derive distinct paths.
pub proof fn lemma_path_join_injective(a1: Seq<char>, b1: Seq<char>, a2: Seq<char>, b2: Seq<char>)
    requires
        forall|i: int| 0 <= i < a1.len() ==> a1[i] != '/',
        forall|i: int| 0 <= i < a2.len() ==> a2[i] != '/',
        path_join(a1, b1) == path_join(a2, b2),
    ensures
        a1 == a2,
        b1 == b2,
{
    let p1 = path_join(a1, b1);
    let p2 = path_join(a2, b2);
    assert(p1.len() == a1.len() + 1 + b1.len());
    assert(p2.len() == a2.len() + 1 + b2.len());
    if a1.len() < a2.len() {
        assert(p1[a1.len() as int] == '/');
        assert(p2[a1.len() as int] == a2[a1.len() as int]);
        assert(false);
    }
    if a2.len() < a1.len() {
        assert(p2[a2.len() as int] == '/');
        assert(p1[a2.len() as int] == a1[a2.len() as int]);
        assert(false);
    }
    assert(b1.len() == b2.len());
    assert forall|j: int| 0 <= j < a1.len() implies a1[j] == a2[j] by {
        assert(p1[j] == a1[j]);
        assert(p2[j] == a2[j]);
    }
    assert(a1 =~= a2);
    assert forall|j: int| 0 <= j < b1.len() implies b1[j] == b2[j] by {
        assert(p1[a1.len() + 1 + j] == b1[j]);
        assert(p2[a2.len() + 1 + j] == b2[j]);
    }
    assert(b1 =~= b2);
}

} // verus!
