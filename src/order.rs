use vstd::prelude::*;
use vstd::utf8::{decode_utf8, encode_utf8, encode_utf8_decode_utf8};

verus! {

/// Lexicographic order on byte strings: the order of Rust's `str`.
pub open spec fn lex_lt(a: Seq<u8>, b: Seq<u8>) -> bool
    decreases a.len(),
{
    if b.len() == 0 {
        false
    } else if a.len() == 0 {
        true
    } else if a[0] != b[0] {
        a[0] < b[0]
    } else {
        lex_lt(a.drop_first(), b.drop_first())
    }
}

/// Labels are ordered by their UTF-8 bytes, as strings are.
pub open spec fn label_lt(a: Seq<char>, b: Seq<char>) -> bool {
    lex_lt(encode_utf8(a), encode_utf8(b))
}

/// Each label is smaller than the next one.
pub open spec fn ascending(s: Seq<Seq<char>>) -> bool {
    forall|i: int| 0 <= i < s.len() - 1 ==> label_lt(#[trigger] s[i], s[i + 1])
}

pub proof fn lemma_lex_total(a: Seq<u8>, b: Seq<u8>)
    requires
        a != b,
    ensures
        lex_lt(a, b) || lex_lt(b, a),
    decreases a.len(),
{
    if a.len() > 0 && b.len() > 0 && a[0] == b[0] {
        if a.drop_first() == b.drop_first() {
            assert(a =~= seq![a[0]] + a.drop_first());
            assert(b =~= seq![b[0]] + b.drop_first());
        }
        lemma_lex_total(a.drop_first(), b.drop_first());
    } else if a.len() == 0 && b.len() == 0 {
        assert(a =~= b);
    }
}

/// Two different labels are ordered one way or the other.
pub proof fn lemma_label_total(a: Seq<char>, b: Seq<char>)
    requires
        a != b,
    ensures
        label_lt(a, b) || label_lt(b, a),
{
    encode_utf8_decode_utf8(a);
    encode_utf8_decode_utf8(b);
    lemma_lex_total(encode_utf8(a), encode_utf8(b));
}

pub fn bytes_lt(a: &[u8], b: &[u8]) -> (r: bool)
    ensures
        r == lex_lt(a@, b@),
{
    let mut i: usize = 0;
    assert(a@.skip(0) =~= a@);
    assert(b@.skip(0) =~= b@);
    while i < a.len() && i < b.len() && a[i] == b[i]
        invariant
            i <= a@.len(),
            i <= b@.len(),
            lex_lt(a@, b@) == lex_lt(a@.skip(i as int), b@.skip(i as int)),
        decreases a@.len() - i,
    {
        assert(a@.skip(i as int).drop_first() =~= a@.skip(i + 1));
        assert(b@.skip(i as int).drop_first() =~= b@.skip(i + 1));
        i = i + 1;
    }
    if i == b.len() {
        false
    } else if i == a.len() {
        true
    } else {
        a[i] < b[i]
    }
}

/// Whether label `a` comes before label `b`.
pub fn label_less(a: &String, b: &String) -> (r: bool)
    ensures
        r == label_lt(a@, b@),
{
    let x: &str = a.as_str();
    let y: &str = b.as_str();
    bytes_lt(x.as_bytes(), y.as_bytes())
}


/// Inserting a new label between its neighbours keeps a list ascending and
/// free of duplicates.
pub proof fn lemma_insert_ascending(s: Seq<Seq<char>>, k: int, x: Seq<char>)
    requires
        ascending(s),
        s.no_duplicates(),
        !s.contains(x),
        0 <= k <= s.len(),
        k > 0 ==> label_lt(s[k - 1], x),
        k < s.len() ==> label_lt(x, s[k]),
    ensures
        ascending(s.insert(k, x)),
        s.insert(k, x).no_duplicates(),
        forall|c: Seq<char>| #[trigger] s.insert(k, x).contains(c) <==> s.contains(c) || c == x,
{
    let t = s.insert(k, x);
    assert forall|j: int| 0 <= j < t.len() - 1 implies label_lt(#[trigger] t[j], t[j + 1]) by {
        if j < k - 1 {
            assert(label_lt(s[j], s[j + 1]));
        } else if j > k {
            assert(label_lt(s[j - 1], s[j]));
        }
    }
    assert forall|c: Seq<char>| #[trigger] t.contains(c) <==> s.contains(c) || c == x by {
        if t.contains(c) {
            let j = choose|j: int| 0 <= j < t.len() && t[j] == c;
            if j < k {
                assert(s[j] == c);
            } else if j > k {
                assert(s[j - 1] == c);
            }
        }
        if s.contains(c) {
            let j = choose|j: int| 0 <= j < s.len() && s[j] == c;
            if j < k {
                assert(t[j] == c);
            } else {
                assert(t[j + 1] == c);
            }
        }
        if c == x {
            assert(t[k] == c);
        }
    }
    assert forall|a: int, b: int| 0 <= a < t.len() && 0 <= b < t.len() && a != b implies t[a] != t[b] by {
        let a0 = if a < k { a } else { a - 1 };
        let b0 = if b < k { b } else { b - 1 };
        if a != k && b != k {
            assert(t[a] == s[a0] && t[b] == s[b0]);
        } else if a == k {
            assert(t[b] == s[b0]);
            assert(s.contains(s[b0]));
        } else {
            assert(t[a] == s[a0]);
            assert(s.contains(s[a0]));
        }
    }
}

/// A prefix one longer holds one more element.
pub proof fn lemma_prefix_step(cs: Seq<Seq<char>>, i: int)
    requires
        0 <= i < cs.len(),
    ensures
        forall|c: Seq<char>| #[trigger] cs.subrange(0, i + 1).contains(c) <==> cs.subrange(0, i).contains(c) || c == cs[i],
{
    let next = cs.subrange(0, i + 1);
    let prev = cs.subrange(0, i);
    assert forall|c: Seq<char>| #[trigger] next.contains(c) <==> prev.contains(c) || c == cs[i] by {
        if next.contains(c) {
            let j = choose|j: int| 0 <= j < next.len() && next[j] == c;
            if j < i {
                assert(prev[j] == c);
            }
        }
        if prev.contains(c) {
            let j = choose|j: int| 0 <= j < prev.len() && prev[j] == c;
            assert(next[j] == c);
        }
        if c == cs[i] {
            assert(next[i] == c);
        }
    }
}

} // verus!
