//! The order in which tool and parameter names are listed.
//!
//! Names compare as Rust compares `str` values: lexicographically by the
//! bytes of their UTF-8 encoding.
use vstd::prelude::*;
use vstd::utf8::*;

verus! {

broadcast use vstd::utf8::encode_utf8_decode_utf8;

/// Strict lexicographic order on byte sequences; a proper prefix comes first.
pub open spec fn bytes_lt(a: Seq<u8>, b: Seq<u8>) -> bool
    decreases a.len(),
{
    if b.len() == 0 {
        false
    } else if a.len() == 0 {
        true
    } else if a[0] != b[0] {
        a[0] < b[0]
    } else {
        bytes_lt(a.drop_first(), b.drop_first())
    }
}

/// `a` comes strictly before `b`: the UTF-8 bytes of `a` are lexicographically smaller.
pub open spec fn name_lt(a: Seq<char>, b: Seq<char>) -> bool {
    bytes_lt(encode_utf8(a), encode_utf8(b))
}

pub proof fn lemma_bytes_lt_irreflexive(a: Seq<u8>)
    ensures
        !bytes_lt(a, a),
    decreases a.len(),
{
    if a.len() > 0 {
        lemma_bytes_lt_irreflexive(a.drop_first());
    }
}

pub proof fn lemma_bytes_lt_asymmetric(a: Seq<u8>, b: Seq<u8>)
    requires
        bytes_lt(a, b),
    ensures
        !bytes_lt(b, a),
    decreases a.len(),
{
    if a.len() > 0 && b.len() > 0 && a[0] == b[0] {
        lemma_bytes_lt_asymmetric(a.drop_first(), b.drop_first());
    }
}

pub proof fn lemma_bytes_lt_transitive(a: Seq<u8>, b: Seq<u8>, c: Seq<u8>)
    requires
        bytes_lt(a, b),
        bytes_lt(b, c),
    ensures
        bytes_lt(a, c),
    decreases a.len(),
{
    if a.len() > 0 && a[0] == b[0] && b[0] == c[0] {
        lemma_bytes_lt_transitive(a.drop_first(), b.drop_first(), c.drop_first());
    }
}

pub proof fn lemma_bytes_lt_total(a: Seq<u8>, b: Seq<u8>)
    requires
        a != b,
    ensures
        bytes_lt(a, b) || bytes_lt(b, a),
    decreases a.len(),
{
    if a.len() == 0 && b.len() == 0 {
        assert(a =~= b);
    } else if a.len() > 0 && b.len() > 0 && a[0] == b[0] {
        if a.drop_first() == b.drop_first() {
            assert(a.drop_first().len() == a.len() - 1);
            assert(b.drop_first().len() == b.len() - 1);
            assert(a =~= b) by {
                assert forall|i: int| 0 <= i < a.len() implies a[i] == b[i] by {
                    if i > 0 {
                        assert(a[i] == a.drop_first()[i - 1]);
                        assert(b[i] == b.drop_first()[i - 1]);
                    }
                }
            }
        }
        lemma_bytes_lt_total(a.drop_first(), b.drop_first());
    }
}

/// At the first place where `a` and `b` differ, `a` holds the smaller byte.
pub open spec fn first_difference_smaller(a: Seq<u8>, b: Seq<u8>) -> bool {
    exists|i: int|
        0 <= i < a.len() && i < b.len() && #[trigger] a[i] < #[trigger] b[i] && forall|j: int|
            0 <= j < i ==> a[j] == b[j]
}

/// `a` is a proper prefix of `b`.
pub open spec fn proper_prefix(a: Seq<u8>, b: Seq<u8>) -> bool {
    a.len() < b.len() && forall|j: int| 0 <= j < a.len() ==> a[j] == b[j]
}

/// `bytes_lt` is lexicographic order on bytes: `a` comes first exactly when
/// its byte is smaller at the first place where the two differ, or when it is
/// a proper prefix of `b`.
pub proof fn law_bytes_lt_is_lexicographic(a: Seq<u8>, b: Seq<u8>)
    ensures
        bytes_lt(a, b) <==> first_difference_smaller(a, b) || proper_prefix(a, b),
    decreases a.len(),
{
    if a.len() > 0 && b.len() > 0 {
        let a1 = a.drop_first();
        let b1 = b.drop_first();
        if a[0] != b[0] {
            if first_difference_smaller(a, b) {
                let i = choose|i: int|
                    0 <= i < a.len() && i < b.len() && #[trigger] a[i] < #[trigger] b[i] && forall|j: int|
                        0 <= j < i ==> a[j] == b[j];
                if i > 0 {
                    assert(a[0] == b[0]);
                }
            }
            if a[0] < b[0] {
                assert(first_difference_smaller(a, b)) by {
                    assert(a[0] < b[0]);
                }
            }
        } else {
            law_bytes_lt_is_lexicographic(a1, b1);
            if first_difference_smaller(a, b) {
                let i = choose|i: int|
                    0 <= i < a.len() && i < b.len() && #[trigger] a[i] < #[trigger] b[i] && forall|j: int|
                        0 <= j < i ==> a[j] == b[j];
                assert(i > 0);
                assert(a1[i - 1] == a[i] && b1[i - 1] == b[i]);
                assert forall|j: int| 0 <= j < i - 1 implies a1[j] == b1[j] by {
                    assert(a[j + 1] == b[j + 1]);
                }
                assert(first_difference_smaller(a1, b1));
            }
            if first_difference_smaller(a1, b1) {
                let i = choose|i: int|
                    0 <= i < a1.len() && i < b1.len() && #[trigger] a1[i] < #[trigger] b1[i] && forall|j: int|
                        0 <= j < i ==> a1[j] == b1[j];
                assert(a[i + 1] == a1[i] && b[i + 1] == b1[i]);
                assert forall|j: int| 0 <= j < i + 1 implies a[j] == b[j] by {
                    if j > 0 {
                        assert(a1[j - 1] == b1[j - 1]);
                    }
                }
                assert(first_difference_smaller(a, b));
            }
            if proper_prefix(a, b) {
                assert forall|j: int| 0 <= j < a1.len() implies a1[j] == b1[j] by {
                    assert(a[j + 1] == b[j + 1]);
                }
            }
            if proper_prefix(a1, b1) {
                assert forall|j: int| 0 <= j < a.len() implies a[j] == b[j] by {
                    if j > 0 {
                        assert(a1[j - 1] == b1[j - 1]);
                    }
                }
            }
        }
    }
}

/// Names are ordered as Rust orders `str`: `a` comes first exactly when, at
/// the first place where their UTF-8 bytes differ, `a`'s byte is smaller, or
/// when `a`'s bytes are a proper prefix of `b`'s.
pub proof fn law_name_order_is_str_order(a: Seq<char>, b: Seq<char>)
    ensures
        name_lt(a, b) <==> first_difference_smaller(encode_utf8(a), encode_utf8(b)) || proper_prefix(
            encode_utf8(a),
            encode_utf8(b),
        ),
{
    law_bytes_lt_is_lexicographic(encode_utf8(a), encode_utf8(b));
}

/// One-character ASCII names are ordered by their character codes, e.g.
/// `"1"` before `"2"` and `"Z"` before `"a"`.
pub proof fn law_ascii_characters_in_code_order(c1: char, c2: char)
    requires
        c1 <= '\u{7f}',
        c2 <= '\u{7f}',
        (c1 as u32) < (c2 as u32),
    ensures
        name_lt(seq![c1], seq![c2]),
{
    let s1 = seq![c1];
    let s2 = seq![c2];
    assert(is_ascii_chars(s1)) by {
        assert forall|i: int| 0 <= i < s1.len() implies '\0' <= #[trigger] s1[i] <= '\u{7f}' by {
            assert(s1[i] == c1);
        }
    }
    assert(is_ascii_chars(s2)) by {
        assert forall|i: int| 0 <= i < s2.len() implies '\0' <= #[trigger] s2[i] <= '\u{7f}' by {
            assert(s2[i] == c2);
        }
    }
    is_ascii_chars_encode_utf8(s1);
    is_ascii_chars_encode_utf8(s2);
    let e1 = encode_utf8(s1);
    let e2 = encode_utf8(s2);
    assert(s1[0] == c1 && s2[0] == c2);
    assert(e1[0] == c1 as u8 && e2[0] == c2 as u8);
    let u1 = c1 as u32;
    let u2 = c2 as u32;
    assert(u1 < 128 && u2 < 128);
    assert((u1 as u8) < (u2 as u8)) by (bit_vector)
        requires
            u1 < u2,
            u2 < 128u32,
    ;
    assert(c1 as u8 == u1 as u8);
    assert(c2 as u8 == u2 as u8);
    law_bytes_lt_is_lexicographic(e1, e2);
    assert(first_difference_smaller(e1, e2)) by {
        assert(e1[0] < e2[0]);
    }
}

/// No name comes before itself.
pub proof fn lemma_name_lt_irreflexive(a: Seq<char>)
    ensures
        !name_lt(a, a),
{
    lemma_bytes_lt_irreflexive(encode_utf8(a));
}

/// Of two names, at most one comes before the other.
pub proof fn lemma_name_lt_asymmetric(a: Seq<char>, b: Seq<char>)
    requires
        name_lt(a, b),
    ensures
        !name_lt(b, a),
{
    lemma_bytes_lt_asymmetric(encode_utf8(a), encode_utf8(b));
}

/// The order on names is transitive.
pub proof fn lemma_name_lt_transitive(a: Seq<char>, b: Seq<char>, c: Seq<char>)
    requires
        name_lt(a, b),
        name_lt(b, c),
    ensures
        name_lt(a, c),
{
    lemma_bytes_lt_transitive(encode_utf8(a), encode_utf8(b), encode_utf8(c));
}

/// Of two different names, one comes before the other.
pub proof fn lemma_name_lt_total(a: Seq<char>, b: Seq<char>)
    requires
        a != b,
    ensures
        name_lt(a, b) || name_lt(b, a),
{
    if encode_utf8(a) == encode_utf8(b) {
        assert(decode_utf8(encode_utf8(a)) == a);
        assert(decode_utf8(encode_utf8(b)) == b);
    }
    lemma_bytes_lt_total(encode_utf8(a), encode_utf8(b));
}

/// The outcome of comparing two names.
#[derive(Debug, Clone, Copy, PartialEq, Eq, Structural)]
pub enum NameOrder {
    Less,
    Equal,
    Greater,
}

proof fn lemma_bytes_lt_step(x: Seq<u8>, y: Seq<u8>, i: int)
    requires
        0 <= i < x.len(),
        i < y.len(),
        x[i] == y[i],
    ensures
        bytes_lt(x.skip(i), y.skip(i)) == bytes_lt(x.skip(i + 1), y.skip(i + 1)),
{
    assert(x.skip(i).drop_first() =~= x.skip(i + 1));
    assert(y.skip(i).drop_first() =~= y.skip(i + 1));
}

/// Compares two names in the order of `name_lt`.
pub fn compare_names(a: &str, b: &str) -> (r: NameOrder)
    ensures
        r == NameOrder::Less <==> name_lt(a@, b@),
        r == NameOrder::Equal <==> a@ == b@,
        r == NameOrder::Greater <==> name_lt(b@, a@),
{
    let x = a.as_bytes();
    let y = b.as_bytes();
    proof {
        assert(x@.skip(0) =~= x@);
        assert(y@.skip(0) =~= y@);
    }
    let mut i: usize = 0;
    while i < x.len() && i < y.len()
        invariant
            0 <= i <= x@.len(),
            i <= y@.len(),
            x@ == encode_utf8(a@),
            y@ == encode_utf8(b@),
            forall|j: int| 0 <= j < i ==> x@[j] == y@[j],
            bytes_lt(x@, y@) == bytes_lt(x@.skip(i as int), y@.skip(i as int)),
            bytes_lt(y@, x@) == bytes_lt(y@.skip(i as int), x@.skip(i as int)),
        decreases x@.len() - i,
    {
        if x[i] < y[i] {
            proof {
                lemma_name_lt_asymmetric(a@, b@);
                lemma_name_lt_irreflexive(a@);
            }
            return NameOrder::Less;
        } else if y[i] < x[i] {
            proof {
                lemma_name_lt_asymmetric(b@, a@);
                lemma_name_lt_irreflexive(a@);
            }
            return NameOrder::Greater;
        }
        proof {
            lemma_bytes_lt_step(x@, y@, i as int);
            lemma_bytes_lt_step(y@, x@, i as int);
        }
        i = i + 1;
    }
    if x.len() < y.len() {
        proof {
            lemma_name_lt_asymmetric(a@, b@);
            lemma_name_lt_irreflexive(a@);
        }
        NameOrder::Less
    } else if y.len() < x.len() {
        proof {
            lemma_name_lt_asymmetric(b@, a@);
            lemma_name_lt_irreflexive(a@);
        }
        NameOrder::Greater
    } else {
        proof {
            assert(x@ =~= y@);
            assert(decode_utf8(encode_utf8(a@)) == a@);
            assert(decode_utf8(encode_utf8(b@)) == b@);
            lemma_name_lt_irreflexive(a@);
        }
        NameOrder::Equal
    }
}

} // verus!
