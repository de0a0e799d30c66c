//! The total order on occurrences: by import name, then path, then position.
//! Text compares byte by byte, as `str` does.
use vstd::prelude::*;
use vstd::string::StringSliceAdditionalSpecFns;
use vstd::utf8::{encode_utf8, encode_utf8_decode_utf8};

use crate::importfinder::{FoundImport, Position};

verus! {

/// `a` comes before `b`, the two agreeing before index `i`.
pub open spec fn lex_less_from(a: Seq<u8>, b: Seq<u8>, i: int) -> bool
    decreases a.len() - i,
{
    if i < 0 || i >= a.len() {
        i < b.len()
    } else if i >= b.len() {
        false
    } else if a[i] != b[i] {
        a[i] < b[i]
    } else {
        lex_less_from(a, b, i + 1)
    }
}

pub open spec fn text_less(a: Seq<char>, b: Seq<char>) -> bool {
    lex_less_from(encode_utf8(a), encode_utf8(b), 0)
}

pub open spec fn position_less(p: Position, q: Position) -> bool {
    p.row < q.row || (p.row == q.row && p.column < q.column)
}

pub open spec fn found_less(
    a: (Seq<char>, Seq<char>, Position),
    b: (Seq<char>, Seq<char>, Position),
) -> bool {
    text_less(a.0, b.0) || (a.0 == b.0 && (text_less(a.1, b.1) || (a.1 == b.1 && position_less(
        a.2,
        b.2,
    ))))
}

/// Strictly increasing, hence without repeats.
pub open spec fn sorted_found(s: Seq<(Seq<char>, Seq<char>, Position)>) -> bool {
    forall|i: int, j: int| 0 <= i < j < s.len() ==> found_less(#[trigger] s[i], #[trigger] s[j])
}

proof fn lemma_lex_irreflexive(a: Seq<u8>, i: int)
    requires
        0 <= i,
    ensures
        !lex_less_from(a, a, i),
    decreases a.len() - i,
{
    if i < a.len() {
        lemma_lex_irreflexive(a, i + 1);
    }
}

proof fn lemma_lex_transitive(a: Seq<u8>, b: Seq<u8>, c: Seq<u8>, i: int)
    requires
        0 <= i,
        lex_less_from(a, b, i),
        lex_less_from(b, c, i),
    ensures
        lex_less_from(a, c, i),
    decreases a.len() - i,
{
    if i < a.len() && i < b.len() && i < c.len() && a[i] == b[i] && b[i] == c[i] {
        lemma_lex_transitive(a, b, c, i + 1);
    }
}

proof fn lemma_lex_total(a: Seq<u8>, b: Seq<u8>, i: int)
    requires
        0 <= i <= a.len(),
        i <= b.len(),
        a.subrange(0, i) == b.subrange(0, i),
        !lex_less_from(a, b, i),
        !lex_less_from(b, a, i),
    ensures
        a == b,
    decreases a.len() - i,
{
    if i == a.len() {
        assert(a =~= a.subrange(0, i));
        assert(b =~= b.subrange(0, i));
    } else {
        assert(a.subrange(0, i + 1) =~= a.subrange(0, i).push(a[i]));
        assert(b.subrange(0, i + 1) =~= b.subrange(0, i).push(b[i]));
        lemma_lex_total(a, b, i + 1);
    }
}

pub proof fn lemma_found_irreflexive(a: (Seq<char>, Seq<char>, Position))
    ensures
        !found_less(a, a),
{
    lemma_lex_irreflexive(encode_utf8(a.0), 0);
    lemma_lex_irreflexive(encode_utf8(a.1), 0);
}

pub proof fn lemma_text_irreflexive(a: Seq<char>)
    ensures
        !text_less(a, a),
{
    lemma_lex_irreflexive(encode_utf8(a), 0);
}

pub proof fn lemma_text_transitive(a: Seq<char>, b: Seq<char>, c: Seq<char>)
    requires
        text_less(a, b),
        text_less(b, c),
    ensures
        text_less(a, c),
{
    lemma_lex_transitive(encode_utf8(a), encode_utf8(b), encode_utf8(c), 0);
}

pub proof fn lemma_text_total(a: Seq<char>, b: Seq<char>)
    requires
        a != b,
    ensures
        text_less(a, b) || text_less(b, a),
{
    if !text_less(a, b) && !text_less(b, a) {
        assert(encode_utf8(a).subrange(0, 0) =~= encode_utf8(b).subrange(0, 0));
        lemma_lex_total(encode_utf8(a), encode_utf8(b), 0);
        encode_utf8_decode_utf8(a);
        encode_utf8_decode_utf8(b);
    }
}

pub proof fn lemma_found_transitive(
    a: (Seq<char>, Seq<char>, Position),
    b: (Seq<char>, Seq<char>, Position),
    c: (Seq<char>, Seq<char>, Position),
)
    requires
        found_less(a, b),
        found_less(b, c),
    ensures
        found_less(a, c),
{
    if text_less(a.0, b.0) && text_less(b.0, c.0) {
        lemma_text_transitive(a.0, b.0, c.0);
    }
    if a.0 == b.0 && b.0 == c.0 && text_less(a.1, b.1) && text_less(b.1, c.1) {
        lemma_text_transitive(a.1, b.1, c.1);
    }
}

pub proof fn lemma_found_total(a: (Seq<char>, Seq<char>, Position), b: (Seq<char>, Seq<char>, Position))
    requires
        a != b,
    ensures
        found_less(a, b) || found_less(b, a),
{
    if a.0 != b.0 {
        lemma_text_total(a.0, b.0);
    } else if a.1 != b.1 {
        lemma_text_total(a.1, b.1);
    }
}

/// Two increasing sequences with the same items are the same sequence.
pub proof fn lemma_sorted_unique(
    s1: Seq<(Seq<char>, Seq<char>, Position)>,
    s2: Seq<(Seq<char>, Seq<char>, Position)>,
)
    requires
        sorted_found(s1),
        sorted_found(s2),
        s1.to_set() == s2.to_set(),
    ensures
        s1 == s2,
    decreases s1.len(),
{
    if s1.len() == 0 {
        if s2.len() > 0 {
            assert(s2.to_set().contains(s2[0]));
        }
        assert(s1 =~= s2);
    } else if s2.len() == 0 {
        assert(s1.to_set().contains(s1[0]));
    } else {
        assert(s1.to_set().contains(s1[0]));
        assert(s2.to_set().contains(s2[0]));
        let j = choose|j: int| 0 <= j < s2.len() && s2[j] == s1[0];
        let k = choose|k: int| 0 <= k < s1.len() && s1[k] == s2[0];
        if j > 0 && k > 0 {
            lemma_found_transitive(s1[0], s2[0], s1[0]);
            lemma_found_irreflexive(s1[0]);
        } else if j > 0 {
            lemma_found_irreflexive(s2[0]);
        } else if k > 0 {
            lemma_found_irreflexive(s1[0]);
        }
        assert(s1[0] == s2[0]);
        let t1 = s1.drop_first();
        let t2 = s2.drop_first();
        assert forall|x: (Seq<char>, Seq<char>, Position)| t1.to_set().contains(x) implies t2.to_set().contains(x) by {
            let a = choose|a: int| 0 <= a < t1.len() && t1[a] == x;
            assert(s1[a + 1] == x);
            assert(s1.to_set().contains(x));
            let b = choose|b: int| 0 <= b < s2.len() && s2[b] == x;
            if b == 0 {
                lemma_found_irreflexive(x);
            }
            assert(t2[b - 1] == x);
        }
        assert forall|x: (Seq<char>, Seq<char>, Position)| t2.to_set().contains(x) implies t1.to_set().contains(x) by {
            let a = choose|a: int| 0 <= a < t2.len() && t2[a] == x;
            assert(s2[a + 1] == x);
            assert(s2.to_set().contains(x));
            let b = choose|b: int| 0 <= b < s1.len() && s1[b] == x;
            if b == 0 {
                lemma_found_irreflexive(x);
            }
            assert(t1[b - 1] == x);
        }
        assert(t1.to_set() =~= t2.to_set());
        lemma_sorted_unique(t1, t2);
        assert(s1 =~= s2) by {
            assert forall|x: int| 0 <= x < s1.len() implies s1[x] == s2[x] by {
                if x > 0 {
                    assert(s1[x] == t1[x - 1]);
                    assert(s2[x] == t2[x - 1]);
                }
            }
        }
    }
}

fn bytes_less(a: &[u8], b: &[u8]) -> (r: bool)
    ensures
        r == lex_less_from(a@, b@, 0),
{
    let mut i: usize = 0;
    while i < a.len() && i < b.len()
        invariant
            i <= a@.len(),
            i <= b@.len(),
            lex_less_from(a@, b@, 0) == lex_less_from(a@, b@, i as int),
        decreases a@.len() - i,
    {
        if a[i] != b[i] {
            return a[i] < b[i];
        }
        i = i + 1;
    }
    i < b.len()
}

pub(crate) fn text_lt(a: &String, b: &String) -> (r: bool)
    ensures
        r == text_less(a@, b@),
{
    bytes_less(a.as_str().as_bytes(), b.as_str().as_bytes())
}

/// Whether occurrence `a` comes before occurrence `b`.
pub fn found_lt(a: &FoundImport, b: &FoundImport) -> (r: bool)
    ensures
        r == found_less(a@, b@),
{
    if text_lt(&a.import, &b.import) {
        return true;
    }
    if a.import != b.import {
        return false;
    }
    if text_lt(&a.path, &b.path) {
        return true;
    }
    if a.path != b.path {
        return false;
    }
    a.position.row < b.position.row || (a.position.row == b.position.row && a.position.column
        < b.position.column)
}

} // verus!
