//! Whitespace normalization: the document text and the query are both
//! stripped of whitespace before the search, so that whitespace differences
//! between the two never prevent a match.

use vstd::prelude::*;

verus! {

/// Whether `c` has the Unicode `White_Space` property.
pub open spec fn is_whitespace_char(c: char) -> bool {
    let u = c as u32;
    ||| u == 0x20
    ||| (0x09 <= u && u <= 0x0D)
    ||| u == 0x85
    ||| u == 0xA0
    ||| u == 0x1680
    ||| (0x2000 <= u && u <= 0x200A)
    ||| u == 0x2028
    ||| u == 0x2029
    ||| u == 0x202F
    ||| u == 0x205F
    ||| u == 0x3000
}

/// The whitespace-free image of `s`: every non-whitespace character of `s`,
/// in original order, and nothing else.
pub open spec fn norm(s: Seq<char>) -> Seq<char>
    decreases s.len(),
{
    if s.len() == 0 {
        Seq::empty()
    } else if is_whitespace_char(s.last()) {
        norm(s.drop_last())
    } else {
        norm(s.drop_last()).push(s.last())
    }
}

pub proof fn lemma_norm_concat(a: Seq<char>, b: Seq<char>)
    ensures
        norm(a + b) == norm(a) + norm(b),
    decreases b.len(),
{
    if b.len() == 0 {
        assert(a + b =~= a);
        assert(norm(a) + b =~= norm(a));
    } else {
        lemma_norm_concat(a, b.drop_last());
        assert((a + b).drop_last() =~= a + b.drop_last());
        assert((a + b).last() == b.last());
        if is_whitespace_char(b.last()) {
        } else {
            assert((norm(a) + norm(b.drop_last())).push(b.last()) =~= norm(a) + norm(
                b.drop_last(),
            ).push(b.last()));
        }
    }
}

/// No character of a normalized sequence is whitespace.
pub proof fn lemma_norm_no_whitespace(s: Seq<char>)
    ensures
        forall|i: int| 0 <= i < norm(s).len() ==> !is_whitespace_char(#[trigger] norm(s)[i]),
    decreases s.len(),
{
    if s.len() > 0 {
        lemma_norm_no_whitespace(s.drop_last());
        if !is_whitespace_char(s.last()) {
            assert forall|i: int| 0 <= i < norm(s).len() implies !is_whitespace_char(
                norm(s)[i],
            ) by {
                if i < norm(s).len() - 1 {
                    assert(norm(s)[i] == norm(s.drop_last())[i]);
                } else {
                    assert(norm(s)[i] == s.last());
                }
            }
        }
    }
}

/// Normalization leaves a sequence without whitespace unchanged.
pub proof fn lemma_norm_of_clean(s: Seq<char>)
    requires
        forall|i: int| 0 <= i < s.len() ==> !is_whitespace_char(#[trigger] s[i]),
    ensures
        norm(s) == s,
    decreases s.len(),
{
    if s.len() > 0 {
        lemma_norm_of_clean(s.drop_last());
        assert(norm(s.drop_last()).push(s.last()) =~= s);
    }
}

/// Normalization is idempotent: normalizing a second time changes nothing.
pub proof fn lemma_norm_idempotent(s: Seq<char>)
    ensures
        norm(norm(s)) == norm(s),
{
    lemma_norm_no_whitespace(s);
    lemma_norm_of_clean(norm(s));
}

/// Whether `c` has the Unicode `White_Space` property.
pub fn is_whitespace(c: char) -> (r: bool)
    ensures
        r == is_whitespace_char(c),
{
    let u = c as u32;
    u == 0x20 || (0x09 <= u && u <= 0x0D) || u == 0x85 || u == 0xA0 || u == 0x1680 || (0x2000 <= u
        && u <= 0x200A) || u == 0x2028 || u == 0x2029 || u == 0x202F || u == 0x205F || u == 0x3000
}

/// Normalize spaces by removing them.
pub fn normalize_text(input: &str) -> (r: String)
    ensures
        r@ == norm(input@),
{
    let n = input.unicode_len();
    let mut out = String::new();
    let mut i: usize = 0;
    while i < n
        invariant
            n == input@.len(),
            i <= n,
            out@ == norm(input@.take(i as int)),
        decreases n - i,
    {
        let c = input.get_char(i);
        if !is_whitespace(c) {
            let piece = input.substring_char(i, i + 1);
            out.append(piece);
        }
        proof {
            assert(input@.take(i + 1).drop_last() =~= input@.take(i as int));
            assert(input@.take(i + 1).last() == input@[i as int]);
        }
        i = i + 1;
    }
    proof {
        assert(input@.take(n as int) =~= input@);
    }
    out
}

} // verus!
