//! How a filter made of several words behaves: filtering with "f1 f2" is
//! filtering with `f1` and with `f2`, in either order.

use vstd::prelude::*;
use vstd::utf8::encode_utf8;
use crate::datastructures::{AttackView, filter_accepts, word_matches};
use crate::text::{contains_seq, is_white, is_word};

verus! {

/// The length in bytes of the UTF-8 text whose characters are `s`, which is
/// what `str::len` gives.
pub open spec fn byte_len(s: Seq<char>) -> nat {
    encode_utf8(s).len()
}

/// `f1` and `f2` joined by one space, as `format!("{} {}", f1, f2)` writes them.
pub open spec fn joined(f1: Seq<char>, f2: Seq<char>) -> Seq<char> {
    f1 + seq![' '] + f2
}

/// The filter `f` as `Attack::filter` reads it, for a text of that content.
pub open spec fn accepts_text(a: AttackView, f: Seq<char>, who: Seq<char>) -> bool {
    filter_accepts(a, f, byte_len(f) as usize, who)
}

/// Every word of `f` occurs in one of the texts of the attack.
pub open spec fn all_words_match(a: AttackView, f: Seq<char>) -> bool {
    forall|i: int, j: int| #[trigger] is_word(f, i, j) ==> word_matches(a, f.subrange(i, j))
}

/// The bytes of joined texts are the bytes of each, one after the other.
proof fn lemma_encode_concat(s: Seq<char>, t: Seq<char>)
    ensures
        encode_utf8(s + t) == encode_utf8(s) + encode_utf8(t),
    decreases s.len(),
{
    if s.len() == 0 {
        assert(s + t =~= t);
        assert(encode_utf8(s) + encode_utf8(t) =~= encode_utf8(t));
    } else {
        lemma_encode_concat(s.drop_first(), t);
        assert((s + t).drop_first() =~= s.drop_first() + t);
        assert((s + t)[0] == s[0]);
        let e = vstd::utf8::encode_scalar(s[0] as u32);
        assert(e + (encode_utf8(s.drop_first()) + encode_utf8(t)) =~= (e + encode_utf8(s.drop_first()))
            + encode_utf8(t));
    }
}

/// Every character takes at least one byte, so only the empty text has none.
proof fn lemma_byte_len_zero(s: Seq<char>)
    ensures
        (byte_len(s) == 0) == (s.len() == 0),
{
    if s.len() > 0 {
        assert(vstd::utf8::encode_scalar(s[0] as u32).len() >= 1);
    }
}

/// A space takes one byte.
proof fn lemma_space_byte()
    ensures
        byte_len(seq![' ']) == 1,
{
    let s = seq![' '];
    assert(s.drop_first() =~= Seq::<char>::empty());
    assert(encode_utf8(s.drop_first()).len() == 0);
    assert((' ' as u32) == 32);
    assert(vstd::utf8::encode_scalar(32).len() == 1);
    assert(encode_utf8(s) == vstd::utf8::encode_scalar(s[0] as u32) + encode_utf8(s.drop_first()));
}

/// The length in bytes of joined texts.
proof fn lemma_joined_bytes(f1: Seq<char>, f2: Seq<char>)
    ensures
        byte_len(joined(f1, f2)) == byte_len(f1) + 1 + byte_len(f2),
{
    lemma_encode_concat(f1, seq![' ']);
    lemma_encode_concat(f1 + seq![' '], f2);
    lemma_space_byte();
}

/// An `i32` made from a `usize` is zero exactly where the number is a
/// multiple of 2^32.
proof fn lemma_i32_zero(x: usize)
    ensures
        ((x as i32) == 0) == ((x as int) % 0x1_0000_0000 == 0),
{
    let y = x as u64;
    assert(((x as i32) == 0) == ((x as u64) % 0x1_0000_0000u64 == 0)) by (bit_vector);
    assert(y as int == x as int);
}

/// Where the length in bytes is no positive multiple of 2^32, the filter
/// accepts exactly the attacks of `who` in which every word occurs.
proof fn lemma_accepts_by_words(a: AttackView, f: Seq<char>, who: Seq<char>)
    requires
        byte_len(f) <= usize::MAX,
        byte_len(f) == 0 || byte_len(f) % 0x1_0000_0000 != 0,
    ensures
        accepts_text(a, f, who) == (contains_seq(a.attacker, who) && all_words_match(a, f)),
{
    let n = byte_len(f) as usize;
    lemma_i32_zero(n);
    lemma_byte_len_zero(f);
    if f.len() == 0 {
        assert forall|i: int, j: int| #[trigger] is_word(f, i, j) implies word_matches(a, f.subrange(i, j)) by {}
    }
}

/// The words of `f1 f2` are those of `f1` and those of `f2`.
proof fn lemma_joined_words(a: AttackView, f1: Seq<char>, f2: Seq<char>)
    ensures
        all_words_match(a, joined(f1, f2)) == (all_words_match(a, f1) && all_words_match(a, f2)),
{
    let f = joined(f1, f2);
    let l = f1.len() as int;
    assert(f[l] == ' ');
    assert(is_white(' ')) by {
        assert((' ' as u32) == 32);
    }
    assert forall|i: int, j: int| 0 <= i <= j <= l implies #[trigger] f.subrange(i, j) == f1.subrange(i, j) by {
        assert(f.subrange(i, j) =~= f1.subrange(i, j));
    }
    if all_words_match(a, f) {
        assert forall|i: int, j: int| #[trigger] is_word(f1, i, j) implies word_matches(a, f1.subrange(i, j)) by {
            assert forall|k: int| i <= k < j implies !is_white(#[trigger] f[k]) by {
                assert(f[k] == f1[k]);
                assert(!is_white(f1[k]));
            }
            if i > 0 {
                assert(f[i - 1] == f1[i - 1]);
            }
            if j < l {
                assert(f[j] == f1[j]);
            }
            assert(is_word(f, i, j));
            assert(f.subrange(i, j) == f1.subrange(i, j));
        }
        assert forall|i: int, j: int| #[trigger] is_word(f2, i, j) implies word_matches(a, f2.subrange(i, j)) by {
            assert forall|k: int| i + l + 1 <= k < j + l + 1 implies !is_white(#[trigger] f[k]) by {
                assert(f[k] == f2[k - l - 1]);
                assert(!is_white(f2[k - l - 1]));
            }
            if i > 0 {
                assert(f[i + l] == f2[i - 1]);
            }
            if j < f2.len() {
                assert(f[j + l + 1] == f2[j]);
            }
            assert(is_word(f, i + l + 1, j + l + 1));
            assert(f.subrange(i + l + 1, j + l + 1) =~= f2.subrange(i, j));
        }
    }
    if all_words_match(a, f1) && all_words_match(a, f2) {
        assert forall|i: int, j: int| #[trigger] is_word(f, i, j) implies word_matches(a, f.subrange(i, j)) by {
            if j <= l {
                assert forall|k: int| i <= k < j implies !is_white(#[trigger] f1[k]) by {
                    assert(f[k] == f1[k]);
                    assert(!is_white(f[k]));
                }
                if i > 0 {
                    assert(f[i - 1] == f1[i - 1]);
                }
                if j < l {
                    assert(f[j] == f1[j]);
                }
                assert(is_word(f1, i, j));
            } else {
                if i <= l {
                    assert(!is_white(f[l]));
                }
                let i2 = i - l - 1;
                let j2 = j - l - 1;
                assert forall|k: int| i2 <= k < j2 implies !is_white(#[trigger] f2[k]) by {
                    assert(f[k + l + 1] == f2[k]);
                    assert(!is_white(f[k + l + 1]));
                }
                if i2 > 0 {
                    assert(f[i - 1] == f2[i2 - 1]);
                }
                if j2 < f2.len() {
                    assert(f[j] == f2[j2]);
                }
                assert(is_word(f2, i2, j2));
                assert(f.subrange(i, j) =~= f2.subrange(i2, j2));
            }
        }
    }
}

/// Filtering with the words of `f1` and of `f2`, joined by a space, accepts
/// exactly the attacks that filtering with `f1` and filtering with `f2` both
/// accept, and the order of the two does not matter. It holds wherever no
/// filter's length in bytes is a positive multiple of 2^32 (where such a
/// length, read as an `i32`, is zero, the filter accepts every attack of
/// `who`).
pub proof fn lemma_filter_joined(a: AttackView, f1: Seq<char>, f2: Seq<char>, who: Seq<char>)
    requires
        byte_len(f1) + 1 + byte_len(f2) <= usize::MAX,
        byte_len(f1) == 0 || byte_len(f1) % 0x1_0000_0000 != 0,
        byte_len(f2) == 0 || byte_len(f2) % 0x1_0000_0000 != 0,
        (byte_len(f1) + 1 + byte_len(f2)) % 0x1_0000_0000 != 0,
    ensures
        accepts_text(a, joined(f1, f2), who) == (accepts_text(a, f1, who) && accepts_text(a, f2, who)),
        accepts_text(a, joined(f1, f2), who) == accepts_text(a, joined(f2, f1), who),
{
    lemma_joined_bytes(f1, f2);
    lemma_joined_bytes(f2, f1);
    lemma_accepts_by_words(a, f1, who);
    lemma_accepts_by_words(a, f2, who);
    lemma_accepts_by_words(a, joined(f1, f2), who);
    lemma_accepts_by_words(a, joined(f2, f1), who);
    lemma_joined_words(a, f1, f2);
    lemma_joined_words(a, f2, f1);
}

/// The word `w` occurs in the time, the victim, the attack name, the crit or
/// the damage type of `a`.
pub open spec fn occurs_in_attack(a: AttackView, w: Seq<char>) -> bool {
    contains_seq(a.timestamp, w) || contains_seq(a.victim, w) || contains_seq(a.attack_name, w)
        || contains_seq(a.crit, w) || contains_seq(a.damage_type, w)
}

/// A filter accepts exactly the attacks whose attacker's name contains `who`
/// and in which each word of the filter occurs in one of the five texts
/// (time, victim, attack name, crit, damage type). It holds wherever the
/// filter's length in bytes is no positive multiple of 2^32.
pub proof fn lemma_filter_words_in_texts(a: AttackView, f: Seq<char>, who: Seq<char>)
    requires
        byte_len(f) <= usize::MAX,
        byte_len(f) == 0 || byte_len(f) % 0x1_0000_0000 != 0,
    ensures
        accepts_text(a, f, who) == (contains_seq(a.attacker, who) && forall|i: int, j: int|
            #[trigger] is_word(f, i, j) ==> occurs_in_attack(a, f.subrange(i, j))),
{
    lemma_accepts_by_words(a, f, who);
}

/// A filter of one word (no whitespace in it) accepts an attack of `who`
/// exactly where the word occurs in its time, victim, attack name, crit or
/// damage type.
pub proof fn lemma_filter_one_word(a: AttackView, w: Seq<char>, who: Seq<char>)
    requires
        w.len() > 0,
        forall|k: int| 0 <= k < w.len() ==> !is_white(#[trigger] w[k]),
        byte_len(w) <= usize::MAX,
        byte_len(w) % 0x1_0000_0000 != 0,
    ensures
        accepts_text(a, w, who) == (contains_seq(a.attacker, who) && (contains_seq(a.timestamp, w)
            || contains_seq(a.victim, w) || contains_seq(a.attack_name, w) || contains_seq(a.crit, w)
            || contains_seq(a.damage_type, w))),
{
    lemma_filter_words_in_texts(a, w, who);
    let n = w.len() as int;
    assert(is_word(w, 0, n));
    assert(w.subrange(0, n) =~= w);
    assert forall|i: int, j: int| #[trigger] is_word(w, i, j) implies i == 0 && j == n by {
        if i > 0 {
            assert(!is_white(w[i - 1]));
        }
        if j < n {
            assert(!is_white(w[j]));
        }
    }
}

} // verus!
