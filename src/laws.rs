//! Laws that relate several operations on [`EcoString`].
use crate::string::{ascii_cased, lemma_encode_concat, lowercase, repeat_seq, uppercase, EcoString};
use vstd::prelude::*;
use vstd::utf8::*;

verus! {

/// Two well-formed strings hold the same bytes exactly when they hold the
/// same characters, so `==` compares content and never representation.
pub proof fn law_eq_is_content(a: EcoString, b: EcoString)
    requires
        a.wf(),
        b.wf(),
    ensures
        (a.bytes() == b.bytes()) == (a@ == b@),
{
    a.lemma_bytes();
    b.lemma_bytes();
}

/// Popping the last character of a non-empty string and pushing it back
/// restores the content: `s0` is the string before `pop`, which returned
/// `c` and left `s1`, and `s2` is `s1` after `push(c)`.
pub proof fn law_pop_then_push(s0: Seq<char>, s1: Seq<char>, c: char, s2: Seq<char>)
    requires
        s0.len() > 0,
        c == s0.last(),
        s1 == s0.drop_last(),
        s2 == s1.push(c),
    ensures
        s2 == s0,
{
    assert(s2 =~= s0);
}

/// Repeating zero times gives the empty string, and repeating `n` times
/// takes `n` times as many bytes.
pub proof fn law_repeat_len(s: Seq<char>, n: nat)
    ensures
        repeat_seq(s, 0) == Seq::<char>::empty(),
        encode_utf8(repeat_seq(s, n)).len() == encode_utf8(s).len() * n,
    decreases n,
{
    let k = encode_utf8(s).len();
    if n == 0 {
        assert(k * n == 0) by (nonlinear_arith)
            requires
                n == 0,
        ;
    } else {
        law_repeat_len(s, (n - 1) as nat);
        lemma_encode_concat(repeat_seq(s, (n - 1) as nat), s);
        assert(k * (n - 1) + k == k * n) by (nonlinear_arith);
    }
}

/// Mapping ASCII letters to one case twice is mapping them once.
proof fn lemma_ascii_cased_twice(s: Seq<char>, upper: bool)
    requires
        is_ascii_chars(s),
    ensures
        is_ascii_chars(ascii_cased(s, upper)),
        ascii_cased(ascii_cased(s, upper), upper) == ascii_cased(s, upper),
{
    let once = ascii_cased(s, upper);
    assert forall|i: int| 0 <= i < once.len() implies '\0' <= #[trigger] once[i] <= '\u{7f}' by {
        assert(0 <= (s[i] as u32) < 128);
    }
    assert forall|i: int| 0 <= i < once.len() implies #[trigger] ascii_cased(once, upper)[i]
        == once[i] by {
        assert(0 <= (s[i] as u32) < 128);
    }
    assert(ascii_cased(once, upper) =~= once);
}

/// Lowering ASCII content a second time changes nothing.
pub proof fn law_lowercase_idempotent_ascii(s: Seq<char>)
    requires
        is_ascii_chars(s),
    ensures
        lowercase(lowercase(s)) == lowercase(s),
{
    lemma_ascii_cased_twice(s, false);
}

/// Raising ASCII content a second time changes nothing.
pub proof fn law_uppercase_idempotent_ascii(s: Seq<char>)
    requires
        is_ascii_chars(s),
    ensures
        uppercase(uppercase(s)) == uppercase(s),
{
    lemma_ascii_cased_twice(s, true);
}

} // verus!
