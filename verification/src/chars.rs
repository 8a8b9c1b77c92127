//! Character and string helpers shared by the codec and the dispatcher:
//! the characters of a string as a vector, whitespace tests, and the
//! splitting of text into whitespace-delimited words.

use vstd::prelude::*;

verus! {

/// The ASCII characters that carry the Unicode `White_Space` property:
/// exactly tab, line feed, vertical tab, form feed, carriage return and
/// space.
pub open spec fn is_ascii_ws(c: char) -> bool {
    c as u32 == 9 || c as u32 == 10 || c as u32 == 11 || c as u32 == 12 || c as u32 == 13 || (c
        as u32) == 32
}

/// What `char::is_whitespace` returns beyond ASCII: whether the character
/// carries the Unicode `White_Space` property. A property of the character
/// alone.
pub uninterp spec fn is_unicode_ws_nonascii(c: char) -> bool;

/// Whether the character carries the Unicode `White_Space` property: on
/// ASCII exactly the six classical whitespace characters, beyond ASCII
/// whatever the character tables say.
pub open spec fn is_unicode_ws(c: char) -> bool {
    if (c as u32) < 128 {
        is_ascii_ws(c)
    } else {
        is_unicode_ws_nonascii(c)
    }
}

/// Relies on `char::is_whitespace`: the result depends on the character
/// alone and holds exactly of the characters with the Unicode
/// `White_Space` property, which within ASCII are tab, line feed, vertical
/// tab, form feed, carriage return and space, and no others.
pub assume_specification[ char::is_whitespace ](c: char) -> (r: bool)
    ensures
        r == is_unicode_ws(c),
        (c as u32) >= 128 ==> r == is_unicode_ws_nonascii(c),
;

/// Relies on `String::push`: appends the given character to the end of the
/// string.
pub assume_specification[ String::push ](s: &mut String, c: char)
    ensures
        final(s)@ == old(s)@.push(c),
;

/// Every character of the sequence is whitespace (true of the empty sequence).
pub open spec fn all_ws(s: Seq<char>) -> bool {
    forall|i: int| 0 <= i < s.len() ==> is_unicode_ws(s[i])
}

/// The characters of `s`, in order, as a vector.
pub fn to_chars(s: &str) -> (r: Vec<char>)
    ensures
        r@ == s@,
{
    let n = s.unicode_len();
    let mut v: Vec<char> = Vec::new();
    let mut i: usize = 0;
    while i < n
        invariant
            i <= n,
            n == s@.len(),
            v@ == s@.subrange(0, i as int),
        decreases n - i,
    {
        let c = s.get_char(i);
        v.push(c);
        proof {
            assert(s@.subrange(0, i as int).push(s@[i as int]) =~= s@.subrange(0, i + 1 as int));
        }
        i += 1;
    }
    proof {
        assert(s@.subrange(0, n as int) =~= s@);
    }
    v
}

/// Whether the string consists of whitespace alone (an empty string does).
pub fn is_blank(s: &str) -> (r: bool)
    ensures
        r == all_ws(s@),
{
    let n = s.unicode_len();
    let mut i: usize = 0;
    while i < n
        invariant
            i <= n,
            n == s@.len(),
            forall|j: int| 0 <= j < i ==> is_unicode_ws(s@[j]),
        decreases n - i,
    {
        let c = s.get_char(i);
        if !c.is_whitespace() {
            return false;
        }
        i += 1;
    }
    true
}

/// The length of the word at the head of `s`: the number of characters
/// before the first whitespace.
pub open spec fn word_len(s: Seq<char>) -> nat
    decreases s.len(),
{
    if s.len() == 0 || is_unicode_ws(s[0]) {
        0
    } else {
        (1 + word_len(s.skip(1))) as nat
    }
}

/// The whitespace-delimited words of `s`, in order: the maximal runs of
/// non-whitespace characters.
pub open spec fn spec_words(s: Seq<char>) -> Seq<Seq<char>>
    decreases s.len(),
{
    if s.len() == 0 {
        Seq::empty()
    } else if is_unicode_ws(s[0]) {
        spec_words(s.skip(1))
    } else {
        let wl0 = 1 + word_len(s.skip(1));
        let wl: nat = if wl0 <= s.len() {
            wl0 as nat
        } else {
            s.len()
        };
        seq![s.take(wl as int)] + spec_words(s.skip(wl as int))
    }
}

pub proof fn lemma_word_len(s: Seq<char>)
    ensures
        word_len(s) <= s.len(),
        forall|m: int| 0 <= m < word_len(s) ==> !is_unicode_ws(s[m]),
        word_len(s) < s.len() ==> is_unicode_ws(s[word_len(s) as int]),
    decreases s.len(),
{
    if s.len() > 0 && !is_unicode_ws(s[0]) {
        lemma_word_len(s.skip(1));
        assert forall|m: int| 0 <= m < word_len(s) implies !is_unicode_ws(s[m]) by {
            if m > 0 {
                assert(s.skip(1)[m - 1] == s[m]);
            }
        }
        if word_len(s) < s.len() {
            assert(s.skip(1)[word_len(s) - 1] == s[word_len(s) as int]);
        }
    }
}

pub proof fn lemma_word_len_lb(s: Seq<char>, m: int)
    requires
        0 <= m <= s.len(),
        forall|p: int| 0 <= p < m ==> !is_unicode_ws(s[p]),
    ensures
        word_len(s) >= m,
    decreases m,
{
    if m > 0 {
        assert(!is_unicode_ws(s[0]));
        assert forall|p: int| 0 <= p < m - 1 implies !is_unicode_ws(s.skip(1)[p]) by {
            assert(s.skip(1)[p] == s[p + 1]);
        }
        lemma_word_len_lb(s.skip(1), m - 1);
    }
}

/// The first `max` whitespace-delimited words of `s`, in order.
#[verifier::loop_isolation(false)]
pub fn take_words(s: &str, max: usize) -> (r: Vec<String>)
    ensures
        r@.len() == (if spec_words(s@).len() <= max {
            spec_words(s@).len()
        } else {
            max as nat
        }),
        forall|k: int| 0 <= k < r@.len() ==> (#[trigger] r@[k])@ == spec_words(s@)[k],
{
    let v = to_chars(s);
    let ghost bigs = s@;
    let ghost ws = spec_words(bigs);
    let mut out: Vec<String> = Vec::new();
    let mut i: usize = 0;
    proof {
        assert(bigs.skip(0) =~= bigs);
    }
    while out.len() < max && i < v.len()
        invariant
            i <= v@.len(),
            out@.len() <= max,
            out@.len() <= ws.len(),
            spec_words(bigs.skip(i as int)) == ws.skip(out@.len() as int),
            forall|k: int| 0 <= k < out@.len() ==> (#[trigger] out@[k])@ == ws[k],
        decreases v@.len() - i,
    {
        let c = v[i];
        proof {
            assert(bigs.skip(i as int)[0] == bigs[i as int]);
        }
        if c.is_whitespace() {
            proof {
                assert(bigs.skip(i as int).skip(1) =~= bigs.skip(i + 1 as int));
            }
            i += 1;
        } else {
            let mut j: usize = i + 1;
            while j < v.len() && !v[j].is_whitespace()
                invariant
                    i < j <= v@.len(),
                    forall|p: int| i <= p < j ==> !is_unicode_ws(bigs[p]),
                decreases v@.len() - j,
            {
                j += 1;
            }
            let ghost su = bigs.skip(i as int);
            proof {
                lemma_word_len(su);
                assert forall|p: int| 0 <= p < j - i implies !is_unicode_ws(su[p]) by {
                    assert(su[p] == bigs[i + p]);
                }
                lemma_word_len_lb(su, j - i);
                if j < v@.len() {
                    assert(su[j - i] == bigs[j as int]);
                    assert(is_unicode_ws(su[j - i]));
                    assert(word_len(su) <= j - i);
                }
                assert(word_len(su) == j - i);
                assert(1 + word_len(su.skip(1)) == word_len(su));
                assert(su.take(j - i) =~= bigs.subrange(i as int, j as int));
                assert(su.skip(j - i) =~= bigs.skip(j as int));
                assert(spec_words(su) == seq![bigs.subrange(i as int, j as int)] + spec_words(
                    bigs.skip(j as int),
                ));
            }
            let mut w = String::new();
            let mut k: usize = i;
            while k < j
                invariant
                    i <= k <= j <= v@.len(),
                    w@ == bigs.subrange(i as int, k as int),
                decreases j - k,
            {
                w.push(v[k]);
                proof {
                    assert(bigs.subrange(i as int, k as int).push(bigs[k as int]) =~= bigs.subrange(
                        i as int,
                        k + 1 as int,
                    ));
                }
                k += 1;
            }
            let ghost count = out@.len();
            out.push(w);
            proof {
                let word = bigs.subrange(i as int, j as int);
                assert(ws.skip(count as int)[0] == word);
                assert(ws[count as int] == word);
                assert(ws.skip(count as int).skip(1) =~= ws.skip(count as int + 1));
                assert(spec_words(bigs.skip(j as int)) == ws.skip(count as int + 1));
            }
            i = j;
        }
    }
    proof {
        if i == v@.len() {
            assert(bigs.skip(i as int).len() == 0);
            assert(spec_words(bigs.skip(i as int)) =~= Seq::<Seq<char>>::empty());
            assert(ws.skip(out@.len() as int).len() == 0);
        }
    }
    out
}

} // verus!
