//! Reversal of the order of the words of a byte string.
//!
//! A sentence is split at every ASCII space (consecutive spaces yield
//! empty words, and so does a leading or trailing space); the result is
//! the words in reverse order, joined again with single spaces.  That
//! round trip is the specification [`reverse_words`]; both entry points
//! are proved to produce exactly it.
//!
//! Working on bytes rather than characters is sound for UTF-8 input:
//! the space byte never occurs inside a multi-byte character, so the
//! bytes of each word keep their order and stay valid.

use vstd::prelude::*;

verus! {

/// The byte that separates words.
pub const ASCII_SPACE: u8 = 32;

/// The words of `s`: maximal runs of non-space bytes, split at every
/// space.  Splitting the empty string gives one empty word, and every
/// space adds one more word, so `n` spaces always yield `n + 1` words.
pub open spec fn split_words(s: Seq<u8>) -> Seq<Seq<u8>>
    decreases s.len(),
{
    if s.len() == 0 {
        seq![Seq::<u8>::empty()]
    } else {
        let rest = split_words(s.drop_first());
        if s[0] == ASCII_SPACE {
            seq![Seq::<u8>::empty()] + rest
        } else {
            seq![seq![s[0]] + rest[0]] + rest.drop_first()
        }
    }
}

/// The words of `ws` joined with single spaces.
pub open spec fn join_words(ws: Seq<Seq<u8>>) -> Seq<u8>
    decreases ws.len(),
{
    if ws.len() == 0 {
        Seq::empty()
    } else if ws.len() == 1 {
        ws[0]
    } else {
        ws[0] + seq![ASCII_SPACE] + join_words(ws.drop_first())
    }
}

/// The sentence with its words in reverse order: split at spaces,
/// reverse the word list, join with spaces again.
pub open spec fn reverse_words(s: Seq<u8>) -> Seq<u8> {
    join_words(split_words(s).reverse())
}

/// Splitting always yields at least one word.
proof fn lemma_split_words_len(s: Seq<u8>)
    ensures
        split_words(s).len() >= 1,
    decreases s.len(),
{
    if s.len() > 0 {
        lemma_split_words_len(s.drop_first());
    }
}

/// Joining after appending one more word appends a space and the word
/// (or is the word itself when there was nothing yet).
proof fn lemma_join_push(ws: Seq<Seq<u8>>, w: Seq<u8>)
    ensures
        join_words(ws.push(w)) == if ws.len() == 0 {
            w
        } else {
            join_words(ws) + seq![ASCII_SPACE] + w
        },
    decreases ws.len(),
{
    if ws.len() == 0 {
        assert(ws.push(w)[0] == w);
        assert(join_words(ws.push(w)) == w);
    } else {
        assert(ws.push(w).drop_first() =~= ws.drop_first().push(w));
        lemma_join_push(ws.drop_first(), w);
        if ws.len() == 1 {
            assert(ws.push(w).len() == 2);
            assert(join_words(ws.push(w)) == ws[0] + seq![ASCII_SPACE] + w);
            assert(join_words(ws) == ws[0]);
        } else {
            assert(join_words(ws) + seq![ASCII_SPACE] + w == ws[0] + seq![ASCII_SPACE] + (
            join_words(ws.drop_first()) + seq![ASCII_SPACE] + w));
        }
    }
}

/// A sentence without spaces is one single word.
proof fn lemma_split_single_word(s: Seq<u8>)
    requires
        forall|m: int| 0 <= m < s.len() ==> s[m] != ASCII_SPACE,
    ensures
        split_words(s) == seq![s],
    decreases s.len(),
{
    if s.len() == 0 {
        assert(split_words(s) =~~= seq![s]);
    } else {
        lemma_split_single_word(s.drop_first());
        let rest = split_words(s.drop_first());
        assert(rest == seq![s.drop_first()]);
        assert(rest.drop_first() =~= Seq::<Seq<u8>>::empty());
        assert(rest[0] == s.drop_first());
        assert(seq![s[0]] + s.drop_first() =~= s);
        assert(split_words(s) =~= seq![s]);
    }
}

/// Splitting cuts at a space: the words of `a + space + b` are the
/// words of `a` followed by the words of `b`.
proof fn lemma_split_concat(a: Seq<u8>, b: Seq<u8>)
    ensures
        split_words(a + seq![ASCII_SPACE] + b) == split_words(a) + split_words(b),
    decreases a.len(),
{
    let s = a + seq![ASCII_SPACE] + b;
    if a.len() == 0 {
        assert(s.drop_first() =~= b);
        assert(s[0] == ASCII_SPACE);
        assert(split_words(s) == seq![Seq::<u8>::empty()] + split_words(b));
        assert(split_words(a) =~= seq![Seq::<u8>::empty()]);
        assert(split_words(s) =~= split_words(a) + split_words(b));
    } else {
        lemma_split_concat(a.drop_first(), b);
        lemma_split_words_len(a.drop_first());
        let rest = split_words(a.drop_first() + seq![ASCII_SPACE] + b);
        assert(s.drop_first() =~= a.drop_first() + seq![ASCII_SPACE] + b);
        assert(s[0] == a[0]);
        assert(rest == split_words(a.drop_first()) + split_words(b));
        if a[0] == ASCII_SPACE {
            assert(split_words(s) == seq![Seq::<u8>::empty()] + rest);
            assert(split_words(a) == seq![Seq::<u8>::empty()] + split_words(a.drop_first()));
            assert(split_words(s) =~= split_words(a) + split_words(b));
        } else {
            assert(rest[0] == split_words(a.drop_first())[0]);
            assert(rest.drop_last() =~= (split_words(a.drop_first()) + split_words(b)).drop_last());
            assert(split_words(s) == seq![seq![a[0]] + rest[0]] + rest.drop_first());
            assert(split_words(a) == seq![seq![a[0]] + split_words(a.drop_first())[0]]
                + split_words(a.drop_first()).drop_first());
            assert(rest.drop_first() =~= split_words(a.drop_first()).drop_first() + split_words(b));
            assert(split_words(s) =~= split_words(a) + split_words(b));
        }
    }
}

/// Joining cuts the same way: the join of two word lists is the joins
/// glued with one space.
proof fn lemma_join_concat(ws1: Seq<Seq<u8>>, ws2: Seq<Seq<u8>>)
    requires
        ws1.len() >= 1,
        ws2.len() >= 1,
    ensures
        join_words(ws1 + ws2) == join_words(ws1) + seq![ASCII_SPACE] + join_words(ws2),
    decreases ws1.len(),
{
    if ws1.len() == 1 {
        assert((ws1 + ws2).drop_first() =~= ws2);
        assert((ws1 + ws2)[0] == ws1[0]);
        assert((ws1 + ws2).len() >= 2);
        assert(join_words(ws1 + ws2) == ws1[0] + seq![ASCII_SPACE] + join_words(ws2));
        assert(join_words(ws1) == ws1[0]);
    } else {
        lemma_join_concat(ws1.drop_first(), ws2);
        assert((ws1 + ws2).drop_first() =~= ws1.drop_first() + ws2);
        assert((ws1 + ws2)[0] == ws1[0]);
        assert(join_words(ws1 + ws2) == ws1[0] + seq![ASCII_SPACE] + join_words(
            ws1.drop_first() + ws2,
        ));
        assert(join_words(ws1) + seq![ASCII_SPACE] + join_words(ws2) == ws1[0] + seq![ASCII_SPACE]
            + (join_words(ws1.drop_first()) + seq![ASCII_SPACE] + join_words(ws2)));
    }
}

/// Every word of `ws` reversed, in order.
pub open spec fn reverse_each(ws: Seq<Seq<u8>>) -> Seq<Seq<u8>> {
    ws.map_values(|w: Seq<u8>| w.reverse())
}

/// The sentence with every word reversed in place but the word order
/// kept: what one pass of in-place word reversal produces.
pub open spec fn reverse_within_words(s: Seq<u8>) -> Seq<u8> {
    join_words(reverse_each(split_words(s)))
}

/// Reversing a joined sentence reverses the word order and each word.
proof fn lemma_reverse_join(ws: Seq<Seq<u8>>)
    ensures
        join_words(ws).reverse() == join_words(reverse_each(ws.reverse())),
    decreases ws.len(),
{
    if ws.len() == 0 {
        assert(join_words(ws).reverse() =~= Seq::<u8>::empty());
        assert(ws.reverse() =~= Seq::<Seq<u8>>::empty());
        assert(reverse_each(ws.reverse()) =~= Seq::<Seq<u8>>::empty());
    } else if ws.len() == 1 {
        assert(ws.reverse() =~= ws);
        assert(reverse_each(ws) =~= seq![ws[0].reverse()]);
        assert(join_words(reverse_each(ws)) == ws[0].reverse());
    } else {
        lemma_reverse_join(ws.drop_first());
        assert(join_words(ws) == ws[0] + seq![ASCII_SPACE] + join_words(ws.drop_first()));
        assert((ws[0] + seq![ASCII_SPACE] + join_words(ws.drop_first())).reverse()
            =~= join_words(ws.drop_first()).reverse() + seq![ASCII_SPACE] + ws[0].reverse());
        let tail_rev = reverse_each(ws.drop_first().reverse());
        lemma_split_words_len(Seq::<u8>::empty());
        assert(tail_rev.len() == ws.len() - 1);
        lemma_join_push(tail_rev, ws[0].reverse());
        assert(join_words(tail_rev.push(ws[0].reverse())) == join_words(tail_rev) + seq![
            ASCII_SPACE,
        ] + ws[0].reverse());
        assert(reverse_each(ws.reverse()) =~= tail_rev.push(ws[0].reverse()));
    }
}

/// Reversing a sentence whose words were each reversed in place yields
/// the sentence with its words in reverse order: the two in-place
/// passes compose to [`reverse_words`].
proof fn lemma_reverse_within_then_whole(s: Seq<u8>)
    ensures
        reverse_within_words(s).reverse() == reverse_words(s),
{
    let ws = split_words(s);
    lemma_reverse_join(reverse_each(ws));
    assert(reverse_each(reverse_each(ws).reverse()) =~~= ws.reverse());
}

/// Splits the suffix of `s` starting at `pos` into its words.
fn split_suffix(s: &Vec<u8>, pos: usize) -> (words: Vec<Vec<u8>>)
    requires
        pos <= s@.len(),
    ensures
        words@.len() == split_words(s@.subrange(pos as int, s@.len() as int)).len(),
        forall|k: int|
            0 <= k < words@.len() ==> #[trigger] words@[k]@ == split_words(
                s@.subrange(pos as int, s@.len() as int),
            )[k],
    decreases s@.len() - pos,
{
    let ghost suffix = s@.subrange(pos as int, s@.len() as int);
    if pos == s.len() {
        let mut words: Vec<Vec<u8>> = Vec::new();
        words.push(Vec::new());
        proof {
            assert(suffix =~= Seq::<u8>::empty());
            assert(words@[0]@ =~= Seq::<u8>::empty());
        }
        words
    } else {
        let mut rest = split_suffix(s, pos + 1);
        let ghost rest_words = split_words(s@.subrange(pos as int + 1, s@.len() as int));
        proof {
            assert(suffix.drop_first() =~= s@.subrange(pos as int + 1, s@.len() as int));
            assert(suffix[0] == s@[pos as int]);
            lemma_split_words_len(suffix.drop_first());
        }
        let c = s[pos];
        if c == ASCII_SPACE {
            rest.insert(0, Vec::new());
            proof {
                assert(rest@[0]@ =~= Seq::<u8>::empty());
                assert(split_words(suffix) == seq![Seq::<u8>::empty()] + rest_words);
                assert forall|k: int| 0 <= k < rest@.len() implies #[trigger] rest@[k]@
                    == split_words(suffix)[k] by {
                    if k > 0 {
                        assert((seq![Seq::<u8>::empty()] + rest_words)[k] == rest_words[k - 1]);
                    }
                }
            }
            rest
        } else {
            let mut first = rest.remove(0);
            first.insert(0, c);
            let ghost first_view = first@;
            rest.insert(0, first);
            proof {
                assert(split_words(suffix) == seq![seq![c] + rest_words[0]]
                    + rest_words.drop_first());
                assert(first_view =~= seq![c] + rest_words[0]);
                assert forall|k: int| 0 <= k < rest@.len() implies #[trigger] rest@[k]@
                    == split_words(suffix)[k] by {
                    if k > 0 {
                        assert((seq![seq![c] + rest_words[0]] + rest_words.drop_first())[k]
                            == rest_words.drop_first()[k - 1]);
                    }
                }
            }
            rest
        }
    }
}

/// Builds the word-reversed sentence: the words of `s`, last first,
/// joined with single spaces.
fn reversed_words(s: &Vec<u8>) -> (out: Vec<u8>)
    ensures
        out@ == reverse_words(s@),
{
    let words = split_suffix(s, 0);
    let ghost ws = split_words(s@);
    proof {
        assert(s@.subrange(0, s@.len() as int) =~= s@);
    }
    let ghost rev = ws.reverse();
    let n = words.len();
    let mut out: Vec<u8> = Vec::new();
    let mut k: usize = 0;
    while k < n
        invariant
            n == words@.len(),
            n == ws.len(),
            rev == ws.reverse(),
            forall|m: int| 0 <= m < n ==> #[trigger] words@[m]@ == ws[m],
            k <= n,
            out@ == join_words(rev.subrange(0, k as int)),
        decreases n - k,
    {
        proof {
            assert(rev.subrange(0, k as int + 1) =~= rev.subrange(0, k as int).push(rev[k as int]));
            lemma_join_push(rev.subrange(0, k as int), rev[k as int]);
            assert(rev[k as int] == ws[n - 1 - k as int]);
        }
        if k > 0 {
            out.push(ASCII_SPACE);
        }
        let word = &words[n - 1 - k];
        let ghost base = out@;
        let mut j: usize = 0;
        while j < word.len()
            invariant
                j <= word@.len(),
                out@ == base + word@.subrange(0, j as int),
            decreases word@.len() - j,
        {
            proof {
                assert(word@.subrange(0, j as int + 1) =~= word@.subrange(0, j as int).push(
                    word@[j as int],
                ));
            }
            out.push(word[j]);
            j = j + 1;
        }
        proof {
            assert(word@.subrange(0, word@.len() as int) =~= word@);
            assert(out@ == base + word@);
        }
        k = k + 1;
    }
    proof {
        assert(rev.subrange(0, n as int) =~= rev);
    }
    out
}

/// The summed length of the words of `ws`.
pub open spec fn total_len(ws: Seq<Seq<u8>>) -> int
    decreases ws.len(),
{
    if ws.len() == 0 {
        0
    } else {
        ws[0].len() + total_len(ws.drop_first())
    }
}

/// Joining `n` words costs their summed length plus `n - 1` spaces.
proof fn lemma_join_len(ws: Seq<Seq<u8>>)
    requires
        ws.len() >= 1,
    ensures
        join_words(ws).len() == total_len(ws) + ws.len() - 1,
    decreases ws.len(),
{
    if ws.len() == 1 {
        assert(ws.drop_first().len() == 0);
        assert(total_len(ws.drop_first()) == 0);
    } else {
        lemma_join_len(ws.drop_first());
        assert(join_words(ws) == ws[0] + seq![ASCII_SPACE] + join_words(ws.drop_first()));
    }
}

/// Splitting accounts for every byte: the words' summed length plus
/// one separator for each space equals the sentence's length.
proof fn lemma_split_total(s: Seq<u8>)
    ensures
        total_len(split_words(s)) + split_words(s).len() - 1 == s.len(),
    decreases s.len(),
{
    if s.len() == 0 {
        assert(split_words(s).drop_first().len() == 0);
        assert(total_len(split_words(s).drop_first()) == 0);
    } else {
        lemma_split_total(s.drop_first());
        let rest = split_words(s.drop_first());
        lemma_split_words_len(s.drop_first());
        let sw = split_words(s);
        if s[0] == ASCII_SPACE {
            assert(sw == seq![Seq::<u8>::empty()] + rest);
            assert(sw[0] == Seq::<u8>::empty());
            assert(sw.drop_first() =~= rest);
            assert(total_len(sw) == sw[0].len() + total_len(sw.drop_first()));
        } else {
            assert(sw == seq![seq![s[0]] + rest[0]] + rest.drop_first());
            assert(sw[0] == seq![s[0]] + rest[0]);
            assert(sw.drop_first() =~= rest.drop_first());
            assert(total_len(sw) == sw[0].len() + total_len(sw.drop_first()));
            assert(total_len(rest) == rest[0].len() + total_len(rest.drop_first()));
        }
    }
}

/// Words may be summed in any order: reversal keeps the total length.
proof fn lemma_total_reverse(ws: Seq<Seq<u8>>)
    ensures
        total_len(ws.reverse()) == total_len(ws),
    decreases ws.len(),
{
    if ws.len() > 0 {
        lemma_total_reverse(ws.drop_first());
        assert(ws.reverse() =~= ws.drop_first().reverse().push(ws[0]));
        lemma_total_push(ws.drop_first().reverse(), ws[0]);
    }
}

/// Appending a word adds its length to the total.
proof fn lemma_total_push(ws: Seq<Seq<u8>>, w: Seq<u8>)
    ensures
        total_len(ws.push(w)) == total_len(ws) + w.len(),
    decreases ws.len(),
{
    if ws.len() == 0 {
        assert(ws.push(w)[0] == w);
        assert(ws.push(w).drop_first() =~= Seq::<Seq<u8>>::empty());
        assert(total_len(Seq::<Seq<u8>>::empty()) == 0);
    } else {
        assert(ws.push(w)[0] == ws[0]);
        assert(ws.push(w).drop_first() =~= ws.drop_first().push(w));
        lemma_total_push(ws.drop_first(), w);
    }
}

/// Reversing the word order keeps the length of the sentence: the same
/// words and the same number of spaces come back.
pub proof fn lemma_reverse_words_len(s: Seq<u8>)
    ensures
        reverse_words(s).len() == s.len(),
{
    let ws = split_words(s);
    lemma_split_words_len(s);
    lemma_split_total(s);
    lemma_total_reverse(ws);
    lemma_join_len(ws.reverse());
}

/// Reverses the order of the words of `sentance`, collecting the words
/// in buffers and rebuilding the sentence from the last word backwards.
pub fn string_swap(sentance: &mut Vec<u8>)
    ensures
        final(sentance)@ == reverse_words(old(sentance)@),
{
    let out = reversed_words(sentance);
    *sentance = out;
}

/// Reverses `s[from..to]` in place, swapping bytes from both ends.
fn reverse_range(s: &mut Vec<u8>, from: usize, to: usize)
    requires
        from <= to,
        to <= old(s)@.len(),
    ensures
        final(s)@.len() == old(s)@.len(),
        forall|m: int| 0 <= m < old(s)@.len() && !(from <= m < to) ==> final(s)@[m] == old(s)@[m],
        forall|m: int| from <= m < to ==> final(s)@[m] == old(s)@[from + to - 1 - m],
{
    let mut l = from;
    let mut r = to;
    while r - l > 1
        invariant
            from <= l,
            l <= r,
            r <= to,
            to <= s@.len(),
            s@.len() == old(s)@.len(),
            l - from == to - r,
            forall|m: int| 0 <= m < s@.len() && !(from <= m < to) ==> s@[m] == old(s)@[m],
            forall|m: int| from <= m < l ==> s@[m] == old(s)@[from + to - 1 - m],
            forall|m: int| r <= m < to ==> s@[m] == old(s)@[from + to - 1 - m],
            forall|m: int| l <= m < r ==> s@[m] == old(s)@[m],
        decreases r - l,
    {
        let x = s[l];
        let y = s[r - 1];
        *vstd::std_specs::vec::vec_index_mut(s, l) = y;
        *vstd::std_specs::vec::vec_index_mut(s, r - 1) = x;
        l = l + 1;
        r = r - 1;
    }
}

/// One reversed word glued onto a processed prefix: when the buffer
/// holds the word-reversed prefix, an untouched separating space, and
/// the bytes of the current (space-free) word reversed, it holds the
/// word-reversed form of the whole prefix.
proof fn lemma_word_glue(s0: Seq<u8>, start: int, i: int, buf: Seq<u8>)
    requires
        0 <= start <= i <= s0.len(),
        i <= buf.len(),
        start == 0 || (s0[start - 1] == ASCII_SPACE && buf[start - 1] == ASCII_SPACE
            && buf.subrange(0, start - 1) == reverse_within_words(s0.subrange(0, start - 1))),
        forall|m: int| start <= m < i ==> s0[m] != ASCII_SPACE,
        forall|m: int| start <= m < i ==> buf[m] == s0[start + i - 1 - m],
    ensures
        buf.subrange(0, i) == reverse_within_words(s0.subrange(0, i)),
{
    let w = s0.subrange(start, i);
    lemma_split_single_word(w);
    assert(reverse_each(seq![w]) =~= seq![w.reverse()]);
    assert(join_words(seq![w.reverse()]) == w.reverse());
    if start == 0 {
        assert(s0.subrange(0, i) =~= w);
        assert(buf.subrange(0, i) =~= w.reverse());
    } else {
        let p = s0.subrange(0, start - 1);
        assert(s0.subrange(0, i) =~= p + seq![ASCII_SPACE] + w);
        lemma_split_concat(p, w);
        lemma_split_words_len(p);
        let sp = split_words(p);
        assert(split_words(s0.subrange(0, i)) == sp + seq![w]);
        assert(reverse_each(sp + seq![w]) =~= reverse_each(sp) + seq![w.reverse()]);
        lemma_join_concat(reverse_each(sp), seq![w.reverse()]);
        assert(reverse_within_words(s0.subrange(0, i)) == reverse_within_words(p) + seq![
            ASCII_SPACE,
        ] + w.reverse());
        assert(buf.subrange(0, i) =~= buf.subrange(0, start - 1) + seq![ASCII_SPACE]
            + w.reverse());
    }
}

/// Reverses the order of the words of `sentance` within the buffer
/// itself, in two swapping passes and constant extra space: first every
/// word is reversed in place, then the whole buffer is; it agrees with
/// [`string_swap`] on every input.
pub fn inplace_string_swap(sentance: &mut Vec<u8>)
    ensures
        final(sentance)@ == reverse_words(old(sentance)@),
{
    let ghost s0 = sentance@;
    let n = sentance.len();
    let mut start: usize = 0;
    let mut i: usize = 0;
    while i < n
        invariant
            s0 == old(sentance)@,
            n == s0.len(),
            sentance@.len() == n,
            start <= i,
            i <= n,
            forall|m: int| start <= m < n ==> sentance@[m] == s0[m],
            forall|m: int| start <= m < i ==> s0[m] != ASCII_SPACE,
            start == 0 || (s0[start - 1] == ASCII_SPACE && sentance@[start - 1] == ASCII_SPACE
                && sentance@.subrange(0, start as int - 1) == reverse_within_words(
                s0.subrange(0, start as int - 1),
            )),
        decreases n - i,
    {
        if sentance[i] == ASCII_SPACE {
            let ghost before = sentance@;
            reverse_range(sentance, start, i);
            proof {
                if start > 0 {
                    assert(sentance@.subrange(0, start as int - 1) =~= before.subrange(
                        0,
                        start as int - 1,
                    ));
                }
                assert forall|m: int| start <= m < i implies sentance@[m] == s0[start + i - 1
                    - m] by {
                    assert(before[start + i - 1 - m] == s0[start + i - 1 - m]);
                }
                lemma_word_glue(s0, start as int, i as int, sentance@);
                assert(sentance@[i as int] == s0[i as int]);
            }
            start = i + 1;
        }
        i = i + 1;
    }
    let ghost before = sentance@;
    reverse_range(sentance, start, n);
    proof {
        if start > 0 {
            assert(sentance@.subrange(0, start as int - 1) =~= before.subrange(
                0,
                start as int - 1,
            ));
        }
        assert forall|m: int| start <= m < n implies sentance@[m] == s0[start + n - 1 - m] by {
            assert(before[start + n - 1 - m] == s0[start + n - 1 - m]);
        }
        lemma_word_glue(s0, start as int, n as int, sentance@);
        assert(sentance@ =~= sentance@.subrange(0, n as int));
        assert(s0 =~= s0.subrange(0, n as int));
        assert(sentance@ == reverse_within_words(s0));
    }
    let ghost within = sentance@;
    reverse_range(sentance, 0, n);
    proof {
        assert(sentance@ =~= within.reverse());
        lemma_reverse_within_then_whole(s0);
    }
}

} // verus!
