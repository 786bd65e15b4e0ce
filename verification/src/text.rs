//! Words and whitespace: the vocabulary in which chunking is specified.

use vstd::prelude::*;

verus! {

/// The whitespace characters: those that Unicode marks `White_Space`.
pub open spec fn is_whitespace(c: char) -> bool {
    let u = c as u32;
    ||| 0x09 <= u <= 0x0D
    ||| u == 0x20
    ||| u == 0x85
    ||| u == 0xA0
    ||| u == 0x1680
    ||| 0x2000 <= u <= 0x200A
    ||| u == 0x2028
    ||| u == 0x2029
    ||| u == 0x202F
    ||| u == 0x205F
    ||| u == 0x3000
}

/// A word is a non-empty run of characters none of which is whitespace.
pub open spec fn is_word(w: Seq<char>) -> bool {
    &&& w.len() > 0
    &&& forall|i: int| 0 <= i < w.len() ==> !is_whitespace(#[trigger] w[i])
}

/// Every element of `ws` is a word.
pub open spec fn are_words(ws: Seq<Seq<char>>) -> bool {
    forall|i: int| 0 <= i < ws.len() ==> is_word(#[trigger] ws[i])
}

/// The words of `ws` with a single space between each two.
pub open spec fn join(ws: Seq<Seq<char>>) -> Seq<char>
    decreases ws.len(),
{
    if ws.len() == 0 {
        Seq::empty()
    } else if ws.len() == 1 {
        ws[0]
    } else {
        join(ws.drop_last()) + seq![' '] + ws.last()
    }
}

/// A text is trimmed where it is non-empty and neither starts nor ends with
/// whitespace.
pub open spec fn is_trimmed(p: Seq<char>) -> bool {
    &&& p.len() > 0
    &&& !is_whitespace(p[0])
    &&& !is_whitespace(p.last())
}

/// The length of the longest prefix of `s` that holds no whitespace.
pub open spec fn leading_word_len(s: Seq<char>) -> nat
    decreases s.len(),
{
    if s.len() == 0 || is_whitespace(s[0]) {
        0
    } else {
        1 + leading_word_len(s.drop_first())
    }
}

/// The words of `s`: its maximal runs of non-whitespace characters, in order.
pub open spec fn words(s: Seq<char>) -> Seq<Seq<char>>
    decreases s.len(),
    via words_decreases
{
    if s.len() == 0 {
        Seq::empty()
    } else if is_whitespace(s[0]) {
        words(s.drop_first())
    } else {
        let n = leading_word_len(s) as int;
        seq![s.take(n)] + words(s.skip(n))
    }
}

#[via_fn]
proof fn words_decreases(s: Seq<char>) {
    if s.len() > 0 && !is_whitespace(s[0]) {
        lemma_leading_word_len_bounds(s);
    }
}

/// The leading word ends inside `s`, and is non-empty where `s` starts with a
/// non-whitespace character.
pub proof fn lemma_leading_word_len_bounds(s: Seq<char>)
    ensures
        leading_word_len(s) <= s.len(),
        s.len() > 0 && !is_whitespace(s[0]) ==> leading_word_len(s) >= 1,
    decreases s.len(),
{
    if s.len() > 0 && !is_whitespace(s[0]) {
        lemma_leading_word_len_bounds(s.drop_first());
    }
}

/// Where a whitespace-free run `w` is followed by nothing or by whitespace,
/// the leading word of `w + r` is `w`.
pub proof fn lemma_leading_word_len_of_run(w: Seq<char>, r: Seq<char>)
    requires
        forall|i: int| 0 <= i < w.len() ==> !is_whitespace(#[trigger] w[i]),
        r.len() == 0 || is_whitespace(r[0]),
    ensures
        leading_word_len(w + r) == w.len(),
    decreases w.len(),
{
    if w.len() == 0 {
        assert(w + r == r);
    } else {
        assert((w + r)[0] == w[0]);
        assert((w + r).drop_first() == w.drop_first() + r);
        assert forall|i: int| 0 <= i < w.drop_first().len() implies !is_whitespace(
            #[trigger] w.drop_first()[i],
        ) by {
            assert(w.drop_first()[i] == w[i + 1]);
        }
        lemma_leading_word_len_of_run(w.drop_first(), r);
    }
}

/// A word followed by nothing or by whitespace is the first word of the text,
/// and the other words are those of what follows it.
pub proof fn lemma_words_after_word(w: Seq<char>, r: Seq<char>)
    requires
        is_word(w),
        r.len() == 0 || is_whitespace(r[0]),
    ensures
        words(w + r) == seq![w] + words(r),
{
    lemma_leading_word_len_of_run(w, r);
    assert((w + r)[0] == w[0]);
    assert((w + r).take(w.len() as int) == w);
    assert((w + r).skip(w.len() as int) == r);
}

/// A word is the one word of itself.
pub proof fn lemma_words_of_word(w: Seq<char>)
    requires
        is_word(w),
    ensures
        words(w) == seq![w],
{
    lemma_words_after_word(w, Seq::empty());
    assert(w + Seq::<char>::empty() == w);
}

/// Nothing or whitespace behind `a` leaves the leading word of `a` as it is.
pub proof fn lemma_leading_word_len_before_whitespace(a: Seq<char>, x: Seq<char>)
    requires
        x.len() == 0 || is_whitespace(x[0]),
    ensures
        leading_word_len(a + x) == leading_word_len(a),
    decreases a.len(),
{
    if a.len() == 0 {
        assert(a + x == x);
    } else {
        assert((a + x)[0] == a[0]);
        if !is_whitespace(a[0]) {
            assert((a + x).drop_first() == a.drop_first() + x);
            lemma_leading_word_len_before_whitespace(a.drop_first(), x);
        }
    }
}

/// Where `x` is empty or starts with whitespace, the words of `a + x` are
/// those of `a` followed by those of `x`.
pub proof fn lemma_words_before_whitespace(a: Seq<char>, x: Seq<char>)
    requires
        x.len() == 0 || is_whitespace(x[0]),
    ensures
        words(a + x) == words(a) + words(x),
    decreases a.len(),
{
    if a.len() == 0 {
        assert(a + x == x);
        assert(words(a) + words(x) == words(x));
    } else {
        assert((a + x)[0] == a[0]);
        if is_whitespace(a[0]) {
            assert((a + x).drop_first() == a.drop_first() + x);
            lemma_words_before_whitespace(a.drop_first(), x);
        } else {
            let n = leading_word_len(a) as int;
            lemma_leading_word_len_bounds(a);
            lemma_leading_word_len_before_whitespace(a, x);
            assert((a + x).take(n) == a.take(n));
            assert((a + x).skip(n) == a.skip(n) + x);
            lemma_words_before_whitespace(a.skip(n), x);
            assert(seq![a.take(n)] + (words(a.skip(n)) + words(x)) == (seq![a.take(n)] + words(
                a.skip(n),
            )) + words(x));
        }
    }
}

/// No character of the leading word is whitespace.
pub proof fn lemma_leading_word_is_clean(s: Seq<char>)
    ensures
        forall|i: int| 0 <= i < leading_word_len(s) ==> !is_whitespace(#[trigger] s[i]),
    decreases s.len(),
{
    if s.len() > 0 && !is_whitespace(s[0]) {
        lemma_leading_word_len_bounds(s);
        lemma_leading_word_is_clean(s.drop_first());
        assert forall|i: int| 0 <= i < leading_word_len(s) implies !is_whitespace(
            #[trigger] s[i],
        ) by {
            if i > 0 {
                assert(s[i] == s.drop_first()[i - 1]);
            }
        }
    }
}

/// Each of the words of a text is a word.
pub proof fn lemma_words_are_words(s: Seq<char>)
    ensures
        are_words(words(s)),
    decreases s.len(),
{
    if s.len() == 0 {
    } else if is_whitespace(s[0]) {
        lemma_words_are_words(s.drop_first());
    } else {
        let n = leading_word_len(s) as int;
        lemma_leading_word_len_bounds(s);
        lemma_leading_word_is_clean(s);
        lemma_words_are_words(s.skip(n));
        assert(is_word(s.take(n)));
        assert forall|i: int| 0 <= i < words(s).len() implies is_word(#[trigger] words(s)[i]) by {
            if i > 0 {
                assert(words(s)[i] == words(s.skip(n))[i - 1]);
            }
        }
    }
}

/// A text is blank where it is empty or holds whitespace only.
pub open spec fn is_blank(s: Seq<char>) -> bool {
    forall|i: int| 0 <= i < s.len() ==> is_whitespace(#[trigger] s[i])
}

/// A text has no words exactly where it is blank.
pub proof fn lemma_no_words_iff_blank(s: Seq<char>)
    ensures
        words(s).len() == 0 <==> is_blank(s),
    decreases s.len(),
{
    if s.len() == 0 {
    } else if is_whitespace(s[0]) {
        lemma_no_words_iff_blank(s.drop_first());
        if is_blank(s.drop_first()) {
            assert forall|i: int| 0 <= i < s.len() implies is_whitespace(#[trigger] s[i]) by {
                if i > 0 {
                    assert(s[i] == s.drop_first()[i - 1]);
                }
            }
        }
        if is_blank(s) {
            assert forall|i: int| 0 <= i < s.drop_first().len() implies is_whitespace(
                #[trigger] s.drop_first()[i],
            ) by {
                assert(s.drop_first()[i] == s[i + 1]);
            }
        }
    } else {
        assert(!is_blank(s));
    }
}

/// A text that starts with a non-whitespace character has a first word, whose
/// length is that of the leading word.
pub proof fn lemma_first_word(s: Seq<char>)
    requires
        s.len() > 0,
        !is_whitespace(s[0]),
    ensures
        words(s).len() >= 1,
        words(s)[0].len() == leading_word_len(s),
{
    lemma_leading_word_len_bounds(s);
}

/// Joining fewer of the words gives no longer a text.
pub proof fn lemma_join_len_monotone(ws: Seq<Seq<char>>, k: int)
    requires
        0 <= k <= ws.len(),
    ensures
        join(ws.take(k)).len() <= join(ws).len(),
    decreases ws.len(),
{
    if k == ws.len() {
        assert(ws.take(k) == ws);
    } else if ws.len() == 1 {
    } else {
        assert(ws.take(k) == ws.drop_last().take(k));
        lemma_join_len_monotone(ws.drop_last(), k);
    }
}

/// Two or more words joined are not one word: a space stands between them.
pub proof fn lemma_join_is_no_word(ws: Seq<Seq<char>>)
    requires
        ws.len() >= 2,
    ensures
        !is_word(join(ws)),
{
    let front = join(ws.drop_last());
    assert(join(ws)[front.len() as int] == ' ');
    assert(is_whitespace(' '));
}

/// Tells whether `c` is a whitespace character.
pub fn char_is_whitespace(c: char) -> (b: bool)
    ensures
        b == is_whitespace(c),
{
    let u: u32 = c as u32;
    (0x09 <= u && u <= 0x0D) || u == 0x20 || u == 0x85 || u == 0xA0 || u == 0x1680 || (0x2000 <= u
        && u <= 0x200A) || u == 0x2028 || u == 0x2029 || u == 0x202F || u == 0x205F || u == 0x3000
}

/// Splits `text` into its words.
pub fn split_words(text: &str) -> (ws: Vec<String>)
    ensures
        ws.deep_view() == words(text@),
{
    let mut ws: Vec<String> = Vec::new();
    let mut cur = String::new();
    proof {
        assert(cur@ + text@.skip(0) == text@);
        assert(ws.deep_view() + words(text@) == words(text@));
    }
    for c in it: text.chars()
        invariant
            it.seq() == text@,
            forall|i: int| 0 <= i < cur@.len() ==> !is_whitespace(#[trigger] cur@[i]),
            words(text@) == ws.deep_view() + words(cur@ + text@.skip(it.index())),
    {
        let ghost i = it.index();
        let ghost rest = text@.skip(i);
        let ghost done = ws.deep_view();
        assert(rest[0] == c);
        assert(rest.drop_first() == text@.skip(i + 1));
        if char_is_whitespace(c) {
            if cur.as_str().is_empty() {
                assert(cur@ + rest == rest);
                assert(cur@ + text@.skip(i + 1) == text@.skip(i + 1));
            } else {
                proof {
                    lemma_words_after_word(cur@, rest);
                }
                ws.push(cur);
                assert(ws.deep_view() == done.push(cur@));
                cur = String::new();
                assert(cur@ + text@.skip(i + 1) == text@.skip(i + 1));
            }
        } else {
            let ghost before = cur@;
            cur.push(c);
            assert(cur@ + text@.skip(i + 1) == before + rest);
        }
    }
    if !cur.as_str().is_empty() {
        let ghost done = ws.deep_view();
        proof {
            assert(text@.skip(text@.len() as int) == Seq::<char>::empty());
            lemma_words_after_word(cur@, Seq::empty());
            assert(cur@ + Seq::<char>::empty() == cur@);
        }
        ws.push(cur);
        assert(ws.deep_view() == done.push(cur@));
    } else {
        assert(cur@ + text@.skip(text@.len() as int) == Seq::<char>::empty());
    }
    ws
}

} // verus!
