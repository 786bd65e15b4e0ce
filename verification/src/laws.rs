//! What holds of every chunking: the passages keep to the limit, are trimmed,
//! and hold the words of the input, each once and in order. Each passage but
//! the last is full, and no other sequence of passages has all of this.

use crate::chunker::{
    chunk_words, could_hold, is_chunking, is_passage, passages_of, words_of_blobs, Packing,
};
use crate::ingest::{
    chunked, ingested_source, lemma_loaded_texts, loaded_texts, IngestErrorView, SourceView,
};
use crate::passage::id_of;
use crate::text::{
    are_words, is_blank, is_trimmed, is_whitespace, is_word, join, leading_word_len,
    lemma_first_word, lemma_join_is_no_word, lemma_join_len_monotone,
    lemma_leading_word_len_before_whitespace, lemma_leading_word_len_of_run,
    lemma_no_words_iff_blank, lemma_words_are_words, lemma_words_before_whitespace,
    lemma_words_of_word, words,
};
use vstd::prelude::*;

verus! {

/// A word is a passage under any limit.
pub proof fn lemma_word_is_passage(w: Seq<char>, limit: nat)
    requires
        is_word(w),
    ensures
        is_passage(w, limit),
        leading_word_len(w) == w.len(),
{
    lemma_words_of_word(w);
    lemma_leading_word_len_of_run(w, Seq::empty());
    assert(w + Seq::<char>::empty() == w);
}

/// Taking a word keeps the state well formed, leaves a passage pending, and
/// adds the word behind those held. It also keeps the state greedy.
pub proof fn lemma_push_word(st: Packing, w: Seq<char>)
    requires
        st.well_formed(),
        is_word(w),
    ensures
        st.push_word(w).well_formed(),
        st.push_word(w).pending.len() > 0,
        st.push_word(w).held_words() == st.held_words().push(w),
        st.greedy() ==> st.push_word(w).greedy(),
{
    let next = st.push_word(w);
    lemma_word_is_passage(w, st.limit);
    lemma_words_of_word(w);
    if st.pending.len() == 0 {
        assert(next.pending == w);
        assert(words(st.pending) == Seq::<Seq<char>>::empty());
        assert(next.held_words() == st.held_words().push(w));
    } else if st.fits(w) {
        let sep = seq![' '];
        let held = words(st.pending);
        assert(is_whitespace(' '));
        assert(next.pending == st.pending + (sep + w));
        assert((sep + w).drop_first() == w);
        lemma_words_before_whitespace(st.pending, sep + w);
        lemma_leading_word_len_before_whitespace(st.pending, sep + w);
        assert(words(next.pending) == held.push(w));
        assert(held.push(w).drop_last() == held);
        assert(join(held.push(w)) == join(held) + sep + w);
        assert(next.pending[0] == st.pending[0]);
        assert(next.pending.last() == w.last());
        assert(next.held_words() == st.held_words().push(w));
    } else {
        assert(next.passages == st.passages.push(st.pending));
        assert(next.passages.drop_last() == st.passages);
        assert(next.passages.last() == st.pending);
        assert(next.held_words() == st.held_words().push(w));
    }
}

/// Taking words keeps the state well formed and adds them behind those held.
/// It also keeps the state greedy.
pub proof fn lemma_push_words(st: Packing, ws: Seq<Seq<char>>)
    requires
        st.well_formed(),
        are_words(ws),
    ensures
        st.push_words(ws).well_formed(),
        st.push_words(ws).held_words() == st.held_words() + ws,
        ws.len() > 0 ==> st.push_words(ws).pending.len() > 0,
        st.push_words(ws).limit == st.limit,
        st.greedy() ==> st.push_words(ws).greedy(),
    decreases ws.len(),
{
    if ws.len() == 0 {
        assert(st.held_words() + ws == st.held_words());
    } else {
        assert(are_words(ws.drop_last())) by {
            assert forall|i: int| 0 <= i < ws.drop_last().len() implies is_word(
                #[trigger] ws.drop_last()[i],
            ) by {
                assert(ws.drop_last()[i] == ws[i]);
            }
        }
        assert(is_word(ws.last()));
        lemma_push_words(st, ws.drop_last());
        lemma_push_word(st.push_words(ws.drop_last()), ws.last());
        assert((st.held_words() + ws.drop_last()).push(ws.last()) == st.held_words() + ws);
    }
}

/// Finishing a well-formed run gives passages under the limit that hold
/// exactly the words held before. Where the run was greedy, none of them
/// could have held the first word of the next.
pub proof fn lemma_finish(st: Packing)
    requires
        st.well_formed(),
    ensures
        forall|i: int| 0 <= i < st.finish().len() ==> is_passage(#[trigger] st.finish()[i], st.limit),
        words_of_blobs(st.finish()) == st.held_words(),
        st.finish().len() == 0 <==> st.passages.len() == 0 && st.pending.len() == 0,
        st.greedy() ==> forall|i: int|
            0 <= i < st.finish().len() - 1 ==> !could_hold(
                #[trigger] st.finish()[i],
                st.finish()[i + 1],
                st.limit,
            ),
{
    if st.pending.len() > 0 {
        assert(st.finish().drop_last() == st.passages);
        assert(st.finish().last() == st.pending);
    } else {
        assert(words(st.pending) == Seq::<Seq<char>>::empty());
        assert(st.held_words() == words_of_blobs(st.passages));
    }
}

/// Packing words gives passages under the limit that hold exactly those
/// words, none of which could have held the first word of the next, and
/// gives no passage only where there is no word.
pub proof fn lemma_chunk_words(ws: Seq<Seq<char>>, limit: nat)
    requires
        are_words(ws),
    ensures
        forall|i: int|
            0 <= i < chunk_words(ws, limit).len() ==> is_passage(
                #[trigger] chunk_words(ws, limit)[i],
                limit,
            ),
        forall|i: int|
            0 <= i < chunk_words(ws, limit).len() - 1 ==> !could_hold(
                #[trigger] chunk_words(ws, limit)[i],
                chunk_words(ws, limit)[i + 1],
                limit,
            ),
        words_of_blobs(chunk_words(ws, limit)) == ws,
        chunk_words(ws, limit).len() == 0 <==> ws.len() == 0,
{
    let start = Packing::new(limit);
    assert(words_of_blobs(start.passages) == Seq::<Seq<char>>::empty());
    assert(words(start.pending) == Seq::<Seq<char>>::empty());
    assert(start.held_words() + ws == ws);
    lemma_push_words(start, ws);
    lemma_finish(start.push_words(ws));
    if ws.len() == 0 {
        assert(start.push_words(ws) == start);
    }
}

/// Each of the words of the blobs is a word.
pub proof fn lemma_words_of_blobs_are_words(blobs: Seq<Seq<char>>)
    ensures
        are_words(words_of_blobs(blobs)),
    decreases blobs.len(),
{
    if blobs.len() > 0 {
        lemma_words_of_blobs_are_words(blobs.drop_last());
        lemma_words_are_words(blobs.last());
    }
}

/// The blobs have no words exactly where each of them is blank.
pub proof fn lemma_no_words_of_blobs_iff_blank(blobs: Seq<Seq<char>>)
    ensures
        words_of_blobs(blobs).len() == 0 <==> forall|i: int|
            0 <= i < blobs.len() ==> is_blank(#[trigger] blobs[i]),
    decreases blobs.len(),
{
    if blobs.len() > 0 {
        lemma_no_words_of_blobs_iff_blank(blobs.drop_last());
        lemma_no_words_iff_blank(blobs.last());
        if forall|i: int| 0 <= i < blobs.len() ==> is_blank(#[trigger] blobs[i]) {
            assert forall|i: int| 0 <= i < blobs.drop_last().len() implies is_blank(
                #[trigger] blobs.drop_last()[i],
            ) by {
                assert(blobs.drop_last()[i] == blobs[i]);
            }
        }
        if words_of_blobs(blobs).len() == 0 {
            assert forall|i: int| 0 <= i < blobs.len() implies is_blank(#[trigger] blobs[i]) by {
                if i < blobs.len() - 1 {
                    assert(blobs.drop_last()[i] == blobs[i]);
                }
            }
        }
    }
}

/// The words of the passages are those of the first, then those of the rest.
pub proof fn lemma_words_of_blobs_front(ps: Seq<Seq<char>>)
    requires
        ps.len() > 0,
    ensures
        words_of_blobs(ps) == words(ps[0]) + words_of_blobs(ps.drop_first()),
    decreases ps.len(),
{
    if ps.len() == 1 {
        assert(ps.drop_last() == Seq::<Seq<char>>::empty());
        assert(ps.drop_first() == Seq::<Seq<char>>::empty());
        assert(words_of_blobs(Seq::<Seq<char>>::empty()) == Seq::<Seq<char>>::empty());
        assert(words_of_blobs(ps) == words_of_blobs(ps.drop_last()) + words(ps.last()));
        assert(words_of_blobs(ps) == words(ps[0]));
        assert(words(ps[0]) + words_of_blobs(ps.drop_first()) == words(ps[0]));
    } else {
        lemma_words_of_blobs_front(ps.drop_last());
        assert(ps.drop_first().drop_last() == ps.drop_last().drop_first());
        assert(ps.drop_last()[0] == ps[0]);
        assert(ps.drop_first().last() == ps.last());
        assert((words(ps[0]) + words_of_blobs(ps.drop_last().drop_first())) + words(ps.last())
            == words(ps[0]) + (words_of_blobs(ps.drop_first().drop_last()) + words(ps.last())));
    }
}

/// What is left of a chunking behind its first passage is a chunking of the
/// words behind those of that passage.
pub proof fn lemma_chunking_rest(ps: Seq<Seq<char>>, ws: Seq<Seq<char>>, limit: nat)
    requires
        is_chunking(ps, ws, limit),
        ps.len() > 0,
    ensures
        words(ps[0]).len() >= 1,
        words(ps[0]).len() <= ws.len(),
        ws.take(words(ps[0]).len() as int) == words(ps[0]),
        is_chunking(ps.drop_first(), ws.skip(words(ps[0]).len() as int), limit),
{
    let rest = ps.drop_first();
    lemma_words_of_blobs_front(ps);
    assert(is_passage(ps[0], limit));
    lemma_first_word(ps[0]);
    assert(ws.take(words(ps[0]).len() as int) == words(ps[0]));
    assert(ws.skip(words(ps[0]).len() as int) == words_of_blobs(rest));
    assert forall|i: int| 0 <= i < rest.len() implies is_passage(#[trigger] rest[i], limit) by {
        assert(rest[i] == ps[i + 1]);
    }
    assert forall|i: int| 0 <= i < rest.len() - 1 implies !could_hold(
        #[trigger] rest[i],
        rest[i + 1],
        limit,
    ) by {
        assert(rest[i] == ps[i + 1]);
        assert(rest[i + 1] == ps[i + 2]);
        assert(!could_hold(ps[i + 1], ps[i + 2], limit));
    }
}

/// The first passage of a chunking holds no more words than that of another
/// chunking of the same words.
pub proof fn lemma_first_passage_no_longer(
    ps: Seq<Seq<char>>,
    qs: Seq<Seq<char>>,
    ws: Seq<Seq<char>>,
    limit: nat,
)
    requires
        is_chunking(ps, ws, limit),
        is_chunking(qs, ws, limit),
        ps.len() > 0,
        qs.len() > 0,
    ensures
        words(qs[0]).len() <= words(ps[0]).len(),
{
    let wp = words(ps[0]);
    let wq = words(qs[0]);
    let a = wp.len() as int;
    lemma_chunking_rest(ps, ws, limit);
    lemma_chunking_rest(qs, ws, limit);
    if a < wq.len() {
        let rest = ps.drop_first();
        assert(words_of_blobs(rest) == ws.skip(a));
        assert(rest.len() > 0);
        lemma_words_of_blobs_front(rest);
        assert(rest[0] == ps[1]);
        assert(is_passage(ps[1], limit));
        lemma_first_word(ps[1]);
        assert(words(ps[1])[0] == ws.skip(a)[0]);
        assert(ws[a] == wq[a]) by {
            assert(ws.take(wq.len() as int)[a] == ws[a]);
        }
        assert(wq.take(a) == wp) by {
            assert(wq.take(a) == ws.take(wq.len() as int).take(a));
            assert(ws.take(wq.len() as int).take(a) == ws.take(a));
        }
        let head = wq.take(a + 1);
        assert(head.drop_last() == wq.take(a));
        assert(head.last() == wq[a]);
        assert(join(head) == join(wp) + seq![' '] + wq[a]);
        lemma_join_len_monotone(wq, a + 1);
        lemma_join_is_no_word(wq);
        assert(is_passage(qs[0], limit));
        assert(!could_hold(ps[0], ps[1], limit));
    }
}

/// Two chunkings of the same words under the same limit are the same.
pub proof fn lemma_chunkings_agree(
    ps: Seq<Seq<char>>,
    qs: Seq<Seq<char>>,
    ws: Seq<Seq<char>>,
    limit: nat,
)
    requires
        is_chunking(ps, ws, limit),
        is_chunking(qs, ws, limit),
    ensures
        ps == qs,
    decreases ps.len(),
{
    if ps.len() == 0 {
        if qs.len() > 0 {
            lemma_chunking_rest(qs, ws, limit);
        }
        assert(ps == qs);
    } else if qs.len() == 0 {
        lemma_chunking_rest(ps, ws, limit);
    } else {
        lemma_chunking_rest(ps, ws, limit);
        lemma_chunking_rest(qs, ws, limit);
        lemma_first_passage_no_longer(ps, qs, ws, limit);
        lemma_first_passage_no_longer(qs, ps, ws, limit);
        assert(words(ps[0]) == words(qs[0]));
        assert(is_passage(ps[0], limit) && is_passage(qs[0], limit));
        assert(ps[0] == qs[0]);
        lemma_chunkings_agree(
            ps.drop_first(),
            qs.drop_first(),
            ws.skip(words(ps[0]).len() as int),
            limit,
        );
        assert(ps == seq![ps[0]] + ps.drop_first());
        assert(qs == seq![qs[0]] + qs.drop_first());
    }
}

/// The passages are the one chunking of the words of the blobs: whatever
/// else is a chunking of them is equal to the passages.
pub proof fn law_passages_are_the_chunking(blobs: Seq<Seq<char>>, limit: nat, ps: Seq<Seq<char>>)
    ensures
        is_chunking(passages_of(blobs, limit), words_of_blobs(blobs), limit),
        is_chunking(ps, words_of_blobs(blobs), limit) ==> ps == passages_of(blobs, limit),
{
    lemma_words_of_blobs_are_words(blobs);
    lemma_chunk_words(words_of_blobs(blobs), limit);
    if is_chunking(ps, words_of_blobs(blobs), limit) {
        lemma_chunkings_agree(ps, passages_of(blobs, limit), words_of_blobs(blobs), limit);
    }
}

/// Every passage has at most `limit` characters, but for a passage that is a
/// single word longer than that.
pub proof fn law_passages_keep_to_limit(blobs: Seq<Seq<char>>, limit: nat)
    ensures
        forall|i: int|
            0 <= i < passages_of(blobs, limit).len() ==> {
                let p = #[trigger] passages_of(blobs, limit)[i];
                p.len() <= limit || is_word(p)
            },
{
    lemma_words_of_blobs_are_words(blobs);
    lemma_chunk_words(words_of_blobs(blobs), limit);
}

/// The words of the passages, taken in order, are the words of the input: none
/// is dropped, repeated or moved.
pub proof fn law_passages_hold_the_words(blobs: Seq<Seq<char>>, limit: nat)
    ensures
        words_of_blobs(passages_of(blobs, limit)) == words_of_blobs(blobs),
{
    lemma_words_of_blobs_are_words(blobs);
    lemma_chunk_words(words_of_blobs(blobs), limit);
}

/// No passage is empty, and none starts or ends with whitespace.
pub proof fn law_passages_are_trimmed(blobs: Seq<Seq<char>>, limit: nat)
    ensures
        forall|i: int|
            0 <= i < passages_of(blobs, limit).len() ==> is_trimmed(
                #[trigger] passages_of(blobs, limit)[i],
            ),
{
    lemma_words_of_blobs_are_words(blobs);
    lemma_chunk_words(words_of_blobs(blobs), limit);
}

/// Every passage is its own words with single spaces between them.
pub proof fn law_passages_are_joined_words(blobs: Seq<Seq<char>>, limit: nat)
    ensures
        forall|i: int|
            0 <= i < passages_of(blobs, limit).len() ==> join(
                words(#[trigger] passages_of(blobs, limit)[i]),
            ) == passages_of(blobs, limit)[i],
{
    lemma_words_of_blobs_are_words(blobs);
    lemma_chunk_words(words_of_blobs(blobs), limit);
}

/// Every passage but the last is full: with a space and the first word of the
/// next passage it would exceed the limit.
pub proof fn law_passages_are_full(blobs: Seq<Seq<char>>, limit: nat)
    ensures
        forall|i: int|
            0 <= i < passages_of(blobs, limit).len() - 1 ==> (#[trigger] passages_of(
                blobs,
                limit,
            )[i]).len() + 1 + leading_word_len(passages_of(blobs, limit)[i + 1]) > limit,
{
    lemma_words_of_blobs_are_words(blobs);
    lemma_chunk_words(words_of_blobs(blobs), limit);
}

/// There is no passage exactly where every blob is empty or holds whitespace
/// only.
pub proof fn law_no_passage_iff_blank(blobs: Seq<Seq<char>>, limit: nat)
    ensures
        passages_of(blobs, limit).len() == 0 <==> forall|i: int|
            0 <= i < blobs.len() ==> is_blank(#[trigger] blobs[i]),
{
    lemma_words_of_blobs_are_words(blobs);
    lemma_chunk_words(words_of_blobs(blobs), limit);
    lemma_no_words_of_blobs_iff_blank(blobs);
}

/// A source fails for want of content exactly where each of its files was
/// loaded and is empty or holds whitespace only.
pub proof fn law_no_content_iff_blank(source: SourceView, limit: nat)
    ensures
        chunked(source, limit) == Err::<Seq<Seq<char>>, IngestErrorView>(
            IngestErrorView::NoContentExtracted { path: source.path },
        ) <==> forall|i: int|
            0 <= i < source.entries.len() ==> match #[trigger] source.entries[i] {
                Ok(text) => is_blank(text),
                Err(_) => false,
            },
{
    lemma_loaded_texts(source.entries);
    match loaded_texts(source.entries) {
        Ok(blobs) => {
            law_no_passage_iff_blank(blobs, limit);
            if passages_of(blobs, limit).len() == 0 {
                assert forall|i: int| 0 <= i < source.entries.len() implies match #[trigger] source.entries[i] {
                    Ok(text) => is_blank(text),
                    Err(_) => false,
                } by {
                    assert(is_blank(blobs[i]));
                }
            } else {
                let i = choose|i: int| 0 <= i < blobs.len() && !is_blank(#[trigger] blobs[i]);
                assert(source.entries[i] == Ok::<Seq<char>, Seq<char>>(blobs[i]));
            }
        },
        Err(message) => {},
    }
}

/// The passages of a source are numbered from zero in their order, each under
/// the label of the source, and the text of each is a passage under the limit.
pub proof fn law_ingested_passages(source: SourceView, limit: nat)
    ensures
        ingested_source(source, limit) matches Ok(passages) ==> {
            &&& passages.len() > 0
            &&& forall|i: int|
                0 <= i < passages.len() ==> (#[trigger] passages[i]).id == id_of(
                    source.label,
                    i as nat,
                ) && is_passage(passages[i].content, limit)
        },
{
    match loaded_texts(source.entries) {
        Ok(blobs) => {
            lemma_words_of_blobs_are_words(blobs);
            lemma_chunk_words(words_of_blobs(blobs), limit);
        },
        Err(message) => {},
    }
}

/// Chunking depends on the text of the blobs and on the chunk size alone: two
/// results for the same text and size are the same passages.
pub proof fn law_chunking_is_deterministic(
    blobs: Vec<String>,
    again: Vec<String>,
    chunk_size: usize,
    first: Vec<String>,
    second: Vec<String>,
)
    requires
        blobs.deep_view() == again.deep_view(),
        first.deep_view() == passages_of(blobs.deep_view(), chunk_size as nat),
        second.deep_view() == passages_of(again.deep_view(), chunk_size as nat),
    ensures
        first.deep_view() == second.deep_view(),
{
}

} // verus!
