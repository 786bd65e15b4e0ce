//! Greedy packing of words into passages of bounded length.

use crate::strings::{chars_of, string_of};
use crate::text::{is_trimmed, is_word, join, leading_word_len, split_words, words};
use vstd::prelude::*;

verus! {

/// The chunk size that is used where none is configured, in characters.
pub const DEFAULT_CHUNK_SIZE: usize = 2000;

/// The state of a packing run: the passages completed so far and the text of
/// the passage under construction, which is empty while no word is pending.
pub struct Packing {
    /// The chunk size, in characters.
    pub limit: nat,
    /// The completed passages, oldest first.
    pub passages: Seq<Seq<char>>,
    /// The pending words, joined by single spaces.
    pub pending: Seq<char>,
}

impl Packing {
    /// The state before any word has been seen.
    pub open spec fn new(limit: nat) -> Packing {
        Packing { limit, passages: Seq::empty(), pending: Seq::empty() }
    }

    /// Whether the pending passage, a separating space and `word` together
    /// stay within the limit.
    pub open spec fn fits(self, word: Seq<char>) -> bool {
        self.pending.len() + 1 + word.len() <= self.limit
    }

    /// Completes the pending passage, if there is one.
    pub open spec fn flush(self) -> Packing {
        if self.pending.len() > 0 {
            Packing {
                limit: self.limit,
                passages: self.passages.push(self.pending),
                pending: Seq::empty(),
            }
        } else {
            self
        }
    }

    /// Takes one word: the pending passage is completed first where the word
    /// does not fit behind it, and the word is then appended in any case.
    pub open spec fn push_word(self, word: Seq<char>) -> Packing {
        let base = if self.pending.len() > 0 && !self.fits(word) {
            self.flush()
        } else {
            self
        };
        Packing {
            limit: base.limit,
            passages: base.passages,
            pending: if base.pending.len() > 0 {
                base.pending + seq![' '] + word
            } else {
                word
            },
        }
    }

    /// Takes the words of `ws`, first to last.
    pub open spec fn push_words(self, ws: Seq<Seq<char>>) -> Packing
        decreases ws.len(),
    {
        if ws.len() == 0 {
            self
        } else {
            self.push_words(ws.drop_last()).push_word(ws.last())
        }
    }

    /// Every passage, the pending one included, is a passage under the limit.
    pub open spec fn well_formed(self) -> bool {
        &&& forall|i: int|
            0 <= i < self.passages.len() ==> is_passage(#[trigger] self.passages[i], self.limit)
        &&& self.pending.len() > 0 ==> is_passage(self.pending, self.limit)
    }

    /// No passage was completed before it had to be: none could have held the
    /// first word of the one behind it, the pending one included.
    pub open spec fn greedy(self) -> bool {
        &&& forall|i: int|
            0 <= i < self.passages.len() - 1 ==> !could_hold(
                #[trigger] self.passages[i],
                self.passages[i + 1],
                self.limit,
            )
        &&& self.passages.len() > 0 ==> self.pending.len() > 0 && !could_hold(
            self.passages.last(),
            self.pending,
            self.limit,
        )
    }

    /// The words of the completed passages, then those of the pending one.
    pub open spec fn held_words(self) -> Seq<Seq<char>> {
        words_of_blobs(self.passages) + words(self.pending)
    }

    /// The passages of the run once the pending one is completed.
    pub open spec fn finish(self) -> Seq<Seq<char>> {
        self.flush().passages
    }
}

/// A passage keeps to the limit where it has at most `limit` characters, or is
/// a single word, which is never split.
pub open spec fn is_bounded(p: Seq<char>, limit: nat) -> bool {
    p.len() <= limit || is_word(p)
}

/// A passage is trimmed, holds its words with single spaces between them, and
/// keeps to the limit.
pub open spec fn is_passage(p: Seq<char>, limit: nat) -> bool {
    &&& is_trimmed(p)
    &&& join(words(p)) == p
    &&& is_bounded(p, limit)
}

/// Whether the passage `p`, a space and the first word of `q` together stay
/// within the limit.
pub open spec fn could_hold(p: Seq<char>, q: Seq<char>, limit: nat) -> bool {
    p.len() + 1 + leading_word_len(q) <= limit
}

/// What it is to chunk the words `ws` under the limit: each of `ps` is a
/// passage, their words in order are `ws`, and each but the last is full,
/// which is to say that it could not hold the first word of the next.
pub open spec fn is_chunking(ps: Seq<Seq<char>>, ws: Seq<Seq<char>>, limit: nat) -> bool {
    &&& forall|i: int| 0 <= i < ps.len() ==> is_passage(#[trigger] ps[i], limit)
    &&& words_of_blobs(ps) == ws
    &&& forall|i: int|
        0 <= i < ps.len() - 1 ==> !could_hold(#[trigger] ps[i], ps[i + 1], limit)
}

/// The passages into which the words `ws` are packed under the given limit.
pub open spec fn chunk_words(ws: Seq<Seq<char>>, limit: nat) -> Seq<Seq<char>> {
    Packing::new(limit).push_words(ws).finish()
}

/// The words of all the blobs, in order.
pub open spec fn words_of_blobs(blobs: Seq<Seq<char>>) -> Seq<Seq<char>>
    decreases blobs.len(),
{
    if blobs.len() == 0 {
        Seq::empty()
    } else {
        words_of_blobs(blobs.drop_last()) + words(blobs.last())
    }
}

/// The passages into which the blobs, taken as one stream of words, are
/// chunked under the given limit.
pub open spec fn passages_of(blobs: Seq<Seq<char>>, limit: nat) -> Seq<Seq<char>> {
    chunk_words(words_of_blobs(blobs), limit)
}

/// Taking `a + b` is taking `a` and then `b`.
pub proof fn lemma_push_words_concat(st: Packing, a: Seq<Seq<char>>, b: Seq<Seq<char>>)
    ensures
        st.push_words(a + b) == st.push_words(a).push_words(b),
    decreases b.len(),
{
    if b.len() == 0 {
        assert(a + b == a);
    } else {
        assert((a + b).drop_last() == a + b.drop_last());
        assert((a + b).last() == b.last());
        lemma_push_words_concat(st, a, b.drop_last());
    }
}

/// An accumulator that packs words into passages as they arrive.
pub struct Chunker {
    chunk_size: usize,
    passages: Vec<String>,
    pending: Vec<char>,
}

impl View for Chunker {
    type V = Packing;

    closed spec fn view(&self) -> Packing {
        Packing {
            limit: self.chunk_size as nat,
            passages: self.passages.deep_view(),
            pending: self.pending@,
        }
    }
}

impl Chunker {
    /// A chunker that has seen no word yet.
    pub fn new(chunk_size: usize) -> (chunker: Chunker)
        ensures
            chunker@ == Packing::new(chunk_size as nat),
    {
        let chunker = Chunker { chunk_size, passages: Vec::new(), pending: Vec::new() };
        assert(chunker.passages.deep_view() == Seq::<Seq<char>>::empty());
        chunker
    }

    /// The chunk size, in characters.
    pub fn chunk_size(&self) -> (n: usize)
        ensures
            n == self@.limit,
    {
        self.chunk_size
    }

    /// Completes the pending passage, if there is one.
    pub fn flush(&mut self)
        ensures
            final(self)@ == old(self)@.flush(),
    {
        if self.pending.len() > 0 {
            let ghost before = self.passages.deep_view();
            let passage = string_of(&self.pending);
            self.passages.push(passage);
            self.pending.clear();
            assert(self.passages.deep_view() == before.push(passage@));
        }
    }

    /// Takes one word. The word is taken as it is given and is not split
    /// again, so it should hold no whitespace.
    pub fn push_word(&mut self, word: &str)
        ensures
            final(self)@ == old(self)@.push_word(word@),
    {
        let mut w = chars_of(word);
        let word_len = w.len();
        let pending_len = self.pending.len();
        if pending_len > 0 && (word_len >= self.chunk_size || pending_len >= self.chunk_size
            - word_len) {
            self.flush();
        }
        if self.pending.len() > 0 {
            self.pending.push(' ');
        }
        self.pending.append(&mut w);
        proof {
            let base = if old(self)@.pending.len() > 0 && !old(self)@.fits(word@) {
                old(self)@.flush()
            } else {
                old(self)@
            };
            assert(base.pending.len() > 0 ==> self.pending@ == base.pending + seq![' '] + word@);
            assert(base.pending.len() == 0 ==> self.pending@ == word@);
        }
    }

    /// Takes the given words, first to last.
    pub fn push_words(&mut self, ws: &Vec<String>)
        ensures
            final(self)@ == old(self)@.push_words(ws.deep_view()),
    {
        let ghost all = ws.deep_view();
        for i in 0..ws.len()
            invariant
                all == ws.deep_view(),
                self@ == old(self)@.push_words(all.take(i as int)),
        {
            self.push_word(ws[i].as_str());
            proof {
                assert(all.take(i + 1).drop_last() == all.take(i as int));
                assert(all.take(i + 1).last() == ws[i as int]@);
            }
        }
        assert(all.take(ws.len() as int) == all);
    }

    /// Takes the words of `text`, in order.
    pub fn feed(&mut self, text: &str)
        ensures
            final(self)@ == old(self)@.push_words(words(text@)),
    {
        let ws = split_words(text);
        self.push_words(&ws);
    }

    /// Completes the pending passage and hands out all the passages.
    pub fn finish(self) -> (passages: Vec<String>)
        ensures
            passages.deep_view() == self@.finish(),
    {
        let mut chunker = self;
        chunker.flush();
        chunker.passages
    }
}

/// Packs the words of the blobs, taken as one stream, into passages.
pub fn chunk_blobs(blobs: &Vec<String>, chunk_size: usize) -> (passages: Vec<String>)
    ensures
        passages.deep_view() == passages_of(blobs.deep_view(), chunk_size as nat),
{
    let ghost all = blobs.deep_view();
    let ghost start = Packing::new(chunk_size as nat);
    let mut chunker = Chunker::new(chunk_size);
    for i in 0..blobs.len()
        invariant
            all == blobs.deep_view(),
            start == Packing::new(chunk_size as nat),
            chunker@ == start.push_words(words_of_blobs(all.take(i as int))),
    {
        chunker.feed(blobs[i].as_str());
        proof {
            assert(all.take(i + 1).drop_last() == all.take(i as int));
            assert(all.take(i + 1).last() == blobs[i as int]@);
            lemma_push_words_concat(start, words_of_blobs(all.take(i as int)), words(blobs[i as int]@));
        }
    }
    assert(all.take(blobs.len() as int) == all);
    chunker.finish()
}

} // verus!
