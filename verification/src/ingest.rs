//! Ingestion: from the loaded text of each source to one flat sequence of
//! labelled passages.

use crate::chunker::{lemma_push_words_concat, passages_of, words_of_blobs, Chunker, Packing};
use crate::passage::{label_passages, labelled, Passage, PassageView};
use crate::text::words;
use vstd::prelude::*;

verus! {

/// Why the ingestion of a source failed.
#[derive(Clone, Debug, PartialEq, Eq)]
pub enum IngestError {
    /// A file of the source could not be read or parsed: the path of the
    /// source and the message of the failure.
    Load { path: String, message: String },
    /// The source gave no passage, as it holds no text but whitespace: the
    /// path of the source.
    NoContentExtracted { path: String },
}

/// What an error holds, as text.
pub enum IngestErrorView {
    /// The path of the source and the message of the failure.
    Load { path: Seq<char>, message: Seq<char> },
    /// The path of the source.
    NoContentExtracted { path: Seq<char> },
}

impl View for IngestError {
    type V = IngestErrorView;

    open spec fn view(&self) -> IngestErrorView {
        match self {
            IngestError::Load { path, message } => IngestErrorView::Load {
                path: path@,
                message: message@,
            },
            IngestError::NoContentExtracted { path } => IngestErrorView::NoContentExtracted {
                path: path@,
            },
        }
    }
}

/// A source as the loader left it: for each file that its path matched, in
/// order, the text of the file or the message of the failure.
#[derive(Clone, Debug, PartialEq, Eq)]
pub struct Source {
    /// The name under which the passages of the source are numbered.
    pub label: String,
    /// The path or pattern that the source was loaded from.
    pub path: String,
    /// The outcome of loading each file.
    pub entries: Vec<Result<String, String>>,
}

/// What a source holds, as text.
pub struct SourceView {
    /// The name under which the passages of the source are numbered.
    pub label: Seq<char>,
    /// The path or pattern that the source was loaded from.
    pub path: Seq<char>,
    /// For each file, its text or the message of the failure.
    pub entries: Seq<Result<Seq<char>, Seq<char>>>,
}

/// What an entry holds, as text.
pub open spec fn entry_view(entry: Result<String, String>) -> Result<Seq<char>, Seq<char>> {
    match entry {
        Ok(text) => Ok(text@),
        Err(message) => Err(message@),
    }
}

impl View for Source {
    type V = SourceView;

    open spec fn view(&self) -> SourceView {
        SourceView {
            label: self.label@,
            path: self.path@,
            entries: self.entries@.map_values(|entry: Result<String, String>| entry_view(entry)),
        }
    }
}

impl DeepView for Source {
    type V = SourceView;

    open spec fn deep_view(&self) -> SourceView {
        self@
    }
}

/// The texts of the entries where every file was loaded, and else the message
/// of the first failure.
pub open spec fn loaded_texts(entries: Seq<Result<Seq<char>, Seq<char>>>) -> Result<
    Seq<Seq<char>>,
    Seq<char>,
>
    decreases entries.len(),
{
    if entries.len() == 0 {
        Ok(Seq::empty())
    } else {
        match loaded_texts(entries.drop_last()) {
            Err(message) => Err(message),
            Ok(texts) => match entries.last() {
                Ok(text) => Ok(texts.push(text)),
                Err(message) => Err(message),
            },
        }
    }
}

/// The passages of a source, or the reason why it has none: the first file
/// that failed to load, or else that its text holds no word.
pub open spec fn chunked(source: SourceView, limit: nat) -> Result<Seq<Seq<char>>, IngestErrorView> {
    match loaded_texts(source.entries) {
        Err(message) => Err(IngestErrorView::Load { path: source.path, message }),
        Ok(blobs) => if passages_of(blobs, limit).len() == 0 {
            Err(IngestErrorView::NoContentExtracted { path: source.path })
        } else {
            Ok(passages_of(blobs, limit))
        },
    }
}

/// The labelled passages of a source, or the reason why it has none.
pub open spec fn ingested_source(source: SourceView, limit: nat) -> Result<
    Seq<PassageView>,
    IngestErrorView,
> {
    match chunked(source, limit) {
        Ok(contents) => Ok(labelled(source.label, contents)),
        Err(error) => Err(error),
    }
}

/// The labelled passages of all the sources, in the order of the sources, or
/// the error of the first source that failed.
pub open spec fn ingested(sources: Seq<SourceView>, limit: nat) -> Result<
    Seq<PassageView>,
    IngestErrorView,
>
    decreases sources.len(),
{
    if sources.len() == 0 {
        Ok(Seq::empty())
    } else {
        match ingested(sources.drop_last(), limit) {
            Err(error) => Err(error),
            Ok(passages) => match ingested_source(sources.last(), limit) {
                Ok(more) => Ok(passages + more),
                Err(error) => Err(error),
            },
        }
    }
}

/// Loading succeeds exactly where every entry is a text, and then gives the
/// texts in order; it fails with the message of the first entry that is none.
pub proof fn lemma_loaded_texts(entries: Seq<Result<Seq<char>, Seq<char>>>)
    ensures
        match loaded_texts(entries) {
            Ok(texts) => {
                &&& texts.len() == entries.len()
                &&& forall|i: int|
                    0 <= i < entries.len() ==> #[trigger] entries[i] == Ok::<Seq<char>, Seq<char>>(
                        texts[i],
                    )
            },
            Err(message) => exists|i: int|
                {
                    &&& 0 <= i < entries.len()
                    &&& #[trigger] entries[i] == Err::<Seq<char>, Seq<char>>(message)
                    &&& forall|j: int| 0 <= j < i ==> (#[trigger] entries[j]) is Ok
                },
        },
    decreases entries.len(),
{
    if entries.len() > 0 {
        let front = entries.drop_last();
        lemma_loaded_texts(front);
        match loaded_texts(front) {
            Ok(texts) => {
                match entries.last() {
                    Ok(text) => {
                        assert forall|i: int| 0 <= i < entries.len() implies #[trigger] entries[i]
                            == Ok::<Seq<char>, Seq<char>>(texts.push(text)[i]) by {
                            if i < front.len() {
                                assert(front[i] == entries[i]);
                            }
                        }
                    },
                    Err(message) => {
                        let i = entries.len() - 1;
                        assert forall|j: int| 0 <= j < i implies (#[trigger] entries[j]) is Ok by {
                            assert(front[j] == entries[j]);
                        }
                        assert(entries[i] == Err::<Seq<char>, Seq<char>>(message));
                    },
                }
            },
            Err(message) => {
                let i = choose|i: int|
                    {
                        &&& 0 <= i < front.len()
                        &&& #[trigger] front[i] == Err::<Seq<char>, Seq<char>>(message)
                        &&& forall|j: int| 0 <= j < i ==> (#[trigger] front[j]) is Ok
                    };
                assert(entries[i] == front[i]);
                assert forall|j: int| 0 <= j < i implies (#[trigger] entries[j]) is Ok by {
                    assert(front[j] == entries[j]);
                }
            },
        }
    }
}

/// A failure among the first sources is the failure of the whole.
pub proof fn lemma_ingest_failure_stays(sources: Seq<SourceView>, limit: nat, n: int)
    requires
        0 <= n <= sources.len(),
        ingested(sources.take(n), limit) is Err,
    ensures
        ingested(sources, limit) == ingested(sources.take(n), limit),
    decreases sources.len() - n,
{
    if n < sources.len() {
        assert(sources.take(n + 1).drop_last() == sources.take(n));
        lemma_ingest_failure_stays(sources, limit, n + 1);
    } else {
        assert(sources.take(n) == sources);
    }
}

/// A failure among the first entries is the failure of the whole.
pub proof fn lemma_failure_stays(entries: Seq<Result<Seq<char>, Seq<char>>>, n: int)
    requires
        0 <= n <= entries.len(),
        loaded_texts(entries.take(n)) is Err,
    ensures
        loaded_texts(entries) == loaded_texts(entries.take(n)),
    decreases entries.len() - n,
{
    if n < entries.len() {
        assert(entries.take(n + 1).drop_last() == entries.take(n));
        lemma_failure_stays(entries, n + 1);
    } else {
        assert(entries.take(n) == entries);
    }
}

/// Chunks the text of a source. The text of its files is taken as one stream
/// of words. A file that failed to load fails the source, and so does text
/// that gives no passage.
pub fn chunk_source(source: &Source, chunk_size: usize) -> (result: Result<
    Vec<String>,
    IngestError,
>)
    ensures
        match result {
            Ok(passages) => chunked(source@, chunk_size as nat) == Ok::<
                Seq<Seq<char>>,
                IngestErrorView,
            >(passages.deep_view()),
            Err(error) => chunked(source@, chunk_size as nat) == Err::<
                Seq<Seq<char>>,
                IngestErrorView,
            >(error@),
        },
{
    let ghost entries = source@.entries;
    let ghost start = Packing::new(chunk_size as nat);
    let ghost mut blobs: Seq<Seq<char>> = Seq::empty();
    let mut chunker = Chunker::new(chunk_size);
    for i in 0..source.entries.len()
        invariant
            entries == source@.entries,
            start == Packing::new(chunk_size as nat),
            loaded_texts(entries.take(i as int)) == Ok::<Seq<Seq<char>>, Seq<char>>(blobs),
            chunker@ == start.push_words(words_of_blobs(blobs)),
    {
        proof {
            assert(entries.take(i + 1).drop_last() == entries.take(i as int));
            assert(entries.take(i + 1).last() == entry_view(source.entries[i as int]));
        }
        match &source.entries[i] {
            Ok(text) => {
                chunker.feed(text.as_str());
                proof {
                    lemma_push_words_concat(start, words_of_blobs(blobs), words(text@));
                    assert(blobs.push(text@).drop_last() == blobs);
                    blobs = blobs.push(text@);
                }
            },
            Err(message) => {
                proof {
                    lemma_failure_stays(entries, i + 1);
                }
                return Err(
                    IngestError::Load { path: source.path.clone(), message: message.clone() },
                );
            },
        }
    }
    assert(entries.take(source.entries.len() as int) == entries);
    let passages = chunker.finish();
    if passages.len() == 0 {
        Err(IngestError::NoContentExtracted { path: source.path.clone() })
    } else {
        Ok(passages)
    }
}

/// Chunks the text of a source and labels the passages.
pub fn ingest_source(source: &Source, chunk_size: usize) -> (result: Result<
    Vec<Passage>,
    IngestError,
>)
    ensures
        match result {
            Ok(passages) => ingested_source(source@, chunk_size as nat) == Ok::<
                Seq<PassageView>,
                IngestErrorView,
            >(passages.deep_view()),
            Err(error) => ingested_source(source@, chunk_size as nat) == Err::<
                Seq<PassageView>,
                IngestErrorView,
            >(error@),
        },
{
    match chunk_source(source, chunk_size) {
        Ok(contents) => Ok(label_passages(source.label.as_str(), contents)),
        Err(error) => Err(error),
    }
}

/// Ingests the sources in order: the labelled passages of all of them in one
/// sequence, or the error of the first source that failed.
pub fn ingest(sources: &Vec<Source>, chunk_size: usize) -> (result: Result<
    Vec<Passage>,
    IngestError,
>)
    ensures
        match result {
            Ok(passages) => ingested(sources.deep_view(), chunk_size as nat) == Ok::<
                Seq<PassageView>,
                IngestErrorView,
            >(passages.deep_view()),
            Err(error) => ingested(sources.deep_view(), chunk_size as nat) == Err::<
                Seq<PassageView>,
                IngestErrorView,
            >(error@),
        },
{
    let ghost all = sources.deep_view();
    let mut passages: Vec<Passage> = Vec::new();
    assert(passages.deep_view() == Seq::<PassageView>::empty());
    for i in 0..sources.len()
        invariant
            all == sources.deep_view(),
            ingested(all.take(i as int), chunk_size as nat) == Ok::<
                Seq<PassageView>,
                IngestErrorView,
            >(passages.deep_view()),
    {
        proof {
            assert(all.take(i + 1).drop_last() == all.take(i as int));
            assert(all.take(i + 1).last() == sources[i as int]@);
        }
        match ingest_source(&sources[i], chunk_size) {
            Ok(mut more) => {
                let ghost before = passages.deep_view();
                let ghost added = more.deep_view();
                passages.append(&mut more);
                assert(passages.deep_view() == before + added);
            },
            Err(error) => {
                proof {
                    lemma_ingest_failure_stays(all, chunk_size as nat, i + 1);
                }
                return Err(error);
            },
        }
    }
    assert(all.take(sources.len() as int) == all);
    Ok(passages)
}

} // verus!
