use rag_system::chunker::{chunk_blobs, Chunker, DEFAULT_CHUNK_SIZE};
use rag_system::text::{char_is_whitespace, split_words};

fn blobs(texts: &[&str]) -> Vec<String> {
    texts.iter().map(|t| t.to_string()).collect()
}

const SAMPLE: &str = "In 1965 Gordon Moore observed that the number of components per \
    integrated circuit had doubled every year,\n and projected this rate of growth would \
    continue for at least another decade.\t\tIn 1975 he revised the forecast to doubling every \
    two years. Pneumonoultramicroscopicsilicovolcanoconiosis is a long word; so is \
    supercalifragilisticexpialidocious.   The   end.";

#[test]
fn five_letters_with_chunk_size_five() {
    assert_eq!(chunk_blobs(&blobs(&["a b c d e"]), 5), vec!["a b c", "d e"]);
}

#[test]
fn oversized_word_is_its_own_passage() {
    assert_eq!(chunk_blobs(&blobs(&["abcdefghij"]), 5), vec!["abcdefghij"]);
}

#[test]
fn oversized_word_between_others() {
    assert_eq!(
        chunk_blobs(&blobs(&["aa bbbbbbbbbb cc dd"]), 5),
        vec!["aa", "bbbbbbbbbb", "cc dd"]
    );
}

#[test]
fn passage_may_reach_the_chunk_size_exactly() {
    assert_eq!(chunk_blobs(&blobs(&["ab cd"]), 5), vec!["ab cd"]);
    assert_eq!(chunk_blobs(&blobs(&["ab cd"]), 4), vec!["ab", "cd"]);
    assert_eq!(chunk_blobs(&blobs(&["abcde f"]), 5), vec!["abcde", "f"]);
    assert_eq!(chunk_blobs(&blobs(&["abcde f"]), 7), vec!["abcde f"]);
    assert_eq!(chunk_blobs(&blobs(&["abcde f"]), 6), vec!["abcde", "f"]);
}

#[test]
fn generous_chunk_size_gives_one_passage() {
    assert_eq!(chunk_blobs(&blobs(&["hello world"]), 2000), vec!["hello world"]);
    assert_eq!(
        chunk_blobs(&blobs(&["  hello \n\t world  "]), 2000),
        vec!["hello world"]
    );
}

#[test]
fn blobs_of_one_source_are_one_stream_of_words() {
    assert_eq!(
        chunk_blobs(&blobs(&["hello world", "foo bar"]), 2000),
        vec!["hello world foo bar"]
    );
    assert_eq!(
        chunk_blobs(&blobs(&["a b", "", "   ", "c d e"]), 5),
        vec!["a b c", "d e"]
    );
}

#[test]
fn blank_input_gives_no_passage() {
    assert_eq!(chunk_blobs(&blobs(&[]), 5), Vec::<String>::new());
    assert_eq!(chunk_blobs(&blobs(&[""]), 5), Vec::<String>::new());
    assert_eq!(chunk_blobs(&blobs(&[" \n\t ", ""]), 5), Vec::<String>::new());
}

#[test]
fn chunk_size_zero_and_one_give_one_word_each() {
    assert_eq!(chunk_blobs(&blobs(&["a bc d"]), 0), vec!["a", "bc", "d"]);
    assert_eq!(chunk_blobs(&blobs(&["a bc d"]), 1), vec!["a", "bc", "d"]);
    assert_eq!(chunk_blobs(&blobs(&["a b c"]), 3), vec!["a b", "c"]);
}

#[test]
fn length_is_counted_in_characters() {
    assert_eq!("éé éé".len(), 9);
    assert_eq!(chunk_blobs(&blobs(&["éé éé"]), 5), vec!["éé éé"]);
    assert_eq!(chunk_blobs(&blobs(&["éé éé"]), 4), vec!["éé", "éé"]);
    assert_eq!(chunk_blobs(&blobs(&["東京 大阪 京都"]), 5), vec!["東京 大阪", "京都"]);
}

#[test]
fn huge_chunk_size_does_not_overflow() {
    assert_eq!(
        chunk_blobs(&blobs(&["a b c"]), usize::MAX),
        vec!["a b c"]
    );
    assert_eq!(
        chunk_blobs(&blobs(&["a b c"]), usize::MAX - 1),
        vec!["a b c"]
    );
}

#[test]
fn passages_keep_to_the_chunk_size_unless_a_single_word() {
    for chunk_size in 0..120 {
        for passage in chunk_blobs(&blobs(&[SAMPLE]), chunk_size) {
            let length = passage.chars().count();
            let single_word = !passage.chars().any(char_is_whitespace);
            assert!(
                length <= chunk_size || single_word,
                "{:?} with chunk size {}",
                passage,
                chunk_size
            );
        }
    }
}

#[test]
fn passages_hold_the_words_of_the_input_in_order() {
    let expected = split_words(SAMPLE);
    for chunk_size in 0..120 {
        let mut found: Vec<String> = Vec::new();
        for passage in chunk_blobs(&blobs(&[SAMPLE]), chunk_size) {
            found.extend(split_words(&passage));
        }
        assert_eq!(found, expected, "chunk size {}", chunk_size);
    }
}

#[test]
fn passages_are_trimmed_and_single_spaced() {
    for chunk_size in 0..120 {
        for passage in chunk_blobs(&blobs(&[SAMPLE]), chunk_size) {
            assert!(!passage.is_empty());
            assert_eq!(passage.trim(), passage);
            assert_eq!(split_words(&passage).join(" "), passage);
        }
    }
}

#[test]
fn passages_take_every_word_that_fits() {
    for chunk_size in 0..120 {
        let passages = chunk_blobs(&blobs(&[SAMPLE]), chunk_size);
        for pair in passages.windows(2) {
            let next_word = &split_words(&pair[1])[0];
            assert!(
                pair[0].chars().count() + 1 + next_word.chars().count() > chunk_size,
                "{:?} could hold {:?} with chunk size {}",
                pair[0],
                next_word,
                chunk_size
            );
        }
    }
}

#[test]
fn chunking_twice_gives_the_same_passages() {
    for chunk_size in [0, 1, 5, 17, 40, 2000] {
        let first = chunk_blobs(&blobs(&[SAMPLE, "more text"]), chunk_size);
        let second = chunk_blobs(&blobs(&[SAMPLE, "more text"]), chunk_size);
        assert_eq!(first, second);
    }
}

#[test]
fn default_chunk_size_on_long_text() {
    let word = "lorem";
    let text = vec![word; 1000].join(" ");
    assert_eq!(DEFAULT_CHUNK_SIZE, 2000);
    let passages = chunk_blobs(&blobs(&[&text]), DEFAULT_CHUNK_SIZE);
    // 333 words take 333 * 5 + 332 = 1997 characters; one more would take 2003.
    assert_eq!(passages.len(), 4);
    assert_eq!(passages[0].len(), 1997);
    assert_eq!(passages[1].len(), 1997);
    assert_eq!(passages[2].len(), 1997);
    assert_eq!(passages[3], "lorem");
}

#[test]
fn chunker_starts_empty() {
    let chunker = Chunker::new(7);
    assert_eq!(chunker.chunk_size(), 7);
    assert_eq!(chunker.finish(), Vec::<String>::new());
}

#[test]
fn chunker_push_word_flushes_when_the_word_does_not_fit() {
    let mut chunker = Chunker::new(5);
    chunker.push_word("a");
    chunker.push_word("b");
    chunker.push_word("c");
    chunker.push_word("d");
    chunker.push_word("e");
    assert_eq!(chunker.finish(), vec!["a b c", "d e"]);
}

#[test]
fn chunker_flush_completes_the_pending_passage() {
    let mut chunker = Chunker::new(100);
    chunker.flush();
    chunker.push_word("one");
    chunker.push_word("two");
    chunker.flush();
    chunker.flush();
    chunker.push_word("three");
    assert_eq!(chunker.finish(), vec!["one two", "three"]);
}

#[test]
fn chunker_push_words_takes_them_in_order() {
    let mut chunker = Chunker::new(7);
    chunker.push_words(&blobs(&["ab", "cd", "ef", "gh"]));
    assert_eq!(chunker.finish(), vec!["ab cd", "ef gh"]);
}

#[test]
fn chunker_feed_keeps_the_pending_passage_between_texts() {
    let mut chunker = Chunker::new(11);
    chunker.feed("hello");
    chunker.feed("  world foo ");
    chunker.feed("");
    chunker.feed("bar");
    assert_eq!(chunker.chunk_size(), 11);
    assert_eq!(chunker.finish(), vec!["hello world", "foo bar"]);
}
