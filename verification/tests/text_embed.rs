use vexra::config::SimpleEmbedder;
use vexra::text::truncate;

#[test]
fn truncate_keeps_short_text() {
    assert_eq!(truncate("hello", 10), "hello");
    assert_eq!(truncate("hello", 5), "hello");
}

#[test]
fn truncate_cuts_long_text() {
    assert_eq!(truncate("hello world", 8), "hello...");
    assert_eq!(truncate("abcd", 3), "...");
}

#[test]
fn truncate_counts_bytes() {
    // "é" takes two bytes: "héllo" is six bytes long.
    assert_eq!(truncate("héllo", 6), "héllo");
    assert_eq!(truncate("héllo!", 6), "hé...");
}

#[test]
fn ngram_counts_in_one_bucket_count_pieces() {
    let e = SimpleEmbedder::new(1);
    let c = e.ngram_counts("Hello  World");
    assert_eq!(c.words, vec![2]);
    assert_eq!(c.bigrams, vec![11]);
    assert_eq!(c.trigrams, vec![10]);
    let c = e.ngram_counts("a");
    assert_eq!((c.words[0], c.bigrams[0], c.trigrams[0]), (1, 0, 0));
}

#[test]
fn ngram_counts_cover_every_piece() {
    let e = SimpleEmbedder::new(64);
    let c = e.ngram_counts("vector database search");
    assert_eq!(c.words.len(), 64);
    assert_eq!(c.words.iter().sum::<u64>(), 3);
    assert_eq!(c.bigrams.iter().sum::<u64>(), 21);
    assert_eq!(c.trigrams.iter().sum::<u64>(), 20);
}

#[test]
fn ngram_counts_ignore_case() {
    let e = SimpleEmbedder::new(64);
    let a = e.ngram_counts("VECTOR Database");
    let b = e.ngram_counts("vector database");
    assert_eq!(a.words, b.words);
    assert_eq!(a.bigrams, b.bigrams);
    assert_eq!(a.trigrams, b.trigrams);
}

#[test]
fn ngram_counts_are_deterministic_and_hash_pieces() {
    let e = SimpleEmbedder::new(64);
    let a = e.ngram_counts("test text");
    let b = e.ngram_counts("test text");
    assert_eq!(a.words, b.words);
    assert_eq!(a.trigrams, b.trigrams);
    // The two words land where their own hashes put them: a text of one
    // repeated word puts both counts in one place.
    let same = e.ngram_counts("echo echo");
    assert_eq!(same.words.iter().filter(|&&n| n == 2).count(), 1);
    assert_eq!(e.dimension(), 64);
}

#[test]
fn zero_dimension_counts_nothing_in_blank_text() {
    let e = SimpleEmbedder::new(0);
    for text in ["", " ", "\t"] {
        let c = e.ngram_counts(text);
        assert!(c.words.is_empty() && c.bigrams.is_empty() && c.trigrams.is_empty());
    }
}
