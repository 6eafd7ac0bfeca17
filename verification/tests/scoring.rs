use ferret::similarity::{FileSimilarity, LoadedFile, Ratio};

fn bytes(s: &str) -> Vec<u8> {
    s.as_bytes().to_vec()
}

/// Thirty distinct three-letter words.
fn thirty_words() -> Vec<String> {
    let mut words = Vec::new();
    for a in ["b", "c", "d", "f", "g", "h"] {
        for b in ["ar", "en", "in", "on", "ul"] {
            words.push(format!("{}{}", a, b));
        }
    }
    words
}

#[test]
fn shingle_size_follows_content_length() {
    let sim = FileSimilarity::new();
    assert_eq!(sim.determine_shingle_size(0), 2);
    assert_eq!(sim.determine_shingle_size(99), 2);
    assert_eq!(sim.determine_shingle_size(150), 3);
    assert_eq!(sim.determine_shingle_size(500), 10);
    assert_eq!(sim.determine_shingle_size(100000), 10);
}

#[test]
fn short_content_yields_no_shingles() {
    let sim = FileSimilarity::new();
    // One word, shingle length two: no window fits.
    assert_eq!(sim.shingle_file(&bytes("word")).len(), 0);
}

#[test]
fn shingles_are_distinct_word_windows() {
    let sim = FileSimilarity::new();
    let shingles = sim.shingle_file(&bytes("a b a b a"));
    // Windows: "a b", "b a", "a b", "b a" -- two distinct.
    assert_eq!(shingles, vec![bytes("a b"), bytes("b a")]);
}

#[test]
fn jaccard_of_a_set_with_itself_is_one() {
    let sim = FileSimilarity::new();
    let s = vec![bytes("a b"), bytes("b c"), bytes("c d")];
    let r = sim.shingle_similarity(&s, &s);
    assert_eq!(r.num, 3);
    assert_eq!(r.den, 3);
}

#[test]
fn jaccard_against_empty_is_zero() {
    let sim = FileSimilarity::new();
    let s = vec![bytes("a b")];
    let empty: Vec<Vec<u8>> = Vec::new();
    assert_eq!(sim.shingle_similarity(&s, &empty), Ratio { num: 0, den: 1 });
    assert_eq!(sim.shingle_similarity(&empty, &s), Ratio { num: 0, den: 1 });
}

#[test]
fn jaccard_counts_intersection_over_union() {
    let sim = FileSimilarity::new();
    let s1 = vec![bytes("a b"), bytes("b c"), bytes("c d"), bytes("d e")];
    let s2 = vec![bytes("b c"), bytes("c d"), bytes("x y")];
    let r = sim.shingle_similarity(&s1, &s2);
    assert_eq!(r.num, 2);
    assert_eq!(r.den, 5);
    assert!(r.num <= r.den);
}

#[test]
fn alignment_is_symmetric() {
    let sim = FileSimilarity::new();
    let a = bytes("the quick brown fox jumps over the lazy dog");
    let b = bytes("the quick brown cat naps under the lazy dog");
    let ab = sim.smith_waterman_rolling(&a, &b);
    let ba = sim.smith_waterman_rolling(&b, &a);
    assert_eq!(ab.num, ba.num);
    assert_eq!(ab.den, ba.den);
}

#[test]
fn identical_content_scores_exactly_one() {
    let a = bytes("identical content here, word for word");
    let sim = FileSimilarity::new();
    let r = sim.smith_waterman_rolling(&a, &a);
    assert!(r.num > 0);
    assert_eq!(r.num, r.den);
}

#[test]
fn near_duplicates_pass_the_prefilter_and_score_high() {
    let words = thirty_words();
    let a = words.join(" ");
    let mut with_insert = words.clone();
    with_insert.insert(15, "zzz".to_string());
    let b = with_insert.join(" ");

    let mut sim = FileSimilarity::new();
    let no_dups: Vec<Vec<u8>> = Vec::new();
    sim.calculate_similarity(
        vec![
            LoadedFile { path: bytes("a.txt"), content: bytes(&a) },
            LoadedFile { path: bytes("b.txt"), content: bytes(&b) },
        ],
        &no_dups,
    );
    let scores = sim.get_similar_files();
    // The pair shares most of its shingles, so it is promoted to
    // alignment; one inserted word keeps the score strictly between one
    // half and one.
    assert_eq!(scores.len(), 1);
    let entry = &scores[0];
    assert_eq!(entry.path_a, bytes("a.txt"));
    assert_eq!(entry.path_b, bytes("b.txt"));
    let j = entry.jaccard_prefilter;
    assert!(10 * j.num >= 7 * j.den);
    let s = entry.alignment_score;
    assert!(2 * s.num > s.den);
    assert!(s.num < s.den);
}

#[test]
fn dissimilar_files_are_not_scored() {
    let mut sim = FileSimilarity::new();
    let no_dups: Vec<Vec<u8>> = Vec::new();
    sim.calculate_similarity(
        vec![
            LoadedFile {
                path: bytes("a.txt"),
                content: bytes("alpha beta gamma delta epsilon zeta eta theta"),
            },
            LoadedFile {
                path: bytes("b.txt"),
                content: bytes("one two three four five six seven eight nine"),
            },
        ],
        &no_dups,
    );
    assert_eq!(sim.get_similar_files().len(), 0);
}

#[test]
fn known_duplicates_short_circuit_to_one() {
    let mut sim = FileSimilarity::new();
    let dups = vec![bytes("a.txt"), bytes("b.txt")];
    sim.calculate_similarity(
        vec![
            LoadedFile { path: bytes("a.txt"), content: bytes("same bytes everywhere") },
            LoadedFile { path: bytes("b.txt"), content: bytes("same bytes everywhere") },
        ],
        &dups,
    );
    let scores = sim.get_similar_files();
    assert_eq!(scores.len(), 1);
    assert_eq!(scores[0].alignment_score, Ratio { num: 1, den: 1 });
    assert_eq!(scores[0].jaccard_prefilter, Ratio { num: 1, den: 1 });
}

#[test]
fn oversized_files_are_excluded_from_scoring_but_not_hashing() {
    let big = vec![b'x'; 102401];
    let small = bytes("small shared text body, repeated in the twin file");

    let mut sim = FileSimilarity::new();
    let no_dups: Vec<Vec<u8>> = Vec::new();
    sim.calculate_similarity(
        vec![
            LoadedFile { path: bytes("big1.txt"), content: big.clone() },
            LoadedFile { path: bytes("big2.txt"), content: big.clone() },
            LoadedFile { path: bytes("small1.txt"), content: small.clone() },
            LoadedFile { path: bytes("small2.txt"), content: small.clone() },
        ],
        &no_dups,
    );
    let scores = sim.get_similar_files();
    // Only the small twins are scored; no entry mentions an oversized
    // file.
    assert_eq!(scores.len(), 1);
    assert_eq!(scores[0].path_a, bytes("small1.txt"));
    assert_eq!(scores[0].path_b, bytes("small2.txt"));
    assert_eq!(scores[0].alignment_score.num, scores[0].alignment_score.den);

    // The oversized file still takes part in exact-duplicate hashing.
    let mut hasher = ferret::hashing::FileHasher::new();
    hasher.record_file(bytes("big1.txt"), &big);
    hasher.record_file(bytes("big2.txt"), &big);
    let sets = hasher.get_duplicates();
    assert_eq!(sets.len(), 1);
    assert_eq!(sets[0], vec![bytes("big1.txt"), bytes("big2.txt")]);
}

#[test]
fn relevance_filter_matches_the_size_ceiling() {
    let sim = FileSimilarity::new();
    assert!(sim.is_relevant_size(&vec![b'x'; 102400]));
    assert!(!sim.is_relevant_size(&vec![b'x'; 102401]));
}
