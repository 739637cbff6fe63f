use auto_write::text::analyzer::TextAnalysis;

#[test]
fn preserves_structural_counts() {
    let analysis = TextAnalysis::parse("One, two.\n\nA longer paragraph!");
    assert_eq!(analysis.characters, 30);
    assert_eq!(analysis.words, 5);
    assert_eq!(analysis.sentences, 2);
    assert_eq!(analysis.paragraphs, 2);
    assert_eq!(analysis.punctuation, 3);
}

#[test]
fn empty_text_has_nothing() {
    let analysis = TextAnalysis::parse("");
    assert_eq!(analysis.characters, 0);
    assert_eq!(analysis.words, 0);
    assert_eq!(analysis.sentences, 0);
    assert_eq!(analysis.paragraphs, 0);
    assert_eq!(analysis.punctuation, 0);
    assert!(analysis.tokens.is_empty());
}

#[test]
fn apostrophes_belong_to_words() {
    let analysis = TextAnalysis::parse("Don't stop");
    assert_eq!(analysis.words, 2);
    assert_eq!(analysis.tokens[0].text, "Don't");
    assert_eq!((analysis.tokens[0].start, analysis.tokens[0].end), (0, 5));
    assert_eq!(analysis.tokens[1].text, "stop");
    assert_eq!((analysis.tokens[1].start, analysis.tokens[1].end), (6, 10));
    assert_eq!(analysis.punctuation, 1);
}

#[test]
fn token_ranges_are_byte_offsets() {
    let source = "héllo wörld";
    let analysis = TextAnalysis::parse(source);
    assert_eq!(analysis.characters, 11);
    assert_eq!(analysis.words, 2);
    assert_eq!((analysis.tokens[0].start, analysis.tokens[0].end), (0, 6));
    assert_eq!((analysis.tokens[1].start, analysis.tokens[1].end), (7, 13));
    for token in &analysis.tokens {
        assert_eq!(&source[token.start..token.end], token.text);
    }
}

#[test]
fn difficult_words_have_ten_characters_or_more() {
    let analysis = TextAnalysis::parse("extraordinary tiny abcdefghij abcdefghi");
    let flags: Vec<bool> = analysis.tokens.iter().map(|t| t.difficult).collect();
    assert_eq!(flags, vec![true, false, true, false]);
}

#[test]
fn paragraphs_count_blank_line_separators() {
    assert_eq!(TextAnalysis::parse("one").paragraphs, 1);
    assert_eq!(TextAnalysis::parse("a\n\nb\n\nc").paragraphs, 3);
    assert_eq!(TextAnalysis::parse("a\n\n\nb").paragraphs, 2);
    assert_eq!(TextAnalysis::parse("\n\n\n\n").paragraphs, 3);
    assert_eq!(TextAnalysis::parse("\n").paragraphs, 1);
}

#[test]
fn sentences_count_sentence_ends() {
    let analysis = TextAnalysis::parse("Wait... what?! Yes.");
    assert_eq!(analysis.sentences, 6);
    assert_eq!(analysis.punctuation, 6);
}

#[test]
fn word_at_end_of_text_is_recorded() {
    let analysis = TextAnalysis::parse("  last");
    assert_eq!(analysis.words, 1);
    assert_eq!((analysis.tokens[0].start, analysis.tokens[0].end), (2, 6));
    assert_eq!(analysis.tokens[0].text, "last");
}

#[test]
fn parse_with_takes_the_given_classes() {
    let analysis = TextAnalysis::parse_with("ab-c", &[true, true, true, true]);
    assert_eq!(analysis.words, 1);
    assert_eq!(analysis.tokens[0].text, "ab-c");
    let analysis = TextAnalysis::parse_with("ab-c", &[true, false, false, true]);
    assert_eq!(analysis.words, 2);
    assert_eq!(analysis.tokens[0].text, "a");
    assert_eq!(analysis.tokens[1].text, "c");
}

#[test]
fn unicode_letters_are_word_characters() {
    let analysis = TextAnalysis::parse("日本語 ok");
    assert_eq!(analysis.words, 2);
    assert_eq!(analysis.tokens[0].text, "日本語");
    assert_eq!((analysis.tokens[0].start, analysis.tokens[0].end), (0, 9));
}

#[test]
fn default_analysis_is_empty() {
    let analysis = TextAnalysis::default();
    assert_eq!(analysis.characters, 0);
    assert_eq!(analysis.words, 0);
    assert!(analysis.tokens.is_empty());
}

#[test]
fn joining_two_texts_with_a_space_joins_their_analyses() {
    let a = "Héllo, world.";
    let b = "Second part!";
    let joined = format!("{} {}", a, b);
    let r = TextAnalysis::parse(&joined);
    let x = TextAnalysis::parse(a);
    let y = TextAnalysis::parse(b);
    assert_eq!(r.characters, x.characters + y.characters + 1);
    assert_eq!(r.words, x.words + y.words);
    assert_eq!(r.sentences, x.sentences + y.sentences);
    assert_eq!(r.punctuation, x.punctuation + y.punctuation);
    assert_eq!(r.tokens.len(), x.tokens.len() + y.tokens.len());
    for (k, t) in x.tokens.iter().enumerate() {
        assert_eq!((r.tokens[k].start, r.tokens[k].end), (t.start, t.end));
        assert_eq!(r.tokens[k].text, t.text);
    }
    let shift = a.len() + 1;
    for (k, t) in y.tokens.iter().enumerate() {
        let u = &r.tokens[x.tokens.len() + k];
        assert_eq!((u.start, u.end), (t.start + shift, t.end + shift));
        assert_eq!(u.text, t.text);
        assert_eq!(u.difficult, t.difficult);
    }
}
