//! Which characters end a sentence.
use vstd::prelude::*;

use crate::text::analyzer::{analysis_with, sentence_count, TextAnalysis};

verus! {

/// The characters of `s` that are '.', '!' or '?', in order.
pub open spec fn end_marks(s: Seq<char>) -> Seq<char> {
    s.filter(|c: char| c == '.' || c == '!' || c == '?')
}

proof fn lemma_sentence_count_is_end_marks(s: Seq<char>)
    ensures
        sentence_count(s) == end_marks(s).len(),
        (forall|i: int| 0 <= i < s.len() ==> #[trigger] s[i] != '.' && s[i] != '!' && s[i] != '?')
            ==> sentence_count(s) == 0,
    decreases s.len(),
{
    reveal(Seq::filter);
    if s.len() > 0 {
        let p = s.drop_last();
        lemma_sentence_count_is_end_marks(p);
        if forall|i: int| 0 <= i < s.len() ==> #[trigger] s[i] != '.' && s[i] != '!' && s[i] != '?' {
            assert forall|i: int| 0 <= i < p.len() implies #[trigger] p[i] != '.' && p[i] != '!'
                && p[i] != '?' by {
                assert(p[i] == s[i]);
            }
            assert(s.last() == s[s.len() - 1]);
        }
    }
}

/// Law: the sentences of an analysis are the '.', '!' and '?' characters of
/// the text, one each; no other character (';' and ',' among them) ends a
/// sentence, so a text without those three has no sentence.
pub proof fn lemma_sentences_are_end_marks(a: TextAnalysis, s: Seq<char>, alnum: Seq<bool>)
    requires
        analysis_with(a, s, alnum),
    ensures
        a.sentences == end_marks(s).len(),
        (forall|i: int| 0 <= i < s.len() ==> #[trigger] s[i] != '.' && s[i] != '!' && s[i] != '?')
            ==> a.sentences == 0,
{
    lemma_sentence_count_is_end_marks(s);
}

} // verus!
