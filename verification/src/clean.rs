//! Normalisation of texts before they are stored or searched: lowercase
//! every word, drop English stop words, reduce the rest to their stems.
use vstd::prelude::*;
use crate::text::{join, join_range, lowercase_of, split_whitespace, to_lowercase, views, words};

verus! {

#[verifier::external_type_specification]
#[verifier::external_body]
pub struct ExStemmer(rust_stemmers::Stemmer);

/// What the English Snowball stemmer of `rust_stemmers` returns for a word.
pub uninterp spec fn english_stem(word: Seq<char>) -> Seq<char>;

/// A `rust_stemmers::Stemmer` built for the English algorithm; the only
/// way to get one is `EnglishStemmer::new`.
pub struct EnglishStemmer {
    inner: rust_stemmers::Stemmer,
}

impl EnglishStemmer {
    /// Builds the stemmer with `rust_stemmers::Stemmer::create(Algorithm::English)`.
    #[verifier::external_body]
    pub(crate) fn new() -> (s: EnglishStemmer) {
        EnglishStemmer { inner: rust_stemmers::Stemmer::create(rust_stemmers::Algorithm::English) }
    }

    /// Stems one word with `rust_stemmers::Stemmer::stem`. The contract
    /// claims that the result is `english_stem` of the word: it is a function
    /// of the word alone, since the stemmer inside was created for English.
    #[verifier::external_body]
    pub(crate) fn stem(&self, word: &str) -> (stemmed: String)
        ensures
            stemmed@ == english_stem(word@),
    {
        self.inner.stem(word).into_owned()
    }
}

/// What `stop_words::get` returns for a language code: that crate's
/// stop-word list for the language, as a sequence of words.
pub uninterp spec fn stop_words_of(language: Seq<char>) -> Seq<Seq<char>>;

/// The stop-word list of the `stop_words` crate for a language code
/// (`stop_words::get`), as owned strings. The contract claims that the
/// list, word by word, is `stop_words_of` the code: `get` looks the code up
/// in a fixed table of the crate. It is called for English only, whose list
/// the crate's default features include, so the call does not panic.
#[verifier::external_body]
fn stop_words_for(language: &str) -> (list: Vec<String>)
    requires
        language@ == "en"@,
    ensures
        views(list@) == stop_words_of(language@),
{
    stop_words::get(language).iter().map(|s| s.to_string()).collect()
}

/// One space, the separator of cleaned words.
pub open spec fn single_space() -> Seq<char> {
    seq![' ']
}

/// The lowercased words of `text`.
pub open spec fn lowered_words(text: Seq<char>) -> Seq<Seq<char>> {
    words(text).map_values(|w: Seq<char>| lowercase_of(w))
}

/// The lowercased words of `text` that are not in `stops`.
pub open spec fn kept_words(stops: Set<Seq<char>>, text: Seq<char>) -> Seq<Seq<char>> {
    lowered_words(text).filter(|w: Seq<char>| !stops.contains(w))
}

/// The cleaned form of `text`: its words lowercased, stop words dropped,
/// the rest stemmed, joined by single spaces.
pub open spec fn cleaned(stops: Set<Seq<char>>, text: Seq<char>) -> Seq<char> {
    join(kept_words(stops, text).map_values(|w: Seq<char>| english_stem(w)), single_space())
}

/// Cleaning drops a word exactly when its lowercase form is a stop word,
/// whatever its length: a word is kept if and only if it is a lowercased
/// word of the text that is not in the stop set, and a text whose words
/// are all stop words cleans to the empty text.
pub proof fn law_clean_drops_exactly_stop_words(stops: Set<Seq<char>>, text: Seq<char>)
    ensures
        forall|w: Seq<char>|
            kept_words(stops, text).contains(w) <==> (lowered_words(text).contains(w)
                && !stops.contains(w)),
        (forall|i: int| 0 <= i < lowered_words(text).len() ==> stops.contains(
            #[trigger] lowered_words(text)[i],
        )) ==> cleaned(stops, text).len() == 0,
{
    let lw = lowered_words(text);
    let pred = |w: Seq<char>| !stops.contains(w);
    broadcast use vstd::seq_lib::group_filter_ensures;
    assert forall|w: Seq<char>|
        kept_words(stops, text).contains(w) <==> (lw.contains(w) && !stops.contains(w)) by {
        if kept_words(stops, text).contains(w) {
            lw.lemma_filter_contains_rev(pred, w);
            let i = choose|i: int| 0 <= i < lw.filter(pred).len() && lw.filter(pred)[i] == w;
            assert(pred(lw.filter(pred)[i]));
        }
        if lw.contains(w) && !stops.contains(w) {
            let i = choose|i: int| 0 <= i < lw.len() && lw[i] == w;
            assert(pred(lw[i]));
        }
    }
    if forall|i: int| 0 <= i < lw.len() ==> stops.contains(#[trigger] lw[i]) {
        assert(lw.all(|x: Seq<char>| !pred(x)));
        lw.lemma_all_neg_filter_empty(pred);
        assert(kept_words(stops, text).map_values(|w: Seq<char>| english_stem(w)) =~= seq![]);
    }
}

/// Lowercases, filters and stems texts.
pub struct Cleaner {
    stemmer: EnglishStemmer,
    stop_words: Vec<String>,
}

impl Cleaner {
    /// The stop words that `clean` drops.
    pub closed spec fn stop_set(&self) -> Set<Seq<char>> {
        views(self.stop_words@).to_set()
    }

    /// A cleaner with the English stemmer and the English stop-word list.
    pub fn new() -> (cleaner: Cleaner)
        ensures
            cleaner.stop_set() == stop_words_of("en"@).to_set(),
    {
        let stemmer: EnglishStemmer = EnglishStemmer::new();
        let language: &str = "en";
        proof {
            reveal_strlit("en");
        }
        let stop_words: Vec<String> = stop_words_for(language);
        Cleaner { stemmer, stop_words }
    }

    /// Whether `word` is one of the stop words.
    pub fn is_stop_word(&self, word: &String) -> (found: bool)
        ensures
            found == self.stop_set().contains(word@),
    {
        let n: usize = self.stop_words.len();
        let mut i: usize = 0;
        while i < n
            invariant
                n == self.stop_words@.len(),
                i <= n,
                forall|j: int| 0 <= j < i ==> self.stop_words@[j]@ != word@,
            decreases n - i,
        {
            if self.stop_words[i] == *word {
                assert(views(self.stop_words@)[i as int] == word@);
                return true;
            }
            i = i + 1;
        }
        assert(!views(self.stop_words@).contains(word@)) by {
            if views(self.stop_words@).contains(word@) {
                let j = choose|j: int| 0 <= j < n && views(self.stop_words@)[j] == word@;
                assert(self.stop_words@[j]@ == word@);
            }
        }
        false
    }

    /// The words of `words` that are not stop words, in order.
    pub fn drop_stop_words(&self, words: &Vec<String>) -> (kept: Vec<String>)
        ensures
            views(kept@) == views(words@).filter(|w: Seq<char>| !self.stop_set().contains(w)),
    {
        let ghost stops = self.stop_set();
        let ghost pred = |w: Seq<char>| !stops.contains(w);
        let ghost ws = views(words@);
        let mut kept: Vec<String> = Vec::new();
        let mut i: usize = 0;
        while i < words.len()
            invariant
                ws == views(words@),
                stops == self.stop_set(),
                pred == (|w: Seq<char>| !stops.contains(w)),
                i <= words@.len(),
                views(kept@) == ws.take(i as int).filter(pred),
            decreases words@.len() - i,
        {
            let ghost prev = kept@;
            let ghost t = ws.take(i + 1);
            assert(t.drop_last() =~= ws.take(i as int));
            assert(t.last() == words@[i as int]@);
            reveal_with_fuel(Seq::<_>::filter, 1);
            if !self.is_stop_word(&words[i]) {
                let word: String = words[i].clone();
                kept.push(word);
                assert(views(kept@) =~= views(prev).push(word@));
            }
            i = i + 1;
        }
        assert(ws.take(words@.len() as int) =~= ws);
        kept
    }

    /// Cleans `text`: lowercases each word, drops stop words, stems the
    /// rest, and joins the stems with single spaces.
    pub fn clean(&self, text: &str) -> (out: String)
        ensures
            out@ == cleaned(self.stop_set(), text@),
    {
        let all_words: Vec<String> = split_whitespace(text);
        let ghost lowered = lowered_words(text@);
        let mut lower: Vec<String> = Vec::new();
        let mut i: usize = 0;
        while i < all_words.len()
            invariant
                views(all_words@) == words(text@),
                lowered == lowered_words(text@),
                i <= all_words@.len(),
                views(lower@) =~= lowered.take(i as int),
            decreases all_words@.len() - i,
        {
            let word: String = to_lowercase(all_words[i].as_str());
            assert(word@ == lowered[i as int]);
            let ghost prev = lower@;
            lower.push(word);
            assert(views(lower@) =~= views(prev).push(word@));
            i = i + 1;
        }
        assert(lowered.take(lowered.len() as int) =~= lowered);
        let kept: Vec<String> = self.drop_stop_words(&lower);
        let ghost kv = kept_words(self.stop_set(), text@);
        assert(views(kept@) == kv);
        let mut stems: Vec<String> = Vec::new();
        let mut j: usize = 0;
        while j < kept.len()
            invariant
                views(kept@) == kv,
                j <= kept@.len(),
                views(stems@) =~= kv.take(j as int).map_values(|w: Seq<char>| english_stem(w)),
            decreases kept@.len() - j,
        {
            let stemmed: String = self.stemmer.stem(kept[j].as_str());
            assert(kept@[j as int]@ == kv[j as int]);
            let ghost prev = stems@;
            stems.push(stemmed);
            assert(views(stems@) =~= views(prev).push(stemmed@));
            j = j + 1;
        }
        assert(kv.take(kv.len() as int) =~= kv);
        let sep: &str = " ";
        proof {
            reveal_strlit(" ");
            assert(sep@ =~= single_space());
        }
        let out: String = join_range(&stems, 0, stems.len(), sep);
        assert(stems@.subrange(0, stems@.len() as int) =~= stems@);
        out
    }
}

} // verus!
