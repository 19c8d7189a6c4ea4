//! The word document as the serving layer sees it, the five relation
//! categories, and the selection logic that picks a category out of a document.
use vstd::prelude::*;

verus! {

/// One word document read back from the search index.
#[derive(Debug, Clone)]
pub struct Word {
    pub id: String,
    pub word: String,
    pub definitions: Vec<String>,
    pub pos: Vec<String>,
    pub synonyms: Vec<String>,
    pub antonyms: Vec<String>,
    pub broader_terms: Vec<String>,
    pub narrower_terms: Vec<String>,
    pub related_terms: Vec<String>,
    pub examples: Vec<String>,
}

/// A page of search hits.
#[derive(Debug)]
pub struct SearchResponse {
    pub hits: Vec<Word>,
    pub offset: usize,
    pub limit: usize,
    pub total: usize,
}

impl SearchResponse {
    /// Assembles a result page; a backend that reports no total count yields
    /// a total of zero.
    pub fn assemble(hits: Vec<Word>, offset: usize, limit: usize, total: Option<usize>) -> (r:
        SearchResponse)
        ensures
            r.hits@ == hits@,
            r.offset == offset,
            r.limit == limit,
            r.total == match total {
                Some(t) => t,
                None => 0,
            },
    {
        let total = match total {
            Some(t) => t,
            None => 0,
        };
        SearchResponse { hits, offset, limit, total }
    }
}

/// Optional narrowing of a search.
#[derive(Debug, Clone)]
pub struct SearchFilters {
    pub pos: Option<String>,
    pub exact_match: Option<bool>,
}

/// One relation list of one word, as an endpoint reports it.
#[derive(Debug)]
pub struct RelationResponse {
    pub word: String,
    pub relation: String,
    pub related_words: Vec<String>,
}

/// The five categories every relation edge is classified into.
#[derive(Debug, PartialEq, Eq, Hash, Clone, Copy, Structural)]
pub enum RelationType {
    Synonym,
    Antonym,
    BroaderTerm,
    NarrowerTerm,
    RelatedTerm,
}

impl RelationType {
    /// The field name of this category in the word document.
    pub fn as_str(&self) -> (r: &'static str)
        ensures
            r@ == match *self {
                RelationType::Synonym => "synonyms"@,
                RelationType::Antonym => "antonyms"@,
                RelationType::BroaderTerm => "broader_terms"@,
                RelationType::NarrowerTerm => "narrower_terms"@,
                RelationType::RelatedTerm => "related_terms"@,
            },
    {
        match self {
            RelationType::Synonym => "synonyms",
            RelationType::Antonym => "antonyms",
            RelationType::BroaderTerm => "broader_terms",
            RelationType::NarrowerTerm => "narrower_terms",
            RelationType::RelatedTerm => "related_terms",
        }
    }

    /// The human-readable name of this category.
    pub fn display_name(&self) -> (r: &'static str)
        ensures
            r@ == match *self {
                RelationType::Synonym => "Synonyms"@,
                RelationType::Antonym => "Antonyms"@,
                RelationType::BroaderTerm => "Broader Terms"@,
                RelationType::NarrowerTerm => "Narrower Terms"@,
                RelationType::RelatedTerm => "Related Terms"@,
            },
    {
        match self {
            RelationType::Synonym => "Synonyms",
            RelationType::Antonym => "Antonyms",
            RelationType::BroaderTerm => "Broader Terms",
            RelationType::NarrowerTerm => "Narrower Terms",
            RelationType::RelatedTerm => "Related Terms",
        }
    }
}

/// The relation list of the given category inside a word document.
pub open spec fn spec_relation_list(w: Word, relation_type: RelationType) -> Seq<String> {
    match relation_type {
        RelationType::Synonym => w.synonyms@,
        RelationType::Antonym => w.antonyms@,
        RelationType::BroaderTerm => w.broader_terms@,
        RelationType::NarrowerTerm => w.narrower_terms@,
        RelationType::RelatedTerm => w.related_terms@,
    }
}

/// Picks the requested relation list out of a looked-up word; an unknown word
/// has no relations.
pub fn get_relations(word_result: &Option<Word>, relation_type: RelationType) -> (r: Vec<String>)
    ensures
        match word_result {
            Some(w) => r@ == spec_relation_list(*w, relation_type),
            None => r@.len() == 0,
        },
{
    match word_result {
        Some(w) => match relation_type {
            RelationType::Synonym => w.synonyms.clone(),
            RelationType::Antonym => w.antonyms.clone(),
            RelationType::BroaderTerm => w.broader_terms.clone(),
            RelationType::NarrowerTerm => w.narrower_terms.clone(),
            RelationType::RelatedTerm => w.related_terms.clone(),
        },
        None => Vec::new(),
    }
}

/// The definition list of a looked-up word; an unknown word has none.
pub fn get_word_definition(word_result: &Option<Word>) -> (r: Vec<String>)
    ensures
        match word_result {
            Some(w) => r@ == w.definitions@,
            None => r@.len() == 0,
        },
{
    match word_result {
        Some(w) => w.definitions.clone(),
        None => Vec::new(),
    }
}

/// The example list of a looked-up word; an unknown word has none.
pub fn get_word_examples(word_result: &Option<Word>) -> (r: Vec<String>)
    ensures
        match word_result {
            Some(w) => r@ == w.examples@,
            None => r@.len() == 0,
        },
{
    match word_result {
        Some(w) => w.examples.clone(),
        None => Vec::new(),
    }
}

/// Whether two word documents hold the same character data in every field.
pub open spec fn same_word_views(a: Word, b: Word) -> bool {
    &&& a.id@ == b.id@
    &&& a.word@ == b.word@
    &&& a.definitions@ == b.definitions@
    &&& a.pos@ == b.pos@
    &&& a.synonyms@ == b.synonyms@
    &&& a.antonyms@ == b.antonyms@
    &&& a.broader_terms@ == b.broader_terms@
    &&& a.narrower_terms@ == b.narrower_terms@
    &&& a.related_terms@ == b.related_terms@
    &&& a.examples@ == b.examples@
}

/// The whole document of a looked-up word, or nothing when it is unknown.
pub fn get_all_word_relations(word_result: &Option<Word>) -> (r: Option<Word>)
    ensures
        match word_result {
            Some(w) => r matches Some(out) && same_word_views(*w, out),
            None => r is None,
        },
{
    match word_result {
        Some(w) => Some(
            Word {
                id: w.id.clone(),
                word: w.word.clone(),
                definitions: w.definitions.clone(),
                pos: w.pos.clone(),
                synonyms: w.synonyms.clone(),
                antonyms: w.antonyms.clone(),
                broader_terms: w.broader_terms.clone(),
                narrower_terms: w.narrower_terms.clone(),
                related_terms: w.related_terms.clone(),
                examples: w.examples.clone(),
            },
        ),
        None => None,
    }
}

/// The filter expression `word = "<w>"` selecting one exact word.
pub open spec fn spec_word_filter(w: Seq<char>) -> Seq<char> {
    seq!['w', 'o', 'r', 'd', ' ', '=', ' ', '"'] + w + seq!['"']
}

/// The filter expression `pos = "<p>"` selecting one part of speech.
pub open spec fn spec_pos_filter(p: Seq<char>) -> Seq<char> {
    seq!['p', 'o', 's', ' ', '=', ' ', '"'] + p + seq!['"']
}

/// Builds the exact-word filter the search backend understands.
pub fn word_filter(w: &str) -> (r: String)
    ensures
        r@ == spec_word_filter(w@),
{
    let mut r = String::new();
    crate::text::push_char(&mut r, 'w');
    crate::text::push_char(&mut r, 'o');
    crate::text::push_char(&mut r, 'r');
    crate::text::push_char(&mut r, 'd');
    crate::text::push_char(&mut r, ' ');
    crate::text::push_char(&mut r, '=');
    crate::text::push_char(&mut r, ' ');
    crate::text::push_char(&mut r, '"');
    r.append(w);
    crate::text::push_char(&mut r, '"');
    proof {
        assert(r@ =~= spec_word_filter(w@));
    }
    r
}

/// Builds the part-of-speech filter the search backend understands.
pub fn pos_filter(p: &str) -> (r: String)
    ensures
        r@ == spec_pos_filter(p@),
{
    let mut r = String::new();
    crate::text::push_char(&mut r, 'p');
    crate::text::push_char(&mut r, 'o');
    crate::text::push_char(&mut r, 's');
    crate::text::push_char(&mut r, ' ');
    crate::text::push_char(&mut r, '=');
    crate::text::push_char(&mut r, ' ');
    crate::text::push_char(&mut r, '"');
    r.append(p);
    crate::text::push_char(&mut r, '"');
    proof {
        assert(r@ =~= spec_pos_filter(p@));
    }
    r
}

/// The filters a search request resolves to: an optional part-of-speech
/// filter and, when an exact match is asked for, an exact-word filter.
pub fn build_search_filters(query: &str, filters: &Option<SearchFilters>) -> (r: (
    Option<String>,
    Option<String>,
))
    ensures
        match filters {
            Some(f) => {
                &&& match f.pos {
                    Some(p) => r.0 matches Some(s) && s@ == spec_pos_filter(p@),
                    None => r.0 is None,
                }
                &&& if f.exact_match == Some(true) {
                    r.1 matches Some(s) && s@ == spec_word_filter(query@)
                } else {
                    r.1 is None
                }
            },
            None => r.0 is None && r.1 is None,
        },
{
    match filters {
        Some(f) => {
            let pos_f = match &f.pos {
                Some(p) => Some(pos_filter(p.as_str())),
                None => None,
            };
            let exact_f = match &f.exact_match {
                Some(true) => Some(word_filter(query)),
                _ => None,
            };
            (pos_f, exact_f)
        },
        None => (None, None),
    }
}

} // verus!
