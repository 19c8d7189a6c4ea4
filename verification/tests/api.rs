//! Unit tests for the text groundwork, the serving-layer helpers, and the
//! upload plan.
use wordnet_thesaurus::api::activity::ActivityType;
use wordnet_thesaurus::api::auth::extract_bearer;
use wordnet_thesaurus::api::favorites::normalize_favorite;
use wordnet_thesaurus::api::thesaurus;
use wordnet_thesaurus::api::user::TokenClaims;
use wordnet_thesaurus::api::word::{
    build_search_filters, get_all_word_relations, get_relations, get_word_definition,
    get_word_examples, pos_filter, word_filter, RelationType, SearchFilters, SearchResponse, Word,
};
use wordnet_thesaurus::emit::{
    batch_bounds, filterable_attributes, primary_key, ranking_rules, searchable_attributes,
    sortable_attributes, BATCH_SIZE,
};
use wordnet_thesaurus::error::{missing_attr, ImportError};
use wordnet_thesaurus::text::{deduplicate, eq_ignore_case, str_eq, trim_str};
use wordnet_thesaurus::transform::{
    classify_sense_relation, classify_synset_relation, is_valid_lemma, lemma_accepted,
    make_word_id, normalize_id,
};

fn sample_word() -> Word {
    Word {
        id: "word_cat".to_string(),
        word: "cat".to_string(),
        definitions: vec!["(n) a small feline".to_string()],
        pos: vec!["n".to_string()],
        synonyms: vec!["feline".to_string()],
        antonyms: vec!["dog".to_string()],
        broader_terms: vec!["animal".to_string()],
        narrower_terms: vec!["kitten".to_string()],
        related_terms: vec!["whisker".to_string()],
        examples: vec!["the cat sat".to_string()],
    }
}

#[test]
fn normalize_id_lowercases_and_replaces() {
    assert_eq!(normalize_id("Hello World"), "hello_world");
    assert_eq!(normalize_id("self-made"), "self_made");
    assert_eq!(normalize_id("don't"), "dont");
    assert_eq!(normalize_id("U.S.A."), "usa");
    assert_eq!(normalize_id("a(b)c/d"), "abcd");
    assert_eq!(normalize_id(""), "");
}

#[test]
fn word_ids_carry_the_prefix() {
    assert_eq!(make_word_id("Ice Cream"), "word_ice_cream");
    assert_eq!(make_word_id("x"), "word_x");
}

#[test]
fn lemma_charset_is_enforced() {
    assert!(is_valid_lemma("mother-in-law's"));
    assert!(is_valid_lemma("a b,c.(d)/e"));
    assert!(!is_valid_lemma("price$"));
    assert!(lemma_accepted("good word"));
    assert!(!lemma_accepted("   "));
    assert!(!lemma_accepted("bad$word"));
    let long: String = std::iter::repeat('a').take(101).collect();
    assert!(!lemma_accepted(&long));
}

#[test]
fn trimming_matches_std() {
    assert_eq!(trim_str("  hello  "), "hello");
    assert_eq!(trim_str("\t\n x \u{a0}"), "x");
    assert_eq!(trim_str("   "), "");
    assert_eq!(trim_str("no-trim"), "no-trim");
}

#[test]
fn string_equality_helpers_agree_with_std() {
    assert!(str_eq("abc", "abc"));
    assert!(!str_eq("abc", "abd"));
    assert!(eq_ignore_case("HeLLo", "hello"));
    assert!(!eq_ignore_case("hello", "world"));
    assert!(eq_ignore_case("STRASSE", "strasse"));
}

#[test]
fn deduplicate_sorts_and_removes_duplicates() {
    let mut v = vec![
        "pear".to_string(),
        "apple".to_string(),
        "pear".to_string(),
        "banana".to_string(),
        "apple".to_string(),
    ];
    deduplicate(&mut v);
    assert_eq!(v, vec!["apple".to_string(), "banana".to_string(), "pear".to_string()]);
}

#[test]
fn synset_classification_follows_the_table() {
    assert_eq!(classify_synset_relation("hypernym"), RelationType::BroaderTerm);
    assert_eq!(classify_synset_relation("instance_hypernym"), RelationType::BroaderTerm);
    assert_eq!(classify_synset_relation("holo_member"), RelationType::BroaderTerm);
    assert_eq!(classify_synset_relation("substance_holonym"), RelationType::BroaderTerm);
    assert_eq!(classify_synset_relation("hyponym"), RelationType::NarrowerTerm);
    assert_eq!(classify_synset_relation("mero_portion"), RelationType::NarrowerTerm);
    assert_eq!(classify_synset_relation("member_meronym"), RelationType::NarrowerTerm);
    assert_eq!(classify_synset_relation("antonym"), RelationType::Antonym);
    assert_eq!(classify_synset_relation("near_antonym"), RelationType::Antonym);
    assert_eq!(classify_synset_relation("similar"), RelationType::Synonym);
    assert_eq!(classify_synset_relation("eq_synonym"), RelationType::Synonym);
    assert_eq!(classify_synset_relation("domain_topic"), RelationType::RelatedTerm);
    assert_eq!(classify_synset_relation("xyz_unknown"), RelationType::RelatedTerm);
}

#[test]
fn sense_classification_follows_the_table() {
    assert_eq!(classify_sense_relation("antonym"), RelationType::Antonym);
    assert_eq!(classify_sense_relation("anto_converse"), RelationType::Antonym);
    assert_eq!(classify_sense_relation("similar_to"), RelationType::Synonym);
    assert_eq!(classify_sense_relation("see_also"), RelationType::Synonym);
    assert_eq!(classify_sense_relation("hypernym"), RelationType::BroaderTerm);
    assert_eq!(classify_sense_relation("instance_hyponym"), RelationType::NarrowerTerm);
    assert_eq!(classify_sense_relation("derivation"), RelationType::RelatedTerm);
    assert_eq!(classify_sense_relation("pertainym"), RelationType::RelatedTerm);
}

#[test]
fn relation_type_names() {
    assert_eq!(RelationType::Synonym.as_str(), "synonyms");
    assert_eq!(RelationType::Antonym.as_str(), "antonyms");
    assert_eq!(RelationType::BroaderTerm.as_str(), "broader_terms");
    assert_eq!(RelationType::NarrowerTerm.as_str(), "narrower_terms");
    assert_eq!(RelationType::RelatedTerm.as_str(), "related_terms");
    assert_eq!(RelationType::Synonym.display_name(), "Synonyms");
    assert_eq!(RelationType::BroaderTerm.display_name(), "Broader Terms");
}

#[test]
fn activity_type_tags() {
    assert_eq!(ActivityType::Search.as_str(), "search");
    assert_eq!(ActivityType::ViewWord.as_str(), "view_word");
    assert_eq!(ActivityType::AddFavorite.as_str(), "add_favorite");
    assert_eq!(ActivityType::RemoveFavorite.as_str(), "remove_favorite");
    assert_eq!(ActivityType::Login.as_str(), "login");
    assert_eq!(ActivityType::Logout.as_str(), "logout");
    assert_eq!(ActivityType::Register.as_str(), "register");
}

#[test]
fn paging_defaults() {
    assert_eq!(thesaurus::default_offset(), 0);
    assert_eq!(thesaurus::default_limit(), 20);
    assert_eq!(wordnet_thesaurus::api::activity::default_offset(), 0);
    assert_eq!(wordnet_thesaurus::api::activity::default_limit(), 50);
}

#[test]
fn relation_selection_picks_the_right_list() {
    let w = Some(sample_word());
    assert_eq!(get_relations(&w, RelationType::Synonym), vec!["feline".to_string()]);
    assert_eq!(get_relations(&w, RelationType::Antonym), vec!["dog".to_string()]);
    assert_eq!(get_relations(&w, RelationType::BroaderTerm), vec!["animal".to_string()]);
    assert_eq!(get_relations(&w, RelationType::NarrowerTerm), vec!["kitten".to_string()]);
    assert_eq!(get_relations(&w, RelationType::RelatedTerm), vec!["whisker".to_string()]);
    assert!(get_relations(&None, RelationType::Synonym).is_empty());
    assert_eq!(get_word_definition(&w), vec!["(n) a small feline".to_string()]);
    assert_eq!(get_word_examples(&w), vec!["the cat sat".to_string()]);
    let all = get_all_word_relations(&w).expect("known word");
    assert_eq!(all.word, "cat");
    assert!(get_all_word_relations(&None).is_none());
}

#[test]
fn search_response_defaults_missing_total_to_zero() {
    let r = SearchResponse::assemble(vec![sample_word()], 5, 20, Some(42));
    assert_eq!(r.hits.len(), 1);
    assert_eq!(r.offset, 5);
    assert_eq!(r.limit, 20);
    assert_eq!(r.total, 42);
    let r2 = SearchResponse::assemble(Vec::new(), 0, 20, None);
    assert_eq!(r2.total, 0);
}

#[test]
fn search_filters_are_rendered() {
    assert_eq!(word_filter("cat"), "word = \"cat\"");
    assert_eq!(pos_filter("n"), "pos = \"n\"");
    let f = Some(SearchFilters { pos: Some("v".to_string()), exact_match: Some(true) });
    let (p, e) = build_search_filters("jump", &f);
    assert_eq!(p.as_deref(), Some("pos = \"v\""));
    assert_eq!(e.as_deref(), Some("word = \"jump\""));
    let f2 = Some(SearchFilters { pos: None, exact_match: Some(false) });
    let (p2, e2) = build_search_filters("jump", &f2);
    assert!(p2.is_none() && e2.is_none());
    let (p3, e3) = build_search_filters("jump", &None);
    assert!(p3.is_none() && e3.is_none());
}

#[test]
fn bearer_token_extraction() {
    assert_eq!(extract_bearer("Bearer abc.def").as_deref(), Some("abc.def"));
    assert_eq!(extract_bearer("Bearer ").as_deref(), Some(""));
    assert!(extract_bearer("Basic abc").is_none());
    assert!(extract_bearer("Bear").is_none());
}

#[test]
fn favorite_words_are_normalized() {
    assert_eq!(normalize_favorite("  CaT  ").as_deref(), Some("cat"));
    assert!(normalize_favorite("   ").is_none());
}

#[test]
fn token_claims_expiry() {
    let c = TokenClaims::new("user-1".to_string(), 1000, 60);
    assert_eq!(c.sub, "user-1");
    assert_eq!(c.iat, 1000);
    assert_eq!(c.exp, 1000 + 3600);
}

#[test]
fn import_error_messages() {
    assert_eq!(missing_attr("Sense", "id"), "Sense missing id");
    let e = ImportError::ParseFailed("Sense missing id".to_string());
    assert_eq!(e.message(), "Sense missing id");
    let a = ImportError::AcquisitionFailed("no network".to_string());
    assert_eq!(a.message(), "no network");
    let i = ImportError::IndexConfigFailed("rejected".to_string());
    assert_eq!(i.message(), "rejected");
    let b = ImportError::BatchUploadFailed("batch 3".to_string());
    assert_eq!(b.message(), "batch 3");
}

#[test]
fn batch_bounds_cover_everything_in_order() {
    assert!(batch_bounds(0, BATCH_SIZE).is_empty());
    let b = batch_bounds(2500, 1000);
    assert_eq!(b, vec![(0, 1000), (1000, 2000), (2000, 2500)]);
    let one = batch_bounds(10, 1000);
    assert_eq!(one, vec![(0, 10)]);
}

#[test]
fn index_configuration_matches_the_contract() {
    assert_eq!(primary_key(), "id");
    assert_eq!(
        searchable_attributes(),
        vec!["word", "definitions", "synonyms", "antonyms", "examples"]
    );
    assert_eq!(filterable_attributes(), vec!["word", "pos"]);
    assert_eq!(sortable_attributes(), vec!["word"]);
    assert_eq!(
        ranking_rules(),
        vec!["words", "typo", "proximity", "attribute", "sort", "exactness"]
    );
}
