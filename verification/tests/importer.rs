//! End-to-end runs of the importer core: an element tree goes in, the flat
//! document collection comes out.
use wordnet_thesaurus::models::MeiliWord;
use wordnet_thesaurus::parse::build_wordnet;
use wordnet_thesaurus::transform::transform_to_meilisearch;
use wordnet_thesaurus::xml::XmlElem;

fn elem(name: &str, attrs: &[(&str, &str)], text: Option<&str>, children: Vec<XmlElem>) -> XmlElem {
    XmlElem {
        name: name.to_string(),
        attrs: attrs.iter().map(|(k, v)| (k.to_string(), v.to_string())).collect(),
        text: text.map(|t| t.to_string()),
        children,
    }
}

fn entry(id: &str, written: &str, pos: &str, senses: Vec<XmlElem>) -> XmlElem {
    let mut children = vec![elem(
        "Lemma",
        &[("writtenForm", written), ("partOfSpeech", pos)],
        None,
        Vec::new(),
    )];
    children.extend(senses);
    elem("LexicalEntry", &[("id", id)], None, children)
}

fn sense(id: &str, synset: &str, children: Vec<XmlElem>) -> XmlElem {
    elem("Sense", &[("id", id), ("synset", synset)], None, children)
}

fn doc(lexicon_children: Vec<XmlElem>) -> XmlElem {
    elem(
        "",
        &[],
        None,
        vec![elem(
            "LexicalResource",
            &[],
            None,
            vec![elem("Lexicon", &[("id", "l1")], None, lexicon_children)],
        )],
    )
}

fn run(root: &XmlElem) -> Vec<MeiliWord> {
    let data = build_wordnet(root).expect("parse should succeed");
    transform_to_meilisearch(&data)
}

fn find<'a>(words: &'a [MeiliWord], w: &str) -> &'a MeiliWord {
    words.iter().find(|d| d.word == w).expect("word should have a document")
}

#[test]
fn shared_synset_yields_symmetric_synonyms() {
    let root = doc(vec![
        entry("w1", "car", "n", vec![sense("s1-car", "s1", Vec::new())]),
        entry("w2", "automobile", "n", vec![sense("s1-auto", "s1", Vec::new())]),
        elem(
            "Synset",
            &[("id", "s1"), ("partOfSpeech", "n")],
            None,
            vec![elem("Definition", &[], Some("a road vehicle"), Vec::new())],
        ),
    ]);
    let words = run(&root);
    assert_eq!(words.len(), 2);
    let car = find(&words, "car");
    assert_eq!(car.id, "word_car");
    assert_eq!(car.synonyms, vec!["automobile".to_string()]);
    assert_eq!(car.definitions, vec!["(n) a road vehicle".to_string()]);
    assert_eq!(car.pos, vec!["n".to_string()]);
    assert!(car.antonyms.is_empty());
    assert!(car.broader_terms.is_empty());
    assert!(car.narrower_terms.is_empty());
    assert!(car.related_terms.is_empty());
    let auto = find(&words, "automobile");
    assert_eq!(auto.synonyms, vec!["car".to_string()]);
    assert_eq!(auto.definitions, vec!["(n) a road vehicle".to_string()]);
}

#[test]
fn hypernym_relation_fills_broader_terms_one_way() {
    let root = doc(vec![
        entry("w1", "dog", "n", vec![sense("s-dog", "ss1", Vec::new())]),
        entry("w2", "mammal", "n", vec![sense("s-mam", "ss2", Vec::new())]),
        elem(
            "Synset",
            &[("id", "ss1"), ("partOfSpeech", "n")],
            None,
            vec![elem(
                "SynsetRelation",
                &[("relType", "hypernym"), ("target", "ss2")],
                None,
                Vec::new(),
            )],
        ),
        elem("Synset", &[("id", "ss2"), ("partOfSpeech", "n")], None, Vec::new()),
    ]);
    let words = run(&root);
    let dog = find(&words, "dog");
    assert_eq!(dog.broader_terms, vec!["mammal".to_string()]);
    let mammal = find(&words, "mammal");
    assert!(mammal.broader_terms.is_empty());
    assert!(mammal.narrower_terms.is_empty());
}

#[test]
fn unknown_relation_tag_goes_to_related() {
    let root = doc(vec![
        entry("w1", "foo", "n", vec![sense("s-foo", "sf", Vec::new())]),
        entry("w2", "bar", "n", vec![sense("s-bar", "sb", Vec::new())]),
        elem(
            "Synset",
            &[("id", "sf"), ("partOfSpeech", "n")],
            None,
            vec![elem(
                "SynsetRelation",
                &[("relType", "xyz_unknown"), ("target", "sb")],
                None,
                Vec::new(),
            )],
        ),
        elem("Synset", &[("id", "sb"), ("partOfSpeech", "n")], None, Vec::new()),
    ]);
    let words = run(&root);
    let foo = find(&words, "foo");
    assert_eq!(foo.related_terms, vec!["bar".to_string()]);
    assert!(foo.synonyms.is_empty());
    assert!(foo.antonyms.is_empty());
    assert!(foo.broader_terms.is_empty());
    assert!(foo.narrower_terms.is_empty());
}

#[test]
fn holonym_counts_as_broader() {
    let root = doc(vec![
        entry("w1", "wheel", "n", vec![sense("s-wheel", "sw", Vec::new())]),
        entry("w2", "car", "n", vec![sense("s-car", "sc", Vec::new())]),
        elem(
            "Synset",
            &[("id", "sw"), ("partOfSpeech", "n")],
            None,
            vec![elem(
                "SynsetRelation",
                &[("relType", "part_holonym"), ("target", "sc")],
                None,
                Vec::new(),
            )],
        ),
        elem("Synset", &[("id", "sc"), ("partOfSpeech", "n")], None, Vec::new()),
    ]);
    let words = run(&root);
    let wheel = find(&words, "wheel");
    assert!(wheel.broader_terms.contains(&"car".to_string()));
}

#[test]
fn dangling_sense_target_is_tolerated() {
    let root = doc(vec![
        entry(
            "w1",
            "alpha",
            "n",
            vec![sense(
                "s-alpha",
                "sa",
                vec![elem(
                    "SenseRelation",
                    &[("relType", "antonym"), ("target", "sense_does_not_exist")],
                    None,
                    Vec::new(),
                )],
            )],
        ),
        elem("Synset", &[("id", "sa"), ("partOfSpeech", "n")], None, Vec::new()),
    ]);
    let words = run(&root);
    let alpha = find(&words, "alpha");
    assert!(alpha.synonyms.is_empty());
    assert!(alpha.antonyms.is_empty());
    assert!(alpha.broader_terms.is_empty());
    assert!(alpha.narrower_terms.is_empty());
    assert!(alpha.related_terms.is_empty());
}

#[test]
fn invalid_lemmas_get_no_document_and_no_references() {
    let root = doc(vec![
        entry("w1", " ", "n", vec![sense("s-blank", "s1", Vec::new())]),
        entry("w2", "bad$word", "n", vec![sense("s-bad", "s1", Vec::new())]),
        entry("w3", "good", "n", vec![sense("s-good", "s1", Vec::new())]),
        elem("Synset", &[("id", "s1"), ("partOfSpeech", "n")], None, Vec::new()),
    ]);
    let words = run(&root);
    assert_eq!(words.len(), 1);
    let good = find(&words, "good");
    assert!(good.synonyms.is_empty());
}

#[test]
fn sense_level_antonym_is_classified() {
    let root = doc(vec![
        entry(
            "w1",
            "hot",
            "a",
            vec![sense(
                "s-hot",
                "sh",
                vec![elem(
                    "SenseRelation",
                    &[("relType", "antonym"), ("target", "s-cold")],
                    None,
                    Vec::new(),
                )],
            )],
        ),
        entry("w2", "cold", "a", vec![sense("s-cold", "sc", Vec::new())]),
        elem("Synset", &[("id", "sh"), ("partOfSpeech", "a")], None, Vec::new()),
        elem("Synset", &[("id", "sc"), ("partOfSpeech", "a")], None, Vec::new()),
    ]);
    let words = run(&root);
    let hot = find(&words, "hot");
    assert_eq!(hot.antonyms, vec!["cold".to_string()]);
}

#[test]
fn members_attribute_promotes_lemmas_to_synset() {
    let root = doc(vec![
        entry("w1", "big", "a", vec![sense("s-big", "sb", Vec::new())]),
        entry("w2", "large", "a", vec![sense("s-large", "sl", Vec::new())]),
        elem(
            "Synset",
            &[("id", "sb"), ("partOfSpeech", "a"), ("members", "s-big s-large")],
            None,
            Vec::new(),
        ),
        elem("Synset", &[("id", "sl"), ("partOfSpeech", "a")], None, Vec::new()),
    ]);
    let words = run(&root);
    let big = find(&words, "big");
    assert_eq!(big.synonyms, vec!["large".to_string()]);
}

#[test]
fn definition_falls_back_to_ili_definition() {
    let root = doc(vec![
        entry("w1", "thing", "n", vec![sense("s-thing", "st", Vec::new())]),
        elem(
            "Synset",
            &[("id", "st"), ("partOfSpeech", "n")],
            None,
            vec![elem("ILIDefinition", &[], Some("  an object  "), Vec::new())],
        ),
    ]);
    let words = run(&root);
    let thing = find(&words, "thing");
    assert_eq!(thing.definitions, vec!["(n) an object".to_string()]);
}

#[test]
fn examples_are_trimmed_sorted_and_deduplicated() {
    let root = doc(vec![
        entry("w1", "run", "v", vec![sense("s-run", "sr", Vec::new())]),
        elem(
            "Synset",
            &[("id", "sr"), ("partOfSpeech", "v")],
            None,
            vec![
                elem("Example", &[], Some("  he runs fast "), Vec::new()),
                elem("Example", &[], Some("he runs fast"), Vec::new()),
                elem("Example", &[], Some("a second example"), Vec::new()),
                elem("Example", &[], Some("   "), Vec::new()),
            ],
        ),
    ]);
    let words = run(&root);
    let run_doc = find(&words, "run");
    assert_eq!(
        run_doc.examples,
        vec!["a second example".to_string(), "he runs fast".to_string()]
    );
}

#[test]
fn missing_required_attribute_is_fatal_with_element_name() {
    let root = doc(vec![elem(
        "LexicalEntry",
        &[],
        None,
        vec![elem("Lemma", &[("writtenForm", "x")], None, Vec::new())],
    )]);
    let err = build_wordnet(&root).expect_err("missing id must fail");
    assert_eq!(err.message(), "LexicalEntry missing id");
}

#[test]
fn missing_relation_target_is_fatal() {
    let root = doc(vec![
        entry("w1", "x", "n", vec![sense("s-x", "sx", Vec::new())]),
        elem(
            "Synset",
            &[("id", "sx")],
            None,
            vec![elem("SynsetRelation", &[("relType", "hypernym")], None, Vec::new())],
        ),
    ]);
    let err = build_wordnet(&root).expect_err("missing target must fail");
    assert_eq!(err.message(), "SynsetRelation missing target");
}

#[test]
fn document_without_lexical_resource_is_empty() {
    let root = elem("", &[], None, vec![elem("other", &[], None, Vec::new())]);
    let data = build_wordnet(&root).expect("should succeed");
    assert!(data.lexical_entries.is_empty());
    assert!(data.senses.is_empty());
    assert!(data.synsets.is_empty());
    assert!(transform_to_meilisearch(&data).is_empty());
}

#[test]
fn multiple_pos_on_one_lemma_aggregate() {
    let root = doc(vec![
        entry("w1", "run", "v", vec![sense("s-runv", "srv", Vec::new())]),
        entry("w2", "run", "n", vec![sense("s-runn", "srn", Vec::new())]),
        elem(
            "Synset",
            &[("id", "srv"), ("partOfSpeech", "v")],
            None,
            vec![elem("Definition", &[], Some("move fast"), Vec::new())],
        ),
        elem(
            "Synset",
            &[("id", "srn"), ("partOfSpeech", "n")],
            None,
            vec![elem("Definition", &[], Some("a jog"), Vec::new())],
        ),
    ]);
    let words = run(&root);
    assert_eq!(words.len(), 1);
    let run_doc = find(&words, "run");
    assert_eq!(run_doc.pos, vec!["n".to_string(), "v".to_string()]);
    assert_eq!(
        run_doc.definitions,
        vec!["(n) a jog".to_string(), "(v) move fast".to_string()]
    );
}

#[test]
fn self_reference_is_excluded_case_insensitively() {
    let root = doc(vec![
        entry("w1", "Cat", "n", vec![sense("s-cat1", "s1", Vec::new())]),
        entry("w2", "cat", "n", vec![sense("s-cat2", "s1", Vec::new())]),
        elem("Synset", &[("id", "s1"), ("partOfSpeech", "n")], None, Vec::new()),
    ]);
    let words = run(&root);
    for w in &words {
        assert!(w.synonyms.iter().all(|s| s.to_lowercase() != w.word.to_lowercase()));
    }
}

#[test]
fn xml_text_is_parsed_through_the_xml_parser() {
    let xml = r#"<?xml version="1.0" encoding="UTF-8"?>
<LexicalResource>
  <Lexicon id="l1" language="en" label="test">
    <LexicalEntry id="w1">
      <Lemma writtenForm="car" partOfSpeech="n"/>
      <Sense id="s1-car" synset="s1"/>
    </LexicalEntry>
    <LexicalEntry id="w2">
      <Lemma writtenForm="automobile" partOfSpeech="n"/>
      <Sense id="s1-auto" synset="s1"/>
    </LexicalEntry>
    <Synset id="s1" partOfSpeech="n">
      <Definition>a road vehicle</Definition>
    </Synset>
  </Lexicon>
</LexicalResource>"#;
    let data = wordnet_thesaurus::parse::parse_wordnet_xml(xml).expect("well-formed XML");
    assert_eq!(data.lexical_entries.len(), 2);
    assert_eq!(data.senses.len(), 2);
    assert_eq!(data.synsets.len(), 1);
    assert_eq!(data.synsets[0].definition.as_deref(), Some("a road vehicle"));
    let words = transform_to_meilisearch(&data);
    let car = find(&words, "car");
    assert_eq!(car.synonyms, vec!["automobile".to_string()]);
    assert_eq!(car.definitions, vec!["(n) a road vehicle".to_string()]);
}

#[test]
fn malformed_xml_is_a_parse_failure() {
    assert!(wordnet_thesaurus::parse::parse_wordnet_xml("<LexicalResource><open").is_err());
}

#[test]
fn xml_members_and_relations_round_trip_through_text() {
    let xml = r#"<LexicalResource><Lexicon id="l">
      <LexicalEntry id="w1"><Lemma writtenForm="big" partOfSpeech="a"/><Sense id="s-big" synset="sb"/></LexicalEntry>
      <LexicalEntry id="w2"><Lemma writtenForm="large" partOfSpeech="a"/><Sense id="s-large" synset="sl"/></LexicalEntry>
      <Synset id="sb" partOfSpeech="a" members="s-big s-large">
        <SynsetRelation relType="antonym" target="sl"/>
        <Example> so big </Example>
      </Synset>
      <Synset id="sl" partOfSpeech="a"/>
    </Lexicon></LexicalResource>"#;
    let data = wordnet_thesaurus::parse::parse_wordnet_xml(xml).expect("well-formed XML");
    assert_eq!(data.synsets[0].members, vec!["s-big".to_string(), "s-large".to_string()]);
    assert_eq!(data.synsets[0].examples, vec!["so big".to_string()]);
    let words = transform_to_meilisearch(&data);
    let big = find(&words, "big");
    assert_eq!(big.synonyms, vec!["large".to_string()]);
    assert_eq!(big.antonyms, vec!["large".to_string()]);
}

#[test]
fn buckets_are_sorted_and_free_of_duplicates() {
    let root = doc(vec![
        entry("w1", "x", "n", vec![sense("s-x", "sx", Vec::new())]),
        entry("w2", "zeta", "n", vec![sense("s-z", "sz", Vec::new())]),
        entry("w3", "alpha", "n", vec![sense("s-a", "sz", Vec::new())]),
        elem(
            "Synset",
            &[("id", "sx")],
            None,
            vec![
                elem(
                    "SynsetRelation",
                    &[("relType", "hypernym"), ("target", "sz")],
                    None,
                    Vec::new(),
                ),
                elem(
                    "SynsetRelation",
                    &[("relType", "hypernym"), ("target", "sz")],
                    None,
                    Vec::new(),
                ),
            ],
        ),
        elem("Synset", &[("id", "sz"), ("partOfSpeech", "n")], None, Vec::new()),
    ]);
    let words = run(&root);
    let x = find(&words, "x");
    assert_eq!(x.broader_terms, vec!["alpha".to_string(), "zeta".to_string()]);
    let ws: Vec<&str> = words.iter().map(|w| w.word.as_str()).collect();
    assert_eq!(ws, vec!["alpha", "x", "zeta"]);
}
