//! The parse stage: turning the element tree of a WordNet LMF document into
//! the three tables. A missing required attribute on an entry, sense or
//! relation is fatal and names the offending element; everything else is
//! tolerated. A document without a `LexicalResource` yields empty tables.
use vstd::prelude::*;
use crate::error::{ImportError, missing_attr, missing_attr_msg};
use crate::models::{Lemma, LexicalEntry, Sense, SenseRelation, Synset, SynsetRelation, WordNetData};
use crate::text::{split_ws, split_whitespace_tokens, str_eq, trim_spec, trim_str};
use crate::xml::{XmlElem, elem_attr, first_named, find_child, get_attr};

verus! {

/// The view of a lexical entry: id, written form, part of speech, sense ids.
pub type EntryV = (Seq<char>, Seq<char>, Seq<char>, Seq<Seq<char>>);

/// The view of a sense: id, synset id, relation edges, examples.
pub type SenseV = (Seq<char>, Seq<char>, Seq<(Seq<char>, Seq<char>)>, Seq<Seq<char>>);

/// The view of a synset: id, inter-lingual index, part of speech, definition,
/// examples, relation edges, member sense ids.
pub type SynsetV = (
    Seq<char>,
    Option<Seq<char>>,
    Seq<char>,
    Option<Seq<char>>,
    Seq<Seq<char>>,
    Seq<(Seq<char>, Seq<char>)>,
    Seq<Seq<char>>,
);

/// A parse failure: the element and the required attribute it lacks.
pub type ParseErrV = (Seq<char>, Seq<char>);

pub open spec fn opt_view(o: Option<String>) -> Option<Seq<char>> {
    match o {
        Some(s) => Some(s@),
        None => None,
    }
}

pub open spec fn sense_rel_views(rs: Seq<SenseRelation>) -> Seq<(Seq<char>, Seq<char>)> {
    Seq::new(rs.len(), |i: int| (rs[i].rel_type@, rs[i].target@))
}

pub open spec fn synset_rel_views(rs: Seq<SynsetRelation>) -> Seq<(Seq<char>, Seq<char>)> {
    Seq::new(rs.len(), |i: int| (rs[i].rel_type@, rs[i].target@))
}

pub open spec fn entry_view(e: LexicalEntry) -> EntryV {
    (e.id@, e.lemma.written_form@, e.lemma.part_of_speech@, e.senses.deep_view())
}

pub open spec fn sense_view(s: Sense) -> SenseV {
    (s.id@, s.synset_id@, sense_rel_views(s.relations@), s.examples.deep_view())
}

pub open spec fn synset_view(sy: Synset) -> SynsetV {
    (
        sy.id@,
        opt_view(sy.ili),
        sy.part_of_speech@,
        opt_view(sy.definition),
        sy.examples.deep_view(),
        synset_rel_views(sy.relations@),
        sy.members.deep_view(),
    )
}

pub open spec fn entry_views(s: Seq<LexicalEntry>) -> Seq<EntryV> {
    Seq::new(s.len(), |i: int| entry_view(s[i]))
}

pub open spec fn sense_views(s: Seq<Sense>) -> Seq<SenseV> {
    Seq::new(s.len(), |i: int| sense_view(s[i]))
}

pub open spec fn synset_views(s: Seq<Synset>) -> Seq<SynsetV> {
    Seq::new(s.len(), |i: int| synset_view(s[i]))
}

// ---------------------------------------------------------------------------
// What each element parses to
// ---------------------------------------------------------------------------
/// A relation element: both `relType` and `target` are required.
pub open spec fn rel_spec(e: XmlElem, elem_name: Seq<char>) -> Result<
    (Seq<char>, Seq<char>),
    ParseErrV,
> {
    match elem_attr(e, "relType"@) {
        None => Err((elem_name, "relType"@)),
        Some(rt) => match elem_attr(e, "target"@) {
            None => Err((elem_name, "target"@)),
            Some(t) => Ok((rt, t)),
        },
    }
}

/// The relation edges among the first `n` children of a sense element.
pub open spec fn sense_rels_upto(children: Seq<XmlElem>, n: int) -> Result<
    Seq<(Seq<char>, Seq<char>)>,
    ParseErrV,
>
    decreases n,
{
    if n <= 0 {
        Ok(Seq::empty())
    } else {
        match sense_rels_upto(children, n - 1) {
            Err(er) => Err(er),
            Ok(s) => if children[n - 1].name@ == "SenseRelation"@ {
                match rel_spec(children[n - 1], "SenseRelation"@) {
                    Err(er) => Err(er),
                    Ok(p) => Ok(s.push(p)),
                }
            } else {
                Ok(s)
            },
        }
    }
}

/// The trimmed example texts among the first `n` children of a sense element.
pub open spec fn sense_examples_upto(children: Seq<XmlElem>, n: int) -> Seq<Seq<char>>
    decreases n,
{
    if n <= 0 {
        Seq::empty()
    } else {
        let pre = sense_examples_upto(children, n - 1);
        if children[n - 1].name@ == "SenseExample"@ || children[n - 1].name@ == "Example"@ {
            match children[n - 1].text {
                Some(t) => pre.push(trim_spec(t@)),
                None => pre,
            }
        } else {
            pre
        }
    }
}

/// A sense element: `id` and `synset` are required; relations may fail.
pub open spec fn sense_spec(e: XmlElem) -> Result<SenseV, ParseErrV> {
    match elem_attr(e, "id"@) {
        None => Err(("Sense"@, "id"@)),
        Some(id) => match elem_attr(e, "synset"@) {
            None => Err(("Sense"@, "synset"@)),
            Some(sy) => match sense_rels_upto(e.children@, e.children@.len() as int) {
                Err(er) => Err(er),
                Ok(rels) => Ok(
                    (id, sy, rels, sense_examples_upto(e.children@, e.children@.len() as int)),
                ),
            },
        },
    }
}

/// The sense-id list and sense records among the first `n` children of an
/// entry element.
pub open spec fn entry_senses_upto(children: Seq<XmlElem>, n: int) -> Result<
    (Seq<Seq<char>>, Seq<SenseV>),
    ParseErrV,
>
    decreases n,
{
    if n <= 0 {
        Ok((Seq::empty(), Seq::empty()))
    } else {
        match entry_senses_upto(children, n - 1) {
            Err(er) => Err(er),
            Ok(pre) => if children[n - 1].name@ == "Sense"@ {
                match sense_spec(children[n - 1]) {
                    Err(er) => Err(er),
                    Ok(sv) => Ok((pre.0.push(sv.0), pre.1.push(sv))),
                }
            } else {
                Ok(pre)
            },
        }
    }
}

/// The written form and part of speech of the entry's `Lemma` child, each
/// defaulting to the empty string.
pub open spec fn lemma_of(e: XmlElem) -> (Seq<char>, Seq<char>) {
    match first_named(e.children@, "Lemma"@) {
        Some(ln) => (
            match elem_attr(ln, "writtenForm"@) {
                Some(w) => w,
                None => Seq::empty(),
            },
            match elem_attr(ln, "partOfSpeech"@) {
                Some(p) => p,
                None => Seq::empty(),
            },
        ),
        None => (Seq::empty(), Seq::empty()),
    }
}

/// An entry element: `id` is required; the entry record is dropped when the
/// written form is blank, while its senses are kept either way.
pub open spec fn entry_spec(e: XmlElem) -> Result<(Option<EntryV>, Seq<SenseV>), ParseErrV> {
    match elem_attr(e, "id"@) {
        None => Err(("LexicalEntry"@, "id"@)),
        Some(id) => match entry_senses_upto(e.children@, e.children@.len() as int) {
            Err(er) => Err(er),
            Ok(pre) => Ok(
                (
                    if trim_spec(lemma_of(e).0).len() > 0 {
                        Some((id, lemma_of(e).0, lemma_of(e).1, pre.0))
                    } else {
                        None
                    },
                    pre.1,
                ),
            ),
        },
    }
}

/// The relation edges among the first `n` children of a synset element.
pub open spec fn synset_rels_upto(children: Seq<XmlElem>, n: int) -> Result<
    Seq<(Seq<char>, Seq<char>)>,
    ParseErrV,
>
    decreases n,
{
    if n <= 0 {
        Ok(Seq::empty())
    } else {
        match synset_rels_upto(children, n - 1) {
            Err(er) => Err(er),
            Ok(s) => if children[n - 1].name@ == "SynsetRelation"@ {
                match rel_spec(children[n - 1], "SynsetRelation"@) {
                    Err(er) => Err(er),
                    Ok(p) => Ok(s.push(p)),
                }
            } else {
                Ok(s)
            },
        }
    }
}

/// The trimmed example texts among the first `n` children of a synset.
pub open spec fn synset_examples_upto(children: Seq<XmlElem>, n: int) -> Seq<Seq<char>>
    decreases n,
{
    if n <= 0 {
        Seq::empty()
    } else {
        let pre = synset_examples_upto(children, n - 1);
        if children[n - 1].name@ == "Example"@ {
            match children[n - 1].text {
                Some(t) => pre.push(trim_spec(t@)),
                None => pre,
            }
        } else {
            pre
        }
    }
}

/// The definition carried by an `ILIDefinition` child, if any.
pub open spec fn ili_def_of(children: Seq<XmlElem>) -> Option<Seq<char>> {
    match first_named(children, "ILIDefinition"@) {
        Some(n) => match n.text {
            Some(t) => Some(trim_spec(t@)),
            None => None,
        },
        None => None,
    }
}

/// The synset's definition: a `Definition` child's text is preferred, an
/// `ILIDefinition` child's text is the fallback.
pub open spec fn def_of(children: Seq<XmlElem>) -> Option<Seq<char>> {
    match first_named(children, "Definition"@) {
        Some(dn) => match dn.text {
            Some(t) => Some(trim_spec(t@)),
            None => ili_def_of(children),
        },
        None => ili_def_of(children),
    }
}

/// A synset element: `id` is required; `ili`, `partOfSpeech` and `members`
/// are optional, with `members` split on whitespace.
pub open spec fn synset_spec(e: XmlElem) -> Result<SynsetV, ParseErrV> {
    match elem_attr(e, "id"@) {
        None => Err(("Synset"@, "id"@)),
        Some(id) => match synset_rels_upto(e.children@, e.children@.len() as int) {
            Err(er) => Err(er),
            Ok(rels) => Ok(
                (
                    id,
                    elem_attr(e, "ili"@),
                    match elem_attr(e, "partOfSpeech"@) {
                        Some(p) => p,
                        None => Seq::empty(),
                    },
                    def_of(e.children@),
                    synset_examples_upto(e.children@, e.children@.len() as int),
                    rels,
                    match elem_attr(e, "members"@) {
                        Some(m) => split_ws(m),
                        None => Seq::empty(),
                    },
                ),
            ),
        },
    }
}

/// The entries and senses among the first `n` children of a lexicon.
pub open spec fn lexicon_entries_upto(children: Seq<XmlElem>, n: int) -> Result<
    (Seq<EntryV>, Seq<SenseV>),
    ParseErrV,
>
    decreases n,
{
    if n <= 0 {
        Ok((Seq::empty(), Seq::empty()))
    } else {
        match lexicon_entries_upto(children, n - 1) {
            Err(er) => Err(er),
            Ok(pre) => if children[n - 1].name@ == "LexicalEntry"@ {
                match entry_spec(children[n - 1]) {
                    Err(er) => Err(er),
                    Ok(ev) => Ok(
                        (
                            match ev.0 {
                                Some(v) => pre.0.push(v),
                                None => pre.0,
                            },
                            pre.1 + ev.1,
                        ),
                    ),
                }
            } else {
                Ok(pre)
            },
        }
    }
}

/// The synsets among the first `n` children of a lexicon.
pub open spec fn lexicon_synsets_upto(children: Seq<XmlElem>, n: int) -> Result<
    Seq<SynsetV>,
    ParseErrV,
>
    decreases n,
{
    if n <= 0 {
        Ok(Seq::empty())
    } else {
        match lexicon_synsets_upto(children, n - 1) {
            Err(er) => Err(er),
            Ok(pre) => if children[n - 1].name@ == "Synset"@ {
                match synset_spec(children[n - 1]) {
                    Err(er) => Err(er),
                    Ok(sv) => Ok(pre.push(sv)),
                }
            } else {
                Ok(pre)
            },
        }
    }
}

/// One lexicon: all its entries and senses, then all its synsets; an entry
/// failure is reported before any synset failure, as the two passes run in
/// that order.
pub open spec fn lexicon_spec(e: XmlElem) -> Result<
    (Seq<EntryV>, Seq<SenseV>, Seq<SynsetV>),
    ParseErrV,
> {
    match lexicon_entries_upto(e.children@, e.children@.len() as int) {
        Err(er) => Err(er),
        Ok(es) => match lexicon_synsets_upto(e.children@, e.children@.len() as int) {
            Err(er) => Err(er),
            Ok(ys) => Ok((es.0, es.1, ys)),
        },
    }
}

/// The tables contributed by the first `n` children of the resource, one
/// lexicon at a time.
pub open spec fn lexicons_upto(children: Seq<XmlElem>, n: int) -> Result<
    (Seq<EntryV>, Seq<SenseV>, Seq<SynsetV>),
    ParseErrV,
>
    decreases n,
{
    if n <= 0 {
        Ok((Seq::empty(), Seq::empty(), Seq::empty()))
    } else {
        match lexicons_upto(children, n - 1) {
            Err(er) => Err(er),
            Ok(pre) => if children[n - 1].name@ == "Lexicon"@ {
                match lexicon_spec(children[n - 1]) {
                    Err(er) => Err(er),
                    Ok(lv) => Ok((pre.0 + lv.0, pre.1 + lv.1, pre.2 + lv.2)),
                }
            } else {
                Ok(pre)
            },
        }
    }
}

/// The whole document: the lexicons under the first `LexicalResource` child
/// of the root; a document without one parses to empty tables.
pub open spec fn wordnet_spec(root: XmlElem) -> Result<
    (Seq<EntryV>, Seq<SenseV>, Seq<SynsetV>),
    ParseErrV,
> {
    match first_named(root.children@, "LexicalResource"@) {
        None => Ok((Seq::empty(), Seq::empty(), Seq::empty())),
        Some(lr) => lexicons_upto(lr.children@, lr.children@.len() as int),
    }
}

// ---------------------------------------------------------------------------
// An error, once hit, is the result of the whole fold
// ---------------------------------------------------------------------------
proof fn lemma_sense_rels_err(children: Seq<XmlElem>, n: int, m: int)
    requires
        0 <= n <= m,
        sense_rels_upto(children, n) is Err,
    ensures
        sense_rels_upto(children, m) == sense_rels_upto(children, n),
    decreases m - n,
{
    if m > n {
        lemma_sense_rels_err(children, n, m - 1);
    }
}

proof fn lemma_entry_senses_err(children: Seq<XmlElem>, n: int, m: int)
    requires
        0 <= n <= m,
        entry_senses_upto(children, n) is Err,
    ensures
        entry_senses_upto(children, m) == entry_senses_upto(children, n),
    decreases m - n,
{
    if m > n {
        lemma_entry_senses_err(children, n, m - 1);
    }
}

proof fn lemma_synset_rels_err(children: Seq<XmlElem>, n: int, m: int)
    requires
        0 <= n <= m,
        synset_rels_upto(children, n) is Err,
    ensures
        synset_rels_upto(children, m) == synset_rels_upto(children, n),
    decreases m - n,
{
    if m > n {
        lemma_synset_rels_err(children, n, m - 1);
    }
}

proof fn lemma_lexicon_entries_err(children: Seq<XmlElem>, n: int, m: int)
    requires
        0 <= n <= m,
        lexicon_entries_upto(children, n) is Err,
    ensures
        lexicon_entries_upto(children, m) == lexicon_entries_upto(children, n),
    decreases m - n,
{
    if m > n {
        lemma_lexicon_entries_err(children, n, m - 1);
    }
}

proof fn lemma_lexicon_synsets_err(children: Seq<XmlElem>, n: int, m: int)
    requires
        0 <= n <= m,
        lexicon_synsets_upto(children, n) is Err,
    ensures
        lexicon_synsets_upto(children, m) == lexicon_synsets_upto(children, n),
    decreases m - n,
{
    if m > n {
        lemma_lexicon_synsets_err(children, n, m - 1);
    }
}

proof fn lemma_lexicons_err(children: Seq<XmlElem>, n: int, m: int)
    requires
        0 <= n <= m,
        lexicons_upto(children, n) is Err,
    ensures
        lexicons_upto(children, m) == lexicons_upto(children, n),
    decreases m - n,
{
    if m > n {
        lemma_lexicons_err(children, n, m - 1);
    }
}

// ---------------------------------------------------------------------------
// The builders
// ---------------------------------------------------------------------------
/// Parses one `Sense` element into a sense record.
fn process_sense_elem(e: &XmlElem) -> (r: Result<Sense, ImportError>)
    ensures
        match sense_spec(*e) {
            Ok(sv) => r matches Ok(s) && sense_view(s) == sv,
            Err(er) => r matches Err(ImportError::ParseFailed(m)) && m@ == missing_attr_msg(
                er.0,
                er.1,
            ),
        },
{
    let id = match get_attr(e, "id") {
        Some(v) => v.clone(),
        None => {
            return Err(ImportError::ParseFailed(missing_attr("Sense", "id")));
        },
    };
    let synset_id = match get_attr(e, "synset") {
        Some(v) => v.clone(),
        None => {
            return Err(ImportError::ParseFailed(missing_attr("Sense", "synset")));
        },
    };
    let mut relations: Vec<SenseRelation> = Vec::new();
    let mut examples: Vec<String> = Vec::new();
    let mut ci: usize = 0;
    proof {
        assert(sense_rel_views(relations@) =~= Seq::<(Seq<char>, Seq<char>)>::empty());
        assert(examples.deep_view() =~= Seq::<Seq<char>>::empty());
    }
    while ci < e.children.len()
        invariant
            ci <= e.children.len(),
            elem_attr(*e, "id"@) is Some,
            elem_attr(*e, "synset"@) is Some,
            sense_rels_upto(e.children@, ci as int) == Ok::<_, ParseErrV>(
                sense_rel_views(relations@),
            ),
            examples.deep_view() == sense_examples_upto(e.children@, ci as int),
        decreases e.children.len() - ci,
    {
        let c = &e.children[ci];
        if str_eq(c.name.as_str(), "SenseRelation") {
            let rt = match get_attr(c, "relType") {
                Some(v) => v.clone(),
                None => {
                    proof {
                        assert(sense_rels_upto(e.children@, ci + 1) == Err::<
                            Seq<(Seq<char>, Seq<char>)>,
                            ParseErrV,
                        >(("SenseRelation"@, "relType"@)));
                        lemma_sense_rels_err(e.children@, ci + 1, e.children@.len() as int);
                        assert(sense_spec(*e) == Err::<SenseV, ParseErrV>(
                            ("SenseRelation"@, "relType"@),
                        ));
                    }
                    let msg = missing_attr("SenseRelation", "relType");
                    proof {
                        assert(msg@ == missing_attr_msg("SenseRelation"@, "relType"@));
                    }
                    return Err(ImportError::ParseFailed(msg));
                },
            };
            let tg = match get_attr(c, "target") {
                Some(v) => v.clone(),
                None => {
                    proof {
                        lemma_sense_rels_err(e.children@, ci + 1, e.children@.len() as int);
                    }
                    return Err(ImportError::ParseFailed(missing_attr("SenseRelation", "target")));
                },
            };
            let ghost rels0 = relations@;
            relations.push(SenseRelation { rel_type: rt, target: tg });
            proof {
                assert(sense_rel_views(relations@) =~= sense_rel_views(rels0).push(
                    (relations@.last().rel_type@, relations@.last().target@),
                ));
            }
        }
        if str_eq(c.name.as_str(), "SenseExample") || str_eq(c.name.as_str(), "Example") {
            match &c.text {
                Some(t) => {
                    let ghost ex0 = examples.deep_view();
                    examples.push(trim_str(t.as_str()));
                    proof {
                        assert(examples.deep_view() =~= ex0.push(trim_spec(t@)));
                    }
                },
                None => {
                },
            }
        }
        ci = ci + 1;
    }
    Ok(Sense { id, synset_id, relations, examples })
}

/// Parses one `LexicalEntry` element: appends its senses to the sense table
/// and, when its lemma is not blank, the entry itself to the entry table.
pub fn process_lexical_entry(
    node: &XmlElem,
    lexical_entries: &mut Vec<LexicalEntry>,
    senses: &mut Vec<Sense>,
) -> (r: Result<(), ImportError>)
    ensures
        match entry_spec(*node) {
            Ok(ev) => r is Ok && entry_views(final(lexical_entries)@) == entry_views(
                old(lexical_entries)@,
            ) + (match ev.0 {
                Some(v) => seq![v],
                None => Seq::empty(),
            }) && sense_views(final(senses)@) == sense_views(old(senses)@) + ev.1,
            Err(er) => (r matches Err(ImportError::ParseFailed(m)) && m@ == missing_attr_msg(
                er.0,
                er.1,
            )) && final(lexical_entries)@ == old(lexical_entries)@ && final(senses)@ == old(
                senses,
            )@,
        },
{
    let id = match get_attr(node, "id") {
        Some(v) => v.clone(),
        None => {
            return Err(ImportError::ParseFailed(missing_attr("LexicalEntry", "id")));
        },
    };
    let mut written_form = String::new();
    let mut part_of_speech = String::new();
    match find_child(node, "Lemma") {
        Some(ln) => {
            match get_attr(ln, "writtenForm") {
                Some(w) => {
                    written_form = w.clone();
                },
                None => {
                },
            }
            match get_attr(ln, "partOfSpeech") {
                Some(p) => {
                    part_of_speech = p.clone();
                },
                None => {
                },
            }
        },
        None => {
        },
    }
    proof {
        assert(written_form@ == lemma_of(*node).0);
        assert(part_of_speech@ == lemma_of(*node).1);
    }
    let mut sense_ids: Vec<String> = Vec::new();
    let mut new_senses: Vec<Sense> = Vec::new();
    let mut ci: usize = 0;
    proof {
        assert(sense_ids.deep_view() =~= Seq::<Seq<char>>::empty());
        assert(sense_views(new_senses@) =~= Seq::<SenseV>::empty());
    }
    while ci < node.children.len()
        invariant
            ci <= node.children.len(),
            elem_attr(*node, "id"@) is Some,
            entry_senses_upto(node.children@, ci as int) == Ok::<_, ParseErrV>(
                (sense_ids.deep_view(), sense_views(new_senses@)),
            ),
        decreases node.children.len() - ci,
    {
        let c = &node.children[ci];
        if str_eq(c.name.as_str(), "Sense") {
            match process_sense_elem(c) {
                Ok(s) => {
                    let ghost ids0 = sense_ids.deep_view();
                    let ghost svs0 = sense_views(new_senses@);
                    sense_ids.push(s.id.clone());
                    new_senses.push(s);
                    proof {
                        assert(sense_ids.deep_view() =~= ids0.push(new_senses@.last().id@));
                        assert(sense_views(new_senses@) =~= svs0.push(
                            sense_view(new_senses@.last()),
                        ));
                    }
                },
                Err(er) => {
                    proof {
                        lemma_entry_senses_err(node.children@, ci + 1, node.children@.len() as int);
                    }
                    return Err(er);
                },
            }
        }
        ci = ci + 1;
    }
    let t = trim_str(written_form.as_str());
    let ghost entries0 = entry_views(lexical_entries@);
    let ghost senses0 = sense_views(senses@);
    if !t.as_str().is_empty() {
        lexical_entries.push(
            LexicalEntry { id, lemma: Lemma { written_form, part_of_speech }, senses: sense_ids },
        );
        proof {
            assert(entry_views(lexical_entries@) =~= entries0.push(
                entry_view(lexical_entries@.last()),
            ));
            assert(entry_views(lexical_entries@) =~= entries0 + seq![
                entry_view(lexical_entries@.last()),
            ]);
        }
    } else {
        proof {
            assert(entry_views(lexical_entries@) =~= entries0 + Seq::<EntryV>::empty());
        }
    }
    let ghost to_add = sense_views(new_senses@);
    senses.append(&mut new_senses);
    proof {
        assert(sense_views(senses@) =~= senses0 + to_add);
    }
    Ok(())
}

/// Parses one `Synset` element and appends it to the synset table.
pub fn process_synset(node: &XmlElem, synsets: &mut Vec<Synset>) -> (r: Result<(), ImportError>)
    ensures
        match synset_spec(*node) {
            Ok(sv) => r is Ok && synset_views(final(synsets)@) == synset_views(old(synsets)@)
                + seq![sv],
            Err(er) => (r matches Err(ImportError::ParseFailed(m)) && m@ == missing_attr_msg(
                er.0,
                er.1,
            )) && final(synsets)@ == old(synsets)@,
        },
{
    let id = match get_attr(node, "id") {
        Some(v) => v.clone(),
        None => {
            return Err(ImportError::ParseFailed(missing_attr("Synset", "id")));
        },
    };
    let ili = match get_attr(node, "ili") {
        Some(v) => Some(v.clone()),
        None => None,
    };
    let part_of_speech = match get_attr(node, "partOfSpeech") {
        Some(v) => v.clone(),
        None => String::new(),
    };
    let members = match get_attr(node, "members") {
        Some(m) => split_whitespace_tokens(m.as_str()),
        None => Vec::new(),
    };
    proof {
        assert(members.deep_view() =~= match elem_attr(*node, "members"@) {
            Some(m) => split_ws(m),
            None => Seq::<Seq<char>>::empty(),
        });
    }
    let mut definition: Option<String> = None;
    match find_child(node, "Definition") {
        Some(dn) => {
            match &dn.text {
                Some(t) => {
                    definition = Some(trim_str(t.as_str()));
                },
                None => {
                },
            }
        },
        None => {
        },
    }
    if definition.is_none() {
        match find_child(node, "ILIDefinition") {
            Some(dn) => {
                match &dn.text {
                    Some(t) => {
                        definition = Some(trim_str(t.as_str()));
                    },
                    None => {
                    },
                }
            },
            None => {
            },
        }
    }
    proof {
        assert(opt_view(definition) == def_of(node.children@));
    }
    let mut relations: Vec<SynsetRelation> = Vec::new();
    let mut examples: Vec<String> = Vec::new();
    let mut ci: usize = 0;
    proof {
        assert(synset_rel_views(relations@) =~= Seq::<(Seq<char>, Seq<char>)>::empty());
        assert(examples.deep_view() =~= Seq::<Seq<char>>::empty());
    }
    while ci < node.children.len()
        invariant
            ci <= node.children.len(),
            elem_attr(*node, "id"@) is Some,
            synset_rels_upto(node.children@, ci as int) == Ok::<_, ParseErrV>(
                synset_rel_views(relations@),
            ),
            examples.deep_view() == synset_examples_upto(node.children@, ci as int),
        decreases node.children.len() - ci,
    {
        let c = &node.children[ci];
        if str_eq(c.name.as_str(), "SynsetRelation") {
            let rt = match get_attr(c, "relType") {
                Some(v) => v.clone(),
                None => {
                    proof {
                        lemma_synset_rels_err(node.children@, ci + 1, node.children@.len() as int);
                    }
                    return Err(ImportError::ParseFailed(missing_attr("SynsetRelation", "relType")));
                },
            };
            let tg = match get_attr(c, "target") {
                Some(v) => v.clone(),
                None => {
                    proof {
                        lemma_synset_rels_err(node.children@, ci + 1, node.children@.len() as int);
                    }
                    return Err(ImportError::ParseFailed(missing_attr("SynsetRelation", "target")));
                },
            };
            let ghost rels0 = relations@;
            relations.push(SynsetRelation { rel_type: rt, target: tg });
            proof {
                assert(synset_rel_views(relations@) =~= synset_rel_views(rels0).push(
                    (relations@.last().rel_type@, relations@.last().target@),
                ));
            }
        }
        if str_eq(c.name.as_str(), "Example") {
            match &c.text {
                Some(t) => {
                    let ghost ex0 = examples.deep_view();
                    examples.push(trim_str(t.as_str()));
                    proof {
                        assert(examples.deep_view() =~= ex0.push(trim_spec(t@)));
                    }
                },
                None => {
                },
            }
        }
        ci = ci + 1;
    }
    let ghost synsets0 = synset_views(synsets@);
    synsets.push(Synset { id, ili, part_of_speech, definition, examples, relations, members });
    proof {
        assert(synset_views(synsets@) =~= synsets0 + seq![synset_view(synsets@.last())]);
    }
    Ok(())
}

/// Builds the three tables from the element tree of a WordNet LMF document.
pub fn build_wordnet(root: &XmlElem) -> (r: Result<WordNetData, ImportError>)
    ensures
        match wordnet_spec(*root) {
            Ok(tv) => r matches Ok(d) && entry_views(d.lexical_entries@) == tv.0 && sense_views(
                d.senses@,
            ) == tv.1 && synset_views(d.synsets@) == tv.2,
            Err(er) => r matches Err(ImportError::ParseFailed(m)) && m@ == missing_attr_msg(
                er.0,
                er.1,
            ),
        },
{
    let mut lexical_entries: Vec<LexicalEntry> = Vec::new();
    let mut senses: Vec<Sense> = Vec::new();
    let mut synsets: Vec<Synset> = Vec::new();
    proof {
        assert(entry_views(lexical_entries@) =~= Seq::<EntryV>::empty());
        assert(sense_views(senses@) =~= Seq::<SenseV>::empty());
        assert(synset_views(synsets@) =~= Seq::<SynsetV>::empty());
    }
    match find_child(root, "LexicalResource") {
        None => {
            proof {
                assert(entry_views(lexical_entries@) =~= Seq::<EntryV>::empty());
                assert(sense_views(senses@) =~= Seq::<SenseV>::empty());
                assert(synset_views(synsets@) =~= Seq::<SynsetV>::empty());
            }
            Ok(WordNetData { lexical_entries, senses, synsets })
        },
        Some(lr) => {
            let mut li: usize = 0;
            while li < lr.children.len()
                invariant
                    li <= lr.children.len(),
                    first_named(root.children@, "LexicalResource"@) == Some(*lr),
                    lexicons_upto(lr.children@, li as int) == Ok::<_, ParseErrV>(
                        (
                            entry_views(lexical_entries@),
                            sense_views(senses@),
                            synset_views(synsets@),
                        ),
                    ),
                decreases lr.children.len() - li,
            {
                let lx = &lr.children[li];
                if str_eq(lx.name.as_str(), "Lexicon") {
                    let ghost base_e = entry_views(lexical_entries@);
                    let ghost base_s = sense_views(senses@);
                    let ghost base_y = synset_views(synsets@);
                    let mut ci: usize = 0;
                    proof {
                        assert(entry_views(lexical_entries@).skip(base_e.len() as int)
                            =~= Seq::<EntryV>::empty());
                        assert(sense_views(senses@).skip(base_s.len() as int)
                            =~= Seq::<SenseV>::empty());
                        assert(base_e =~= entry_views(lexical_entries@).take(base_e.len() as int));
                        assert(base_s =~= sense_views(senses@).take(base_s.len() as int));
                        assert(base_y =~= synset_views(synsets@).take(base_y.len() as int));
                    }
                    while ci < lx.children.len()
                        invariant
                            ci <= lx.children.len(),
                            li < lr.children.len(),
                            *lx == lr.children@[li as int],
                            lx.name@ == "Lexicon"@,
                            first_named(root.children@, "LexicalResource"@) == Some(*lr),
                            lexicons_upto(lr.children@, li as int) == Ok::<_, ParseErrV>(
                                (base_e, base_s, base_y),
                            ),
                            base_e.len() <= entry_views(lexical_entries@).len(),
                            base_s.len() <= sense_views(senses@).len(),
                            base_e == entry_views(lexical_entries@).take(base_e.len() as int),
                            base_s == sense_views(senses@).take(base_s.len() as int),
                            lexicon_entries_upto(lx.children@, ci as int) == Ok::<_, ParseErrV>(
                                (
                                    entry_views(lexical_entries@).skip(base_e.len() as int),
                                    sense_views(senses@).skip(base_s.len() as int),
                                ),
                            ),
                            synset_views(synsets@) == base_y,
                        decreases lx.children.len() - ci,
                    {
                        let c = &lx.children[ci];
                        if str_eq(c.name.as_str(), "LexicalEntry") {
                            let ghost pe = entry_views(lexical_entries@);
                            let ghost ps = sense_views(senses@);
                            match process_lexical_entry(c, &mut lexical_entries, &mut senses) {
                                Ok(()) => {
                                    proof {
                                        assert(pe =~= pe.take(pe.len() as int));
                                        assert(entry_views(lexical_entries@).take(
                                            base_e.len() as int,
                                        ) =~= base_e);
                                        assert(sense_views(senses@).take(base_s.len() as int)
                                            =~= base_s);
                                        assert(entry_views(lexical_entries@).skip(
                                            base_e.len() as int,
                                        ) =~= pe.skip(base_e.len() as int) + (
                                        match entry_spec(lx.children@[ci as int]) {
                                            Ok(ev) => match ev.0 {
                                                Some(v) => seq![v],
                                                None => Seq::<EntryV>::empty(),
                                            },
                                            Err(_) => Seq::<EntryV>::empty(),
                                        }));
                                        assert(sense_views(senses@).skip(base_s.len() as int)
                                            =~= ps.skip(base_s.len() as int) + (match entry_spec(
                                            lx.children@[ci as int],
                                        ) {
                                            Ok(ev) => ev.1,
                                            Err(_) => Seq::<SenseV>::empty(),
                                        }));
                                        match entry_spec(lx.children@[ci as int]) {
                                            Ok(ev) => {
                                                match ev.0 {
                                                    Some(v) => {
                                                        assert(pe.skip(base_e.len() as int).push(v)
                                                            =~= pe.skip(base_e.len() as int)
                                                            + seq![v]);
                                                    },
                                                    None => {
                                                    },
                                                }
                                            },
                                            Err(_) => {
                                                assert(false);
                                            },
                                        }
                                        assert(lexicon_entries_upto(lx.children@, ci + 1)
                                            == Ok::<_, ParseErrV>(
                                            (
                                                entry_views(lexical_entries@).skip(
                                                    base_e.len() as int,
                                                ),
                                                sense_views(senses@).skip(base_s.len() as int),
                                            ),
                                        ));
                                    }
                                },
                                Err(er) => {
                                    proof {
                                        lemma_lexicon_entries_err(
                                            lx.children@,
                                            ci + 1,
                                            lx.children@.len() as int,
                                        );
                                        lemma_lexicons_err(
                                            lr.children@,
                                            li + 1,
                                            lr.children@.len() as int,
                                        );
                                    }
                                    return Err(er);
                                },
                            }
                        }
                        ci = ci + 1;
                    }
                    let mut si: usize = 0;
                    proof {
                        assert(synset_views(synsets@).skip(base_y.len() as int)
                            =~= Seq::<SynsetV>::empty());
                    }
                    while si < lx.children.len()
                        invariant
                            si <= lx.children.len(),
                            li < lr.children.len(),
                            *lx == lr.children@[li as int],
                            lx.name@ == "Lexicon"@,
                            first_named(root.children@, "LexicalResource"@) == Some(*lr),
                            lexicons_upto(lr.children@, li as int) == Ok::<_, ParseErrV>(
                                (base_e, base_s, base_y),
                            ),
                            base_e.len() <= entry_views(lexical_entries@).len(),
                            base_s.len() <= sense_views(senses@).len(),
                            base_y.len() <= synset_views(synsets@).len(),
                            base_e == entry_views(lexical_entries@).take(base_e.len() as int),
                            base_s == sense_views(senses@).take(base_s.len() as int),
                            base_y == synset_views(synsets@).take(base_y.len() as int),
                            lexicon_entries_upto(lx.children@, lx.children@.len() as int) == Ok::<
                                _,
                                ParseErrV,
                            >(
                                (
                                    entry_views(lexical_entries@).skip(base_e.len() as int),
                                    sense_views(senses@).skip(base_s.len() as int),
                                ),
                            ),
                            lexicon_synsets_upto(lx.children@, si as int) == Ok::<_, ParseErrV>(
                                synset_views(synsets@).skip(base_y.len() as int),
                            ),
                        decreases lx.children.len() - si,
                    {
                        let c = &lx.children[si];
                        if str_eq(c.name.as_str(), "Synset") {
                            let ghost py = synset_views(synsets@);
                            match process_synset(c, &mut synsets) {
                                Ok(()) => {
                                    proof {
                                        assert(synset_views(synsets@).take(base_y.len() as int)
                                            =~= base_y);
                                        assert(synset_views(synsets@).skip(base_y.len() as int)
                                            =~= py.skip(base_y.len() as int) + (match synset_spec(
                                            lx.children@[si as int],
                                        ) {
                                            Ok(sv) => seq![sv],
                                            Err(_) => Seq::<SynsetV>::empty(),
                                        }));
                                        match synset_spec(lx.children@[si as int]) {
                                            Ok(sv) => {
                                                assert(py.skip(base_y.len() as int).push(sv)
                                                    =~= py.skip(base_y.len() as int) + seq![sv]);
                                            },
                                            Err(_) => {
                                                assert(false);
                                            },
                                        }
                                        assert(lexicon_synsets_upto(lx.children@, si + 1)
                                            == Ok::<_, ParseErrV>(
                                            synset_views(synsets@).skip(base_y.len() as int),
                                        ));
                                    }
                                },
                                Err(er) => {
                                    proof {
                                        lemma_lexicon_synsets_err(
                                            lx.children@,
                                            si + 1,
                                            lx.children@.len() as int,
                                        );
                                        lemma_lexicons_err(
                                            lr.children@,
                                            li + 1,
                                            lr.children@.len() as int,
                                        );
                                    }
                                    return Err(er);
                                },
                            }
                        }
                        si = si + 1;
                    }
                    proof {
                        assert(entry_views(lexical_entries@) =~= base_e + entry_views(
                            lexical_entries@,
                        ).skip(base_e.len() as int));
                        assert(sense_views(senses@) =~= base_s + sense_views(senses@).skip(
                            base_s.len() as int,
                        ));
                        assert(synset_views(synsets@) =~= base_y + synset_views(synsets@).skip(
                            base_y.len() as int,
                        ));
                    }
                } else {
                }
                li = li + 1;
            }
            Ok(WordNetData { lexical_entries, senses, synsets })
        },
    }
}

/// Parses WordNet LMF text: the XML parser checks well-formedness and hands
/// over the element tree, and the verified builders construct the tables.
pub fn parse_wordnet_xml(text: &str) -> (r: Result<WordNetData, ImportError>)
    ensures
        match crate::xml::xml_doc(text@) {
            Some(root) => match wordnet_spec(root) {
                Ok(tv) => r matches Ok(d) && entry_views(d.lexical_entries@) == tv.0
                    && sense_views(d.senses@) == tv.1 && synset_views(d.synsets@) == tv.2,
                Err(er) => r matches Err(ImportError::ParseFailed(m)) && m@ == missing_attr_msg(
                    er.0,
                    er.1,
                ),
            },
            None => r is Err,
        },
{
    match crate::xml::parse_document(text) {
        Ok(root) => build_wordnet(&root),
        Err(m) => Err(ImportError::ParseFailed(m)),
    }
}

} // verus!
