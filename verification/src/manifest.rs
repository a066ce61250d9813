//! Reading one manifest's dependency sections and collecting the entities an
//! ancestor chain of manifests declares, first seen wins.

use vstd::prelude::*;
use crate::node_module::{
    all_wf, entry_view, short_of, views, ModuleView, NodeModule, NodeModuleTypes,
};

verus! {

/// The (name, version) pairs of one dependency section, in the order the
/// parser hands them out.
pub type SectionView = Seq<(Seq<char>, Seq<char>)>;

/// The three dependency sections a manifest text yields, in the fixed order
/// runtime, development, peer.
pub type SectionsView = (SectionView, SectionView, SectionView);

/// The three dependency sections read out of one manifest file.
#[derive(Debug)]
pub struct ManifestSections {
    pub production: Vec<(String, String)>,
    pub development: Vec<(String, String)>,
    pub peer: Vec<(String, String)>,
}

/// The views of a section's (name, version) pairs.
pub open spec fn pairs_view(pairs: Seq<(String, String)>) -> SectionView {
    pairs.map_values(|p: (String, String)| (p.0@, p.1@))
}

/// The view of a whole parsed manifest.
pub open spec fn sections_view(s: ManifestSections) -> SectionsView {
    (pairs_view(s.production@), pairs_view(s.development@), pairs_view(s.peer@))
}

/// What parsing a manifest text yields: `None` when the text is not a
/// well-formed manifest, otherwise the three sections. The result is a
/// function of the text alone: the parser iterates each section's mapping in
/// a deterministic (key-sorted) order.
pub uninterp spec fn manifest_sections_of(text: Seq<char>) -> Option<SectionsView>;

/// Relies on `serde_json::from_str` to parse the text as a JSON document, and
/// on `serde_json::Value::get` / `as_object` / `as_str` to read the three
/// dependency sections out of it. A missing section yields no pairs; a section
/// that is not an object of strings, or a text that is not JSON, fails the
/// whole parse. `serde_json`'s maps are key-sorted, so the pair order is a
/// function of the text alone.
#[verifier::external_body]
fn parse_manifest_text(text: &str) -> (r: Option<ManifestSections>)
    ensures
        (match r {
            Some(m) => manifest_sections_of(text@) == Some(sections_view(m)),
            None => manifest_sections_of(text@) is None,
        }),
{
    let doc: serde_json::Value = serde_json::from_str(text).ok()?;
    let grab = |key: &str| -> Option<Vec<(String, String)>> {
        match doc.get(key) {
            None => Some(Vec::new()),
            Some(serde_json::Value::Object(map)) =>
                map.iter().map(|(k, v)| v.as_str().map(|s| (k.clone(), s.to_owned()))).collect(),
            Some(_) => None,
        }
    };
    let (p, d, e) = (grab("dependencies")?, grab("devDependencies")?, grab("peerDependencies")?);
    Some(ManifestSections { production: p, development: d, peer: e })
}

/// One manifest file of the ancestor chain: where it stands and what it holds.
#[derive(Debug)]
pub struct ManifestDocument {
    pub path: String,
    pub text: String,
}

impl View for ManifestDocument {
    type V = (Seq<char>, Seq<char>);

    open spec fn view(&self) -> (Seq<char>, Seq<char>) {
        (self.path@, self.text@)
    }
}

/// The views of a chain of manifest documents, nearest first.
pub open spec fn doc_views(docs: Seq<ManifestDocument>) -> Seq<(Seq<char>, Seq<char>)> {
    docs.map_values(|d: ManifestDocument| d@)
}

/// A collected sequence holds an entity of the given name.
pub open spec fn has_name(ms: Seq<ModuleView>, name: Seq<char>) -> bool {
    exists|k: int| 0 <= k < ms.len() && (#[trigger] ms[k]).name == name
}

/// The entities one section contributes, in section order.
pub open spec fn section_entries(pairs: SectionView, short: char, path: Seq<char>) -> Seq<ModuleView> {
    pairs.map_values(|p: (Seq<char>, Seq<char>)| entry_view(short, p.0, p.1, path))
}

/// The entities one manifest contributes, runtime then development then peer.
pub open spec fn doc_entries(sections: SectionsView, path: Seq<char>) -> Seq<ModuleView> {
    section_entries(sections.0, 'S', path) + section_entries(sections.1, 'D', path)
        + section_entries(sections.2, 'P', path)
}

/// Appends each entry whose name is not yet present; entries for names already
/// present are discarded entirely.
pub open spec fn insert_new(acc: Seq<ModuleView>, entries: Seq<ModuleView>) -> Seq<ModuleView>
    decreases entries.len(),
{
    if entries.len() == 0 {
        acc
    } else {
        let acc2 = if has_name(acc, entries[0].name) {
            acc
        } else {
            acc.push(entries[0])
        };
        insert_new(acc2, entries.skip(1))
    }
}

/// Folds a chain of (path, text) documents, nearest first, into the collected
/// entity sequence; the first document that fails to parse aborts the whole
/// collection with its path.
pub open spec fn collect_from(
    acc: Seq<ModuleView>,
    docs: Seq<(Seq<char>, Seq<char>)>,
) -> Result<Seq<ModuleView>, Seq<char>>
    decreases docs.len(),
{
    if docs.len() == 0 {
        Ok(acc)
    } else {
        match manifest_sections_of(docs[0].1) {
            None => Err(docs[0].0),
            Some(sections) => collect_from(
                insert_new(acc, doc_entries(sections, docs[0].0)),
                docs.skip(1),
            ),
        }
    }
}

/// No two collected entities share a name.
pub open spec fn distinct_names(ms: Seq<ModuleView>) -> bool {
    forall|i: int, j: int|
        0 <= i < j < ms.len() ==> (#[trigger] ms[i]).name != (#[trigger] ms[j]).name
}

/// A manifest parse failed; the run must abort. Holds the path of the
/// offending manifest file.
#[derive(Debug, PartialEq, Eq)]
pub struct ParseError {
    pub path: String,
}

/// Whether the accumulated list already holds an entity of this name.
fn contains_name(list: &Vec<NodeModule>, name: &String) -> (r: bool)
    ensures
        r == has_name(views(list@), name@),
{
    let mut k: usize = 0;
    while k < list.len()
        invariant
            k <= list@.len(),
            forall|t: int| 0 <= t < k ==> (#[trigger] views(list@)[t]).name != name@,
        decreases list@.len() - k,
    {
        if list[k].name == *name {
            proof {
                assert(views(list@)[k as int].name == name@);
            }
            return true;
        }
        k = k + 1;
    }
    false
}

/// Appends to `out` each pair of one section whose name is not yet present,
/// as an entity of the section's kind found at `path`.
fn insert_section(
    out: &mut Vec<NodeModule>,
    pairs: &Vec<(String, String)>,
    kind: NodeModuleTypes,
    path: &String,
)
    ensures
        views(final(out)@) == insert_new(
            views(old(out)@),
            section_entries(pairs_view(pairs@), short_of(kind), path@),
        ),
        all_wf(old(out)@) ==> all_wf(final(out)@),
        distinct_names(views(old(out)@)) ==> distinct_names(views(final(out)@)),
{
    let ghost entries = section_entries(pairs_view(pairs@), short_of(kind), path@);
    let mut i: usize = 0;
    proof {
        assert(entries.skip(0) =~= entries);
    }
    while i < pairs.len()
        invariant
            i <= pairs@.len(),
            entries == section_entries(pairs_view(pairs@), short_of(kind), path@),
            entries.len() == pairs@.len(),
            insert_new(views(out@), entries.skip(i as int)) == insert_new(views(old(out)@), entries),
            all_wf(old(out)@) ==> all_wf(out@),
            distinct_names(views(old(out)@)) ==> distinct_names(views(out@)),
        decreases pairs@.len() - i,
    {
        proof {
            assert(entries.skip(i as int)[0] == entries[i as int]);
            assert(entries.skip(i as int).skip(1) =~= entries.skip(i as int + 1));
        }
        let ghost pre = views(out@);
        let name_found = contains_name(out, &pairs[i].0);
        if !name_found {
            let m = match kind {
                NodeModuleTypes::Production => NodeModule::new_production(
                    pairs[i].0.clone(),
                    pairs[i].1.clone(),
                    path.clone(),
                ),
                NodeModuleTypes::Development => NodeModule::new_development(
                    pairs[i].0.clone(),
                    pairs[i].1.clone(),
                    path.clone(),
                ),
                NodeModuleTypes::Peer => NodeModule::new_peer(
                    pairs[i].0.clone(),
                    pairs[i].1.clone(),
                    path.clone(),
                ),
            };
            proof {
                assert(m@ == entries[i as int]);
            }
            out.push(m);
            proof {
                assert(views(out@) =~= pre.push(m@));
            }
        }
        i = i + 1;
    }
    proof {
        assert(entries.skip(i as int) =~= Seq::<ModuleView>::empty());
    }
}

/// Collects the dependencies an ancestor chain of manifests declares, nearest
/// manifest first: each (name, version) pair of each section becomes one
/// entity unless an earlier manifest, or an earlier section of the same
/// manifest, already declared the name. A document that does not parse as a
/// manifest aborts the collection with that document's path.
pub fn collect_dependencies(documents: &Vec<ManifestDocument>) -> (r: Result<
    Vec<NodeModule>,
    ParseError,
>)
    ensures
        (match r {
            Ok(list) => collect_from(Seq::empty(), doc_views(documents@))
                == Ok::<Seq<ModuleView>, Seq<char>>(views(list@)) && all_wf(list@)
                && distinct_names(views(list@)),
            Err(e) => collect_from(Seq::empty(), doc_views(documents@))
                == Err::<Seq<ModuleView>, Seq<char>>(e.path@),
        }),
{
    let ghost dv = doc_views(documents@);
    let mut out: Vec<NodeModule> = Vec::new();
    let mut idx: usize = 0;
    proof {
        assert(views(out@) =~= Seq::<ModuleView>::empty());
        assert(dv.skip(0) =~= dv);
    }
    while idx < documents.len()
        invariant
            idx <= documents@.len(),
            dv == doc_views(documents@),
            dv.len() == documents@.len(),
            collect_from(views(out@), dv.skip(idx as int)) == collect_from(Seq::empty(), dv),
            all_wf(out@),
            distinct_names(views(out@)),
        decreases documents@.len() - idx,
    {
        proof {
            assert(dv.skip(idx as int)[0] == dv[idx as int]);
            assert(dv.skip(idx as int).skip(1) =~= dv.skip(idx as int + 1));
        }
        let doc = &documents[idx];
        match parse_manifest_text(doc.text.as_str()) {
            None => {
                return Err(ParseError { path: doc.path.clone() });
            },
            Some(sections) => {
                let ghost acc0 = views(out@);
                let ghost sv = sections_view(sections);
                let ghost e_prod = section_entries(sv.0, 'S', doc.path@);
                let ghost e_dev = section_entries(sv.1, 'D', doc.path@);
                let ghost e_peer = section_entries(sv.2, 'P', doc.path@);
                insert_section(&mut out, &sections.production, NodeModuleTypes::Production, &doc.path);
                insert_section(&mut out, &sections.development, NodeModuleTypes::Development, &doc.path);
                insert_section(&mut out, &sections.peer, NodeModuleTypes::Peer, &doc.path);
                proof {
                    lemma_insert_new_app(acc0, e_prod, e_dev);
                    lemma_insert_new_app(acc0, e_prod + e_dev, e_peer);
                    assert(views(out@) == insert_new(acc0, doc_entries(sv, doc.path@)));
                }
            },
        }
        idx = idx + 1;
    }
    proof {
        assert(dv.skip(idx as int) =~= Seq::<(Seq<char>, Seq<char>)>::empty());
    }
    Ok(out)
}

/// Discarding into an accumulator distributes over concatenation of the
/// incoming entries.
pub proof fn lemma_insert_new_app(acc: Seq<ModuleView>, xs: Seq<ModuleView>, ys: Seq<ModuleView>)
    ensures
        insert_new(acc, xs + ys) == insert_new(insert_new(acc, xs), ys),
    decreases xs.len(),
{
    if xs.len() == 0 {
        assert(xs + ys =~= ys);
    } else {
        assert((xs + ys)[0] == xs[0]);
        assert((xs + ys).skip(1) =~= xs.skip(1) + ys);
        let acc2 = if has_name(acc, xs[0].name) {
            acc
        } else {
            acc.push(xs[0])
        };
        lemma_insert_new_app(acc2, xs.skip(1), ys);
    }
}

/// Every document of a chain parses as a manifest.
pub open spec fn all_parse(docs: Seq<(Seq<char>, Seq<char>)>) -> bool {
    forall|i: int| 0 <= i < docs.len() ==> manifest_sections_of((#[trigger] docs[i]).1) is Some
}

/// Every declaration the chain makes, in walk order: a manifest's entries come
/// before a farther manifest's, and within one manifest the sections come in
/// their fixed order. (Documents that do not parse contribute nothing; the
/// collection has already failed on them.)
pub open spec fn all_entries(docs: Seq<(Seq<char>, Seq<char>)>) -> Seq<ModuleView>
    decreases docs.len(),
{
    if docs.len() == 0 {
        Seq::empty()
    } else {
        match manifest_sections_of(docs[0].1) {
            Some(sections) => doc_entries(sections, docs[0].0) + all_entries(docs.skip(1)),
            None => all_entries(docs.skip(1)),
        }
    }
}

/// How often the chain declares this name.
pub open spec fn count_name(ms: Seq<ModuleView>, name: Seq<char>) -> nat
    decreases ms.len(),
{
    if ms.len() == 0 {
        0
    } else {
        (if ms[0].name == name {
            1nat
        } else {
            0nat
        }) + count_name(ms.skip(1), name)
    }
}

/// The earliest entity of this name.
pub open spec fn first_with_name(ms: Seq<ModuleView>, name: Seq<char>) -> ModuleView
    decreases ms.len(),
{
    if ms.len() == 0 {
        arbitrary()
    } else if ms[0].name == name {
        ms[0]
    } else {
        first_with_name(ms.skip(1), name)
    }
}

/// A name stands in a non-empty sequence at its head or in its tail.
proof fn lemma_has_name_unfold(ms: Seq<ModuleView>, name: Seq<char>)
    requires
        ms.len() > 0,
    ensures
        has_name(ms, name) <==> (ms[0].name == name || has_name(ms.skip(1), name)),
{
    if has_name(ms, name) {
        let k = choose|k: int| 0 <= k < ms.len() && ms[k].name == name;
        if k > 0 {
            assert(ms.skip(1)[k - 1] == ms[k]);
        }
    }
    if has_name(ms.skip(1), name) {
        let k = choose|k: int| 0 <= k < ms.skip(1).len() && ms.skip(1)[k].name == name;
        assert(ms[k + 1] == ms.skip(1)[k]);
    }
}

/// A name is absent exactly when it is never counted.
pub proof fn lemma_count_zero_iff_absent(ms: Seq<ModuleView>, name: Seq<char>)
    ensures
        (count_name(ms, name) == 0) <==> !has_name(ms, name),
    decreases ms.len(),
{
    if ms.len() > 0 {
        lemma_has_name_unfold(ms, name);
        lemma_count_zero_iff_absent(ms.skip(1), name);
    }
}

/// Appending one entity raises the name's count by one exactly when the names
/// match.
proof fn lemma_count_name_push(ms: Seq<ModuleView>, m: ModuleView, name: Seq<char>)
    ensures
        count_name(ms.push(m), name) == count_name(ms, name) + (if m.name == name {
            1nat
        } else {
            0nat
        }),
    decreases ms.len(),
{
    if ms.len() == 0 {
        assert(ms.push(m)[0] == m);
        assert(ms.push(m).skip(1) =~= Seq::<ModuleView>::empty());
        assert(count_name(ms.push(m).skip(1), name) == 0);
        assert(count_name(ms, name) == 0);
    } else {
        assert(ms.push(m)[0] == ms[0]);
        assert(ms.push(m).skip(1) =~= ms.skip(1).push(m));
        lemma_count_name_push(ms.skip(1), m, name);
        assert(count_name(ms.push(m), name) == (if ms[0].name == name {
            1nat
        } else {
            0nat
        }) + count_name(ms.skip(1).push(m), name));
    }
}

/// Appending one entity never changes which entity of a name comes first,
/// unless the name was absent and the appended entity carries it.
proof fn lemma_first_with_name_push(ms: Seq<ModuleView>, m: ModuleView, name: Seq<char>)
    ensures
        has_name(ms, name) ==> first_with_name(ms.push(m), name) == first_with_name(ms, name),
        (!has_name(ms, name) && m.name == name) ==> first_with_name(ms.push(m), name) == m,
    decreases ms.len(),
{
    if ms.len() == 0 {
        assert(ms.push(m)[0] == m);
    } else {
        lemma_has_name_unfold(ms, name);
        assert(ms.push(m)[0] == ms[0]);
        assert(ms.push(m).skip(1) =~= ms.skip(1).push(m));
        if ms[0].name == name {
            assert(has_name(ms, name));
        } else {
            lemma_first_with_name_push(ms.skip(1), m, name);
        }
    }
}

/// Appending one entity adds exactly its name to those present.
proof fn lemma_has_name_push(ms: Seq<ModuleView>, m: ModuleView, name: Seq<char>)
    ensures
        has_name(ms.push(m), name) <==> (has_name(ms, name) || m.name == name),
{
    if has_name(ms, name) {
        let k = choose|k: int| 0 <= k < ms.len() && ms[k].name == name;
        assert(ms.push(m)[k] == ms[k]);
    }
    if m.name == name {
        assert(ms.push(m)[ms.len() as int] == m);
    }
    if has_name(ms.push(m), name) {
        let k = choose|k: int| 0 <= k < ms.push(m).len() && ms.push(m)[k].name == name;
        if k < ms.len() {
            assert(ms[k] == ms.push(m)[k]);
        }
    }
}

/// What first-seen-wins keeps of a name: an accumulated entity stays
/// untouched; a new name's earliest incoming entity is kept once; all later
/// declarations of the name are discarded.
pub proof fn lemma_insert_new_lookup(acc: Seq<ModuleView>, es: Seq<ModuleView>, name: Seq<char>)
    ensures
        has_name(insert_new(acc, es), name) <==> (has_name(acc, name) || has_name(es, name)),
        has_name(acc, name) ==> count_name(insert_new(acc, es), name) == count_name(acc, name)
            && first_with_name(insert_new(acc, es), name) == first_with_name(acc, name),
        (!has_name(acc, name) && has_name(es, name)) ==> count_name(insert_new(acc, es), name)
            == count_name(acc, name) + 1 && first_with_name(insert_new(acc, es), name)
            == first_with_name(es, name),
        (!has_name(acc, name) && !has_name(es, name)) ==> count_name(insert_new(acc, es), name)
            == count_name(acc, name),
    decreases es.len(),
{
    if es.len() > 0 {
        let h = es[0];
        lemma_has_name_unfold(es, name);
        if has_name(acc, h.name) {
            lemma_insert_new_lookup(acc, es.skip(1), name);
        } else {
            let acc2 = acc.push(h);
            lemma_has_name_push(acc, h, name);
            lemma_count_name_push(acc, h, name);
            lemma_first_with_name_push(acc, h, name);
            lemma_insert_new_lookup(acc2, es.skip(1), name);
        }
    }
}

/// A chain collects successfully exactly when every document parses.
pub proof fn lemma_collect_ok_iff_all_parse(acc: Seq<ModuleView>, docs: Seq<(Seq<char>, Seq<char>)>)
    ensures
        collect_from(acc, docs) is Ok <==> all_parse(docs),
    decreases docs.len(),
{
    if docs.len() > 0 {
        match manifest_sections_of(docs[0].1) {
            None => {
                assert(!all_parse(docs));
            },
            Some(sections) => {
                let acc2 = insert_new(acc, doc_entries(sections, docs[0].0));
                lemma_collect_ok_iff_all_parse(acc2, docs.skip(1));
                if all_parse(docs) {
                    assert forall|i: int| 0 <= i < docs.skip(1).len() implies
                        manifest_sections_of((#[trigger] docs.skip(1)[i]).1) is Some by {
                        assert(docs.skip(1)[i] == docs[i + 1]);
                    }
                }
                if all_parse(docs.skip(1)) {
                    assert forall|i: int| 0 <= i < docs.len() implies
                        manifest_sections_of((#[trigger] docs[i]).1) is Some by {
                        if i > 0 {
                            assert(docs.skip(1)[i - 1] == docs[i]);
                        }
                    }
                }
            },
        }
    }
}

/// A fully parsing chain collects to exactly the first-seen-wins merge of its
/// declaration stream.
pub proof fn lemma_collect_all(acc: Seq<ModuleView>, docs: Seq<(Seq<char>, Seq<char>)>)
    requires
        all_parse(docs),
    ensures
        collect_from(acc, docs) == Ok::<Seq<ModuleView>, Seq<char>>(
            insert_new(acc, all_entries(docs)),
        ),
    decreases docs.len(),
{
    if docs.len() == 0 {
    } else {
        let sections = manifest_sections_of(docs[0].1)->Some_0;
        let de = doc_entries(sections, docs[0].0);
        assert forall|i: int| 0 <= i < docs.skip(1).len() implies
            manifest_sections_of((#[trigger] docs.skip(1)[i]).1) is Some by {
            assert(docs.skip(1)[i] == docs[i + 1]);
        }
        lemma_collect_all(insert_new(acc, de), docs.skip(1));
        lemma_insert_new_app(acc, de, all_entries(docs.skip(1)));
    }
}

/// First-seen-wins, stated of the whole run: whenever any manifest of a fully
/// parsing chain declares a name, the collected set holds exactly one entity
/// of that name, and it is the earliest declaration in walk order — the
/// nearest manifest's, from its earliest section. Every farther declaration is
/// ignored entirely, whatever kind or version it carries.
pub proof fn lemma_first_declaration_wins(docs: Seq<(Seq<char>, Seq<char>)>, name: Seq<char>)
    requires
        all_parse(docs),
        has_name(all_entries(docs), name),
    ensures
        collect_from(Seq::empty(), docs) is Ok,
        count_name(collect_from(Seq::empty(), docs)->Ok_0, name) == 1,
        first_with_name(collect_from(Seq::empty(), docs)->Ok_0, name) == first_with_name(
            all_entries(docs),
            name,
        ),
{
    lemma_collect_all(Seq::empty(), docs);
    lemma_count_zero_iff_absent(Seq::empty(), name);
    lemma_insert_new_lookup(Seq::empty(), all_entries(docs), name);
}

/// A name the chain declares exactly once is collected exactly once, with the
/// kind, version and source path of that single declaration.
pub proof fn lemma_single_declaration_collected(docs: Seq<(Seq<char>, Seq<char>)>, name: Seq<char>)
    requires
        all_parse(docs),
        count_name(all_entries(docs), name) == 1,
    ensures
        collect_from(Seq::empty(), docs) is Ok,
        count_name(collect_from(Seq::empty(), docs)->Ok_0, name) == 1,
        first_with_name(collect_from(Seq::empty(), docs)->Ok_0, name) == first_with_name(
            all_entries(docs),
            name,
        ),
{
    lemma_count_zero_iff_absent(all_entries(docs), name);
    lemma_first_declaration_wins(docs, name);
}

/// The entities one document of the chain contributes: none when it does not
/// parse.
pub open spec fn doc_entries_of(docs: Seq<(Seq<char>, Seq<char>)>, i: int) -> Seq<ModuleView> {
    match manifest_sections_of(docs[i].1) {
        Some(sections) => doc_entries(sections, docs[i].0),
        None => Seq::empty(),
    }
}

/// A name stands in a concatenation exactly when it stands in one of the
/// parts.
proof fn lemma_has_name_app(a: Seq<ModuleView>, b: Seq<ModuleView>, name: Seq<char>)
    ensures
        has_name(a + b, name) <==> (has_name(a, name) || has_name(b, name)),
{
    if has_name(a, name) {
        let k = choose|k: int| 0 <= k < a.len() && a[k].name == name;
        assert((a + b)[k] == a[k]);
    }
    if has_name(b, name) {
        let k = choose|k: int| 0 <= k < b.len() && b[k].name == name;
        assert((a + b)[a.len() + k] == b[k]);
    }
    if has_name(a + b, name) {
        let k = choose|k: int| 0 <= k < (a + b).len() && (a + b)[k].name == name;
        if k < a.len() {
            assert(a[k] == (a + b)[k]);
        } else {
            assert(b[k - a.len()] == (a + b)[k]);
        }
    }
}

/// The earliest entity of a name in a concatenation comes from the first part
/// that holds the name.
proof fn lemma_first_with_name_app(a: Seq<ModuleView>, b: Seq<ModuleView>, name: Seq<char>)
    ensures
        has_name(a, name) ==> first_with_name(a + b, name) == first_with_name(a, name),
        (!has_name(a, name) && has_name(b, name)) ==> first_with_name(a + b, name)
            == first_with_name(b, name),
    decreases a.len(),
{
    if a.len() == 0 {
        assert(a + b =~= b);
    } else {
        lemma_has_name_unfold(a, name);
        assert((a + b)[0] == a[0]);
        assert((a + b).skip(1) =~= a.skip(1) + b);
        if a[0].name == name {
        } else {
            lemma_first_with_name_app(a.skip(1), b, name);
        }
    }
}

/// The earliest declaration of a name in the whole stream is the earliest one
/// of the first document that declares it.
proof fn lemma_all_entries_first(docs: Seq<(Seq<char>, Seq<char>)>, name: Seq<char>, i: int)
    requires
        all_parse(docs),
        0 <= i < docs.len(),
        has_name(doc_entries_of(docs, i), name),
        forall|k: int| 0 <= k < i ==> !has_name(doc_entries_of(docs, k), name),
    ensures
        has_name(all_entries(docs), name),
        first_with_name(all_entries(docs), name) == first_with_name(doc_entries_of(docs, i), name),
    decreases i,
{
    let de0 = doc_entries_of(docs, 0);
    let rest = all_entries(docs.skip(1));
    assert(all_entries(docs) == de0 + rest);
    lemma_has_name_app(de0, rest, name);
    lemma_first_with_name_app(de0, rest, name);
    if i == 0 {
    } else {
        assert(!has_name(de0, name));
        assert forall|k: int| 0 <= k < docs.skip(1).len() implies
            manifest_sections_of((#[trigger] docs.skip(1)[k]).1) is Some by {
            assert(docs.skip(1)[k] == docs[k + 1]);
        }
        assert(docs.skip(1)[i - 1] == docs[i]);
        assert(doc_entries_of(docs.skip(1), i - 1) == doc_entries_of(docs, i));
        assert forall|k: int| 0 <= k < i - 1 implies !has_name(
            doc_entries_of(docs.skip(1), k),
            name,
        ) by {
            assert(docs.skip(1)[k] == docs[k + 1]);
            assert(doc_entries_of(docs.skip(1), k) == doc_entries_of(docs, k + 1));
        }
        lemma_all_entries_first(docs.skip(1), name, i - 1);
    }
}

/// The nearer of two declarations wins: when document `i` of a fully parsing
/// chain declares a name and no nearer document does, the collected set holds
/// exactly one entity of that name — document `i`'s earliest declaration of
/// it, whatever kinds or versions farther documents assign.
pub proof fn lemma_nearest_declaration_is_kept(
    docs: Seq<(Seq<char>, Seq<char>)>,
    name: Seq<char>,
    i: int,
)
    requires
        all_parse(docs),
        0 <= i < docs.len(),
        has_name(doc_entries_of(docs, i), name),
        forall|k: int| 0 <= k < i ==> !has_name(doc_entries_of(docs, k), name),
    ensures
        collect_from(Seq::empty(), docs) is Ok,
        count_name(collect_from(Seq::empty(), docs)->Ok_0, name) == 1,
        first_with_name(collect_from(Seq::empty(), docs)->Ok_0, name) == first_with_name(
            doc_entries_of(docs, i),
            name,
        ),
{
    lemma_all_entries_first(docs, name, i);
    lemma_first_declaration_wins(docs, name);
}

/// A name no manifest declares is not collected.
pub proof fn lemma_undeclared_name_not_collected(docs: Seq<(Seq<char>, Seq<char>)>, name: Seq<char>)
    requires
        all_parse(docs),
        !has_name(all_entries(docs), name),
    ensures
        collect_from(Seq::empty(), docs) is Ok,
        !has_name(collect_from(Seq::empty(), docs)->Ok_0, name),
        count_name(collect_from(Seq::empty(), docs)->Ok_0, name) == 0,
{
    lemma_collect_all(Seq::empty(), docs);
    lemma_insert_new_lookup(Seq::empty(), all_entries(docs), name);
    lemma_count_zero_iff_absent(collect_from(Seq::empty(), docs)->Ok_0, name);
}

} // verus!
