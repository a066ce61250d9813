//! The dependency entities: their kind, their constructors, and the total
//! order used to present a collected set.

use vstd::prelude::*;

verus! {

/// The three dependency sections a manifest may declare.
#[derive(Clone, Copy, Debug)]
pub enum NodeModuleTypes {
    Production,
    Development,
    Peer,
}

/// The display glyph of a dependency kind.
pub open spec fn short_of(t: NodeModuleTypes) -> char {
    match t {
        NodeModuleTypes::Production => 'S',
        NodeModuleTypes::Development => 'D',
        NodeModuleTypes::Peer => 'P',
    }
}

/// The long name of a dependency kind.
pub open spec fn long_name_of(t: NodeModuleTypes) -> Seq<char> {
    match t {
        NodeModuleTypes::Production => "production"@,
        NodeModuleTypes::Development => "development"@,
        NodeModuleTypes::Peer => "peer"@,
    }
}

/// A dependency kind as displayed: its long name and its one-character glyph.
#[derive(Debug, PartialEq, Eq)]
pub struct NodeModuleType {
    pub name: String,
    pub short: char,
}

impl NodeModuleType {
    /// A kind is one of the three known (name, glyph) pairs.
    pub open spec fn wf(&self) -> bool {
        ||| (self.name@ == "production"@ && self.short == 'S')
        ||| (self.name@ == "development"@ && self.short == 'D')
        ||| (self.name@ == "peer"@ && self.short == 'P')
    }

    /// Rank used for ordering: `Production` above `Development` above `Peer`.
    pub open spec fn priority(&self) -> int {
        priority_of(self.short)
    }

    /// The kind value displayed for a manifest section.
    pub fn from(types: NodeModuleTypes) -> (r: Self)
        ensures
            r.wf(),
            r.short == short_of(types),
            r.name@ == long_name_of(types),
    {
        match types {
            NodeModuleTypes::Production => NodeModuleType {
                name: "production".to_owned(),
                short: 'S',
            },
            NodeModuleTypes::Development => NodeModuleType {
                name: "development".to_owned(),
                short: 'D',
            },
            NodeModuleTypes::Peer => NodeModuleType {
                name: "peer".to_owned(),
                short: 'P',
            },
        }
    }
}

/// Rank of a kind glyph: `'S'` above `'D'` above `'P'`.
pub open spec fn priority_of(short: char) -> int {
    if short == 'S' {
        2
    } else if short == 'D' {
        1
    } else {
        0
    }
}

/// The mathematical value of one dependency entity.
pub struct ModuleView {
    pub short: char,
    pub name: Seq<char>,
    pub version: Seq<char>,
    pub path: Seq<char>,
    pub selected: bool,
}

/// A dependency collected from a manifest: its kind, its name, its version
/// specifier (kept opaque), the manifest file it came from, and whether the
/// operator has selected it.
#[derive(Debug, PartialEq, Eq)]
pub struct NodeModule {
    pub module_type: NodeModuleType,
    pub name: String,
    pub version: String,
    pub path: String,
    pub selected: bool,
}

impl View for NodeModule {
    type V = ModuleView;

    open spec fn view(&self) -> ModuleView {
        ModuleView {
            short: self.module_type.short,
            name: self.name@,
            version: self.version@,
            path: self.path@,
            selected: self.selected,
        }
    }
}

/// The entity a section entry gives rise to: unselected, tagged with the
/// section's glyph and the manifest path it was found at.
pub open spec fn entry_view(short: char, name: Seq<char>, version: Seq<char>, path: Seq<char>) -> ModuleView {
    ModuleView { short, name, version, path, selected: false }
}

impl NodeModule {
    /// An entity is well formed when its kind is.
    pub open spec fn wf(&self) -> bool {
        self.module_type.wf()
    }

    /// A runtime dependency, unselected.
    pub fn new_production(name: String, version: String, path: String) -> (r: Self)
        ensures
            r.wf(),
            r@ == entry_view('S', name@, version@, path@),
    {
        NodeModule {
            module_type: NodeModuleType::from(NodeModuleTypes::Production),
            name,
            version,
            path,
            selected: false,
        }
    }

    /// A development dependency, unselected.
    pub fn new_development(name: String, version: String, path: String) -> (r: Self)
        ensures
            r.wf(),
            r@ == entry_view('D', name@, version@, path@),
    {
        NodeModule {
            module_type: NodeModuleType::from(NodeModuleTypes::Development),
            name,
            version,
            path,
            selected: false,
        }
    }

    /// A peer dependency, unselected.
    pub fn new_peer(name: String, version: String, path: String) -> (r: Self)
        ensures
            r.wf(),
            r@ == entry_view('P', name@, version@, path@),
    {
        NodeModule {
            module_type: NodeModuleType::from(NodeModuleTypes::Peer),
            name,
            version,
            path,
            selected: false,
        }
    }
}

/// The views of a sequence of entities.
pub open spec fn views(s: Seq<NodeModule>) -> Seq<ModuleView> {
    s.map_values(|m: NodeModule| m@)
}

/// All entities of a sequence are well formed.
pub open spec fn all_wf(s: Seq<NodeModule>) -> bool {
    forall|i: int| 0 <= i < s.len() ==> (#[trigger] s[i]).wf()
}

/// Lexicographic order on character sequences, by code point.
pub open spec fn lex_le(a: Seq<char>, b: Seq<char>) -> bool
    decreases a.len(),
{
    if a.len() == 0 {
        true
    } else if b.len() == 0 {
        false
    } else if a[0] == b[0] {
        lex_le(a.skip(1), b.skip(1))
    } else {
        (a[0] as int) < (b[0] as int)
    }
}

/// `lex_le` holds of every sequence and itself.
pub proof fn lemma_lex_le_reflexive(a: Seq<char>)
    ensures
        lex_le(a, a),
    decreases a.len(),
{
    if a.len() > 0 {
        lemma_lex_le_reflexive(a.skip(1));
    }
}

/// `lex_le` relates every pair of sequences one way or the other.
pub proof fn lemma_lex_le_total(a: Seq<char>, b: Seq<char>)
    ensures
        lex_le(a, b) || lex_le(b, a),
    decreases a.len(),
{
    if a.len() == 0 || b.len() == 0 {
    } else if a[0] == b[0] {
        lemma_lex_le_total(a.skip(1), b.skip(1));
    }
}

/// `lex_le` is transitive.
pub proof fn lemma_lex_le_transitive(a: Seq<char>, b: Seq<char>, c: Seq<char>)
    requires
        lex_le(a, b),
        lex_le(b, c),
    ensures
        lex_le(a, c),
    decreases a.len(),
{
    if a.len() == 0 || b.len() == 0 || c.len() == 0 {
    } else if a[0] == b[0] && b[0] == c[0] {
        lemma_lex_le_transitive(a.skip(1), b.skip(1), c.skip(1));
    }
}

/// Whether `a` comes no earlier than `b` in ascending display key order:
/// first by kind rank, then by name.
pub open spec fn key_le(a: ModuleView, b: ModuleView) -> bool {
    ||| priority_of(a.short) < priority_of(b.short)
    ||| (priority_of(a.short) == priority_of(b.short) && lex_le(a.name, b.name))
}

/// `key_le` holds of every entity and itself.
pub proof fn lemma_key_le_reflexive(a: ModuleView)
    ensures
        key_le(a, a),
{
    lemma_lex_le_reflexive(a.name);
}

/// `key_le` relates every pair of entities one way or the other.
pub proof fn lemma_key_le_total(a: ModuleView, b: ModuleView)
    ensures
        key_le(a, b) || key_le(b, a),
{
    lemma_lex_le_total(a.name, b.name);
}

/// `key_le` is transitive.
pub proof fn lemma_key_le_transitive(a: ModuleView, b: ModuleView, c: ModuleView)
    requires
        key_le(a, b),
        key_le(b, c),
    ensures
        key_le(a, c),
{
    if priority_of(a.short) == priority_of(b.short) && priority_of(b.short) == priority_of(c.short) {
        lemma_lex_le_transitive(a.name, b.name, c.name);
    }
}

/// Entities stand in display order: descending by key, so that runtime
/// dependencies come first and, within one kind, names descend.
pub open spec fn display_sorted(ms: Seq<ModuleView>) -> bool {
    forall|i: int, j: int| 0 <= i <= j < ms.len() ==> key_le(#[trigger] ms[j], #[trigger] ms[i])
}

/// Whether `a` comes no later than `b` lexicographically.
fn str_le(a: &str, b: &str) -> (r: bool)
    ensures
        r == lex_le(a@, b@),
{
    let alen = a.unicode_len();
    let blen = b.unicode_len();
    let mut i: usize = 0;
    proof {
        assert(a@.skip(0) =~= a@);
        assert(b@.skip(0) =~= b@);
    }
    loop
        invariant
            i <= alen,
            i <= blen,
            alen == a@.len(),
            blen == b@.len(),
            lex_le(a@, b@) == lex_le(a@.skip(i as int), b@.skip(i as int)),
        decreases alen - i,
    {
        if i >= alen {
            return true;
        }
        if i >= blen {
            return false;
        }
        let ca = a.get_char(i);
        let cb = b.get_char(i);
        if ca != cb {
            let r = (ca as u32) < (cb as u32);
            proof {
                assert(r == ((ca as int) < (cb as int)));
            }
            return r;
        }
        proof {
            assert(a@.skip(i as int).skip(1) =~= a@.skip(i as int + 1));
            assert(b@.skip(i as int).skip(1) =~= b@.skip(i as int + 1));
        }
        i = i + 1;
    }
}

/// Whether `a` comes no later than `b` in ascending display key order.
fn le_by_key(a: &NodeModule, b: &NodeModule) -> (r: bool)
    ensures
        r == key_le(a@, b@),
{
    let pa: u8 = if a.module_type.short == 'S' {
        2
    } else if a.module_type.short == 'D' {
        1
    } else {
        0
    };
    let pb: u8 = if b.module_type.short == 'S' {
        2
    } else if b.module_type.short == 'D' {
        1
    } else {
        0
    };
    if pa < pb {
        true
    } else if pa > pb {
        false
    } else {
        str_le(a.name.as_str(), b.name.as_str())
    }
}

/// Reorders a collected list for presentation: ascending by (kind rank, name)
/// and then reversed, i.e. descending by key. The result holds exactly the
/// input entities.
pub fn order_for_display(list: Vec<NodeModule>) -> (r: Vec<NodeModule>)
    ensures
        views(r@).to_multiset() == views(list@).to_multiset(),
        display_sorted(views(r@)),
        r@.len() == list@.len(),
        all_wf(list@) ==> all_wf(r@),
{
    broadcast use vstd::seq_lib::group_to_multiset_ensures;

    let mut rest = list;
    let mut out: Vec<NodeModule> = Vec::new();
    proof {
        assert(views(out@).to_multiset().add(views(rest@).to_multiset())
            =~= views(rest@).to_multiset());
    }
    let ghost orig = rest@;
    while rest.len() > 0
        invariant
            views(out@).to_multiset().add(views(rest@).to_multiset())
                == views(orig).to_multiset(),
            display_sorted(views(out@)),
            forall|i: int, j: int|
                0 <= i < out@.len() && 0 <= j < rest@.len()
                    ==> key_le(#[trigger] views(rest@)[j], #[trigger] views(out@)[i]),
            out@.len() + rest@.len() == orig.len(),
            all_wf(orig) ==> all_wf(out@) && all_wf(rest@),
        decreases rest.len(),
    {
        let mut mi: usize = 0;
        let mut k: usize = 1;
        proof {
            lemma_key_le_reflexive(views(rest@)[0]);
        }
        while k < rest.len()
            invariant
                0 < rest@.len(),
                mi < k,
                k <= rest@.len(),
                forall|t: int| 0 <= t < k ==> key_le(#[trigger] views(rest@)[t], views(rest@)[mi as int]),
            decreases rest.len() - k,
        {
            if !le_by_key(&rest[k], &rest[mi]) {
                proof {
                    lemma_key_le_total(rest@[k as int]@, rest@[mi as int]@);
                    assert forall|t: int| 0 <= t < k + 1 implies
                        key_le(#[trigger] views(rest@)[t], views(rest@)[k as int]) by {
                        if t < k {
                            lemma_key_le_transitive(
                                views(rest@)[t],
                                views(rest@)[mi as int],
                                views(rest@)[k as int],
                            );
                        } else {
                            lemma_key_le_reflexive(views(rest@)[t]);
                        }
                    }
                }
                mi = k;
            }
            k = k + 1;
        }
        let ghost old_out = out@;
        let ghost old_rest = rest@;
        let x = rest.remove(mi);
        out.push(x);
        proof {
            broadcast use vstd::multiset::group_multiset_axioms;

            assert(views(rest@) =~= views(old_rest).remove(mi as int));
            assert(views(out@) =~= views(old_out).push(x@));
            assert(x@ == views(old_rest)[mi as int]);
            vstd::seq_lib::to_multiset_build(views(old_out), x@);
            vstd::seq_lib::to_multiset_remove(views(old_rest), mi as int);
            assert(views(out@).to_multiset() == views(old_out).to_multiset().insert(x@));
            assert(views(rest@).to_multiset() == views(old_rest).to_multiset().remove(x@));
            assert(views(old_rest).contains(x@));
            vstd::seq_lib::to_multiset_contains(views(old_rest), x@);
            assert(views(old_rest).to_multiset().count(x@) > 0);
            assert(views(out@).to_multiset().add(views(rest@).to_multiset())
                =~= views(old_out).to_multiset().add(views(old_rest).to_multiset()));
            assert forall|i: int, j: int|
                0 <= i < out@.len() && 0 <= j < rest@.len()
                    implies key_le(#[trigger] views(rest@)[j], #[trigger] views(out@)[i]) by {
                if i < old_out.len() {
                    assert(views(out@)[i] == views(old_out)[i]);
                }
            }
            assert(display_sorted(views(out@)));
        }
    }
    out
}

/// The documented presentation order, spelled out: every entity of a higher
/// kind rank stands before every entity of a lower one, and within one kind
/// names descend.
pub proof fn lemma_display_order_groups_kinds(ms: Seq<ModuleView>)
    requires
        display_sorted(ms),
    ensures
        forall|i: int, j: int|
            0 <= i < ms.len() && 0 <= j < ms.len()
                && priority_of((#[trigger] ms[i]).short) > priority_of((#[trigger] ms[j]).short)
                ==> i < j,
        forall|i: int, j: int|
            0 <= i <= j < ms.len() && (#[trigger] ms[i]).short == (#[trigger] ms[j]).short
                ==> lex_le(ms[j].name, ms[i].name),
{
    assert forall|i: int, j: int|
        0 <= i < ms.len() && 0 <= j < ms.len()
            && priority_of((#[trigger] ms[i]).short) > priority_of((#[trigger] ms[j]).short)
            implies i < j by {
        if i >= j {
            assert(key_le(ms[i], ms[j]));
        }
    }
}

} // verus!
