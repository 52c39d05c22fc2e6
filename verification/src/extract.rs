//! From a document to its events.
//!
//! The names are collected first, from every `score-part` of the document,
//! and only then are the parts walked: a `part` may stand before the
//! `score-part` that names it. A declaration counts wherever it stands; a
//! `part` counts only at the top level, directly under the root element.
use vstd::prelude::*;
use crate::catalog::PartNameCatalog;
use crate::event::{measure_event, Event, EventView};
use crate::tree::{
    attribute_value, children_upto, first_child_named, has_tag, is_top_level, lemma_named_upto,
    named_upto, places, read_tree, xml_nodes, NodeView, ParseError, Tree,
};

verus! {

/// The tag of an element that declares a part.
pub open spec fn score_part_tag() -> Seq<char> {
    "score-part"@
}

/// The tag of the element that holds a declared part's name.
pub open spec fn part_name_tag() -> Seq<char> {
    "part-name"@
}

/// The tag of an element that holds the music of a part.
pub open spec fn part_tag() -> Seq<char> {
    "part"@
}

/// The tag of a measure.
pub open spec fn measure_tag() -> Seq<char> {
    "measure"@
}

/// The attribute by which a declaration and a part are matched.
pub open spec fn id_attribute() -> Seq<char> {
    "id"@
}

/// The instrument of a part that no declaration names.
pub open spec fn unknown_instrument() -> Seq<char> {
    "Unknown"@
}

/// The identifier and the name that node `i` declares, if it is a
/// `score-part` with an `id` whose first `part-name` begins with text.
pub open spec fn declared_name(tree: Seq<NodeView>, i: int) -> Option<(Seq<char>, Seq<char>)> {
    if !has_tag(tree[i], score_part_tag()) {
        None
    } else {
        match attribute_value(tree[i].attributes, id_attribute()) {
            None => None,
            Some(id) => match first_child_named(tree, i, part_name_tag()) {
                None => None,
                Some(c) => match tree[c].text {
                    None => None,
                    Some(name) => if name.len() > 0 {
                        Some((id, name))
                    } else {
                        None
                    },
                },
            },
        }
    }
}

/// The names declared by the first `n` nodes, a later declaration of an
/// identifier overriding an earlier one.
pub open spec fn catalog_upto(tree: Seq<NodeView>, n: nat) -> Map<Seq<char>, Seq<char>>
    decreases n,
{
    if n == 0 {
        Map::empty()
    } else {
        let before = catalog_upto(tree, (n - 1) as nat);
        match declared_name(tree, n - 1) {
            Some((id, name)) => before.insert(id, name),
            None => before,
        }
    }
}

/// The names declared anywhere in the document.
pub open spec fn catalog_of(tree: Seq<NodeView>) -> Map<Seq<char>, Seq<char>> {
    catalog_upto(tree, tree.len())
}

/// The identifier of node `i`: its `id`, or the empty text where it has none.
pub open spec fn part_id(tree: Seq<NodeView>, i: int) -> Seq<char> {
    match attribute_value(tree[i].attributes, id_attribute()) {
        Some(id) => id,
        None => Seq::empty(),
    }
}

/// The instrument of the part at node `i`: the name declared for its
/// identifier, or `Unknown`.
pub open spec fn instrument_of(tree: Seq<NodeView>, i: int) -> Seq<char> {
    let names = catalog_of(tree);
    if names.contains_key(part_id(tree, i)) {
        names[part_id(tree, i)]
    } else {
        unknown_instrument()
    }
}

/// Whether node `j` is a `measure` directly under node `part`.
pub open spec fn is_measure_of(tree: Seq<NodeView>, part: int, j: int) -> bool {
    tree[j].parent == Some(part) && has_tag(tree[j], measure_tag())
}

/// How many of the first `n` nodes are measures directly under node `part`.
pub open spec fn measure_count(tree: Seq<NodeView>, part: int, n: nat) -> nat
    decreases n,
{
    if n == 0 {
        0
    } else {
        measure_count(tree, part, (n - 1) as nat) + if is_measure_of(tree, part, n - 1) {
            1nat
        } else {
            0nat
        }
    }
}

/// Whether node `i` is a part of the score: a `part` at the top level of the
/// document. A `part` that stands deeper, inside another part or inside any
/// other element, is none.
pub open spec fn is_part(tree: Seq<NodeView>, i: int) -> bool {
    has_tag(tree[i], part_tag()) && is_top_level(tree, i)
}

/// The instrument of each measure of node `i`, if it is a part: its
/// instrument, once for each of its measures.
pub open spec fn part_instruments(tree: Seq<NodeView>, i: int) -> Seq<Seq<char>> {
    if is_part(tree, i) {
        Seq::new(measure_count(tree, i, tree.len()), |k: int| instrument_of(tree, i))
    } else {
        Seq::empty()
    }
}

/// The instrument of each measure of the parts among the first `n` nodes,
/// part after part in document order.
pub open spec fn instruments_upto(tree: Seq<NodeView>, n: nat) -> Seq<Seq<char>>
    decreases n,
{
    if n == 0 {
        Seq::empty()
    } else {
        instruments_upto(tree, (n - 1) as nat) + part_instruments(tree, n - 1)
    }
}

/// The events of measures played by `instruments`, numbered from 1.
pub open spec fn numbered(instruments: Seq<Seq<char>>) -> Seq<EventView> {
    Seq::new(instruments.len(), |k: int| measure_event((k + 1) as nat, instruments[k]))
}

/// The events of a document: one for each measure of each top-level part,
/// the parts in document order and the measures of a part in document order,
/// numbered from 1 through the whole document.
pub open spec fn events_of(tree: Seq<NodeView>) -> Seq<EventView> {
    numbered(instruments_upto(tree, tree.len()))
}

/// The views of a run of events.
pub open spec fn events_view(events: Seq<Event>) -> Seq<EventView> {
    Seq::new(events.len(), |k: int| events[k]@)
}

/// Whether node `j` is a `measure` directly under one of the first `k` nodes
/// that is a part.
pub open spec fn is_part_measure(tree: Seq<NodeView>, k: nat, j: int) -> bool {
    has_tag(tree[j], measure_tag()) && match tree[j].parent {
        Some(p) => 0 <= p < k && is_part(tree, p),
        None => false,
    }
}

/// How many of the first `n` nodes are measures directly under a part that is
/// among the first `k` nodes.
pub open spec fn part_measures(tree: Seq<NodeView>, k: nat, n: nat) -> nat
    decreases n,
{
    if n == 0 {
        0
    } else {
        part_measures(tree, k, (n - 1) as nat) + if is_part_measure(tree, k, n - 1) {
            1nat
        } else {
            0nat
        }
    }
}

/// How many measures the parts of the document hold.
pub open spec fn measure_total(tree: Seq<NodeView>) -> nat {
    part_measures(tree, tree.len(), tree.len())
}

proof fn lemma_part_measures_step(tree: Seq<NodeView>, k: nat, n: nat)
    requires
        k < tree.len(),
        n <= tree.len(),
    ensures
        part_measures(tree, k + 1, n) == part_measures(tree, k, n) + if is_part(
            tree,
            k as int,
        ) {
            measure_count(tree, k as int, n)
        } else {
            0nat
        },
    decreases n,
{
    if n > 0 {
        lemma_part_measures_step(tree, k, (n - 1) as nat);
    }
}

proof fn lemma_part_measures_bound(tree: Seq<NodeView>, k: nat, n: nat)
    ensures
        part_measures(tree, k, n) <= n,
    decreases n,
{
    if n > 0 {
        lemma_part_measures_bound(tree, k, (n - 1) as nat);
    }
}

proof fn lemma_measure_count_grows(tree: Seq<NodeView>, part: int, m: nat, n: nat)
    requires
        m <= n,
    ensures
        measure_count(tree, part, m) <= measure_count(tree, part, n),
    decreases n,
{
    if m < n {
        lemma_measure_count_grows(tree, part, m, (n - 1) as nat);
    }
}

/// The parts among the first `k` nodes have as many events as they hold
/// measures.
pub proof fn lemma_instruments_len(tree: Seq<NodeView>, k: nat)
    requires
        k <= tree.len(),
    ensures
        instruments_upto(tree, k).len() == part_measures(tree, k, tree.len()),
    decreases k,
{
    if k == 0 {
        lemma_no_parts_no_measures(tree, tree.len());
    } else {
        lemma_instruments_len(tree, (k - 1) as nat);
        lemma_part_measures_step(tree, (k - 1) as nat, tree.len());
    }
}

/// The parts hold no more measures than the document has nodes.
pub proof fn lemma_measure_total_bound(tree: Seq<NodeView>)
    ensures
        measure_total(tree) <= tree.len(),
{
    lemma_part_measures_bound(tree, tree.len(), tree.len());
}

proof fn lemma_no_parts_no_measures(tree: Seq<NodeView>, n: nat)
    ensures
        part_measures(tree, 0, n) == 0,
    decreases n,
{
    if n > 0 {
        lemma_no_parts_no_measures(tree, (n - 1) as nat);
    }
}

/// While the measures of the part at `i` are being counted, the events so far
/// are fewer than the nodes.
proof fn lemma_room(tree: Seq<NodeView>, i: nat, j: nat)
    requires
        i < tree.len(),
        j <= tree.len(),
        is_part(tree, i as int),
    ensures
        instruments_upto(tree, i).len() + measure_count(tree, i as int, j) <= tree.len(),
{
    lemma_instruments_len(tree, i);
    lemma_part_measures_step(tree, i, tree.len());
    lemma_part_measures_bound(tree, i + 1, tree.len());
    lemma_measure_count_grows(tree, i as int, j, tree.len());
}

/// Where the walk stands when the first `a` of `listed` are done: behind the
/// last of them.
spec fn resume(listed: Seq<int>, a: int) -> nat {
    if a == 0 {
        0
    } else {
        (listed[a - 1] + 1) as nat
    }
}

/// Between one element named `tag` and the next there is none, nor before the
/// first, nor after the last.
proof fn lemma_gap(tree: Seq<NodeView>, tag: Seq<char>, a: int)
    requires
        0 <= a <= named_upto(tree, tag, tree.len()).len(),
    ensures
        ({
            let listed = named_upto(tree, tag, tree.len());
            let next = if a < listed.len() {
                listed[a]
            } else {
                tree.len() as int
            };
            &&& resume(listed, a) <= next <= tree.len()
            &&& a < listed.len() ==> 0 <= next < tree.len() && has_tag(tree[next], tag)
            &&& forall|i: int| resume(listed, a) <= i < next ==> !has_tag(#[trigger] tree[i], tag)
        }),
{
    let listed = named_upto(tree, tag, tree.len());
    let next = if a < listed.len() {
        listed[a]
    } else {
        tree.len() as int
    };
    lemma_named_upto(tree, tag, tree.len());
    if a > 0 {
        assert(0 <= listed[a - 1] < tree.len());
    }
    assert forall|i: int| resume(listed, a) <= i < next implies !has_tag(
        #[trigger] tree[i],
        tag,
    ) by {
        if has_tag(tree[i], tag) {
            let b = choose|b: int| 0 <= b < listed.len() && listed[b] == i;
            if b < a {
                if b < a - 1 {
                    assert(listed[b] < listed[a - 1]);
                }
            } else if b > a {
                assert(listed[a] < listed[b]);
            }
        }
    }
}

proof fn lemma_catalog_skip(tree: Seq<NodeView>, m: nat, n: nat)
    requires
        m <= n <= tree.len(),
        forall|i: int| m <= i < n ==> !has_tag(#[trigger] tree[i], score_part_tag()),
    ensures
        catalog_upto(tree, n) == catalog_upto(tree, m),
    decreases n,
{
    if m < n {
        lemma_catalog_skip(tree, m, (n - 1) as nat);
    }
}

proof fn lemma_instruments_skip(tree: Seq<NodeView>, m: nat, n: nat)
    requires
        m <= n <= tree.len(),
        forall|i: int| m <= i < n ==> !has_tag(#[trigger] tree[i], part_tag()),
    ensures
        instruments_upto(tree, n) == instruments_upto(tree, m),
    decreases n,
{
    if m < n {
        lemma_instruments_skip(tree, m, (n - 1) as nat);
        assert(part_instruments(tree, n - 1) =~= Seq::<Seq<char>>::empty());
        assert(instruments_upto(tree, n) =~= instruments_upto(tree, (n - 1) as nat));
    }
}

/// A part has as many measures as there are elements named `measure`
/// directly under it.
pub proof fn lemma_children_are_measures(tree: Seq<NodeView>, part: int, n: nat)
    requires
        n <= tree.len(),
    ensures
        children_upto(tree, part, measure_tag(), n).len() == measure_count(tree, part, n),
    decreases n,
{
    if n > 0 {
        lemma_children_are_measures(tree, part, (n - 1) as nat);
    }
}

/// Collects the names that the `score-part` declarations of `tree` give.
pub fn part_names(tree: &Tree) -> (names: PartNameCatalog)
    ensures
        names.wf(),
        names@ == catalog_of(tree@),
{
    let declared = tree.descendants_named("score-part");
    let ghost listed = named_upto(tree@, score_part_tag(), tree@.len());
    let mut names = PartNameCatalog::new();
    let mut a: usize = 0;
    while a < declared.len()
        invariant
            a <= declared.len(),
            places(declared@) == listed,
            listed == named_upto(tree@, score_part_tag(), tree@.len()),
            names.wf(),
            names@ == catalog_upto(tree@, resume(listed, a as int)),
        decreases declared.len() - a,
    {
        let i = declared[a];
        proof {
            assert(listed[a as int] == i);
            lemma_gap(tree@, score_part_tag(), a as int);
            lemma_catalog_skip(tree@, resume(listed, a as int), i as nat);
        }
        if let Some(id) = tree.attribute(i, "id") {
            if let Some(c) = tree.first_child_named(i, "part-name") {
                if let Some(name) = tree.text(c) {
                    if !name.as_str().is_empty() {
                        names.insert(id.clone(), name.clone());
                    }
                }
            }
        }
        a += 1;
    }
    proof {
        lemma_gap(tree@, score_part_tag(), a as int);
        lemma_catalog_skip(tree@, resume(listed, a as int), tree@.len());
    }
    names
}

/// The instrument that `names` gives to the part at node `i`.
fn instrument(tree: &Tree, names: &PartNameCatalog, i: usize) -> (name: String)
    requires
        i < tree@.len(),
        names.wf(),
        names@ == catalog_of(tree@),
    ensures
        name@ == instrument_of(tree@, i as int),
{
    let empty = String::new();
    let id = match tree.attribute(i, "id") {
        Some(id) => id,
        None => &empty,
    };
    match names.get(id) {
        Some(name) => name.clone(),
        None => String::from_str("Unknown"),
    }
}

/// Lists the events of `tree`: those of the parts at its top level.
///
/// A counter of 32 bits numbers the measures, so the tree may hold no more
/// nodes than such a counter can count; a tree that [`read_tree`] has read
/// never does.
pub fn extract(tree: &Tree) -> (events: Vec<Event>)
    requires
        tree@.len() <= u32::MAX,
    ensures
        events_view(events@) == events_of(tree@),
{
    let names = part_names(tree);
    let parts = tree.descendants_named("part");
    let ghost listed = named_upto(tree@, part_tag(), tree@.len());
    let mut events: Vec<Event> = Vec::new();
    let mut counter: u32 = 0;
    let mut a: usize = 0;
    while a < parts.len()
        invariant
            a <= parts.len(),
            tree@.len() <= u32::MAX,
            places(parts@) == listed,
            listed == named_upto(tree@, part_tag(), tree@.len()),
            names.wf(),
            names@ == catalog_of(tree@),
            counter == events@.len(),
            events_view(events@) == numbered(instruments_upto(tree@, resume(listed, a as int))),
        decreases parts.len() - a,
    {
        let i = parts[a];
        proof {
            assert(listed[a as int] == i);
            lemma_gap(tree@, part_tag(), a as int);
            lemma_instruments_skip(tree@, resume(listed, a as int), i as nat);
        }
        if tree.is_top_level(i) {
            let name = instrument(tree, &names, i);
            let measures = tree.children_named(i, "measure");
            let ghost before = instruments_upto(tree@, i as nat);
            proof {
                assert(places(measures@).len() == measures@.len());
                lemma_children_are_measures(tree@, i as int, tree@.len());
                lemma_room(tree@, i as nat, tree@.len());
                assert(events_view(events@).len() == events@.len());
            }
            let mut b: usize = 0;
            while b < measures.len()
                invariant
                    b <= measures.len(),
                    before.len() + measures.len() <= u32::MAX,
                    name@ == instrument_of(tree@, i as int),
                    counter == events@.len(),
                    events_view(events@) == numbered(
                        before + Seq::new(b as nat, |k: int| instrument_of(tree@, i as int)),
                    ),
                decreases measures.len() - b,
            {
                let ghost so_far = events_view(events@);
                let ghost played = before + Seq::new(
                    b as nat,
                    |k: int| instrument_of(tree@, i as int),
                );
                proof {
                    assert(so_far.len() == events@.len());
                    assert(played.len() == so_far.len());
                }
                counter += 1;
                let event = Event::of_measure(counter, &name);
                events.push(event);
                proof {
                    let more = before + Seq::new(
                        (b + 1) as nat,
                        |k: int| instrument_of(tree@, i as int),
                    );
                    assert(more =~= played.push(name@));
                    assert(events_view(events@) =~= so_far.push(event@));
                    assert(numbered(more) =~= numbered(played).push(
                        measure_event(counter as nat, name@),
                    ));
                }
                b += 1;
            }
            assert(instruments_upto(tree@, (i + 1) as nat) =~= before + Seq::new(
                measures.len() as nat,
                |k: int| instrument_of(tree@, i as int),
            ));
        } else {
            assert(instruments_upto(tree@, (i + 1) as nat) =~= instruments_upto(tree@, i as nat));
        }
        a += 1;
    }
    proof {
        lemma_gap(tree@, part_tag(), a as int);
        lemma_instruments_skip(tree@, resume(listed, a as int), tree@.len());
    }
    events
}

/// Reads `xml` as a MusicXML score and lists its events.
///
/// Fails exactly where the parser refuses `xml`, with the parser's message:
/// where `xml` is not well-formed XML, or holds a document type declaration.
/// Nothing else is an error: a part that no declaration names plays
/// `Unknown`, and elements other than the four that the extraction looks for
/// are passed over. The document that was read is small enough for its
/// measures to be numbered without a number coming twice.
pub fn parse_musicxml(xml: &str) -> (r: Result<Vec<Event>, ParseError>)
    ensures
        match r {
            Ok(events) => xml_nodes(xml@) matches Ok(tree) && tree.len() <= u32::MAX
                && events_view(events@) == events_of(tree),
            Err(e) => xml_nodes(xml@) == Err::<Seq<NodeView>, Seq<char>>(e.message@),
        },
{
    match read_tree(xml) {
        Ok(tree) => Ok(extract(&tree)),
        Err(e) => Err(e),
    }
}

} // verus!
