//! What holds of the events of every document.
use vstd::prelude::*;
use crate::event::{measure_id_is_injective, measure_id_spec, EventView};
use crate::extract::{
    catalog_of, catalog_upto, declared_name, events_of, instrument_of, instruments_upto,
    is_measure_of, is_part, lemma_instruments_len, lemma_measure_total_bound, measure_count, measure_tag,
    measure_total, part_id, part_instruments, part_name_tag, part_tag, score_part_tag,
    unknown_instrument,
};
use crate::tree::{
    first_child_named, first_child_upto, has_tag, is_child_named, is_top_level,
    lemma_first_child_upto, AttributeView, NodeView,
};

verus! {

/// A document whose parts hold no measure has no events.
pub proof fn no_measures_no_events(tree: Seq<NodeView>)
    requires
        measure_total(tree) == 0,
    ensures
        events_of(tree) == Seq::<EventView>::empty(),
{
    lemma_instruments_len(tree, tree.len());
    assert(events_of(tree) =~= Seq::<EventView>::empty());
}

/// A document has as many events as its parts hold measures. In the order
/// in which they are listed the events are numbered 1, 2, 3 and so on: the
/// event at place `k` has the bar `k + 1` and the identifier `M` with the
/// numeral of `k + 1`; it falls on the first beat, has no time and one
/// instrument. This is said of a document of no more nodes than the
/// extraction takes, so that every number fits its bar.
pub proof fn events_number_the_measures(tree: Seq<NodeView>)
    requires
        tree.len() <= u32::MAX,
    ensures
        events_of(tree).len() == measure_total(tree),
        events_of(tree).len() <= u32::MAX,
        forall|k: int|
            0 <= k < events_of(tree).len() ==> {
                let event = #[trigger] events_of(tree)[k];
                &&& event.id == measure_id_spec((k + 1) as nat)
                &&& event.bar == Some((k + 1) as u32)
                &&& event.beat == Some(1u32)
                &&& event.time_ms is None
                &&& event.instruments.len() == 1
            },
{
    lemma_instruments_len(tree, tree.len());
    lemma_measure_total_bound(tree);
}

/// No two events of a document share an identifier or a bar.
pub proof fn events_differ(tree: Seq<NodeView>, a: int, b: int)
    requires
        tree.len() <= u32::MAX,
        0 <= a < events_of(tree).len(),
        0 <= b < events_of(tree).len(),
        a != b,
    ensures
        events_of(tree)[a].id != events_of(tree)[b].id,
        events_of(tree)[a].bar != events_of(tree)[b].bar,
{
    events_number_the_measures(tree);
    if events_of(tree)[a].id == events_of(tree)[b].id {
        measure_id_is_injective((a + 1) as nat, (b + 1) as nat);
    }
}

/// The events of the parts among the first `m` nodes open the list of those
/// among the first `n`.
proof fn lemma_instruments_prefix(tree: Seq<NodeView>, m: nat, n: nat)
    requires
        m <= n,
    ensures
        instruments_upto(tree, m).len() <= instruments_upto(tree, n).len(),
        instruments_upto(tree, n).subrange(0, instruments_upto(tree, m).len() as int)
            == instruments_upto(tree, m),
    decreases n,
{
    if m < n {
        lemma_instruments_prefix(tree, m, (n - 1) as nat);
        assert(instruments_upto(tree, n).subrange(0, instruments_upto(tree, m).len() as int)
            =~= instruments_upto(tree, m));
    } else {
        assert(instruments_upto(tree, n).subrange(0, instruments_upto(tree, m).len() as int)
            =~= instruments_upto(tree, m));
    }
}

/// The events of a part follow those of the parts before it, one for each of
/// its measures, and each names the instrument of the part and no other.
///
/// Here `i` is the node of the part and `k` counts its measures from 0.
pub proof fn part_plays_its_instrument(tree: Seq<NodeView>, i: int, k: int)
    requires
        0 <= i < tree.len(),
        is_part(tree, i),
        0 <= k < measure_count(tree, i, tree.len()),
    ensures
        instruments_upto(tree, i as nat).len() + k < events_of(tree).len(),
        events_of(tree)[instruments_upto(tree, i as nat).len() + k].instruments
            == seq![instrument_of(tree, i)],
{
    let before = instruments_upto(tree, i as nat);
    let with_part = instruments_upto(tree, (i + 1) as nat);
    lemma_instruments_prefix(tree, (i + 1) as nat, tree.len());
    assert(with_part == before + part_instruments(tree, i));
    assert(with_part[before.len() + k] == instrument_of(tree, i));
    let all = instruments_upto(tree, tree.len());
    assert(all.subrange(0, with_part.len() as int)[before.len() + k] == all[before.len() + k]);
}

/// A part whose identifier no declaration names plays `Unknown`: each of its
/// measures is an event with that one instrument.
pub proof fn part_without_name_plays_unknown(tree: Seq<NodeView>, i: int, k: int)
    requires
        0 <= i < tree.len(),
        is_part(tree, i),
        !catalog_of(tree).contains_key(part_id(tree, i)),
        0 <= k < measure_count(tree, i, tree.len()),
    ensures
        instruments_upto(tree, i as nat).len() + k < events_of(tree).len(),
        events_of(tree)[instruments_upto(tree, i as nat).len() + k].instruments
            == seq![unknown_instrument()],
{
    part_plays_its_instrument(tree, i, k);
}

/// Node `j` of `tree` with other attributes and another text.
pub open spec fn with_content(
    tree: Seq<NodeView>,
    j: int,
    attributes: Seq<AttributeView>,
    text: Option<Seq<char>>,
) -> Seq<NodeView> {
    tree.update(
        j,
        NodeView {
            parent: tree[j].parent,
            element: tree[j].element,
            name: tree[j].name,
            attributes,
            text,
        },
    )
}

/// Whether the extraction reads the attributes or the text of `node`: it
/// reads the `id` of a `score-part` and of a `part`, and the text of a
/// `part-name`.
pub open spec fn is_read(node: NodeView) -> bool {
    has_tag(node, score_part_tag()) || has_tag(node, part_name_tag()) || has_tag(node, part_tag())
}

/// The four names that the extraction looks for are four names.
proof fn lemma_tags_differ()
    ensures
        measure_tag() != score_part_tag(),
        measure_tag() != part_name_tag(),
        measure_tag() != part_tag(),
{
    reveal_strlit("measure");
    reveal_strlit("score-part");
    reveal_strlit("part-name");
    reveal_strlit("part");
    assert(measure_tag().len() == 7);
    assert(score_part_tag().len() == 10);
    assert(part_name_tag().len() == 9);
    assert(part_tag().len() == 4);
}

proof fn lemma_content_first_child(
    tree: Seq<NodeView>,
    j: int,
    attributes: Seq<AttributeView>,
    text: Option<Seq<char>>,
    parent: int,
    tag: Seq<char>,
    n: nat,
)
    requires
        0 <= j < tree.len(),
        n <= tree.len(),
    ensures
        first_child_upto(with_content(tree, j, attributes, text), parent, tag, n)
            == first_child_upto(tree, parent, tag, n),
    decreases n,
{
    if n > 0 {
        lemma_content_first_child(tree, j, attributes, text, parent, tag, (n - 1) as nat);
    }
}

proof fn lemma_content_declared(
    tree: Seq<NodeView>,
    j: int,
    attributes: Seq<AttributeView>,
    text: Option<Seq<char>>,
    i: int,
)
    requires
        0 <= j < tree.len(),
        !is_read(tree[j]),
        0 <= i < tree.len(),
    ensures
        declared_name(with_content(tree, j, attributes, text), i) == declared_name(tree, i),
{
    lemma_content_first_child(tree, j, attributes, text, i, part_name_tag(), tree.len());
    lemma_first_child_upto(tree, i, part_name_tag(), tree.len());
}

proof fn lemma_content_catalog(
    tree: Seq<NodeView>,
    j: int,
    attributes: Seq<AttributeView>,
    text: Option<Seq<char>>,
    n: nat,
)
    requires
        0 <= j < tree.len(),
        !is_read(tree[j]),
        n <= tree.len(),
    ensures
        catalog_upto(with_content(tree, j, attributes, text), n) == catalog_upto(tree, n),
    decreases n,
{
    if n > 0 {
        lemma_content_catalog(tree, j, attributes, text, (n - 1) as nat);
        lemma_content_declared(tree, j, attributes, text, n - 1);
    }
}

proof fn lemma_content_measures(
    tree: Seq<NodeView>,
    j: int,
    attributes: Seq<AttributeView>,
    text: Option<Seq<char>>,
    part: int,
    n: nat,
)
    requires
        0 <= j < tree.len(),
        n <= tree.len(),
    ensures
        measure_count(with_content(tree, j, attributes, text), part, n) == measure_count(
            tree,
            part,
            n,
        ),
    decreases n,
{
    if n > 0 {
        lemma_content_measures(tree, j, attributes, text, part, (n - 1) as nat);
    }
}

proof fn lemma_content_instruments(
    tree: Seq<NodeView>,
    j: int,
    attributes: Seq<AttributeView>,
    text: Option<Seq<char>>,
    n: nat,
)
    requires
        0 <= j < tree.len(),
        !is_read(tree[j]),
        n <= tree.len(),
    ensures
        instruments_upto(with_content(tree, j, attributes, text), n) == instruments_upto(tree, n),
    decreases n,
{
    if n > 0 {
        let other = with_content(tree, j, attributes, text);
        let i = n - 1;
        lemma_content_instruments(tree, j, attributes, text, (n - 1) as nat);
        lemma_content_catalog(tree, j, attributes, text, tree.len());
        lemma_content_measures(tree, j, attributes, text, i, tree.len());
        assert(is_top_level(other, i) == is_top_level(tree, i));
        if is_part(tree, i) {
            assert(part_id(other, i) == part_id(tree, i));
            assert(instrument_of(other, i) == instrument_of(tree, i));
        }
        assert(part_instruments(other, i) =~= part_instruments(tree, i));
    }
}

/// The attributes and the text of a node that the extraction does not read
/// are nothing to the events: with other attributes and another text in such
/// a node, the document has the same events. So it is with a text that grows
/// or shrinks because something beside it was taken out, and with the text
/// that an element other than a `part-name` begins with.
pub proof fn unread_content_changes_nothing(
    tree: Seq<NodeView>,
    j: int,
    attributes: Seq<AttributeView>,
    text: Option<Seq<char>>,
)
    requires
        0 <= j < tree.len(),
        !is_read(tree[j]),
    ensures
        events_of(with_content(tree, j, attributes, text)) == events_of(tree),
{
    lemma_content_instruments(tree, j, attributes, text, tree.len());
}

/// What a measure holds is nothing to its event: with other attributes and
/// another text in a `measure`, the document has the same events. Together
/// with [`unrelated_run_changes_nothing`], which takes out what stands under
/// it, this makes an empty measure and a full one alike.
pub proof fn measure_content_changes_nothing(
    tree: Seq<NodeView>,
    j: int,
    attributes: Seq<AttributeView>,
    text: Option<Seq<char>>,
)
    requires
        0 <= j < tree.len(),
        has_tag(tree[j], measure_tag()),
    ensures
        events_of(with_content(tree, j, attributes, text)) == events_of(tree),
{
    lemma_tags_differ();
    unread_content_changes_nothing(tree, j, attributes, text);
}

/// Whether the extraction looks for elements named `tag`.
pub open spec fn is_sought(tag: Seq<char>) -> bool {
    tag == score_part_tag() || tag == part_name_tag() || tag == part_tag() || tag == measure_tag()
}

/// Whether node `k` is one that the extraction has no use for and that no node
/// stands under: a text, a comment, or an element of another name that is
/// empty.
pub open spec fn is_unrelated_leaf(tree: Seq<NodeView>, k: int) -> bool {
    &&& 0 <= k < tree.len()
    &&& !(tree[k].element && is_sought(tree[k].name))
    &&& forall|j: int| 0 <= j < tree.len() ==> (#[trigger] tree[j]).parent != Some(k)
}

/// Where the node at place `j` of a tree without node `k` stood before.
pub open spec fn place_with(k: int, j: int) -> int {
    if j < k {
        j
    } else {
        j + 1
    }
}

/// How many nodes stood before the first `n` of a tree without node `k`
/// ended.
pub open spec fn length_with(k: int, n: nat) -> nat {
    if n <= k {
        n
    } else {
        n + 1
    }
}

/// The document without node `k`: the nodes after it move up by one place,
/// and so do the parents that they name.
pub open spec fn without_node(tree: Seq<NodeView>, k: int) -> Seq<NodeView> {
    Seq::new(
        (tree.len() - 1) as nat,
        |j: int|
            {
                let node = tree[place_with(k, j)];
                NodeView {
                    parent: match node.parent {
                        Some(p) => Some(
                            if p > k {
                                p - 1
                            } else {
                                p
                            },
                        ),
                        None => None,
                    },
                    element: node.element,
                    name: node.name,
                    attributes: node.attributes,
                    text: node.text,
                }
            },
    )
}

proof fn lemma_child_moved(tree: Seq<NodeView>, k: int, parent: int, tag: Seq<char>, j: int)
    requires
        is_unrelated_leaf(tree, k),
        0 <= j < tree.len() - 1,
    ensures
        is_child_named(without_node(tree, k), parent, tag, j) == is_child_named(
            tree,
            place_with(k, parent),
            tag,
            place_with(k, j),
        ),
{
    let node = tree[place_with(k, j)];
    assert(node.parent != Some(k));
}

proof fn lemma_first_child_shift(
    tree: Seq<NodeView>,
    k: int,
    parent: int,
    tag: Seq<char>,
    n: nat,
)
    requires
        is_unrelated_leaf(tree, k),
        !has_tag(tree[k], tag),
        n <= tree.len() - 1,
    ensures
        match first_child_upto(without_node(tree, k), parent, tag, n) {
            Some(j) => first_child_upto(tree, place_with(k, parent), tag, length_with(k, n))
                == Some(place_with(k, j)),
            None => first_child_upto(
                tree,
                place_with(k, parent),
                tag,
                length_with(k, n),
            ) is None,
        },
    decreases n,
{
    if n > 0 {
        let m = (n - 1) as nat;
        lemma_first_child_shift(tree, k, parent, tag, m);
        lemma_child_moved(tree, k, parent, tag, m as int);
        lemma_first_child_upto(without_node(tree, k), parent, tag, m);
        if m == k {
            assert(!is_child_named(tree, place_with(k, parent), tag, k));
            assert(first_child_upto(tree, place_with(k, parent), tag, (k + 1) as nat)
                == first_child_upto(tree, place_with(k, parent), tag, k as nat));
        }
    }
}

proof fn lemma_first_child_moved(tree: Seq<NodeView>, k: int, parent: int, tag: Seq<char>)
    requires
        is_unrelated_leaf(tree, k),
        !has_tag(tree[k], tag),
    ensures
        match first_child_named(without_node(tree, k), parent, tag) {
            Some(j) => 0 <= j < tree.len() - 1 && first_child_named(
                tree,
                place_with(k, parent),
                tag,
            ) == Some(place_with(k, j)),
            None => first_child_named(tree, place_with(k, parent), tag) is None,
        },
{
    let rest = (tree.len() - 1) as nat;
    lemma_first_child_shift(tree, k, parent, tag, rest);
    lemma_first_child_upto(without_node(tree, k), parent, tag, rest);
    if k == rest {
        assert(!is_child_named(tree, place_with(k, parent), tag, k));
    }
}

proof fn lemma_declared_moved(tree: Seq<NodeView>, k: int, i: int)
    requires
        is_unrelated_leaf(tree, k),
        0 <= i < tree.len() - 1,
    ensures
        declared_name(without_node(tree, k), i) == declared_name(tree, place_with(k, i)),
{
    lemma_first_child_moved(tree, k, i, part_name_tag());
}

proof fn lemma_catalog_shift(tree: Seq<NodeView>, k: int, n: nat)
    requires
        is_unrelated_leaf(tree, k),
        n <= tree.len() - 1,
    ensures
        catalog_upto(without_node(tree, k), n) == catalog_upto(tree, length_with(k, n)),
    decreases n,
{
    if n > 0 {
        let m = (n - 1) as nat;
        lemma_catalog_shift(tree, k, m);
        lemma_declared_moved(tree, k, m as int);
        if m == k {
            assert(declared_name(tree, k) is None);
            assert(catalog_upto(tree, (k + 1) as nat) == catalog_upto(tree, k as nat));
        }
    }
}

proof fn lemma_catalog_kept(tree: Seq<NodeView>, k: int)
    requires
        is_unrelated_leaf(tree, k),
    ensures
        catalog_of(without_node(tree, k)) == catalog_of(tree),
{
    let rest = (tree.len() - 1) as nat;
    lemma_catalog_shift(tree, k, rest);
    if k == rest {
        assert(declared_name(tree, k) is None);
    }
}

proof fn lemma_measures_shift(tree: Seq<NodeView>, k: int, part: int, n: nat)
    requires
        is_unrelated_leaf(tree, k),
        n <= tree.len() - 1,
    ensures
        measure_count(without_node(tree, k), part, n) == measure_count(
            tree,
            place_with(k, part),
            length_with(k, n),
        ),
    decreases n,
{
    if n > 0 {
        let m = (n - 1) as nat;
        lemma_measures_shift(tree, k, part, m);
        lemma_child_moved(tree, k, part, measure_tag(), m as int);
        if m == k {
            assert(!is_measure_of(tree, place_with(k, part), k));
            assert(measure_count(tree, place_with(k, part), (k + 1) as nat) == measure_count(
                tree,
                place_with(k, part),
                k as nat,
            ));
        }
    }
}

proof fn lemma_top_level_moved(tree: Seq<NodeView>, k: int, i: int)
    requires
        is_unrelated_leaf(tree, k),
        0 <= i < tree.len() - 1,
    ensures
        is_top_level(without_node(tree, k), i) == is_top_level(tree, place_with(k, i)),
{
    let less = without_node(tree, k);
    let node = tree[place_with(k, i)];
    assert(node.parent != Some(k));
    match less[i].parent {
        Some(p) => {
            assert(node.parent == Some(place_with(k, p)));
            if 0 <= p < less.len() {
                let above = tree[place_with(k, p)];
                assert(above.parent != Some(k));
                assert(less[p].element == above.element);
                match less[p].parent {
                    Some(r) => {
                        assert(above.parent == Some(place_with(k, r)));
                        if 0 <= r < less.len() {
                            let top = tree[place_with(k, r)];
                            assert(less[r].element == top.element);
                            assert(less[r].parent is None == top.parent is None);
                        }
                    },
                    None => {},
                }
            }
        },
        None => {},
    }
}

proof fn lemma_part_moved(tree: Seq<NodeView>, k: int, i: int)
    requires
        is_unrelated_leaf(tree, k),
        0 <= i < tree.len() - 1,
    ensures
        part_instruments(without_node(tree, k), i) == part_instruments(tree, place_with(k, i)),
{
    let rest = (tree.len() - 1) as nat;
    let less = without_node(tree, k);
    lemma_measures_shift(tree, k, i, rest);
    if k == rest {
        assert(!is_measure_of(tree, place_with(k, i), k));
    }
    lemma_catalog_kept(tree, k);
    lemma_top_level_moved(tree, k, i);
    assert(part_id(less, i) == part_id(tree, place_with(k, i)));
    assert(instrument_of(less, i) == instrument_of(tree, place_with(k, i)));
    assert(part_instruments(less, i) =~= part_instruments(tree, place_with(k, i)));
}

proof fn lemma_instruments_shift(tree: Seq<NodeView>, k: int, n: nat)
    requires
        is_unrelated_leaf(tree, k),
        n <= tree.len() - 1,
    ensures
        instruments_upto(without_node(tree, k), n) == instruments_upto(tree, length_with(k, n)),
    decreases n,
{
    if n > 0 {
        let m = (n - 1) as nat;
        lemma_instruments_shift(tree, k, m);
        lemma_part_moved(tree, k, m as int);
        if m == k {
            assert(part_instruments(tree, k) =~= Seq::<Seq<char>>::empty());
            assert(instruments_upto(tree, (k + 1) as nat) =~= instruments_upto(tree, k as nat));
        }
    }
}

/// A node that the extraction has no use for, and that no node stands under,
/// changes nothing: the document without it has the same events.
pub proof fn unrelated_leaf_changes_nothing(tree: Seq<NodeView>, k: int)
    requires
        is_unrelated_leaf(tree, k),
    ensures
        events_of(without_node(tree, k)) == events_of(tree),
{
    let rest = (tree.len() - 1) as nat;
    lemma_instruments_shift(tree, k, rest);
    if k == rest {
        assert(part_instruments(tree, k) =~= Seq::<Seq<char>>::empty());
        assert(instruments_upto(tree, tree.len()) =~= instruments_upto(tree, k as nat));
    }
}

/// Whether the `n` nodes from `k` on are a run that the extraction has no
/// use for: none of them is an element of a name that it looks for, what
/// stands under one of them comes after it and within the run, and so
/// nothing outside the run stands under it. An element that holds no
/// `score-part`, `part-name`, `part` or `measure` is such a run together
/// with all that it holds.
pub open spec fn is_unrelated_run(tree: Seq<NodeView>, k: int, n: nat) -> bool {
    &&& 0 <= k
    &&& k + n <= tree.len()
    &&& forall|j: int| k <= j < k + n ==> !((#[trigger] tree[j]).element && is_sought(tree[j].name))
    &&& forall|j: int|
        0 <= j < tree.len() ==> match (#[trigger] tree[j]).parent {
            Some(p) => k <= p < k + n ==> p < j < k + n,
            None => true,
        }
}

/// The document without the `n` nodes from `k` on: the nodes after them move
/// up by `n` places, and so do the parents that they name.
pub open spec fn without_run(tree: Seq<NodeView>, k: int, n: nat) -> Seq<NodeView> {
    Seq::new(
        (tree.len() - n) as nat,
        |j: int|
            {
                let node = tree[if j < k {
                    j
                } else {
                    j + n
                }];
                NodeView {
                    parent: match node.parent {
                        Some(p) => Some(
                            if p >= k + n {
                                p - n
                            } else {
                                p
                            },
                        ),
                        None => None,
                    },
                    element: node.element,
                    name: node.name,
                    attributes: node.attributes,
                    text: node.text,
                }
            },
    )
}

/// Taking out a run is taking out its last node and then the rest of it.
proof fn lemma_run_step(tree: Seq<NodeView>, k: int, n: nat)
    requires
        is_unrelated_run(tree, k, n),
        n > 0,
    ensures
        is_unrelated_leaf(tree, k + n - 1),
        is_unrelated_run(without_node(tree, k + n - 1), k, (n - 1) as nat),
        without_run(without_node(tree, k + n - 1), k, (n - 1) as nat) == without_run(tree, k, n),
{
    let last = k + n - 1;
    let less = without_node(tree, last);
    let m = (n - 1) as nat;
    assert(is_unrelated_leaf(tree, last)) by {
        assert(!(tree[last].element && is_sought(tree[last].name)));
        assert forall|j: int| 0 <= j < tree.len() implies (#[trigger] tree[j]).parent != Some(
            last,
        ) by {
            if tree[j].parent == Some(last) {
                assert(last < j < k + n);
            }
        }
    }
    assert(is_unrelated_run(less, k, m)) by {
        assert forall|j: int| k <= j < k + m implies !((#[trigger] less[j]).element && is_sought(
            less[j].name,
        )) by {
            assert(less[j].element == tree[j].element);
            assert(less[j].name == tree[j].name);
        }
        assert forall|j: int| 0 <= j < less.len() implies match (#[trigger] less[j]).parent {
            Some(p) => k <= p < k + m ==> p < j < k + m,
            None => true,
        } by {
            let node = tree[place_with(last, j)];
            match node.parent {
                Some(q) => {
                    if q <= last {
                        assert(less[j].parent == Some(q));
                    } else {
                        assert(less[j].parent == Some(q - 1));
                    }
                },
                None => {},
            }
        }
    }
    assert(without_run(less, k, m) =~= without_run(tree, k, n)) by {
        assert forall|j: int| 0 <= j < tree.len() - n implies without_run(less, k, m)[j]
            == without_run(tree, k, n)[j] by {
            let from = if j < k {
                j
            } else {
                j + n
            };
            let node = tree[from];
            assert(less[if j < k {
                j
            } else {
                j + m
            }].name == node.name);
            match node.parent {
                Some(q) => {
                    assert(!(k <= q < k + n));
                },
                None => {},
            }
        }
    }
}

/// A run of nodes that the extraction has no use for changes nothing: the
/// document without it has the same events. So an element can be taken out
/// together with all that it holds, be it a tempo, a direction, a rehearsal
/// mark or a note, wherever it stands. Where the element stood between two
/// texts, or before the text of its parent, texts change with it:
/// [`unread_content_changes_nothing`] speaks of those.
pub proof fn unrelated_run_changes_nothing(tree: Seq<NodeView>, k: int, n: nat)
    requires
        is_unrelated_run(tree, k, n),
    ensures
        events_of(without_run(tree, k, n)) == events_of(tree),
    decreases n,
{
    if n == 0 {
        assert(without_run(tree, k, n) =~= tree);
    } else {
        lemma_run_step(tree, k, n);
        unrelated_leaf_changes_nothing(tree, k + n - 1);
        unrelated_run_changes_nothing(without_node(tree, k + n - 1), k, (n - 1) as nat);
    }
}

} // verus!
