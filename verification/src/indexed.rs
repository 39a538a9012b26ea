use vstd::prelude::*;
use crate::content::{
    ChestContents, ChestInfo, ChestItem, ChestPathElementType, GroupInfo, ModuleInfo,
    ObjectInfo, Page,
};

verus! {

/// An item contained in a chest in indexed form: the ids of its
/// ancestors from root to parent, the half-open id range that covers its
/// whole subtree, and its payload.
pub struct IndexedChestItem {
    pub parent_path: Vec<usize>,
    pub child_start: usize,
    pub child_end: usize,
    pub data: IndexedChestItemData,
}

/// A single item contained in a chest in indexed form. Contained items
/// are referenced by id.
pub enum IndexedChestItemData {
    Module(IndexedModule),
    Group(IndexedGroup),
    Page(Page),
    Object(IndexedObject),
}

/// A module in indexed form.
pub struct IndexedModule {
    pub info: ModuleInfo,
    pub contents: Vec<usize>,
}

/// A group in indexed form.
pub struct IndexedGroup {
    pub info: GroupInfo,
    pub contents: Vec<usize>,
}

/// An object in indexed form.
pub struct IndexedObject {
    pub info: ObjectInfo,
    pub contents: Vec<usize>,
}

/// Chest contents optimized for searching: a flat, parent-linked array
/// of items in depth-first order.
pub struct IndexedChestContents {
    pub info: ChestInfo,
    pub items: Vec<IndexedChestItem>,
    pub root_item_ids: Vec<usize>,
}

/// The ids of the direct children that a payload carries.
pub open spec fn data_content_ids(d: IndexedChestItemData) -> Seq<usize> {
    match d {
        IndexedChestItemData::Module(m) => m.contents@,
        IndexedChestItemData::Group(g) => g.contents@,
        IndexedChestItemData::Page(_) => Seq::<usize>::empty(),
        IndexedChestItemData::Object(o) => o.contents@,
    }
}

/// The name under which an indexed item is searched: the title for a
/// page, the name otherwise.
pub open spec fn indexed_name(d: IndexedChestItemData) -> Seq<char> {
    match d {
        IndexedChestItemData::Module(m) => m.info.name@,
        IndexedChestItemData::Group(g) => g.info.name@,
        IndexedChestItemData::Page(p) => p.title@,
        IndexedChestItemData::Object(o) => o.info.name@,
    }
}

/// The path element type of an indexed item.
pub open spec fn indexed_element_type(d: IndexedChestItemData) -> ChestPathElementType {
    match d {
        IndexedChestItemData::Module(_) => ChestPathElementType::Module,
        IndexedChestItemData::Group(_) => ChestPathElementType::Group,
        IndexedChestItemData::Page(_) => ChestPathElementType::Page,
        IndexedChestItemData::Object(_) => ChestPathElementType::Object,
    }
}

/// The url of an indexed item, if it has one.
pub open spec fn indexed_url(d: IndexedChestItemData) -> Option<Seq<char>> {
    match d {
        IndexedChestItemData::Module(m) => match m.info.url {
            Some(u) => Some(u@),
            None => None,
        },
        IndexedChestItemData::Group(g) => match g.info.url {
            Some(u) => Some(u@),
            None => None,
        },
        IndexedChestItemData::Page(p) => Some(p.url@),
        IndexedChestItemData::Object(o) => match o.info.url {
            Some(u) => Some(u@),
            None => None,
        },
    }
}

/// The source children of a tree item: its contained items, empty for
/// a page.
pub open spec fn source_children(item: ChestItem) -> Seq<ChestItem> {
    match item {
        ChestItem::Module(m) => m.contents@,
        ChestItem::Group(g) => g.contents@,
        ChestItem::Page(_) => Seq::<ChestItem>::empty(),
        ChestItem::Object(o) => o.contents@,
    }
}

/// Full correspondence of one indexed subtree with one source item:
/// the payload matches and the recorded child ids carry the source
/// children in order, recursively.
pub open spec fn subtree_corresponds(
    items: Seq<IndexedChestItem>,
    id: int,
    item: ChestItem,
) -> bool
    decreases item,
{
    &&& 0 <= id < items.len()
    &&& data_matches(item, items[id].data)
    &&& (match item {
        ChestItem::Module(m) => children_correspond(
            items,
            data_content_ids(items[id].data),
            m.contents@,
        ),
        ChestItem::Group(g) => children_correspond(
            items,
            data_content_ids(items[id].data),
            g.contents@,
        ),
        ChestItem::Page(_) => true,
        ChestItem::Object(o) => children_correspond(
            items,
            data_content_ids(items[id].data),
            o.contents@,
        ),
    })
}

/// Correspondence of a run of indexed ids with a run of source items,
/// position by position.
pub open spec fn children_correspond(
    items: Seq<IndexedChestItem>,
    ids: Seq<usize>,
    src: Seq<ChestItem>,
) -> bool
    decreases src,
{
    &&& ids.len() == src.len()
    &&& (src.len() == 0 || (subtree_corresponds(items, ids[0] as int, src[0])
        && children_correspond(items, ids.drop_first(), src.drop_first())))
}

/// An indexed payload carries the same information as a tree item.
pub open spec fn data_matches(item: ChestItem, d: IndexedChestItemData) -> bool {
    match (item, d) {
        (ChestItem::Module(m), IndexedChestItemData::Module(im)) => im.info == m.info,
        (ChestItem::Group(g), IndexedChestItemData::Group(ig)) => ig.info == g.info,
        (ChestItem::Page(p), IndexedChestItemData::Page(ip)) => ip == *p,
        (ChestItem::Object(o), IndexedChestItemData::Object(io)) => io.info == o.info,
        _ => false,
    }
}

/// Well-formedness of one indexed item within the block of ids
/// `[lo, hi)` whose items all have `outer` as the leading part of their
/// ancestor chain: the subtree of item `i` is exactly the contiguous,
/// half-open range `[i + 1, child_end)`; subtrees nest; every inner
/// ancestor's range covers `i`; direct child ids lie inside the range.
pub open spec fn block_item_wf(
    items: Seq<IndexedChestItem>,
    lo: int,
    hi: int,
    outer: Seq<usize>,
    i: int,
) -> bool {
    let it = items[i];
    &&& it.child_start == i + 1
    &&& i + 1 <= it.child_end <= hi
    &&& (forall|j: int|
        it.child_start <= j < it.child_end ==> (#[trigger] items[j].child_end)
            <= it.child_end)
    &&& it.parent_path@.len() >= outer.len()
    &&& it.parent_path@.take(outer.len() as int) == outer
    &&& (forall|k: int|
        outer.len() <= k < it.parent_path@.len() ==> lo <= (
        #[trigger] it.parent_path@[k]) < i && i < items[it.parent_path@[k] as int].child_end)
    &&& (forall|c: int|
        0 <= c < data_content_ids(it.data).len() ==> i < (#[trigger] data_content_ids(
            it.data,
        )[c]) < it.child_end)
}

/// Well-formedness of a whole block of indexed items.
pub open spec fn block_wf(
    items: Seq<IndexedChestItem>,
    lo: int,
    hi: int,
    outer: Seq<usize>,
) -> bool {
    &&& 0 <= lo <= hi <= items.len()
    &&& (forall|i: int| lo <= i < hi ==> #[trigger] block_item_wf(items, lo, hi, outer, i))
}

/// A strictly increasing id run.
pub open spec fn ids_increasing(p: Seq<usize>) -> bool {
    forall|k1: int, k2: int| 0 <= k1 < k2 < p.len() ==> (#[trigger] p[k1]) < (#[trigger] p[k2])
}

/// Whether an id run holds a given id.
pub open spec fn parent_path_contains(p: Seq<usize>, a: int) -> bool {
    exists|k: int| 0 <= k < p.len() && (#[trigger] p[k]) == a
}

/// Ancestor completeness over a block: every item whose child range
/// covers another lists itself in that item's ancestor chain.
pub open spec fn block_ancestors_complete(
    items: Seq<IndexedChestItem>,
    lo: int,
    hi: int,
) -> bool {
    forall|a: int, x: int|
        lo <= a < x < hi && (#[trigger] items[a].child_start) <= x < items[a].child_end
            ==> parent_path_contains((#[trigger] items[x].parent_path)@, a)
}

/// Subtree correspondence only reads the block the ids lie in, and
/// survives changes outside it.
proof fn lemma_subtree_corresponds_frame(
    items1: Seq<IndexedChestItem>,
    items2: Seq<IndexedChestItem>,
    lo: int,
    hi: int,
    outer: Seq<usize>,
    cid: int,
    item: ChestItem,
)
    requires
        subtree_corresponds(items1, cid, item),
        block_wf(items1, lo, hi, outer),
        lo <= cid < hi,
        hi <= items1.len(),
        hi <= items2.len(),
        forall|x: int| lo <= x < hi ==> #[trigger] items2[x] == items1[x],
    ensures
        subtree_corresponds(items2, cid, item),
    decreases item, 1int,
{
    assert(items2[cid] == items1[cid]);
    assert(block_item_wf(items1, lo, hi, outer, cid));
    match item {
        ChestItem::Module(m) => {
            lemma_children_correspond_frame(
                items1,
                items2,
                lo,
                hi,
                outer,
                data_content_ids(items1[cid].data),
                m.contents@,
            );
        },
        ChestItem::Group(g) => {
            lemma_children_correspond_frame(
                items1,
                items2,
                lo,
                hi,
                outer,
                data_content_ids(items1[cid].data),
                g.contents@,
            );
        },
        ChestItem::Page(_) => {},
        ChestItem::Object(o) => {
            lemma_children_correspond_frame(
                items1,
                items2,
                lo,
                hi,
                outer,
                data_content_ids(items1[cid].data),
                o.contents@,
            );
        },
    }
}

/// The run form of the frame property, for ids known to lie in the
/// block.
proof fn lemma_children_correspond_frame(
    items1: Seq<IndexedChestItem>,
    items2: Seq<IndexedChestItem>,
    lo: int,
    hi: int,
    outer: Seq<usize>,
    ids: Seq<usize>,
    src: Seq<ChestItem>,
)
    requires
        children_correspond(items1, ids, src),
        block_wf(items1, lo, hi, outer),
        forall|k: int| 0 <= k < ids.len() ==> lo <= (#[trigger] ids[k]) < hi,
        hi <= items1.len(),
        hi <= items2.len(),
        forall|x: int| lo <= x < hi ==> #[trigger] items2[x] == items1[x],
    ensures
        children_correspond(items2, ids, src),
    decreases src, 0int,
{
    if src.len() > 0 {
        lemma_subtree_corresponds_frame(items1, items2, lo, hi, outer, ids[0] as int, src[0]);
        assert(forall|k: int|
            0 <= k < ids.drop_first().len() ==> lo <= (#[trigger] ids.drop_first()[k]) < hi);
        lemma_children_correspond_frame(
            items1,
            items2,
            lo,
            hi,
            outer,
            ids.drop_first(),
            src.drop_first(),
        );
    }
}

/// Appending a corresponding pair keeps a run correspondence.
proof fn lemma_children_correspond_push(
    items: Seq<IndexedChestItem>,
    ids: Seq<usize>,
    src: Seq<ChestItem>,
    id: usize,
    item: ChestItem,
)
    requires
        children_correspond(items, ids, src),
        subtree_corresponds(items, id as int, item),
    ensures
        children_correspond(items, ids.push(id), src.push(item)),
    decreases src.len(),
{
    if src.len() == 0 {
        assert(ids.push(id).drop_first() =~= Seq::<usize>::empty());
        assert(src.push(item).drop_first() =~= Seq::<ChestItem>::empty());
        assert(ids.push(id)[0] == id && src.push(item)[0] == item);
        assert(children_correspond(
            items,
            Seq::<usize>::empty(),
            Seq::<ChestItem>::empty(),
        ));
    } else {
        lemma_children_correspond_push(items, ids.drop_first(), src.drop_first(), id, item);
        assert(ids.push(id).drop_first() =~= ids.drop_first().push(id));
        assert(src.push(item).drop_first() =~= src.drop_first().push(item));
        assert(ids.push(id)[0] == ids[0] && src.push(item)[0] == src[0]);
    }
}

/// An item's well-formedness only depends on the block itself, and
/// survives widening the block.
proof fn lemma_block_item_wf_stable(
    items1: Seq<IndexedChestItem>,
    items2: Seq<IndexedChestItem>,
    lo: int,
    hi: int,
    lo2: int,
    hi2: int,
    outer: Seq<usize>,
    i: int,
)
    requires
        block_item_wf(items1, lo, hi, outer, i),
        lo <= i < hi <= items1.len(),
        hi <= items2.len(),
        forall|x: int| lo <= x < hi ==> #[trigger] items2[x] == items1[x],
        0 <= lo2 <= lo,
        hi <= hi2 <= items2.len(),
    ensures
        block_item_wf(items2, lo2, hi2, outer, i),
{
    let it = items1[i];
    assert(items2[i] == it);
    assert forall|j: int|
        it.child_start <= j < it.child_end implies (#[trigger] items2[j].child_end)
        <= it.child_end by {
        assert(items2[j] == items1[j]);
    }
    assert forall|k: int|
        outer.len() <= k < it.parent_path@.len() implies lo2 <= (
    #[trigger] it.parent_path@[k]) < i && i < items2[it.parent_path@[k] as int].child_end
        by {
        assert(items2[it.parent_path@[k] as int] == items1[it.parent_path@[k] as int]);
    }
}

/// Copies a vector of ids.
pub(crate) fn copy_id_vec(v: &Vec<usize>) -> (r: Vec<usize>)
    ensures
        r@ == v@,
{
    let mut r: Vec<usize> = Vec::new();
    let mut i: usize = 0;
    while i < v.len()
        invariant
            i <= v@.len(),
            r@ == v@.take(i as int),
        decreases v@.len() - i,
    {
        r.push(v[i]);
        proof {
            assert(r@ =~= v@.take(i + 1));
        }
        i += 1;
    }
    proof {
        assert(v@.take(v@.len() as int) =~= v@);
    }
    r
}

/// Converts one chest item and its whole subtree into indexed form,
/// appending to `items`. Returns the id of the item itself; its subtree
/// occupies exactly the ids from there to the new end of `items`.
fn index_item(
    item: ChestItem,
    items: &mut Vec<IndexedChestItem>,
    path: &mut Vec<usize>,
) -> (id: usize)
    requires
        forall|k: int|
            0 <= k < old(path)@.len() ==> (#[trigger] old(path)@[k]) < old(items)@.len(),
        ids_increasing(old(path)@),
    ensures
        final(path)@ == old(path)@,
        id == old(items)@.len(),
        final(items)@.len() > id,
        forall|x: int| 0 <= x < id ==> #[trigger] final(items)@[x] == old(items)@[x],
        block_wf(final(items)@, id as int, final(items)@.len() as int, old(path)@),
        final(items)@[id as int].child_end == final(items)@.len(),
        final(items)@[id as int].parent_path@ == old(path)@,
        data_matches(item, final(items)@[id as int].data),
        subtree_corresponds(final(items)@, id as int, item),
        block_ancestors_complete(final(items)@, id as int, final(items)@.len() as int),
        forall|x: int|
            id as int <= x < final(items)@.len() ==> ids_increasing(
                (#[trigger] final(items)@[x]).parent_path@,
            ),
    decreases item,
{
    let id = items.len();
    let ghost item0 = item;
    let (data, contents_opt) = match item {
        ChestItem::Module(module) => {
            let module = *module;
            (
                IndexedChestItemData::Module(
                    IndexedModule { info: module.info, contents: Vec::new() },
                ),
                Some(module.contents),
            )
        },
        ChestItem::Group(group) => {
            let group = *group;
            (
                IndexedChestItemData::Group(
                    IndexedGroup { info: group.info, contents: Vec::new() },
                ),
                Some(group.contents),
            )
        },
        ChestItem::Page(page) => (IndexedChestItemData::Page(*page), None),
        ChestItem::Object(object) => {
            let object = *object;
            (
                IndexedChestItemData::Object(
                    IndexedObject { info: object.info, contents: Vec::new() },
                ),
                Some(object.contents),
            )
        },
    };
    items.push(
        IndexedChestItem {
            parent_path: copy_id_vec(path),
            child_start: 0,
            child_end: 0,
            data,
        },
    );
    let ghost items_mid = items@;
    path.push(id);
    let ghost mut src_children: Seq<ChestItem> = Seq::<ChestItem>::empty();
    let child_ids = match contents_opt {
        Some(contents) => {
            proof {
                src_children = contents@;
                assert(contents@ == source_children(item));
            }
            proof {
                match item0 {
                    ChestItem::Module(m) => {
                        assert(decreases_to!(item0 => contents));
                    },
                    ChestItem::Group(g) => {
                        assert(decreases_to!(item0 => contents));
                    },
                    ChestItem::Object(o) => {
                        assert(decreases_to!(item0 => contents));
                    },
                    ChestItem::Page(_) => {
                        assert(false);
                    },
                }
            }
            index_list(contents, items, path)
        },
        None => Vec::new(),
    };
    path.pop();
    let end = items.len();
    let ghost items_rec = items@;
    let ghost inner_outer = old(path)@.push(id);
    let it = &mut items[id];
    it.child_start = id + 1;
    it.child_end = end;
    let ghost child_ids_v = child_ids@;
    match &mut it.data {
        IndexedChestItemData::Module(m) => {
            m.contents = child_ids;
        },
        IndexedChestItemData::Group(g) => {
            g.contents = child_ids;
        },
        IndexedChestItemData::Page(_) => {},
        IndexedChestItemData::Object(o) => {
            o.contents = child_ids;
        },
    }
    proof {
        let fin = items@;
        assert(fin.len() == end);
        assert(forall|x: int| 0 <= x < fin.len() && x != id ==> #[trigger] fin[x]
            == items_rec[x]);
        assert(fin[id as int].child_start == id + 1);
        assert(fin[id as int].child_end == end);
        assert(fin[id as int].parent_path@ == old(path)@);
        if !((item is Page)) {
            assert(data_content_ids(fin[id as int].data) == child_ids_v);
        }
        assert(data_matches(item, fin[id as int].data));
        if item is Page {
            assert(source_children(item) =~= Seq::<ChestItem>::empty());
            assert(subtree_corresponds(fin, id as int, item));
        } else {
            assert(children_correspond(items_rec, child_ids_v, src_children));
            assert(src_children == source_children(item));
            assert forall|x: int| id + 1 <= x < end implies #[trigger] fin[x]
                == items_rec[x] by {}
            lemma_children_correspond_frame(
                items_rec,
                fin,
                id + 1,
                end as int,
                inner_outer,
                child_ids_v,
                src_children,
            );
            assert(subtree_corresponds(fin, id as int, item));
        }
        assert forall|a: int, x: int|
            id as int <= a < x < end as int && (#[trigger] fin[a].child_start) <= x
                < fin[a].child_end implies parent_path_contains(
            (#[trigger] fin[x].parent_path)@,
            a,
        ) by {
            assert(block_item_wf(items_rec, id + 1, end as int, inner_outer, x));
            assert(fin[x] == items_rec[x]);
            if a == id as int {
                assert(fin[x].parent_path@.take(inner_outer.len() as int)
                    == inner_outer);
                assert(fin[x].parent_path@[old(path)@.len() as int] == inner_outer[
                    old(path)@.len() as int
                ]);
                assert(inner_outer[old(path)@.len() as int] == id);
            } else {
                assert(fin[a] == items_rec[a]);
                assert(parent_path_contains(items_rec[x].parent_path@, a));
            }
        }
        assert forall|x: int| id as int <= x < end implies ids_increasing(
            (#[trigger] fin[x]).parent_path@,
        ) by {
            if x == id as int {
                assert(fin[x].parent_path@ == old(path)@);
            } else {
                assert(fin[x] == items_rec[x]);
            }
        }
        assert forall|i: int|
            id as int <= i < end implies #[trigger] block_item_wf(
            fin,
            id as int,
            end as int,
            old(path)@,
            i,
        ) by {
            if i == id {
                assert forall|j: int|
                    id + 1 <= j < end implies (#[trigger] fin[j].child_end) <= end by {
                    assert(block_item_wf(items_rec, id + 1, end as int, inner_outer, j));
                    assert(fin[j] == items_rec[j]);
                }
                assert(old(path)@.take(old(path)@.len() as int) =~= old(path)@);
                assert forall|c: int|
                    0 <= c < data_content_ids(fin[id as int].data).len() implies id < (
                #[trigger] data_content_ids(fin[id as int].data)[c]) < end by {
                }
            } else {
                assert(block_item_wf(items_rec, id + 1, end as int, inner_outer, i));
                let it2 = items_rec[i];
                assert(fin[i] == it2);
                assert forall|j: int|
                    it2.child_start <= j < it2.child_end implies (
                #[trigger] fin[j].child_end) <= it2.child_end by {
                    assert(fin[j] == items_rec[j]);
                }
                assert(it2.parent_path@.take(old(path)@.len() as int) =~= old(path)@)
                    by {
                    assert(it2.parent_path@.take(inner_outer.len() as int)
                        == inner_outer);
                    assert(forall|x: int|
                        0 <= x < old(path)@.len() ==> it2.parent_path@.take(
                            inner_outer.len() as int,
                        )[x] == #[trigger] it2.parent_path@[x]);
                }
                assert forall|k: int|
                    old(path)@.len() <= k < it2.parent_path@.len() implies id as int <= (
                #[trigger] it2.parent_path@[k]) < i && i < fin[it2.parent_path@[k] as int].child_end
                    by {
                    if k == old(path)@.len() {
                        assert(it2.parent_path@.take(inner_outer.len() as int)[k]
                            == inner_outer[k]);
                        assert(it2.parent_path@[k] == id);
                        assert(fin[id as int].child_end == end);
                    } else {
                        assert(inner_outer.len() <= k);
                        let a = it2.parent_path@[k];
                        assert(id + 1 <= a < i && i < items_rec[a as int].child_end);
                        assert(fin[a as int] == items_rec[a as int]);
                    }
                }
            }
        }
    }
    id
}

/// Converts a list of chest items and their subtrees into indexed form,
/// appending to `items`. Returns the ids of the items of the list
/// itself.
#[verifier::loop_isolation(false)]
fn index_list(
    source: Vec<ChestItem>,
    items: &mut Vec<IndexedChestItem>,
    path: &mut Vec<usize>,
) -> (r: Vec<usize>)
    requires
        forall|k: int|
            0 <= k < old(path)@.len() ==> (#[trigger] old(path)@[k]) < old(items)@.len(),
        ids_increasing(old(path)@),
    ensures
        final(path)@ == old(path)@,
        children_correspond(final(items)@, r@, source@),
        block_ancestors_complete(
            final(items)@,
            old(items)@.len() as int,
            final(items)@.len() as int,
        ),
        forall|x: int|
            old(items)@.len() <= x < final(items)@.len() ==> ids_increasing(
                (#[trigger] final(items)@[x]).parent_path@,
            ),
        r@.len() > 0 ==> r@[0] == old(items)@.len(),
        forall|k: int|
            0 <= k && k + 1 < r@.len() ==> (#[trigger] r@[k + 1]) == final(items)@[
                r@[k] as int
            ].child_end,
        r@.len() == 0 ==> final(items)@.len() == old(items)@.len(),
        r@.len() > 0 ==> final(items)@[r@.last() as int].child_end
            == final(items)@.len(),
        final(items)@.len() >= old(items)@.len(),
        forall|x: int|
            0 <= x < old(items)@.len() ==> #[trigger] final(items)@[x] == old(items)@[x],
        block_wf(
            final(items)@,
            old(items)@.len() as int,
            final(items)@.len() as int,
            old(path)@,
        ),
        r@.len() == source@.len(),
        forall|k: int|
            0 <= k < r@.len() ==> old(items)@.len() <= (#[trigger] r@[k]) < final(items)@.len(),
        forall|k: int|
            0 <= k < r@.len() ==> (#[trigger] final(items)@[r@[k] as int]).parent_path@
                == old(path)@,
        forall|k: int|
            0 <= k < r@.len() ==> data_matches(
                source@[k],
                (#[trigger] final(items)@[r@[k] as int]).data,
            ),
        forall|k1: int, k2: int|
            0 <= k1 < k2 < r@.len() ==> (#[trigger] r@[k1]) < (#[trigger] r@[k2]),
    decreases source,
{
    let ghost source0 = source@;
    let ghost source_val = source;
    let ghost items0 = items@;
    let mut src = source;
    let mut r: Vec<usize> = Vec::new();
    let ghost outer = path@;
    while src.len() > 0
        invariant
            path@ == outer,
            items@.len() >= items0.len(),
            forall|x: int| 0 <= x < items0.len() ==> #[trigger] items@[x] == items0[x],
            block_wf(items@, items0.len() as int, items@.len() as int, outer),
            src@ == source0.skip(r@.len() as int),
            r@.len() <= source0.len(),
            forall|k: int|
                0 <= k < r@.len() ==> items0.len() <= (#[trigger] r@[k]) < items@.len(),
            forall|k: int|
                0 <= k < r@.len() ==> (#[trigger] items@[r@[k] as int]).parent_path@
                    == outer,
            forall|k: int|
                0 <= k < r@.len() ==> data_matches(
                    source0[k],
                    (#[trigger] items@[r@[k] as int]).data,
                ),
            forall|k1: int, k2: int|
                0 <= k1 < k2 < r@.len() ==> (#[trigger] r@[k1]) < (#[trigger] r@[k2]),
            children_correspond(items@, r@, source0.take(r@.len() as int)),
            block_ancestors_complete(items@, items0.len() as int, items@.len() as int),
            forall|x: int|
                items0.len() <= x < items@.len() ==> ids_increasing(
                    (#[trigger] items@[x]).parent_path@,
                ),
            r@.len() > 0 ==> r@[0] == items0.len(),
            forall|k: int|
                0 <= k && k + 1 < r@.len() ==> (#[trigger] r@[k + 1]) == items@[
                    r@[k] as int
                ].child_end,
            r@.len() == 0 ==> items@.len() == items0.len(),
            r@.len() > 0 ==> items@[r@.last() as int].child_end == items@.len(),
        decreases src@.len(),
    {
        let ghost processed = r@.len() as int;
        let ghost items_before = items@;
        let item = src.remove(0);
        proof {
            assert(item == source0[processed]);
            assert(src@ =~= source0.skip(processed + 1));
            assert(decreases_to!(source_val => source_val@));
            assert(source_val@ == source0);
            assert(decreases_to!(source_val@ => source_val@[processed]));
            assert(item == source_val@[processed]);
            assert(decreases_to!(source_val => item));
        }
        let ghost r_before = r@;
        let id = index_item(item, items, path);
        r.push(id);
        proof {
            let lo = items0.len() as int;
            let hi = items@.len() as int;
            let mid = items_before.len() as int;
            assert(children_correspond(items_before, r_before, source0.take(processed)));
            lemma_children_correspond_frame(
                items_before,
                items@,
                lo,
                mid,
                outer,
                r_before,
                source0.take(processed),
            );
            lemma_children_correspond_push(
                items@,
                r_before,
                source0.take(processed),
                id,
                item,
            );
            assert(source0.take(processed).push(source0[processed]) =~= source0.take(
                processed + 1,
            ));
            assert(children_correspond(items@, r@, source0.take(r@.len() as int)));
            assert forall|a: int, x: int|
                lo <= a < x < hi && (#[trigger] items@[a].child_start) <= x < items@[
                    a
                ].child_end implies parent_path_contains(
                (#[trigger] items@[x].parent_path)@,
                a,
            ) by {
                if x < mid {
                    assert(items@[a] == items_before[a]);
                    assert(items@[x] == items_before[x]);
                    assert(parent_path_contains(items_before[x].parent_path@, a));
                } else if a < mid {
                    assert(block_item_wf(items_before, lo, mid, outer, a));
                    assert(items@[a] == items_before[a]);
                    assert(items@[a].child_end <= mid);
                    assert(false);
                } else {
                }
            }
            assert forall|k: int|
                0 <= k && k + 1 < r@.len() implies (#[trigger] r@[k + 1]) == items@[
                r@[k] as int
            ].child_end by {
                if k + 1 < r_before.len() {
                    assert(r@[k + 1] == r_before[k + 1]);
                    assert(r@[k] == r_before[k]);
                    assert(items@[r_before[k] as int] == items_before[
                        r_before[k] as int
                    ]);
                } else {
                    assert(k + 1 == r_before.len());
                    assert(r@[k + 1] == id);
                    assert(r@[k] == r_before[k]);
                    assert(r_before[k] == r_before.last());
                    assert(items_before[r_before.last() as int].child_end
                        == items_before.len());
                    assert(items@[r_before.last() as int] == items_before[
                        r_before.last() as int
                    ]);
                }
            }
            assert forall|i: int|
                lo <= i < hi implies #[trigger] block_item_wf(items@, lo, hi, outer, i)
                by {
                if i < mid {
                    assert(block_item_wf(items_before, lo, mid, outer, i));
                    lemma_block_item_wf_stable(
                        items_before,
                        items@,
                        lo,
                        mid,
                        lo,
                        hi,
                        outer,
                        i,
                    );
                } else {
                    assert(block_item_wf(items@, mid, hi, outer, i));
                    lemma_block_item_wf_stable(items@, items@, mid, hi, lo, hi, outer, i);
                }
            }
        }
    }
    proof {
        assert(source0.skip(r@.len() as int).len() == 0);
        assert(r@.len() == source0.len());
        assert(source0.take(r@.len() as int) =~= source0);
    }
    r
}

impl IndexedChestContents {
    /// Well-formedness of the index: subtrees are the contiguous ranges
    /// the items carry, and the listed roots are valid ids with no
    /// ancestors.
    pub open spec fn wf(self) -> bool {
        &&& block_wf(self.items@, 0, self.items@.len() as int, Seq::<usize>::empty())
        &&& (forall|k: int|
            0 <= k < self.root_item_ids@.len() ==> (#[trigger] self.root_item_ids@[
            k]) < self.items@.len())
        &&& (forall|k: int|
            0 <= k < self.root_item_ids@.len()
                ==> (#[trigger] self.items@[self.root_item_ids@[k] as int]).parent_path@
                =~= Seq::<usize>::empty())
    }
}

impl ChestContents {
    /// Converts chest contents into indexed form: a flat array of items
    /// in depth-first order, where every subtree occupies a contiguous,
    /// half-open id range.
    pub fn to_indexed(self) -> (r: IndexedChestContents)
        ensures
            r.wf(),
            r.info == self.info,
            r.root_item_ids@.len() == self.items@.len(),
            forall|k: int|
                0 <= k < r.root_item_ids@.len() ==> data_matches(
                    self.items@[k],
                    (#[trigger] r.items@[r.root_item_ids@[k] as int]).data,
                ),
            children_correspond(r.items@, r.root_item_ids@, self.items@),
            block_ancestors_complete(r.items@, 0, r.items@.len() as int),
            forall|x: int|
                0 <= x < r.items@.len() ==> ids_increasing(
                    (#[trigger] r.items@[x]).parent_path@,
                ),
            r.root_item_ids@.len() > 0 ==> r.root_item_ids@[0] == 0,
            forall|k: int|
                0 <= k && k + 1 < r.root_item_ids@.len() ==> (
                #[trigger] r.root_item_ids@[k + 1]) == r.items@[
                    r.root_item_ids@[k] as int
                ].child_end,
            r.root_item_ids@.len() == 0 ==> r.items@.len() == 0,
            r.root_item_ids@.len() > 0 ==> r.items@[
                r.root_item_ids@.last() as int
            ].child_end == r.items@.len(),
    {
        let ChestContents { info, items: source } = self;
        let mut items: Vec<IndexedChestItem> = Vec::new();
        let mut path: Vec<usize> = Vec::new();
        let root_item_ids = index_list(source, &mut items, &mut path);
        let r = IndexedChestContents { info, items, root_item_ids };
        proof {
            assert forall|k: int|
                0 <= k < r.root_item_ids@.len() implies (#[trigger] r.items@[
                r.root_item_ids@[k] as int]).parent_path@ =~= Seq::<usize>::empty() by {
            }
        }
        r
    }
}

/// Subtree contiguity: every item whose ancestor chain includes item
/// `a` has its id within `a`'s half-open child range.
pub proof fn lemma_subtree_contiguity(c: IndexedChestContents, j: int, k: int)
    requires
        c.wf(),
        0 <= j < c.items@.len(),
        0 <= k < c.items@[j].parent_path@.len(),
    ensures
        ({
            let a = c.items@[j].parent_path@[k] as int;
            &&& 0 <= a < c.items@.len()
            &&& c.items@[a].child_start <= j < c.items@[a].child_end
        }),
{
    assert(block_item_wf(c.items@, 0, c.items@.len() as int, Seq::<usize>::empty(), j));
    let a = c.items@[j].parent_path@[k] as int;
    assert(block_item_wf(c.items@, 0, c.items@.len() as int, Seq::<usize>::empty(), a));
}


/// Search-space narrowing: subtree ranges nest. When an item's id lies
/// within another item's subtree range, its own subtree range lies
/// within that range too; so restricting a search to the subtrees of
/// matched items can only shrink the set of candidate ids from one
/// query segment to the next.
pub proof fn lemma_narrowing_nested(c: IndexedChestContents, a: int, j: int)
    requires
        c.wf(),
        0 <= a < c.items@.len(),
        c.items@[a].child_start <= j < c.items@[a].child_end,
    ensures
        0 <= j < c.items@.len(),
        c.items@[a].child_start <= c.items@[j].child_start,
        c.items@[j].child_end <= c.items@[a].child_end,
{
    assert(block_item_wf(c.items@, 0, c.items@.len() as int, Seq::<usize>::empty(), a));
    assert(block_item_wf(c.items@, 0, c.items@.len() as int, Seq::<usize>::empty(), j));
}

} // verus!
