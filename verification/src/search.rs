use vstd::prelude::*;
use crate::content::{
    element_model, element_model_lt, path_model, ChestPath, ChestPathElement,
    ChestPathElementType, ChestSearchResult,
};
use crate::indexed::{
    block_item_wf, data_content_ids, indexed_element_type, indexed_name, indexed_url,
    IndexedChestContents, IndexedChestItem,
};
use crate::strutil::{lex_lt, str_eq};

verus! {

/// Minimum score to return a match. The fuzzy matcher yields at least
/// this much for a query of two or more characters, or a one character
/// query matched at the start of a word; lower scores are noise.
pub const MIN_SEARCH_SCORE: usize = 9;

/// The score that the fuzzy matcher gives a query against a target, if
/// they match at all. A function of the two strings alone.
pub uninterp spec fn fuzzy_score(target: Seq<char>, query: Seq<char>) -> Option<usize>;

/// Fuzzy-matches a query string against a target string.
///
/// Relies on `code_fuzzy_match::fuzzy_match`: the score depends on the
/// target and query strings alone.
#[verifier::external_body]
pub(crate) fn fuzzy_match(target: &str, query: &str) -> (r: Option<usize>)
    ensures
        r == fuzzy_score(target@, query@),
{
    code_fuzzy_match::fuzzy_match(target, query)
}

/// An interval map from item id ranges to accumulated scores: the
/// search space of one narrowing step.
#[verifier::external_body]
pub struct ScoreRanges {
    inner: btree_range_map::RangeMap<usize, usize>,
}

/// What a score range map holds: the score for every id that some
/// inserted range covers.
pub uninterp spec fn score_ranges_model(m: ScoreRanges) -> Map<usize, usize>;

impl ScoreRanges {
    /// Relies on `btree_range_map::RangeMap::new`: a fresh map is empty.
    #[verifier::external_body]
    pub(crate) fn new() -> (r: Self)
        ensures
            score_ranges_model(r).dom() == Set::<usize>::empty(),
    {
        ScoreRanges { inner: btree_range_map::RangeMap::new() }
    }

    /// Relies on `btree_range_map::RangeMap::insert`: the value is set
    /// on exactly the keys of the half-open range, and other keys keep
    /// their mapping.
    #[verifier::external_body]
    pub(crate) fn insert(&mut self, start: usize, end: usize, score: usize)
        requires
            start < end,
        ensures
            score_ranges_model(*final(self)) == Map::new(
                |k: usize| start <= k < end || score_ranges_model(*old(self)).dom().contains(k),
                |k: usize|
                    if start <= k < end {
                        score
                    } else {
                        score_ranges_model(*old(self))[k]
                    },
            ),
    {
        self.inner.insert(start..end, score);
    }

    /// Relies on `btree_range_map::RangeMap::get`: lookup of the value
    /// covering one key.
    #[verifier::external_body]
    pub(crate) fn get(&self, k: usize) -> (r: Option<usize>)
        ensures
            r == if score_ranges_model(*self).dom().contains(k) {
                Some(score_ranges_model(*self)[k])
            } else {
                None::<usize>
            },
    {
        self.inner.get(k).copied()
    }

    /// Relies on `btree_range_map::RangeMap::iter` and
    /// `AnyRange::first`/`AnyRange::last`: the map holds disjoint,
    /// non-empty ranges in ascending order. The scores themselves are
    /// read back through `get`.
    #[verifier::external_body]
    pub(crate) fn to_pairs(&self) -> (r: Vec<(usize, usize)>)
        ensures
            forall|idx: int| 0 <= idx < r@.len() ==> (#[trigger] r@[idx]).0 <= r@[idx].1,
            forall|i: int, j: int|
                0 <= i < j < r@.len() ==> (#[trigger] r@[i]).1 < (#[trigger] r@[j]).0,
            forall|k: usize|
                #[trigger] score_ranges_model(*self).dom().contains(k) ==> (exists|
                    idx: int,
                |
                    0 <= idx < r@.len() && (#[trigger] r@[idx]).0 <= k <= r@[idx].1),
    {
        let mut out: Vec<(usize, usize)> = Vec::new();
        for (range, _value) in self.inner.iter() {
            if let (Some(first), Some(last)) = (range.first(), range.last()) {
                out.push((first, last));
            }
        }
        out
    }
}

/// The non-empty parts of a query, split at `.` and `:`.
pub open spec fn split_on_separators(s: Seq<char>) -> Seq<Seq<char>>
    decreases s.len(),
{
    if s.len() == 0 {
        seq![Seq::<char>::empty()]
    } else {
        let rest = split_on_separators(s.drop_last());
        if s.last() == '.' || s.last() == ':' {
            rest.push(Seq::<char>::empty())
        } else {
            rest.update(rest.len() - 1, rest.last().push(s.last()))
        }
    }
}

pub proof fn lemma_split_on_separators_nonempty(s: Seq<char>)
    ensures
        split_on_separators(s).len() >= 1,
    decreases s.len(),
{
    if s.len() > 0 {
        lemma_split_on_separators_nonempty(s.drop_last());
    }
}

/// The query segments: the split parts with empty ones discarded.
pub open spec fn query_segments(q: Seq<char>) -> Seq<Seq<char>> {
    split_on_separators(q).filter(|p: Seq<char>| p.len() > 0)
}

/// Splits a query into its non-empty segments.
pub fn split_query(q: &str) -> (r: Vec<String>)
    ensures
        crate::pathutil::seq_views(r@) == query_segments(q@),
{
    let n = q.unicode_len();
    let mut parts: Vec<String> = Vec::new();
    parts.push(String::new());
    proof {
        assert(q@.take(0) =~= Seq::<char>::empty());
        assert(crate::pathutil::seq_views(parts@) =~= split_on_separators(q@.take(0)));
    }
    let mut i: usize = 0;
    while i < n
        invariant
            i <= n,
            n == q@.len(),
            parts@.len() >= 1,
            crate::pathutil::seq_views(parts@) == split_on_separators(q@.take(i as int)),
        decreases n - i,
    {
        let c = q.get_char(i);
        proof {
            assert(q@.take(i + 1).drop_last() =~= q@.take(i as int));
            assert(q@.take(i + 1).last() == q@[i as int]);
            lemma_split_on_separators_nonempty(q@.take(i as int));
        }
        if c == '.' || c == ':' {
            parts.push(String::new());
            proof {
                assert(crate::pathutil::seq_views(parts@) =~= split_on_separators(
                    q@.take(i + 1),
                ));
            }
        } else {
            let li = parts.len() - 1;
            crate::strutil::string_push_char(&mut parts[li], c);
            proof {
                let prev = split_on_separators(q@.take(i as int));
                assert(split_on_separators(q@.take(i + 1)) == prev.update(
                    prev.len() - 1,
                    prev.last().push(q@[i as int]),
                ));
                assert(crate::pathutil::seq_views(parts@) =~= split_on_separators(
                    q@.take(i + 1),
                ));
            }
        }
        i += 1;
    }
    proof {
        assert(q@.take(n as int) =~= q@);
    }
    let mut r: Vec<String> = Vec::new();
    let mut k: usize = 0;
    proof {
        assert(crate::pathutil::seq_views(parts@).take(0) =~= Seq::<Seq<char>>::empty());
        assert(Seq::<Seq<char>>::empty().filter(|p: Seq<char>| p.len() > 0) =~= Seq::<
            Seq<char>,
        >::empty());
        assert(crate::pathutil::seq_views(r@) =~= Seq::<Seq<char>>::empty());
    }
    while k < parts.len()
        invariant
            k <= parts@.len(),
            crate::pathutil::seq_views(r@) == crate::pathutil::seq_views(parts@).take(
                k as int,
            ).filter(|p: Seq<char>| p.len() > 0),
        decreases parts@.len() - k,
    {
        let ghost pre = crate::pathutil::seq_views(parts@).take(k as int);
        proof {
            assert(crate::pathutil::seq_views(parts@).take(k + 1).drop_last() =~= pre);
            assert(crate::pathutil::seq_views(parts@).take(k + 1).last() == parts@[
                k as int
            ]@);
            reveal(Seq::filter);
            assert(crate::pathutil::seq_views(parts@).take(k + 1).filter(
                |p: Seq<char>| p.len() > 0,
            ) == if parts@[k as int]@.len() > 0 {
                pre.filter(|p: Seq<char>| p.len() > 0).push(parts@[k as int]@)
            } else {
                pre.filter(|p: Seq<char>| p.len() > 0)
            });
        }
        if !parts[k].as_str().is_empty() {
            let part = parts[k].clone();
            r.push(part);
            proof {
                assert(crate::pathutil::seq_views(r@) =~= pre.filter(
                    |p: Seq<char>| p.len() > 0,
                ).push(parts@[k as int]@));
            }
        }
        k += 1;
    }
    proof {
        assert(crate::pathutil::seq_views(parts@).take(parts@.len() as int)
            =~= crate::pathutil::seq_views(parts@));
    }
    r
}

impl IndexedChestItem {
    /// Name of the chest item.
    pub fn name(&self) -> (r: &str)
        ensures
            r@ == indexed_name(self.data),
    {
        match &self.data {
            crate::indexed::IndexedChestItemData::Module(m) => m.info.name.as_str(),
            crate::indexed::IndexedChestItemData::Group(g) => g.info.name.as_str(),
            crate::indexed::IndexedChestItemData::Page(p) => p.title.as_str(),
            crate::indexed::IndexedChestItemData::Object(o) => o.info.name.as_str(),
        }
    }

    /// URL of the chest item, if it has one.
    pub fn url(&self) -> (r: Option<&str>)
        ensures
            match r {
                Some(u) => indexed_url(self.data) == Some(u@),
                None => indexed_url(self.data) is None,
            },
    {
        match &self.data {
            crate::indexed::IndexedChestItemData::Module(m) => match &m.info.url {
                Some(u) => Some(u.as_str()),
                None => None,
            },
            crate::indexed::IndexedChestItemData::Group(g) => match &g.info.url {
                Some(u) => Some(u.as_str()),
                None => None,
            },
            crate::indexed::IndexedChestItemData::Page(p) => Some(p.url.as_str()),
            crate::indexed::IndexedChestItemData::Object(o) => match &o.info.url {
                Some(u) => Some(u.as_str()),
                None => None,
            },
        }
    }

    /// The id range `[start, end)` that covers this item's subtree.
    pub fn children_range(&self) -> (r: (usize, usize))
        ensures
            r.0 == self.child_start,
            r.1 == self.child_end,
    {
        (self.child_start, self.child_end)
    }

    /// List of the ids of the items directly contained in this item.
    pub fn content_ids(&self) -> (r: &[usize])
        ensures
            r@ == data_content_ids(self.data),
    {
        match &self.data {
            crate::indexed::IndexedChestItemData::Module(m) => m.contents.as_slice(),
            crate::indexed::IndexedChestItemData::Group(g) => g.contents.as_slice(),
            crate::indexed::IndexedChestItemData::Page(_) => &[],
            crate::indexed::IndexedChestItemData::Object(o) => o.contents.as_slice(),
        }
    }

    /// Type of the chest item.
    pub fn element_type(&self) -> (r: ChestPathElementType)
        ensures
            r == indexed_element_type(self.data),
    {
        match &self.data {
            crate::indexed::IndexedChestItemData::Module(_) => ChestPathElementType::Module,
            crate::indexed::IndexedChestItemData::Group(_) => ChestPathElementType::Group,
            crate::indexed::IndexedChestItemData::Page(_) => ChestPathElementType::Page,
            crate::indexed::IndexedChestItemData::Object(_) => ChestPathElementType::Object,
        }
    }

    /// Gets the path element that references this chest item.
    pub fn as_path_element(&self) -> (r: ChestPathElement)
        ensures
            element_model(r) == (indexed_element_type(self.data), indexed_name(self.data)),
    {
        ChestPathElement { element_type: self.element_type(), name: self.name().to_owned() }
    }

    /// Checks whether this chest item matches the given path element.
    pub fn matches_path_element(&self, element: &ChestPathElement) -> (r: bool)
        ensures
            r == (element_model(*element) == (
                indexed_element_type(self.data),
                indexed_name(self.data),
            )),
    {
        let r = element.element_type == self.element_type() && str_eq(
            element.name.as_str(),
            self.name(),
        );
        proof {
            if r {
                assert(element_model(*element) == (
                    indexed_element_type(self.data),
                    indexed_name(self.data),
                ));
            }
        }
        r
    }

    /// List of the items directly contained in this item: exactly the
    /// recorded child ids that fall inside the chest's item run, in
    /// order.
    pub fn contents<'a>(&self, chest: &'a IndexedChestContents) -> (r: Vec<
        &'a IndexedChestItem,
    >)
        ensures
            r@.len() == bounded_ids(chest.items@, data_content_ids(self.data)).len(),
            forall|k: int|
                0 <= k < r@.len() ==> *(#[trigger] r@[k]) == chest.items@[bounded_ids(
                    chest.items@,
                    data_content_ids(self.data),
                )[k] as int],
    {
        let ids = self.content_ids();
        let ghost cs = ids@;
        let ghost itemsg = chest.items@;
        let mut r: Vec<&IndexedChestItem> = Vec::new();
        proof {
            assert(cs.take(0) =~= Seq::<usize>::empty());
        }
        let mut i: usize = 0;
        while i < ids.len()
            invariant
                cs == ids@,
                itemsg == chest.items@,
                i <= cs.len(),
                r@.len() == bounded_ids(itemsg, cs.take(i as int)).len(),
                forall|k: int|
                    0 <= k < r@.len() ==> *(#[trigger] r@[k]) == itemsg[bounded_ids(
                        itemsg,
                        cs.take(i as int),
                    )[k] as int],
                forall|k: int|
                    0 <= k < bounded_ids(itemsg, cs.take(i as int)).len()
                        ==> (#[trigger] bounded_ids(itemsg, cs.take(i as int))[k])
                        < itemsg.len(),
            decreases cs.len() - i,
        {
            let id = ids[i];
            proof {
                assert(cs.take(i + 1).drop_last() =~= cs.take(i as int));
                assert(cs.take(i + 1).last() == cs[i as int]);
            }
            if id < chest.items.len() {
                r.push(&chest.items[id]);
            }
            i += 1;
        }
        proof {
            assert(cs.take(cs.len() as int) =~= cs);
        }
        r
    }
}


/// The models of a sequence of path elements.
pub open spec fn elems_models(v: Seq<ChestPathElement>) -> Seq<
    (ChestPathElementType, Seq<char>),
> {
    Seq::new(v.len(), |i: int| element_model(v[i]))
}

/// Lexicographic order on element sequences, shorter prefixes first.
pub open spec fn elems_lex_lt(
    a: Seq<(ChestPathElementType, Seq<char>)>,
    b: Seq<(ChestPathElementType, Seq<char>)>,
) -> bool
    decreases a.len(),
{
    if a.len() == 0 {
        b.len() > 0
    } else if b.len() == 0 {
        false
    } else if element_model_lt(a[0], b[0]) {
        true
    } else if a[0] == b[0] {
        elems_lex_lt(a.drop_first(), b.drop_first())
    } else {
        false
    }
}

/// The order on whole item paths: ancestor chains compare first,
/// shorter chains first, then the item's own element.
pub open spec fn chain_lt(
    p: Seq<(ChestPathElementType, Seq<char>)>,
    q: Seq<(ChestPathElementType, Seq<char>)>,
) -> bool
    recommends
        p.len() >= 1,
        q.len() >= 1,
{
    elems_lex_lt(p.drop_last(), q.drop_last()) || (p.drop_last() == q.drop_last()
        && element_model_lt(p.last(), q.last()))
}

/// The strict order on search results: higher scores first, ties broken
/// by item path.
pub open spec fn result_lt(a: ChestSearchResult, b: ChestSearchResult) -> bool {
    a.score > b.score || (a.score == b.score && chain_lt(
        path_model(a.path),
        path_model(b.path),
    ))
}

/// Two results that the ranking cannot tell apart.
pub open spec fn result_eq(a: ChestSearchResult, b: ChestSearchResult) -> bool {
    a.score == b.score && path_model(a.path) == path_model(b.path)
}

/// The ranking order on search results.
pub open spec fn result_le(a: ChestSearchResult, b: ChestSearchResult) -> bool {
    result_lt(a, b) || result_eq(a, b)
}

/// In a run sorted by the ranking with strictly increasing neighbours,
/// no two results rank equal.
pub proof fn lemma_chest_results_distinct(rs: Seq<ChestSearchResult>)
    requires
        forall|k: int|
            0 <= k < rs.len() ==> (#[trigger] rs[k]).path.elements@.len() >= 1,
        forall|i: int, j: int|
            0 <= i < j < rs.len() ==> result_le(#[trigger] rs[i], #[trigger] rs[j]),
        forall|k: int|
            0 <= k && k + 1 < rs.len() ==> result_lt(#[trigger] rs[k], rs[k + 1]),
    ensures
        forall|i: int, j: int|
            0 <= i < j < rs.len() ==> !result_eq(#[trigger] rs[i], #[trigger] rs[j]),
{
    assert forall|i: int, j: int|
        0 <= i < j < rs.len() implies !result_eq(#[trigger] rs[i], #[trigger] rs[j]) by {
        if result_eq(rs[i], rs[j]) {
            assert(result_lt(rs[i], rs[i + 1]));
            if j == i + 1 {
                lemma_chain_lt_irreflexive(path_model(rs[i].path));
            } else {
                assert(result_le(rs[i + 1], rs[j]));
                if rs[i].score > rs[i + 1].score {
                } else {
                    assert(chain_lt(path_model(rs[i].path), path_model(rs[i + 1].path)));
                    if result_eq(rs[i + 1], rs[j]) {
                        lemma_chain_lt_irreflexive(path_model(rs[i].path));
                    } else {
                        assert(chain_lt(
                            path_model(rs[i + 1].path),
                            path_model(rs[j].path),
                        ));
                        lemma_chain_lt_transitive(
                            path_model(rs[i].path),
                            path_model(rs[i + 1].path),
                            path_model(rs[j].path),
                        );
                        lemma_chain_lt_irreflexive(path_model(rs[i].path));
                    }
                }
            }
        }
    }
}

/// The element order is a strict total order.
pub proof fn lemma_element_lt_trichotomy(
    a: (ChestPathElementType, Seq<char>),
    b: (ChestPathElementType, Seq<char>),
)
    ensures
        element_model_lt(a, b) || element_model_lt(b, a) || a == b,
        element_model_lt(a, b) ==> !element_model_lt(b, a) && a != b,
        element_model_lt(b, a) ==> !element_model_lt(a, b) && a != b,
{
    crate::strutil::lemma_lex_lt_trichotomy(a.1, b.1);
    if !element_model_lt(a, b) && !element_model_lt(b, a) {
        assert(a.1 == b.1);
        assert(crate::content::spec_type_rank(a.0) == crate::content::spec_type_rank(
            b.0,
        ));
        assert(a.0 == b.0);
    }
}

/// The element order is transitive.
pub proof fn lemma_element_lt_transitive(
    a: (ChestPathElementType, Seq<char>),
    b: (ChestPathElementType, Seq<char>),
    c: (ChestPathElementType, Seq<char>),
)
    requires
        element_model_lt(a, b),
        element_model_lt(b, c),
    ensures
        element_model_lt(a, c),
{
    if lex_lt(a.1, b.1) && lex_lt(b.1, c.1) {
        crate::strutil::lemma_lex_lt_transitive(a.1, b.1, c.1);
    }
}

/// The element sequence order is a strict total order.
pub proof fn lemma_elems_lex_lt_trichotomy(
    a: Seq<(ChestPathElementType, Seq<char>)>,
    b: Seq<(ChestPathElementType, Seq<char>)>,
)
    ensures
        elems_lex_lt(a, b) || elems_lex_lt(b, a) || a == b,
        elems_lex_lt(a, b) ==> !elems_lex_lt(b, a) && a != b,
        elems_lex_lt(b, a) ==> !elems_lex_lt(a, b) && a != b,
    decreases a.len(),
{
    if a.len() == 0 && b.len() == 0 {
        assert(a =~= b);
    } else if a.len() != 0 && b.len() != 0 {
        lemma_element_lt_trichotomy(a[0], b[0]);
        if a[0] == b[0] {
            lemma_elems_lex_lt_trichotomy(a.drop_first(), b.drop_first());
            if a.drop_first() == b.drop_first() {
                assert(forall|i: int| 1 <= i < a.len() ==> a[i] == a.drop_first()[i - 1]);
                assert(forall|i: int| 1 <= i < b.len() ==> b[i] == b.drop_first()[i - 1]);
                assert(a =~= b);
            }
        }
    }
}

/// The element sequence order is transitive.
pub proof fn lemma_elems_lex_lt_transitive(
    a: Seq<(ChestPathElementType, Seq<char>)>,
    b: Seq<(ChestPathElementType, Seq<char>)>,
    c: Seq<(ChestPathElementType, Seq<char>)>,
)
    requires
        elems_lex_lt(a, b),
        elems_lex_lt(b, c),
    ensures
        elems_lex_lt(a, c),
    decreases a.len(),
{
    if a.len() != 0 && b.len() != 0 && c.len() != 0 {
        lemma_element_lt_trichotomy(a[0], b[0]);
        lemma_element_lt_trichotomy(b[0], c[0]);
        lemma_element_lt_trichotomy(a[0], c[0]);
        if a[0] == b[0] && b[0] == c[0] {
            lemma_elems_lex_lt_transitive(a.drop_first(), b.drop_first(), c.drop_first());
        } else if element_model_lt(a[0], b[0]) && element_model_lt(b[0], c[0]) {
            lemma_element_lt_transitive(a[0], b[0], c[0]);
        }
    }
}

/// The ranking order is total, over results with non-empty paths.
pub proof fn lemma_result_le_total(a: ChestSearchResult, b: ChestSearchResult)
    requires
        path_model(a.path).len() >= 1,
        path_model(b.path).len() >= 1,
    ensures
        result_le(a, b) || result_le(b, a),
{
    let p = path_model(a.path);
    let q = path_model(b.path);
    if a.score == b.score {
        lemma_elems_lex_lt_trichotomy(p.drop_last(), q.drop_last());
        if !elems_lex_lt(p.drop_last(), q.drop_last()) && !elems_lex_lt(
            q.drop_last(),
            p.drop_last(),
        ) {
            lemma_element_lt_trichotomy(p.last(), q.last());
            if !element_model_lt(p.last(), q.last()) && !element_model_lt(
                q.last(),
                p.last(),
            ) {
                assert(p.drop_last() == q.drop_last());
                assert(p.len() == q.len());
                assert(forall|i: int| 0 <= i < p.len() - 1 ==> p[i] == p.drop_last()[i]);
                assert(forall|i: int| 0 <= i < q.len() - 1 ==> q[i] == q.drop_last()[i]);
                assert(p =~= q);
            }
        }
    }
}

/// The ranking order is transitive, over results with non-empty paths.
pub proof fn lemma_result_le_transitive(
    a: ChestSearchResult,
    b: ChestSearchResult,
    c: ChestSearchResult,
)
    requires
        result_le(a, b),
        result_le(b, c),
        path_model(a.path).len() >= 1,
        path_model(b.path).len() >= 1,
        path_model(c.path).len() >= 1,
    ensures
        result_le(a, c),
{
    let p = path_model(a.path);
    let q = path_model(b.path);
    let w = path_model(c.path);
    if a.score == b.score && b.score == c.score {
        if chain_lt(p, q) && chain_lt(q, w) {
            if elems_lex_lt(p.drop_last(), q.drop_last()) && elems_lex_lt(
                q.drop_last(),
                w.drop_last(),
            ) {
                lemma_elems_lex_lt_transitive(
                    p.drop_last(),
                    q.drop_last(),
                    w.drop_last(),
                );
            } else if p.drop_last() == q.drop_last() && q.drop_last() == w.drop_last() {
                lemma_element_lt_transitive(p.last(), q.last(), w.last());
            }
        }
    }
}

/// Compares the models of `a[i..ea]` and `b[i..eb]` lexicographically.
pub(crate) fn elements_lex_lt_from(
    a: &Vec<ChestPathElement>,
    b: &Vec<ChestPathElement>,
    i: usize,
    ea: usize,
    eb: usize,
) -> (r: bool)
    requires
        i <= ea <= a@.len(),
        i <= eb <= b@.len(),
    ensures
        r == elems_lex_lt(
            elems_models(a@).subrange(i as int, ea as int),
            elems_models(b@).subrange(i as int, eb as int),
        ),
    decreases ea - i,
{
    let ghost sa = elems_models(a@).subrange(i as int, ea as int);
    let ghost sb = elems_models(b@).subrange(i as int, eb as int);
    if i == ea {
        i < eb
    } else if i == eb {
        false
    } else {
        proof {
            assert(sa[0] == element_model(a@[i as int]));
            assert(sb[0] == element_model(b@[i as int]));
        }
        if crate::content::element_lt(&a[i], &b[i]) {
            true
        } else if crate::content::element_eq(&a[i], &b[i]) {
            proof {
                assert(sa.drop_first() =~= elems_models(a@).subrange(
                    i + 1,
                    ea as int,
                ));
                assert(sb.drop_first() =~= elems_models(b@).subrange(
                    i + 1,
                    eb as int,
                ));
            }
            elements_lex_lt_from(a, b, i + 1, ea, eb)
        } else {
            false
        }
    }
}

/// Whether the models of `a[i..ea]` and `b[i..eb]` are equal.
pub(crate) fn elements_eq_from(
    a: &Vec<ChestPathElement>,
    b: &Vec<ChestPathElement>,
    i: usize,
    ea: usize,
    eb: usize,
) -> (r: bool)
    requires
        i <= ea <= a@.len(),
        i <= eb <= b@.len(),
    ensures
        r == (elems_models(a@).subrange(i as int, ea as int) == elems_models(b@).subrange(
            i as int,
            eb as int,
        )),
    decreases ea - i,
{
    let ghost sa = elems_models(a@).subrange(i as int, ea as int);
    let ghost sb = elems_models(b@).subrange(i as int, eb as int);
    if ea - i != eb - i {
        proof {
            assert(sa.len() != sb.len());
        }
        false
    } else if i == ea {
        proof {
            assert(sa =~= sb);
        }
        true
    } else {
        proof {
            assert(sa[0] == element_model(a@[i as int]));
            assert(sb[0] == element_model(b@[i as int]));
        }
        if crate::content::element_eq(&a[i], &b[i]) {
            proof {
                assert(sa.drop_first() =~= elems_models(a@).subrange(i + 1, ea as int));
                assert(sb.drop_first() =~= elems_models(b@).subrange(i + 1, eb as int));
            }
            let r = elements_eq_from(a, b, i + 1, ea, eb);
            proof {
                if r {
                    assert(forall|x: int|
                        1 <= x < sa.len() ==> sa[x] == sa.drop_first()[x - 1]);
                    assert(forall|x: int|
                        1 <= x < sb.len() ==> sb[x] == sb.drop_first()[x - 1]);
                    assert(sa =~= sb);
                } else {
                    if sa == sb {
                        assert(sa.drop_first() =~= sb.drop_first());
                    }
                }
            }
            r
        } else {
            proof {
                if sa == sb {
                    assert(sa[0] == sb[0]);
                }
            }
            false
        }
    }
}

/// The ranking order, executably: `a` may stand before `b`.
fn result_le_exec(a: &ChestSearchResult, b: &ChestSearchResult) -> (r: bool)
    requires
        a.path.elements@.len() >= 1,
        b.path.elements@.len() >= 1,
    ensures
        r == result_le(*a, *b),
{
    let ghost p = path_model(a.path);
    let ghost q = path_model(b.path);
    proof {
        assert(p =~= elems_models(a.path.elements@));
        assert(q =~= elems_models(b.path.elements@));
        assert(p.drop_last() =~= elems_models(a.path.elements@).subrange(
            0,
            a.path.elements@.len() - 1,
        ));
        assert(q.drop_last() =~= elems_models(b.path.elements@).subrange(
            0,
            b.path.elements@.len() - 1,
        ));
        assert(p.last() == element_model(a.path.elements@[a.path.elements@.len() - 1]));
        assert(q.last() == element_model(b.path.elements@[b.path.elements@.len() - 1]));
    }
    if a.score > b.score {
        return true;
    }
    if a.score < b.score {
        return false;
    }
    let la = a.path.elements.len();
    let lb = b.path.elements.len();
    if elements_lex_lt_from(&a.path.elements, &b.path.elements, 0, la - 1, lb - 1) {
        return true;
    }
    if !elements_eq_from(&a.path.elements, &b.path.elements, 0, la - 1, lb - 1) {
        return false;
    }
    let ea = &a.path.elements[la - 1];
    let eb = &b.path.elements[lb - 1];
    if crate::content::element_lt(ea, eb) {
        return true;
    }
    if crate::content::element_eq(ea, eb) {
        proof {
            assert(forall|x: int| 0 <= x < p.len() - 1 ==> p[x] == p.drop_last()[x]);
            assert(forall|x: int| 0 <= x < q.len() - 1 ==> q[x] == q.drop_last()[x]);
            assert(p =~= q);
        }
        return true;
    }
    false
}

/// Whether the ranking cannot tell two results apart.
fn result_eq_exec(a: &ChestSearchResult, b: &ChestSearchResult) -> (r: bool)
    requires
        a.path.elements@.len() >= 1,
        b.path.elements@.len() >= 1,
    ensures
        r == result_eq(*a, *b),
{
    let ghost p = path_model(a.path);
    let ghost q = path_model(b.path);
    proof {
        assert(p =~= elems_models(a.path.elements@));
        assert(q =~= elems_models(b.path.elements@));
        assert(elems_models(a.path.elements@).subrange(
            0,
            a.path.elements@.len() as int,
        ) =~= p);
        assert(elems_models(b.path.elements@).subrange(
            0,
            b.path.elements@.len() as int,
        ) =~= q);
    }
    if a.score != b.score {
        return false;
    }
    let la = a.path.elements.len();
    let lb = b.path.elements.len();
    elements_eq_from(&a.path.elements, &b.path.elements, 0, la, lb)
}

/// The item's name fuzzy-matches the segment at or above the floor.
pub open spec fn strong_match(
    items: Seq<IndexedChestItem>,
    seg: Seq<char>,
    iid: int,
) -> bool {
    &&& 0 <= iid < items.len()
    &&& (match fuzzy_score(indexed_name(items[iid].data), seg) {
        Some(s) => s >= MIN_SEARCH_SCORE,
        None => false,
    })
}

/// One of the first `upto` pairs covers the id.
pub open spec fn covered_by(pairs: Seq<(usize, usize)>, upto: int, iid: int) -> bool {
    exists|px: int| 0 <= px < upto && (#[trigger] pairs[px]).0 <= iid <= pairs[px].1
}

/// Some position of the list holds exactly this result.
/// A kept result ranks at least as high as a match with this score and
/// path.
pub open spec fn ranked_no_worse(
    kept: ChestSearchResult,
    s: usize,
    pm: Seq<(ChestPathElementType, Seq<char>)>,
) -> bool {
    kept.score > s || (kept.score == s && (chain_lt(path_model(kept.path), pm)
        || path_model(kept.path) == pm))
}

pub open spec fn result_present(rs: Seq<ChestSearchResult>, x: ChestSearchResult) -> bool {
    exists|k: int| 0 <= k < rs.len() && #[trigger] rs[k] == x
}

/// Some position of the list holds a result with this score and path.
pub open spec fn result_equiv_present(
    rs: Seq<ChestSearchResult>,
    score: usize,
    pm: Seq<(ChestPathElementType, Seq<char>)>,
) -> bool {
    exists|k: int| 0 <= k < rs.len() && (#[trigger] rs[k]).score == score && path_model(
        rs[k].path,
    ) == pm
}

/// Sorts search results by the ranking order. Every element satisfies
/// the given predicate before and after.
#[verifier::loop_isolation(false)]
fn sort_results(
    input: Vec<ChestSearchResult>,
    Ghost(p): Ghost<spec_fn(ChestSearchResult) -> bool>,
) -> (r: Vec<ChestSearchResult>)
    requires
        forall|k: int| 0 <= k < input@.len() ==> p(#[trigger] input@[k]),
        forall|k: int|
            0 <= k < input@.len() ==> (#[trigger] input@[k]).path.elements@.len() >= 1,
    ensures
        r@.len() == input@.len(),
        forall|i: int, j: int|
            0 <= i < j < r@.len() ==> result_le(#[trigger] r@[i], #[trigger] r@[j]),
        forall|k: int| 0 <= k < r@.len() ==> p(#[trigger] r@[k]),
        forall|k: int|
            0 <= k < r@.len() ==> (#[trigger] r@[k]).path.elements@.len() >= 1,
        forall|j: int|
            #![trigger input@[j]]
            0 <= j < input@.len() ==> result_present(r@, input@[j]),
{
    let ghost input0 = input@;
    let mut rest = input;
    let mut out: Vec<ChestSearchResult> = Vec::new();
    while rest.len() > 0
        invariant
            forall|k: int| 0 <= k < rest@.len() ==> p(#[trigger] rest@[k]),
            forall|k: int|
                0 <= k < rest@.len() ==> (#[trigger] rest@[k]).path.elements@.len() >= 1,
            forall|k: int| 0 <= k < out@.len() ==> p(#[trigger] out@[k]),
            forall|k: int|
                0 <= k < out@.len() ==> (#[trigger] out@[k]).path.elements@.len() >= 1,
            forall|i: int, j: int|
                0 <= i < j < out@.len() ==> result_le(
                    #[trigger] out@[i],
                    #[trigger] out@[j],
                ),
            out@.len() + rest@.len() == input0.len(),
            rest@.len() <= input0.len(),
            rest@ == input0.skip(input0.len() - rest@.len()),
            forall|j: int|
                #![trigger input0[j]]
                0 <= j < input0.len() - rest@.len() ==> result_present(out@, input0[j]),
        decreases rest@.len(),
    {
        let ghost rest0 = rest@;
        let ghost kpos = input0.len() - rest0.len();
        let x = rest.remove(0);
        proof {
            assert(x == rest0[0]);
            assert(rest0[0] == input0.skip(kpos)[0]);
            assert(x == input0[kpos]);
            assert(forall|k: int| 0 <= k < rest@.len() ==> rest@[k] == rest0[k + 1]);
            assert(rest@ =~= input0.skip(input0.len() - rest@.len()));
        }
        let mut p_idx: usize = 0;
        while p_idx < out.len() && result_le_exec(&out[p_idx], &x)
            invariant
                p_idx <= out@.len(),
                x.path.elements@.len() >= 1,
                forall|k: int|
                    0 <= k < out@.len() ==> (#[trigger] out@[k]).path.elements@.len()
                        >= 1,
                forall|i: int, j: int|
                    0 <= i < j < out@.len() ==> result_le(
                        #[trigger] out@[i],
                        #[trigger] out@[j],
                    ),
                forall|j: int| 0 <= j < p_idx ==> result_le(#[trigger] out@[j], x),
            decreases out@.len() - p_idx,
        {
            p_idx += 1;
        }
        proof {
            if p_idx < out@.len() {
                lemma_result_le_total(out@[p_idx as int], x);
                assert(result_le(x, out@[p_idx as int]));
                assert forall|j: int| p_idx <= j < out@.len() implies result_le(
                    x,
                    #[trigger] out@[j],
                ) by {
                    if j > p_idx {
                        lemma_result_le_transitive(x, out@[p_idx as int], out@[j]);
                    }
                }
            }
        }
        let ghost out0 = out@;
        out.insert(p_idx, x);
        proof {
            out0.insert_ensures(p_idx as int, x);
            assert(forall|k: int| 0 <= k < p_idx ==> #[trigger] out@[k] == out0[k]);
            assert(forall|k: int|
                p_idx < k < out@.len() ==> #[trigger] out@[k] == out0[k - 1]);
            assert(out@[p_idx as int] == x);
            assert forall|i: int, j: int|
                0 <= i < j < out@.len() implies result_le(
                #[trigger] out@[i],
                #[trigger] out@[j],
            ) by {
                let pi = p_idx as int;
                if i < pi && j < pi {
                } else if i < pi && j == pi {
                } else if i < pi && j > pi {
                } else if i == pi {
                } else {
                }
            }
            assert forall|k: int| 0 <= k < out@.len() implies p(#[trigger] out@[k]) by {
                let pi = p_idx as int;
                if k < pi {
                    assert(out@[k] == out0[k]);
                } else if k == pi {
                } else {
                    assert(out@[k] == out0[k - 1]);
                }
            }
            assert forall|k: int|
                0 <= k < out@.len() implies (#[trigger] out@[k]).path.elements@.len()
                >= 1 by {
                let pi = p_idx as int;
                if k < pi {
                    assert(out@[k] == out0[k]);
                } else if k == pi {
                } else {
                    assert(out@[k] == out0[k - 1]);
                }
            }
            assert forall|j: int|
                #![trigger input0[j]]
                0 <= j < kpos + 1 implies result_present(out@, input0[j]) by {
                if j == kpos {
                    assert(out@[p_idx as int] == input0[j]);
                } else {
                    let k0 = choose|k0: int|
                        0 <= k0 < out0.len() && #[trigger] out0[k0] == input0[j];
                    if k0 < p_idx as int {
                        assert(out@[k0] == input0[j]);
                    } else {
                        assert(out@[k0 + 1] == input0[j]);
                    }
                }
            }
        }
    }
    proof {
        assert(rest@.len() == 0);
        assert forall|j: int|
            #![trigger input@[j]]
            0 <= j < input@.len() implies result_present(out@, input@[j]) by {
            assert(0 <= j < input0.len() - rest@.len());
            assert(result_present(out@, input0[j]));
        }
    }
    out
}

/// Removes adjacent results that the ranking cannot tell apart, keeping
/// the first of each run. Every element satisfies the given predicate
/// before and after.
fn dedup_results(
    input: Vec<ChestSearchResult>,
    Ghost(p): Ghost<spec_fn(ChestSearchResult) -> bool>,
) -> (r: Vec<ChestSearchResult>)
    requires
        forall|k: int| 0 <= k < input@.len() ==> p(#[trigger] input@[k]),
        forall|k: int|
            0 <= k < input@.len() ==> (#[trigger] input@[k]).path.elements@.len() >= 1,
        forall|i: int, j: int|
            0 <= i < j < input@.len() ==> result_le(
                #[trigger] input@[i],
                #[trigger] input@[j],
            ),
    ensures
        forall|k: int| 0 <= k < r@.len() ==> p(#[trigger] r@[k]),
        forall|k: int|
            0 <= k < r@.len() ==> (#[trigger] r@[k]).path.elements@.len() >= 1,
        forall|i: int, j: int|
            0 <= i < j < r@.len() ==> result_le(#[trigger] r@[i], #[trigger] r@[j]),
        forall|k: int|
            0 <= k && k + 1 < r@.len() ==> result_lt(#[trigger] r@[k], r@[k + 1]),
        r@.len() <= input@.len(),
        forall|j: int|
            #![trigger input@[j]]
            0 <= j < input@.len() ==> result_equiv_present(
                r@,
                input@[j].score,
                path_model(input@[j].path),
            ),
{
    let ghost input0 = input@;
    let mut rest = input;
    let mut out: Vec<ChestSearchResult> = Vec::new();
    while rest.len() > 0
        invariant
            forall|x: int|
                0 <= x < input0.len() ==> (#[trigger] input0[x]).path.elements@.len()
                    >= 1,
            forall|i: int, j: int|
                0 <= i < j < input0.len() ==> result_le(
                    #[trigger] input0[i],
                    #[trigger] input0[j],
                ),
            forall|x: int| 0 <= x < input0.len() ==> p(#[trigger] input0[x]),
            rest@.len() <= input0.len(),
            rest@ == input0.skip(input0.len() - rest@.len()),
            out@.len() + rest@.len() <= input0.len(),
            forall|x: int| 0 <= x < out@.len() ==> p(#[trigger] out@[x]),
            forall|x: int|
                0 <= x < out@.len() ==> (#[trigger] out@[x]).path.elements@.len() >= 1,
            forall|i: int, j: int|
                0 <= i < j < out@.len() ==> result_le(
                    #[trigger] out@[i],
                    #[trigger] out@[j],
                ),
            forall|x: int|
                0 <= x && x + 1 < out@.len() ==> result_lt(
                    #[trigger] out@[x],
                    out@[x + 1],
                ),
            out@.len() > 0 ==> (forall|y: int|
                input0.len() - rest@.len() <= y < input0.len() ==> result_le(
                    out@.last(),
                    #[trigger] input0[y],
                )),
            forall|j: int|
                #![trigger input0[j]]
                0 <= j < input0.len() - rest@.len() ==> result_equiv_present(
                    out@,
                    input0[j].score,
                    path_model(input0[j].path),
                ),
        decreases rest@.len(),
    {
        let ghost rest0 = rest@;
        let ghost kpos = input0.len() - rest0.len();
        let x = rest.remove(0);
        proof {
            assert(rest@ =~= input0.skip(input0.len() - rest@.len()));
            assert(x == rest0[0]);
            assert(rest0[0] == input0.skip(kpos)[0]);
            assert(x == input0[kpos]);
            assert(x.path.elements@.len() >= 1);
            assert(p(input0[kpos]));
        }
        let mut keep = true;
        if out.len() > 0 {
            let li = out.len() - 1;
            proof {
                assert(out@[li as int] == out@.last());
            }
            if result_eq_exec(&out[li], &x) {
                keep = false;
            }
        }
        if keep {
            let ghost out0 = out@;
            out.push(x);
            proof {
                assert(out@ == out0.push(x));
                assert(forall|y: int|
                    0 <= y < out0.len() ==> #[trigger] out@[y] == out0[y]);
                assert(out@[out@.len() - 1] == x);
                assert(out@.last() == x);
                if out0.len() > 0 {
                    assert(result_le(out0.last(), input0[kpos]));
                    assert(result_le(out0.last(), x));
                    assert(!result_eq(out0.last(), x));
                    assert(result_lt(out0.last(), x));
                    assert forall|i: int, j: int|
                        0 <= i < j < out@.len() implies result_le(
                        #[trigger] out@[i],
                        #[trigger] out@[j],
                    ) by {
                        if j < out@.len() - 1 {
                            assert(out@[i] == out0[i] && out@[j] == out0[j]);
                        } else if i < out@.len() - 1 {
                            assert(out@[i] == out0[i]);
                            assert(out@[j] == x);
                            if i < out0.len() - 1 {
                                lemma_result_le_transitive(out0[i], out0.last(), x);
                            }
                        }
                    }
                    assert forall|x2: int|
                        0 <= x2 && x2 + 1 < out@.len() implies result_lt(
                        #[trigger] out@[x2],
                        out@[x2 + 1],
                    ) by {
                        if x2 + 1 < out@.len() - 1 {
                            assert(out@[x2] == out0[x2] && out@[x2 + 1] == out0[x2 + 1]);
                        } else {
                            assert(out@[x2] == out0[out0.len() - 1]);
                            assert(out@[x2 + 1] == x);
                        }
                    }
                }
                assert forall|y: int|
                    kpos + 1 <= y < input0.len() implies result_le(
                    out@.last(),
                    #[trigger] input0[y],
                ) by {
                    assert(result_le(input0[kpos], input0[y]));
                }
                assert forall|j: int|
                    #![trigger input0[j]]
                    0 <= j < kpos + 1 implies result_equiv_present(
                    out@,
                    input0[j].score,
                    path_model(input0[j].path),
                ) by {
                    if j == kpos {
                        assert(out@[out@.len() - 1] == x);
                    } else {
                        let k0 = choose|k0: int|
                            0 <= k0 < out0.len() && (#[trigger] out0[k0]).score
                                == input0[j].score && path_model(out0[k0].path)
                                == path_model(input0[j].path);
                        assert(out@[k0] == out0[k0]);
                    }
                }
            }
        } else {
            proof {
                assert(result_eq(out@.last(), x));
                assert forall|y: int|
                    kpos + 1 <= y < input0.len() implies result_le(
                    out@.last(),
                    #[trigger] input0[y],
                ) by {
                    assert(result_le(input0[kpos], input0[y]));
                    assert(result_le(out@.last(), x));
                    assert(x == input0[kpos]);
                    lemma_result_le_transitive(out@.last(), x, input0[y]);
                }
                assert forall|j: int|
                    #![trigger input0[j]]
                    0 <= j < kpos + 1 implies result_equiv_present(
                    out@,
                    input0[j].score,
                    path_model(input0[j].path),
                ) by {
                    if j == kpos {
                        assert(out@[out@.len() - 1].score == input0[j].score
                            && path_model(out@[out@.len() - 1].path) == path_model(
                            input0[j].path,
                        ));
                    }
                }
            }
        }
    }
    proof {
        assert(rest@.len() == 0);
        assert forall|j: int|
            #![trigger input@[j]]
            0 <= j < input@.len() implies result_equiv_present(
            out@,
            input@[j].score,
            path_model(input@[j].path),
        ) by {
            assert(0 <= j < input0.len() - rest@.len());
            assert(result_equiv_present(
                out@,
                input0[j].score,
                path_model(input0[j].path),
            ));
        }
    }
    out
}


/// Saturating addition on `usize`.
fn sat_add_usize(a: usize, b: usize) -> (r: usize)
    ensures
        r as int == if a + b > usize::MAX as int {
            usize::MAX as int
        } else {
            a + b
        },
{
    if a > usize::MAX - b {
        usize::MAX
    } else {
        a + b
    }
}

/// The path element under which an indexed item is referenced.
pub open spec fn spec_item_element(it: IndexedChestItem) -> (
    ChestPathElementType,
    Seq<char>,
) {
    (indexed_element_type(it.data), indexed_name(it.data))
}

/// The full path of an indexed item: its ancestors' elements from root
/// to parent, then its own element.
pub open spec fn spec_item_path(items: Seq<IndexedChestItem>, id: int) -> Seq<
    (ChestPathElementType, Seq<char>),
> {
    Seq::new(
        items[id].parent_path@.len() + 1,
        |k: int|
            if k < items[id].parent_path@.len() {
                spec_item_element(items[items[id].parent_path@[k] as int])
            } else {
                spec_item_element(items[id])
            },
    )
}

/// A search result is sound for the given index and query segments:
/// its score is at least the floor, its path is the full path of an
/// item of the index, and that item's name fuzzy-matches the final
/// segment with a score that contributes to the result's score.
pub open spec fn search_result_ok(
    items: Seq<IndexedChestItem>,
    segs: Seq<Seq<char>>,
    r: ChestSearchResult,
) -> bool {
    &&& r.score >= MIN_SEARCH_SCORE
    &&& path_model(r.path).len() >= 1
    &&& segs.len() >= 1
    &&& (exists|id: int|
        0 <= id < items.len() && path_model(r.path) == #[trigger] spec_item_path(
            items,
            id,
        ))
    &&& exists|s: usize|
        fuzzy_score(path_model(r.path).last().1, segs.last()) == Some(s)
            && MIN_SEARCH_SCORE <= s <= r.score
}


/// The ids among `ids` whose item presents the given path element,
/// in order.
pub open spec fn ids_matching(
    items: Seq<IndexedChestItem>,
    ids: Seq<usize>,
    e: (ChestPathElementType, Seq<char>),
) -> Seq<usize>
    decreases ids.len(),
{
    if ids.len() == 0 {
        Seq::<usize>::empty()
    } else {
        let rest = ids_matching(items, ids.drop_last(), e);
        if spec_item_element(items[ids.last() as int]) == e {
            rest.push(ids.last())
        } else {
            rest
        }
    }
}

/// The ids of `cs` that fall inside the item run, in order.
pub open spec fn bounded_ids(items: Seq<IndexedChestItem>, cs: Seq<usize>) -> Seq<usize>
    decreases cs.len(),
{
    if cs.len() == 0 {
        Seq::<usize>::empty()
    } else {
        let rest = bounded_ids(items, cs.drop_last());
        if cs.last() < items.len() {
            rest.push(cs.last())
        } else {
            rest
        }
    }
}

/// The concatenated child ids of the items named by `ids`, in order,
/// kept to ids inside the item run.
pub open spec fn child_ids(items: Seq<IndexedChestItem>, ids: Seq<usize>) -> Seq<usize>
    decreases ids.len(),
{
    if ids.len() == 0 {
        Seq::<usize>::empty()
    } else {
        child_ids(items, ids.drop_last()) + bounded_ids(
            items,
            crate::indexed::data_content_ids(items[ids.last() as int].data),
        )
    }
}

/// The search space left after walking the path elements from `ids`:
/// each level keeps the ids matching that element and descends into
/// their contents.
pub open spec fn walk_contents(
    items: Seq<IndexedChestItem>,
    ids: Seq<usize>,
    elems: Seq<(ChestPathElementType, Seq<char>)>,
) -> Seq<usize>
    decreases elems.len(),
{
    if elems.len() == 0 {
        ids
    } else {
        walk_contents(
            items,
            child_ids(items, ids_matching(items, ids, elems[0])),
            elems.drop_first(),
        )
    }
}

/// The ids matching the final element of the walk; empty for an empty
/// path.
pub open spec fn walk_matching(
    items: Seq<IndexedChestItem>,
    ids: Seq<usize>,
    elems: Seq<(ChestPathElementType, Seq<char>)>,
) -> Seq<usize>
    decreases elems.len(),
{
    if elems.len() == 0 {
        Seq::<usize>::empty()
    } else if elems.len() == 1 {
        ids_matching(items, ids, elems[0])
    } else {
        walk_matching(
            items,
            child_ids(items, ids_matching(items, ids, elems[0])),
            elems.drop_first(),
        )
    }
}

/// Every id that `ids_matching` keeps presents the element.
pub proof fn lemma_ids_matching_members(
    items: Seq<IndexedChestItem>,
    ids: Seq<usize>,
    e: (ChestPathElementType, Seq<char>),
)
    ensures
        forall|k: int|
            0 <= k < ids_matching(items, ids, e).len() ==> spec_item_element(
                items[(#[trigger] ids_matching(items, ids, e)[k]) as int],
            ) == e,
    decreases ids.len(),
{
    if ids.len() > 0 {
        lemma_ids_matching_members(items, ids.drop_last(), e);
        let rest = ids_matching(items, ids.drop_last(), e);
        let all = ids_matching(items, ids, e);
        assert forall|k: int| 0 <= k < all.len() implies spec_item_element(
            items[(all[k]) as int],
        ) == e by {
            if k < rest.len() {
                assert(all[k] == rest[k]);
            } else {
                assert(all[k] == ids.last());
            }
        }
    }
}

/// The walk grows from the back: one more element filters the previous
/// level's space and descends.
pub proof fn lemma_walk_unfold_back(
    items: Seq<IndexedChestItem>,
    ids: Seq<usize>,
    elems: Seq<(ChestPathElementType, Seq<char>)>,
)
    requires
        elems.len() > 0,
    ensures
        walk_contents(items, ids, elems) == child_ids(
            items,
            ids_matching(items, walk_contents(items, ids, elems.drop_last()), elems.last()),
        ),
        walk_matching(items, ids, elems) == ids_matching(
            items,
            walk_contents(items, ids, elems.drop_last()),
            elems.last(),
        ),
    decreases elems.len(),
{
    if elems.len() == 1 {
        assert(elems.drop_last() =~= Seq::<(ChestPathElementType, Seq<char>)>::empty());
        assert(elems.drop_first() =~= Seq::<(ChestPathElementType, Seq<char>)>::empty());
        let c1 = child_ids(items, ids_matching(items, ids, elems[0]));
        assert(walk_contents(items, ids, elems) == walk_contents(
            items,
            c1,
            elems.drop_first(),
        ));
        assert(walk_contents(items, c1, elems.drop_first()) == c1);
        assert(walk_contents(items, ids, elems.drop_last()) == ids);
        assert(elems.last() == elems[0]);
    } else {
        let c1 = child_ids(items, ids_matching(items, ids, elems[0]));
        lemma_walk_unfold_back(items, c1, elems.drop_first());
        assert(elems.drop_first().drop_last() =~= elems.drop_last().drop_first());
        assert(elems.drop_first().last() == elems.last());
        assert(elems.drop_last()[0] == elems[0]);
        assert(walk_contents(items, ids, elems.drop_last()) == walk_contents(
            items,
            c1,
            elems.drop_last().drop_first(),
        ));
        assert(walk_contents(items, ids, elems) == walk_contents(
            items,
            c1,
            elems.drop_first(),
        ));
        assert(walk_contents(items, c1, elems.drop_first()) == child_ids(
            items,
            ids_matching(
                items,
                walk_contents(items, c1, elems.drop_first().drop_last()),
                elems.drop_first().last(),
            ),
        ));
        assert(walk_contents(items, c1, elems.drop_first().drop_last()) == walk_contents(
            items,
            c1,
            elems.drop_last().drop_first(),
        ));
        assert(walk_matching(items, ids, elems) == walk_matching(
            items,
            c1,
            elems.drop_first(),
        ));
    }
}

impl IndexedChestContents {
    /// Gets a chest item by identifier.
    pub fn get_by_id(&self, id: usize) -> (r: Option<&IndexedChestItem>)
        ensures
            match r {
                Some(it) => id < self.items@.len() && *it == self.items@[id as int],
                None => id >= self.items@.len(),
            },
    {
        if id < self.items.len() {
            Some(&self.items[id])
        } else {
            None
        }
    }

    /// Gets the list of items at the root of the chest.
    pub fn items(&self) -> (r: Vec<&IndexedChestItem>)
        requires
            self.wf(),
        ensures
            r@.len() == self.root_item_ids@.len(),
            forall|k: int|
                0 <= k < r@.len() ==> *(#[trigger] r@[k]) == self.items@[
                    self.root_item_ids@[k] as int
                ],
    {
        let mut r: Vec<&IndexedChestItem> = Vec::new();
        let mut i: usize = 0;
        while i < self.root_item_ids.len()
            invariant
                self.wf(),
                i <= self.root_item_ids@.len(),
                r@.len() == i,
                forall|k: int|
                    0 <= k < i ==> *(#[trigger] r@[k]) == self.items@[
                        self.root_item_ids@[k] as int
                    ],
            decreases self.root_item_ids@.len() - i,
        {
            let id = self.root_item_ids[i];
            r.push(&self.items[id]);
            i += 1;
        }
        r
    }

    /// Gets the ids of the chest items that a path names: at each level
    /// the items matching that element, walking into their contents.
    fn get_ids(&self, path: &ChestPath) -> (r: Vec<usize>)
        requires
            self.wf(),
        ensures
            r@ == walk_matching(self.items@, self.root_item_ids@, path_model(*path)),
            forall|k: int| 0 <= k < r@.len() ==> (#[trigger] r@[k]) < self.items@.len(),
            path_model(*path).len() > 0 ==> (forall|k: int|
                0 <= k < r@.len() ==> spec_item_element(
                    self.items@[(#[trigger] r@[k]) as int],
                ) == path_model(*path).last()),
    {
        let ghost itemsg = self.items@;
        let ghost roots0 = self.root_item_ids@;
        let ghost pm = path_model(*path);
        let mut contents = crate::indexed::copy_id_vec(&self.root_item_ids);
        let mut matching: Vec<usize> = Vec::new();
        proof {
            assert(pm.take(0) =~= Seq::<(ChestPathElementType, Seq<char>)>::empty());
            assert(forall|k: int|
                0 <= k < contents@.len() ==> (#[trigger] contents@[k]) < itemsg.len());
        }
        let mut e: usize = 0;
        while e < path.elements.len()
            invariant
                self.wf(),
                itemsg == self.items@,
                roots0 == self.root_item_ids@,
                pm == path_model(*path),
                e <= path.elements@.len(),
                contents@ == walk_contents(itemsg, roots0, pm.take(e as int)),
                e > 0 ==> matching@ == walk_matching(itemsg, roots0, pm.take(e as int)),
                e == 0 ==> matching@ == Seq::<usize>::empty(),
                forall|k: int|
                    0 <= k < contents@.len() ==> (#[trigger] contents@[k]) < itemsg.len(),
                forall|k: int|
                    0 <= k < matching@.len() ==> (#[trigger] matching@[k]) < itemsg.len(),
                e > 0 ==> (forall|k: int|
                    0 <= k < matching@.len() ==> spec_item_element(
                        itemsg[(#[trigger] matching@[k]) as int],
                    ) == element_model(path.elements@[e - 1])),
            decreases path.elements@.len() - e,
        {
            let element = &path.elements[e];
            let ghost em = element_model(*element);
            let ghost c0 = contents@;
            let mut next_matching: Vec<usize> = Vec::new();
            proof {
                assert(c0.take(0) =~= Seq::<usize>::empty());
            }
            let mut ci: usize = 0;
            while ci < contents.len()
                invariant
                    self.wf(),
                    itemsg == self.items@,
                    c0 == contents@,
                    em == element_model(*element),
                    ci <= c0.len(),
                    forall|k: int|
                        0 <= k < c0.len() ==> (#[trigger] c0[k]) < itemsg.len(),
                    next_matching@ == ids_matching(itemsg, c0.take(ci as int), em),
                    forall|k: int|
                        0 <= k < next_matching@.len() ==> (#[trigger] next_matching@[k])
                            < itemsg.len(),
                decreases c0.len() - ci,
            {
                let id = contents[ci];
                let ghost rest = ids_matching(itemsg, c0.take(ci as int), em);
                proof {
                    assert(c0.take(ci + 1).drop_last() =~= c0.take(ci as int));
                    assert(c0.take(ci + 1).last() == c0[ci as int]);
                    assert(ids_matching(itemsg, c0.take(ci + 1), em) == (
                    if spec_item_element(itemsg[c0[ci as int] as int]) == em {
                        rest.push(c0[ci as int])
                    } else {
                        rest
                    }));
                }
                if self.items[id].matches_path_element(element) {
                    proof {
                        assert(spec_item_element(itemsg[c0[ci as int] as int]) == em);
                    }
                    next_matching.push(id);
                    proof {
                        assert(next_matching@ == rest.push(c0[ci as int]));
                        assert(next_matching@ == ids_matching(itemsg, c0.take(ci + 1), em));
                    }
                } else {
                    proof {
                        assert(spec_item_element(itemsg[c0[ci as int] as int]) != em);
                        assert(next_matching@ == ids_matching(itemsg, c0.take(ci + 1), em));
                    }
                }
                ci += 1;
            }
            proof {
                assert(c0.take(c0.len() as int) =~= c0);
            }
            let ghost m0 = next_matching@;
            let mut next_contents: Vec<usize> = Vec::new();
            proof {
                assert(m0.take(0) =~= Seq::<usize>::empty());
            }
            let mut mi: usize = 0;
            while mi < next_matching.len()
                invariant
                    self.wf(),
                    itemsg == self.items@,
                    m0 == next_matching@,
                    mi <= m0.len(),
                    forall|k: int|
                        0 <= k < m0.len() ==> (#[trigger] m0[k]) < itemsg.len(),
                    next_contents@ == child_ids(itemsg, m0.take(mi as int)),
                    forall|k: int|
                        0 <= k < next_contents@.len() ==> (#[trigger] next_contents@[k])
                            < itemsg.len(),
                decreases m0.len() - mi,
            {
                let id = next_matching[mi];
                let ids = self.items[id].content_ids();
                let ghost cs = ids@;
                let ghost n0 = next_contents@;
                proof {
                    assert(cs.take(0) =~= Seq::<usize>::empty());
                    assert(n0 + bounded_ids(itemsg, cs.take(0)) =~= n0);
                }
                let mut x: usize = 0;
                while x < ids.len()
                    invariant
                        itemsg == self.items@,
                        cs == ids@,
                        x <= cs.len(),
                        next_contents@ == n0 + bounded_ids(itemsg, cs.take(x as int)),
                        forall|k: int|
                            0 <= k < n0.len() ==> (#[trigger] n0[k]) < itemsg.len(),
                        forall|k: int|
                            0 <= k < next_contents@.len()
                                ==> (#[trigger] next_contents@[k]) < itemsg.len(),
                    decreases cs.len() - x,
                {
                    let c = ids[x];
                    proof {
                        assert(cs.take(x + 1).drop_last() =~= cs.take(x as int));
                        assert(cs.take(x + 1).last() == cs[x as int]);
                    }
                    if c < self.items.len() {
                        next_contents.push(c);
                        proof {
                            assert(next_contents@ =~= n0 + bounded_ids(
                                itemsg,
                                cs.take(x + 1),
                            ));
                        }
                    } else {
                        proof {
                            assert(next_contents@ =~= n0 + bounded_ids(
                                itemsg,
                                cs.take(x + 1),
                            ));
                        }
                    }
                    x += 1;
                }
                proof {
                    assert(cs.take(cs.len() as int) =~= cs);
                    assert(m0.take(mi + 1).drop_last() =~= m0.take(mi as int));
                    assert(m0.take(mi + 1).last() == m0[mi as int]);
                    assert(next_contents@ == child_ids(itemsg, m0.take(mi + 1)));
                }
                mi += 1;
            }
            proof {
                assert(m0.take(m0.len() as int) =~= m0);
                assert(pm.take(e + 1).drop_last() =~= pm.take(e as int));
                assert(pm.take(e + 1).last() == pm[e as int]);
                assert(pm[e as int] == em);
                lemma_walk_unfold_back(itemsg, roots0, pm.take(e + 1));
                assert(m0 == ids_matching(
                    itemsg,
                    walk_contents(itemsg, roots0, pm.take(e as int)),
                    em,
                ));
                assert forall|k: int| 0 <= k < m0.len() implies spec_item_element(
                    itemsg[(#[trigger] m0[k]) as int],
                ) == em by {
                    lemma_ids_matching_members(itemsg, c0, em);
                }
            }
            contents = next_contents;
            matching = next_matching;
            e += 1;
        }
        proof {
            assert(pm.take(path.elements@.len() as int) =~= pm);
            if pm.len() == 0 {
                assert(walk_matching(itemsg, roots0, pm) =~= Seq::<usize>::empty());
            }
            if pm.len() > 0 {
                assert(pm.last() == element_model(
                    path.elements@[path.elements@.len() - 1],
                ));
            }
        }
        matching
    }

    /// Gets chest items by path: exactly the items that the level-by-
    /// level walk of the path elements selects, in walk order.
    pub fn get(&self, path: &ChestPath) -> (r: Vec<&IndexedChestItem>)
        requires
            self.wf(),
        ensures
            r@.len() == walk_matching(
                self.items@,
                self.root_item_ids@,
                path_model(*path),
            ).len(),
            forall|k: int|
                0 <= k < r@.len() ==> *(#[trigger] r@[k]) == self.items@[walk_matching(
                    self.items@,
                    self.root_item_ids@,
                    path_model(*path),
                )[k] as int],
            path_model(*path).len() > 0 ==> (forall|k: int|
                0 <= k < r@.len() ==> spec_item_element(*(#[trigger] r@[k]))
                    == path_model(*path).last()),
    {
        let ids = self.get_ids(path);
        let mut r: Vec<&IndexedChestItem> = Vec::new();
        let mut i: usize = 0;
        while i < ids.len()
            invariant
                self.wf(),
                i <= ids@.len(),
                ids@ == walk_matching(self.items@, self.root_item_ids@, path_model(*path)),
                r@.len() == i,
                forall|k: int|
                    0 <= k < i ==> *(#[trigger] r@[k]) == self.items@[ids@[k] as int],
                forall|k: int|
                    0 <= k < ids@.len() ==> (#[trigger] ids@[k]) < self.items@.len(),
                path_model(*path).len() > 0 ==> (forall|k: int|
                    0 <= k < ids@.len() ==> spec_item_element(
                        self.items@[(#[trigger] ids@[k]) as int],
                    ) == path_model(*path).last()),
                path_model(*path).len() > 0 ==> (forall|k: int|
                    0 <= k < r@.len() ==> spec_item_element(*(#[trigger] r@[k]))
                        == path_model(*path).last()),
            decreases ids@.len() - i,
        {
            let id = ids[i];
            r.push(&self.items[id]);
            i += 1;
        }
        r
    }

    /// Gets the full path of an item by identifier.
    pub fn path_for_id(&self, id: usize) -> (r: Option<ChestPath>)
        requires
            self.wf(),
        ensures
            match r {
                Some(p) => id < self.items@.len() && path_model(p) == spec_item_path(
                    self.items@,
                    id as int,
                ) && p.elements@.len() >= 1,
                None => id >= self.items@.len(),
            },
    {
        if id >= self.items.len() {
            return None;
        }
        proof {
            assert(crate::indexed::block_item_wf(
                self.items@,
                0,
                self.items@.len() as int,
                Seq::<usize>::empty(),
                id as int,
            ));
        }
        let item = &self.items[id];
        let mut elements: Vec<ChestPathElement> = Vec::new();
        let mut k: usize = 0;
        let ghost target = spec_item_path(self.items@, id as int);
        while k < item.parent_path.len()
            invariant
                self.wf(),
                id < self.items@.len(),
                item == &self.items@[id as int],
                target == spec_item_path(self.items@, id as int),
                k <= item.parent_path@.len(),
                elements@.len() == k,
                forall|x: int|
                    0 <= x < k ==> element_model(#[trigger] elements@[x]) == target[x],
            decreases item.parent_path@.len() - k,
        {
            let pid = item.parent_path[k];
            proof {
                assert(crate::indexed::block_item_wf(
                    self.items@,
                    0,
                    self.items@.len() as int,
                    Seq::<usize>::empty(),
                    id as int,
                ));
                assert(pid == item.parent_path@[k as int]);
                assert(pid < id < self.items@.len());
            }
            let e = self.items[pid].as_path_element();
            elements.push(e);
            proof {
                assert(target[k as int] == spec_item_element(
                    self.items@[pid as int],
                ));
            }
            k += 1;
        }
        let own = item.as_path_element();
        elements.push(own);
        let p = ChestPath { elements };
        proof {
            assert(path_model(p) =~= target);
        }
        Some(p)
    }

    /// Searches a chest for items that match a string query. The query
    /// is split into segments at `.` and `:`; every segment but the last
    /// narrows the search space to the subtrees of the items it fuzzily
    /// matches; the last segment produces the results, ranked by score
    /// and path and cut to the requested count. Empty queries return an
    /// empty result.
    pub fn search(
        &self,
        start: &ChestPath,
        query: &str,
        parameters: &crate::db::SearchParameters,
    ) -> (r: Vec<ChestSearchResult>)
        requires
            self.wf(),
        ensures
            r@.len() <= parameters.result_count,
            query_segments(query@).len() == 0 ==> r@.len() == 0,
            forall|k: int|
                0 <= k < r@.len() ==> search_result_ok(
                    self.items@,
                    query_segments(query@),
                    #[trigger] r@[k],
                ),
            forall|i: int, j: int|
                0 <= i < j < r@.len() ==> result_le(#[trigger] r@[i], #[trigger] r@[j]),
            forall|k: int|
                0 <= k && k + 1 < r@.len() ==> result_lt(#[trigger] r@[k], r@[k + 1]),
            (path_model(*start).len() > 0 && walk_matching(
                self.items@,
                self.root_item_ids@,
                path_model(*start),
            ).len() == 0) ==> r@.len() == 0,
            (query_segments(query@).len() == 1 && path_model(*start).len() == 0
                && r@.len() < parameters.result_count) ==> (forall|iid: int|
                #[trigger] strong_match(self.items@, query_segments(query@).last(), iid)
                    ==> result_equiv_present(
                    r@,
                    fuzzy_score(
                        indexed_name(self.items@[iid].data),
                        query_segments(query@).last(),
                    )->Some_0,
                    spec_item_path(self.items@, iid),
                )),
            (query_segments(query@).len() == 1 && path_model(*start).len() == 0) ==> (
            forall|iid: int|
                #[trigger] strong_match(self.items@, query_segments(query@).last(), iid)
                    ==> (result_equiv_present(
                    r@,
                    fuzzy_score(
                        indexed_name(self.items@[iid].data),
                        query_segments(query@).last(),
                    )->Some_0,
                    spec_item_path(self.items@, iid),
                ) || (r@.len() == parameters.result_count && (r@.len() > 0
                    ==> ranked_no_worse(
                    r@.last(),
                    fuzzy_score(
                        indexed_name(self.items@[iid].data),
                        query_segments(query@).last(),
                    )->Some_0,
                    spec_item_path(self.items@, iid),
                ))))),
    {
        let segments = split_query(query);
        let ghost segs = query_segments(query@);
        let ghost simple = segs.len() == 1 && path_model(*start).len() == 0;
        if segments.len() == 0 {
            proof {
                assert(crate::pathutil::seq_views(segments@).len() == 0);
                assert(query_segments(query@).len() == 0);
            }
            return Vec::new();
        }
        let last_idx = segments.len() - 1;
        let mut space = ScoreRanges::new();
        let ghost dead = path_model(*start).len() > 0 && walk_matching(
            self.items@,
            self.root_item_ids@,
            path_model(*start),
        ).len() == 0;
        if start.elements.len() > 0 {
            let ids = self.get_ids(start);
            let mut ii: usize = 0;
            while ii < ids.len()
                invariant
                    self.wf(),
                    ii <= ids@.len(),
                    dead ==> ids@.len() == 0,
                    dead ==> (forall|k: usize|
                        !(#[trigger] score_ranges_model(space).dom().contains(k))),
                    forall|k: int|
                        0 <= k < ids@.len() ==> (#[trigger] ids@[k])
                            < self.items@.len(),
                decreases ids@.len() - ii,
            {
                proof {
                    if dead {
                        assert(false);
                    }
                }
                let id = ids[ii];
                let item = &self.items[id];
                let range = item.children_range();
                if range.0 < range.1 {
                    space.insert(range.0, range.1, 0);
                }
                ii += 1;
            }
        } else {
            if self.items.len() > 0 {
                space.insert(0, self.items.len(), 0);
            }
        }
        proof {
            if simple {
                assert(start.elements@.len() == 0);
                assert forall|k: usize|
                    #[trigger] score_ranges_model(space).dom().contains(k) implies (0
                    <= k < self.items@.len() && score_ranges_model(space)[k] == 0) by {
                }
                assert forall|k: usize|
                    0 <= k < self.items@.len() implies #[trigger] score_ranges_model(
                    space,
                ).dom().contains(k) by {
                }
            }
        }
        let mut seg_i: usize = 0;
        while seg_i < last_idx
            invariant
                self.wf(),
                last_idx == segments@.len() - 1,
                seg_i <= last_idx,
                crate::pathutil::seq_views(segments@) == segs,
                segments@.len() >= 1,
                simple == (segs.len() == 1 && path_model(*start).len() == 0),
                dead ==> (forall|k: usize|
                    !(#[trigger] score_ranges_model(space).dom().contains(k))),
                simple ==> (forall|k: usize|
                    #[trigger] score_ranges_model(space).dom().contains(k) ==> (0 <= k
                        < self.items@.len() && score_ranges_model(space)[k] == 0)),
                simple ==> (forall|k: usize|
                    0 <= k < self.items@.len() ==> #[trigger] score_ranges_model(
                        space,
                    ).dom().contains(k)),
            decreases last_idx - seg_i,
        {
            proof {
                if simple {
                    assert(segs.len() == 1);
                    assert(segments@.len() == 1);
                    assert(false);
                }
            }
            let seg = &segments[seg_i];
            let pairs = space.to_pairs();
            let mut new_space = ScoreRanges::new();
            let mut pi: usize = 0;
            while pi < pairs.len()
                invariant
                    self.wf(),
                    pi <= pairs@.len(),
                    dead ==> (forall|k: usize|
                        !(#[trigger] score_ranges_model(space).dom().contains(k))),
                    dead ==> (forall|k: usize|
                        !(#[trigger] score_ranges_model(new_space).dom().contains(k))),
                decreases pairs@.len() - pi,
            {
                let f = pairs[pi].0;
                let l = pairs[pi].1;
                let stop = if l >= self.items.len() {
                    self.items.len()
                } else {
                    l + 1
                };
                let mut id = f;
                while id < stop
                    invariant
                        self.wf(),
                        stop <= self.items@.len(),
                        dead ==> (forall|k: usize|
                            !(#[trigger] score_ranges_model(space).dom().contains(k))),
                        dead ==> (forall|k: usize|
                            !(#[trigger] score_ranges_model(
                                new_space,
                            ).dom().contains(k))),
                    decreases stop - id,
                {
                    match space.get(id) {
                        None => {},
                        Some(prior) => {
                            proof {
                                if dead {
                                    assert(score_ranges_model(space).dom().contains(
                                        id,
                                    ));
                                    assert(false);
                                }
                            }
                            let item = &self.items[id];
                            match fuzzy_match(item.name(), seg.as_str()) {
                                None => {},
                                Some(score) => {
                                    if score >= MIN_SEARCH_SCORE {
                                        let proposed = sat_add_usize(prior, score);
                                        let skip = match new_space.get(id) {
                                            Some(existing) => existing >= proposed,
                                            None => false,
                                        };
                                        if !skip {
                                            let range = item.children_range();
                                            if range.0 < range.1 {
                                                new_space.insert(
                                                    range.0,
                                                    range.1,
                                                    proposed,
                                                );
                                            }
                                        }
                                    }
                                },
                            }
                        },
                    }
                    id += 1;
                }
                pi += 1;
            }
            space = new_space;
            seg_i += 1;
        }
        let last_seg = &segments[last_idx];
        proof {
            assert(crate::pathutil::seq_views(segments@)[last_idx as int] == segments@[
                last_idx as int
            ]@);
            assert(segments@[last_idx as int]@ == segs.last());
        }
        let pairs = space.to_pairs();
        proof {
            if simple {
                assert forall|k: usize|
                    #[trigger] score_ranges_model(space).dom().contains(k) implies covered_by(
                    pairs@,
                    pairs@.len() as int,
                    k as int,
                ) by {
                    let idx = choose|idx: int|
                        0 <= idx < pairs@.len() && ((#[trigger] pairs@[idx]).0 <= k
                            <= pairs@[idx].1);
                    assert(pairs@[idx].0 <= k <= pairs@[idx].1);
                }
            }
        }
        let mut found: Vec<ChestSearchResult> = Vec::new();
        let mut pi: usize = 0;
        while pi < pairs.len()
            invariant
                self.wf(),
                pi <= pairs@.len(),
                segs.len() >= 1,
                last_seg@ == segs.last(),
                simple == (segs.len() == 1 && path_model(*start).len() == 0),
                dead ==> (forall|k: usize|
                    !(#[trigger] score_ranges_model(space).dom().contains(k))),
                dead ==> found@.len() == 0,
                simple ==> (forall|k: usize|
                    #[trigger] score_ranges_model(space).dom().contains(k) ==> (0 <= k
                        < self.items@.len() && score_ranges_model(space)[k] == 0)),
                simple ==> (forall|k: usize|
                    0 <= k < self.items@.len() ==> #[trigger] score_ranges_model(
                        space,
                    ).dom().contains(k)),
                simple ==> (forall|k: usize|
                    #[trigger] score_ranges_model(space).dom().contains(k)
                        ==> covered_by(pairs@, pairs@.len() as int, k as int)),
                forall|k: int|
                    0 <= k < found@.len() ==> search_result_ok(
                        self.items@,
                        segs,
                        #[trigger] found@[k],
                    ),
                forall|k: int|
                    0 <= k < found@.len() ==> (#[trigger] found@[k]).path.elements@.len()
                        >= 1,
                simple ==> (forall|iid: int|
                    covered_by(pairs@, pi as int, iid) && #[trigger] strong_match(
                        self.items@,
                        segs.last(),
                        iid,
                    ) ==> result_equiv_present(
                        found@,
                        fuzzy_score(
                            indexed_name(self.items@[iid].data),
                            segs.last(),
                        )->Some_0,
                        spec_item_path(self.items@, iid),
                    )),
            decreases pairs@.len() - pi,
        {
            let f = pairs[pi].0;
            let l = pairs[pi].1;
            let stop = if l >= self.items.len() {
                self.items.len()
            } else {
                l + 1
            };
            let mut id = f;
            while id < stop
                invariant
                    self.wf(),
                    stop <= self.items@.len(),
                    segs.len() >= 1,
                    last_seg@ == segs.last(),
                    pi < pairs@.len(),
                    f == pairs@[pi as int].0,
                    l == pairs@[pi as int].1,
                    f <= id,
                    stop == if l >= self.items@.len() {
                        self.items@.len() as usize
                    } else {
                        (l + 1) as usize
                    },
                    simple == (segs.len() == 1 && path_model(*start).len() == 0),
                    dead ==> (forall|k: usize|
                        !(#[trigger] score_ranges_model(space).dom().contains(k))),
                    dead ==> found@.len() == 0,
                    simple ==> (forall|k: usize|
                        #[trigger] score_ranges_model(space).dom().contains(k) ==> (0
                            <= k < self.items@.len() && score_ranges_model(space)[k]
                            == 0)),
                    simple ==> (forall|k: usize|
                        0 <= k < self.items@.len() ==> #[trigger] score_ranges_model(
                            space,
                        ).dom().contains(k)),
                    forall|k: int|
                        0 <= k < found@.len() ==> search_result_ok(
                            self.items@,
                            segs,
                            #[trigger] found@[k],
                        ),
                    forall|k: int|
                        0 <= k < found@.len()
                            ==> (#[trigger] found@[k]).path.elements@.len() >= 1,
                    simple ==> (forall|iid: int|
                        (covered_by(pairs@, pi as int, iid) || (f <= iid < id))
                            && #[trigger] strong_match(self.items@, segs.last(), iid)
                            ==> result_equiv_present(
                            found@,
                            fuzzy_score(
                                indexed_name(self.items@[iid].data),
                                segs.last(),
                            )->Some_0,
                            spec_item_path(self.items@, iid),
                        )),
                decreases stop - id,
            {
                let ghost found_pre = found@;
                match space.get(id) {
                    None => {
                        proof {
                            if simple {
                                assert(score_ranges_model(space).dom().contains(id));
                                assert(false);
                            }
                        }
                    },
                    Some(prior) => {
                        proof {
                            if dead {
                                assert(score_ranges_model(space).dom().contains(id));
                                assert(false);
                            }
                        }
                        let item = &self.items[id];
                        match fuzzy_match(item.name(), last_seg.as_str()) {
                            None => {},
                            Some(score) => {
                                if score >= MIN_SEARCH_SCORE {
                                    let total = sat_add_usize(prior, score);
                                    match self.path_for_id(id) {
                                        None => {},
                                        Some(path) => {
                                            let result = ChestSearchResult {
                                                path,
                                                score: total,
                                            };
                                            proof {
                                                let pm = path_model(result.path);
                                                assert(pm == spec_item_path(
                                                    self.items@,
                                                    id as int,
                                                ));
                                                assert(pm.last() == spec_item_element(
                                                    self.items@[id as int],
                                                ));
                                                assert(pm.last().1 == indexed_name(
                                                    item.data,
                                                ));
                                                assert(fuzzy_score(
                                                    pm.last().1,
                                                    segs.last(),
                                                ) == Some(score));
                                                assert(score <= total);
                                                assert(exists|id2: int|
                                                    0 <= id2 < self.items@.len()
                                                        && path_model(result.path)
                                                        == #[trigger] spec_item_path(
                                                        self.items@,
                                                        id2,
                                                    )) by {
                                                    assert(path_model(result.path)
                                                        == spec_item_path(
                                                        self.items@,
                                                        id as int,
                                                    ));
                                                }
                                                assert(search_result_ok(
                                                    self.items@,
                                                    segs,
                                                    result,
                                                ));
                                                if simple {
                                                    assert(prior == 0);
                                                    assert(total == score);
                                                }
                                            }
                                            found.push(result);
                                        },
                                    }
                                }
                            },
                        }
                    },
                }
                proof {
                    if simple {
                        assert forall|iid: int|
                            (covered_by(pairs@, pi as int, iid) || (f <= iid < id + 1))
                                && #[trigger] strong_match(
                                self.items@,
                                segs.last(),
                                iid,
                            ) implies result_equiv_present(
                            found@,
                            fuzzy_score(
                                indexed_name(self.items@[iid].data),
                                segs.last(),
                            )->Some_0,
                            spec_item_path(self.items@, iid),
                        ) by {
                            if iid == id as int {
                                assert(found@[found@.len() - 1].score == fuzzy_score(
                                    indexed_name(self.items@[iid].data),
                                    segs.last(),
                                )->Some_0);
                                assert(path_model(found@[found@.len() - 1].path)
                                    == spec_item_path(self.items@, iid));
                            } else {
                                let k0 = choose|k0: int|
                                    0 <= k0 < found_pre.len() && (#[trigger] found_pre[
                                    k0]).score == fuzzy_score(
                                        indexed_name(self.items@[iid].data),
                                        segs.last(),
                                    )->Some_0 && path_model(found_pre[k0].path)
                                        == spec_item_path(self.items@, iid);
                                assert(found@[k0] == found_pre[k0]);
                            }
                        }
                    }
                }
                id += 1;
            }
            proof {
                if simple {
                    assert forall|iid: int|
                        covered_by(pairs@, pi + 1, iid) && #[trigger] strong_match(
                            self.items@,
                            segs.last(),
                            iid,
                        ) implies result_equiv_present(
                        found@,
                        fuzzy_score(
                            indexed_name(self.items@[iid].data),
                            segs.last(),
                        )->Some_0,
                        spec_item_path(self.items@, iid),
                    ) by {
                        if !covered_by(pairs@, pi as int, iid) {
                            let px = choose|px: int|
                                0 <= px < pi + 1 && ((#[trigger] pairs@[px]).0 <= iid
                                    <= pairs@[px].1);
                            assert(px == pi as int);
                            assert(f <= iid && iid <= l);
                            assert(iid < self.items@.len());
                            assert(iid < stop);
                        }
                    }
                }
            }
            pi += 1;
        }
        let ghost found_g = found@;
        proof {
            if simple {
                assert forall|iid: int|
                    #[trigger] strong_match(self.items@, segs.last(), iid) implies result_equiv_present(
                    found_g,
                    fuzzy_score(
                        indexed_name(self.items@[iid].data),
                        segs.last(),
                    )->Some_0,
                    spec_item_path(self.items@, iid),
                ) by {
                    assert(score_ranges_model(space).dom().contains(iid as usize));
                    assert(covered_by(pairs@, pairs@.len() as int, iid));
                }
            }
        }
        let sorted = sort_results(
            found,
            Ghost(|res: ChestSearchResult| search_result_ok(self.items@, segs, res)),
        );
        let deduped = dedup_results(
            sorted,
            Ghost(|res: ChestSearchResult| search_result_ok(self.items@, segs, res)),
        );
        let mut out = deduped;
        let ghost before = out@;
        out.truncate(parameters.result_count);
        proof {
            if parameters.result_count <= before.len() {
                assert(out@ == before.subrange(0, parameters.result_count as int));
                assert(forall|k: int|
                    0 <= k < out@.len() ==> #[trigger] out@[k] == before[k]);
            }
            if dead {
                assert(found_g.len() == 0);
                assert(before.len() == 0);
            }
            if simple {
                assert forall|iid: int|
                    #[trigger] strong_match(self.items@, segs.last(), iid) implies (
                result_equiv_present(
                    out@,
                    fuzzy_score(
                        indexed_name(self.items@[iid].data),
                        segs.last(),
                    )->Some_0,
                    spec_item_path(self.items@, iid),
                ) || (out@.len() == parameters.result_count && (out@.len() > 0
                    ==> ranked_no_worse(
                    out@.last(),
                    fuzzy_score(
                        indexed_name(self.items@[iid].data),
                        segs.last(),
                    )->Some_0,
                    spec_item_path(self.items@, iid),
                )))) by {
                    let s = fuzzy_score(
                        indexed_name(self.items@[iid].data),
                        segs.last(),
                    )->Some_0;
                    let pm = spec_item_path(self.items@, iid);
                    assert(result_equiv_present(before, s, pm));
                    let k = choose|k: int|
                        0 <= k < before.len() && (#[trigger] before[k]).score == s
                            && path_model(before[k].path) == pm;
                    if parameters.result_count > before.len() {
                        assert(out@ == before);
                    } else if k < parameters.result_count {
                        assert(out@[k] == before[k]);
                        assert(result_equiv_present(out@, s, pm));
                    } else {
                        assert(out@.len() == parameters.result_count);
                        if out@.len() > 0 {
                            let li = parameters.result_count - 1;
                            assert(out@[li as int] == before[li as int]);
                            assert(out@.last() == before[li as int]);
                            assert(result_le(before[li as int], before[k]));
                            assert(ranked_no_worse(out@.last(), s, pm));
                        }
                    }
                }
                assert(segs.last() == query_segments(query@).last());
                assert forall|iid: int|
                    #[trigger] strong_match(
                        self.items@,
                        query_segments(query@).last(),
                        iid,
                    ) implies (result_equiv_present(
                    out@,
                    fuzzy_score(
                        indexed_name(self.items@[iid].data),
                        query_segments(query@).last(),
                    )->Some_0,
                    spec_item_path(self.items@, iid),
                ) || (out@.len() == parameters.result_count && (out@.len() > 0
                    ==> ranked_no_worse(
                    out@.last(),
                    fuzzy_score(
                        indexed_name(self.items@[iid].data),
                        query_segments(query@).last(),
                    )->Some_0,
                    spec_item_path(self.items@, iid),
                )))) by {
                    assert(strong_match(self.items@, segs.last(), iid));
                    assert(fuzzy_score(
                        indexed_name(self.items@[iid].data),
                        query_segments(query@).last(),
                    ) == fuzzy_score(indexed_name(self.items@[iid].data), segs.last()));
                }
            }
        }
        out
    }
}


/// The index of the last `#` of a sequence, or a negative number.
pub open spec fn last_hash(u: Seq<char>) -> int
    decreases u.len(),
{
    if u.len() == 0 {
        -1
    } else if u.last() == '#' {
        u.len() - 1
    } else {
        last_hash(u.drop_last())
    }
}

/// A URL normalised for reverse lookup: any `#` anchor and one leading
/// `/` are stripped.
pub open spec fn normalized_url(u: Seq<char>) -> Seq<char> {
    let s = if last_hash(u) >= 0 {
        u.take(last_hash(u))
    } else {
        u
    };
    if s.len() > 0 && s[0] == '/' {
        s.drop_first()
    } else {
        s
    }
}

/// Strips an anchor and one leading slash from a URL.
fn normalize_url(u: &str) -> (r: String)
    ensures
        r@ == normalized_url(u@),
{
    let n = u.unicode_len();
    let mut hash: usize = n;
    let mut i: usize = 0;
    while i < n
        invariant
            i <= n,
            n == u@.len(),
            hash == n || (hash < i && u@[hash as int] == '#'),
            forall|j: int| 0 <= j < i && hash == n ==> u@[j] != '#',
            forall|j: int| hash < n && hash < j < i ==> u@[j] != '#',
        decreases n - i,
    {
        if u.get_char(i) == '#' {
            hash = i;
        }
        i += 1;
    }
    proof {
        lemma_last_hash_char(u@);
        if hash == n {
            assert(last_hash(u@) < 0);
        } else {
            if last_hash(u@) < hash as int {
                assert(u@[hash as int] == '#');
                assert(false);
            }
            if last_hash(u@) > hash as int {
                assert(u@[last_hash(u@)] == '#');
                assert(false);
            }
            assert(last_hash(u@) == hash as int);
        }
    }
    let base = if hash < n {
        u.substring_char(0, hash)
    } else {
        u
    };
    proof {
        if hash < n {
            assert(base@ =~= u@.take(last_hash(u@)));
        }
    }
    if crate::strutil::str_starts_with_char(base, '/') {
        crate::strutil::str_drop_first(base)
    } else {
        base.to_owned()
    }
}

/// Where the last `#` of a sequence stands.
proof fn lemma_last_hash_char(u: Seq<char>)
    ensures
        last_hash(u) < u.len(),
        last_hash(u) < 0 ==> (forall|j: int| 0 <= j < u.len() ==> u[j] != '#'),
        last_hash(u) >= 0 ==> u[last_hash(u)] == '#' && (forall|j: int|
            last_hash(u) < j < u.len() ==> u[j] != '#'),
    decreases u.len(),
{
    if u.len() > 0 {
        lemma_last_hash_char(u.drop_last());
        assert(forall|j: int| 0 <= j < u.len() - 1 ==> u[j] == u.drop_last()[j]);
    }
}

/// The models of a theme's replacement rules.
pub open spec fn theme_rules(
    adjustment: Option<crate::content::ThemeAdjustment>,
) -> Seq<(Seq<char>, Seq<char>)> {
    match adjustment {
        None => Seq::<(Seq<char>, Seq<char>)>::empty(),
        Some(a) => Seq::new(
            a.file_replacements@.len(),
            |i: int| (a.file_replacements@[i].pattern@, a.file_replacements@[i].replacement@),
        ),
    }
}

/// The result of applying replacement rules in order: the first
/// matching rule rewrites the path; with no match the path stands.
pub open spec fn apply_rules(path: Seq<char>, rules: Seq<(Seq<char>, Seq<char>)>) -> Seq<
    char,
>
    decreases rules.len(),
{
    if rules.len() == 0 {
        path
    } else {
        match crate::chest::transform_path_spec(path, rules[0].0, rules[0].1) {
            Some(t) => t,
            None => apply_rules(path, rules.drop_first()),
        }
    }
}

/// If no rule matches, the output equals the input.
pub proof fn lemma_apply_rules_identity(path: Seq<char>, rules: Seq<(Seq<char>, Seq<char>)>)
    requires
        forall|i: int|
            0 <= i < rules.len() ==> crate::chest::transform_path_spec(
                path,
                (#[trigger] rules[i]).0,
                rules[i].1,
            ) is None,
    ensures
        apply_rules(path, rules) == path,
    decreases rules.len(),
{
    if rules.len() > 0 {
        assert(forall|i: int|
            1 <= i < rules.len() ==> rules[i] == #[trigger] rules.drop_first()[i - 1]);
        lemma_apply_rules_identity(path, rules.drop_first());
    }
}


/// The item path order never relates a path to itself.
pub proof fn lemma_chain_lt_irreflexive(a: Seq<(ChestPathElementType, Seq<char>)>)
    requires
        a.len() >= 1,
    ensures
        !chain_lt(a, a),
{
    lemma_elems_lex_lt_trichotomy(a.drop_last(), a.drop_last());
    lemma_element_lt_trichotomy(a.last(), a.last());
}

/// The item path order is transitive.
pub proof fn lemma_chain_lt_transitive(
    a: Seq<(ChestPathElementType, Seq<char>)>,
    b: Seq<(ChestPathElementType, Seq<char>)>,
    c: Seq<(ChestPathElementType, Seq<char>)>,
)
    requires
        a.len() >= 1,
        b.len() >= 1,
        c.len() >= 1,
        chain_lt(a, b),
        chain_lt(b, c),
    ensures
        chain_lt(a, c),
{
    if elems_lex_lt(a.drop_last(), b.drop_last()) && elems_lex_lt(
        b.drop_last(),
        c.drop_last(),
    ) {
        lemma_elems_lex_lt_transitive(a.drop_last(), b.drop_last(), c.drop_last());
    } else if a.drop_last() == b.drop_last() && b.drop_last() == c.drop_last() {
        lemma_element_lt_transitive(a.last(), b.last(), c.last());
    }
}

/// The item path order, executably.
fn path_chain_lt_exec(a: &ChestPath, b: &ChestPath) -> (r: bool)
    requires
        a.elements@.len() >= 1,
        b.elements@.len() >= 1,
    ensures
        r == chain_lt(path_model(*a), path_model(*b)),
{
    let ghost p = path_model(*a);
    let ghost q = path_model(*b);
    proof {
        assert(p =~= elems_models(a.elements@));
        assert(q =~= elems_models(b.elements@));
        assert(p.drop_last() =~= elems_models(a.elements@).subrange(
            0,
            a.elements@.len() - 1,
        ));
        assert(q.drop_last() =~= elems_models(b.elements@).subrange(
            0,
            b.elements@.len() - 1,
        ));
        assert(p.last() == element_model(a.elements@[a.elements@.len() - 1]));
        assert(q.last() == element_model(b.elements@[b.elements@.len() - 1]));
    }
    let la = a.elements.len();
    let lb = b.elements.len();
    if elements_lex_lt_from(&a.elements, &b.elements, 0, la - 1, lb - 1) {
        return true;
    }
    if !elements_eq_from(&a.elements, &b.elements, 0, la - 1, lb - 1) {
        return false;
    }
    crate::content::element_lt(&a.elements[la - 1], &b.elements[lb - 1])
}

/// The model of an optional hint path.
pub open spec fn page_hint_model(hint_path: Option<&ChestPath>) -> Option<
    Seq<(ChestPathElementType, Seq<char>)>,
> {
    match hint_path {
        Some(h) => Some(path_model(*h)),
        None => None,
    }
}

/// Whether an item is a candidate for a URL lookup: its URL equals the
/// normalised one and, with a hint, its path is a parent of the hint.
pub open spec fn page_candidate(
    items: Seq<IndexedChestItem>,
    nu: Seq<char>,
    hint: Option<Seq<(ChestPathElementType, Seq<char>)>>,
    id: int,
) -> bool {
    &&& 0 <= id < items.len()
    &&& indexed_url(items[id].data) == Some(nu)
    &&& (match hint {
        Some(h) => spec_item_path(items, id).len() <= h.len() && spec_item_path(
            items,
            id,
        ) == h.take(spec_item_path(items, id).len() as int),
        None => true,
    })
}

/// Whether an item matches a URL lookup with no hint restriction.
pub open spec fn url_candidate(items: Seq<IndexedChestItem>, nu: Seq<char>, id: int) -> bool {
    page_candidate(items, nu, None, id)
}

impl IndexedChestContents {
    /// Performs per-theme path transformation according to the chest
    /// configuration: the theme's replacement rules apply in order and
    /// the first match wins; otherwise the path is returned unchanged.
    #[verifier::loop_isolation(false)]
    pub fn transform_path_for_theme(&self, path: &str, theme: crate::db::Theme) -> (r:
        String)
        ensures
            r@ == apply_rules(
                path@,
                theme_rules(
                    match theme {
                        crate::db::Theme::Light => self.info.light_mode,
                        crate::db::Theme::Dark => self.info.dark_mode,
                    },
                ),
            ),
    {
        let adjustment = match theme {
            crate::db::Theme::Light => &self.info.light_mode,
            crate::db::Theme::Dark => &self.info.dark_mode,
        };
        let ghost rules = theme_rules(*adjustment);
        proof {
            assert(rules.skip(0) =~= rules);
        }
        match adjustment {
            None => path.to_owned(),
            Some(a) => {
                let mut i: usize = 0;
                while i < a.file_replacements.len()
                    invariant
                        i <= a.file_replacements@.len(),
                        rules == theme_rules(Some(*a)),
                        rules.len() == a.file_replacements@.len(),
                        apply_rules(path@, rules) == apply_rules(path@, rules.skip(i as int)),
                    decreases a.file_replacements@.len() - i,
                {
                    let rule = &a.file_replacements[i];
                    proof {
                        assert(rules.skip(i as int)[0] == (rule.pattern@, rule.replacement@));
                        assert(rules.skip(i as int).drop_first() =~= rules.skip(i + 1));
                    }
                    match crate::chest::Chest::transform_path(
                        path,
                        rule.pattern.as_str(),
                        rule.replacement.as_str(),
                    ) {
                        Some(t) => {
                            return t;
                        },
                        None => {},
                    }
                    i += 1;
                }
                proof {
                    assert(rules.skip(rules.len() as int).len() == 0);
                }
                path.to_owned()
            },
        }
    }

    /// Gets the path of the deepest item whose URL equals the given one
    /// (anchors and one leading slash stripped). With a hint, the
    /// deepest such item whose path is a parent of the hint wins; when
    /// no match is a parent of the hint, the deepest match overall is
    /// returned, as without a hint.
    #[verifier::loop_isolation(false)]
    #[verifier::rlimit(100)]
    pub fn page_for_path(&self, url: &str, hint_path: Option<&ChestPath>) -> (r: Option<
        ChestPath,
    >)
        requires
            self.wf(),
        ensures
            r is None <==> (forall|id: int|
                !(#[trigger] url_candidate(self.items@, normalized_url(url@), id))),
            r matches Some(p) ==> ((exists|id: int|
                #[trigger] page_candidate(
                    self.items@,
                    normalized_url(url@),
                    page_hint_model(hint_path),
                    id,
                )) ==> ((exists|id: int|
                (#[trigger] page_candidate(
                    self.items@,
                    normalized_url(url@),
                    page_hint_model(hint_path),
                    id,
                )) && path_model(p) == spec_item_path(self.items@, id)) && (forall|
                id: int,
            |
                (#[trigger] page_candidate(
                    self.items@,
                    normalized_url(url@),
                    page_hint_model(hint_path),
                    id,
                )) ==> !chain_lt(path_model(p), spec_item_path(self.items@, id))))),
            r matches Some(p) ==> (!(exists|id: int|
                #[trigger] page_candidate(
                    self.items@,
                    normalized_url(url@),
                    page_hint_model(hint_path),
                    id,
                )) ==> ((exists|id: int|
                (#[trigger] url_candidate(self.items@, normalized_url(url@), id))
                    && path_model(p) == spec_item_path(self.items@, id)) && (forall|
                id: int,
            |
                (#[trigger] url_candidate(self.items@, normalized_url(url@), id))
                    ==> !chain_lt(path_model(p), spec_item_path(self.items@, id))))),
    {
        let ghost nu = normalized_url(url@);
        let ghost hm = page_hint_model(hint_path);
        let normalized = normalize_url(url);
        let mut best: Option<ChestPath> = None;
        let ghost mut best_id: int = 0;
        let mut best_any: Option<ChestPath> = None;
        let ghost mut best_any_id: int = 0;
        let mut id: usize = 0;
        while id < self.items.len()
            invariant
                self.wf(),
                id <= self.items@.len(),
                match best {
                    Some(p) => 0 <= best_id < id as int && page_candidate(
                        self.items@,
                        nu,
                        hm,
                        best_id,
                    ) && path_model(p) == spec_item_path(self.items@, best_id)
                        && p.elements@.len() >= 1 && (forall|id2: int|
                        id2 < id as int && (#[trigger] page_candidate(
                            self.items@,
                            nu,
                            hm,
                            id2,
                        )) ==> !chain_lt(path_model(p), spec_item_path(
                            self.items@,
                            id2,
                        ))),
                    None => forall|id2: int|
                        id2 < id as int ==> !(#[trigger] page_candidate(
                            self.items@,
                            nu,
                            hm,
                            id2,
                        )),
                },
                match best_any {
                    Some(p) => 0 <= best_any_id < id as int && url_candidate(
                        self.items@,
                        nu,
                        best_any_id,
                    ) && path_model(p) == spec_item_path(self.items@, best_any_id)
                        && p.elements@.len() >= 1 && (forall|id2: int|
                        id2 < id as int && (#[trigger] url_candidate(
                            self.items@,
                            nu,
                            id2,
                        )) ==> !chain_lt(path_model(p), spec_item_path(
                            self.items@,
                            id2,
                        ))),
                    None => forall|id2: int|
                        id2 < id as int ==> !(#[trigger] url_candidate(
                            self.items@,
                            nu,
                            id2,
                        )),
                },
            decreases self.items@.len() - id,
        {
            let ghost iid = id as int;
            let item = &self.items[id];
            let matches_url = match item.url() {
                Some(u) => crate::strutil::str_eq(u, normalized.as_str()),
                None => false,
            };
            if matches_url {
                let candidate = match self.path_for_id(id) {
                    Some(p) => p,
                    None => {
                        proof {
                            assert(false);
                        }
                        ChestPath { elements: Vec::new() }
                    },
                };
                proof {
                    assert(url_candidate(self.items@, nu, iid));
                }
                let replace_any = match &best_any {
                    None => true,
                    Some(prev) => path_chain_lt_exec(prev, &candidate),
                };
                if replace_any {
                    proof {
                        match &best_any {
                            Some(prev) => {
                                assert forall|id2: int|
                                    id2 < iid + 1 && (#[trigger] url_candidate(
                                        self.items@,
                                        nu,
                                        id2,
                                    )) implies !chain_lt(
                                    path_model(candidate),
                                    spec_item_path(self.items@, id2),
                                ) by {
                                    if id2 == iid {
                                        lemma_chain_lt_irreflexive(
                                            path_model(candidate),
                                        );
                                    } else if chain_lt(
                                        path_model(candidate),
                                        spec_item_path(self.items@, id2),
                                    ) {
                                        lemma_chain_lt_transitive(
                                            path_model(*prev),
                                            path_model(candidate),
                                            spec_item_path(self.items@, id2),
                                        );
                                    }
                                }
                            },
                            None => {
                                assert forall|id2: int|
                                    id2 < iid + 1 && (#[trigger] url_candidate(
                                        self.items@,
                                        nu,
                                        id2,
                                    )) implies !chain_lt(
                                    path_model(candidate),
                                    spec_item_path(self.items@, id2),
                                ) by {
                                    if id2 == iid {
                                        lemma_chain_lt_irreflexive(
                                            path_model(candidate),
                                        );
                                    }
                                }
                            },
                        }
                        best_any_id = iid;
                    }
                    best_any = Some(crate::content::clone_path(&candidate));
                } else {
                    proof {
                        // the kept overall best already orders no lower
                        // than this candidate
                        match &best_any {
                            Some(prev) => {
                                assert forall|id2: int|
                                    id2 < iid + 1 && (#[trigger] url_candidate(
                                        self.items@,
                                        nu,
                                        id2,
                                    )) implies !chain_lt(
                                    path_model(*prev),
                                    spec_item_path(self.items@, id2),
                                ) by {
                                    if id2 == iid {
                                        assert(spec_item_path(self.items@, id2)
                                            == path_model(candidate));
                                        assert(!chain_lt(
                                            path_model(*prev),
                                            path_model(candidate),
                                        ));
                                    }
                                }
                            },
                            None => {
                                assert(false);
                            },
                        }
                    }
                }
                let acceptable = match hint_path {
                    Some(hint) => candidate.is_parent_of(hint),
                    None => true,
                };
                proof {
                    if acceptable {
                        assert(page_candidate(self.items@, nu, hm, iid));
                    } else {
                        assert(!page_candidate(self.items@, nu, hm, iid));
                    }
                }
                if acceptable {
                    let replace = match &best {
                        None => true,
                        Some(prev) => path_chain_lt_exec(prev, &candidate),
                    };
                    if replace {
                        proof {
                            match &best {
                                Some(prev) => {
                                    assert forall|id2: int|
                                        id2 < iid + 1 && (#[trigger] page_candidate(
                                            self.items@,
                                            nu,
                                            hm,
                                            id2,
                                        )) implies !chain_lt(
                                        path_model(candidate),
                                        spec_item_path(self.items@, id2),
                                    ) by {
                                        if id2 == iid {
                                            lemma_chain_lt_irreflexive(
                                                path_model(candidate),
                                            );
                                        } else if chain_lt(
                                            path_model(candidate),
                                            spec_item_path(self.items@, id2),
                                        ) {
                                            lemma_chain_lt_transitive(
                                                path_model(*prev),
                                                path_model(candidate),
                                                spec_item_path(self.items@, id2),
                                            );
                                        }
                                    }
                                },
                                None => {
                                    assert forall|id2: int|
                                        id2 < iid + 1 && (#[trigger] page_candidate(
                                            self.items@,
                                            nu,
                                            hm,
                                            id2,
                                        )) implies !chain_lt(
                                        path_model(candidate),
                                        spec_item_path(self.items@, id2),
                                    ) by {
                                        if id2 == iid {
                                            lemma_chain_lt_irreflexive(
                                                path_model(candidate),
                                            );
                                        }
                                    }
                                },
                            }
                            best_id = iid;
                        }
                        best = Some(candidate);
                    } else {
                        proof {
                            // the kept best already orders no lower
                            // than this candidate
                            match &best {
                                Some(prev) => {
                                    assert forall|id2: int|
                                        id2 < iid + 1 && (#[trigger] page_candidate(
                                            self.items@,
                                            nu,
                                            hm,
                                            id2,
                                        )) implies !chain_lt(
                                        path_model(*prev),
                                        spec_item_path(self.items@, id2),
                                    ) by {
                                        if id2 == iid {
                                            assert(spec_item_path(self.items@, id2)
                                                == path_model(candidate));
                                            assert(!chain_lt(
                                                path_model(*prev),
                                                path_model(candidate),
                                            ));
                                        }
                                    }
                                },
                                None => {
                                    assert(false);
                                },
                            }
                        }
                    }
                }
            } else {
                proof {
                    assert(!page_candidate(self.items@, nu, hm, iid)) by {
                        if page_candidate(self.items@, nu, hm, iid) {
                            assert(indexed_url(self.items@[iid].data) == Some(nu));
                        }
                    }
                    assert(!url_candidate(self.items@, nu, iid)) by {
                        if url_candidate(self.items@, nu, iid) {
                            assert(indexed_url(self.items@[iid].data) == Some(nu));
                        }
                    }
                }
            }
            id += 1;
        }
        proof {
            match &best {
                Some(p) => {
                    assert(page_candidate(self.items@, nu, hm, best_id) && path_model(
                        *p,
                    ) == spec_item_path(self.items@, best_id));
                    assert(url_candidate(self.items@, nu, best_id));
                    assert forall|id2: int|
                        #[trigger] page_candidate(self.items@, nu, hm, id2) implies !chain_lt(
                        path_model(*p),
                        spec_item_path(self.items@, id2),
                    ) by {
                        assert(0 <= id2 < self.items@.len());
                    }
                },
                None => {
                    match &best_any {
                        Some(p) => {
                            assert(url_candidate(self.items@, nu, best_any_id)
                                && path_model(*p) == spec_item_path(
                                self.items@,
                                best_any_id,
                            ));
                            assert forall|id2: int|
                                #[trigger] url_candidate(self.items@, nu, id2) implies !chain_lt(
                                path_model(*p),
                                spec_item_path(self.items@, id2),
                            ) by {
                                assert(0 <= id2 < self.items@.len());
                            }
                            assert forall|id2: int|
                                !(#[trigger] page_candidate(
                                    self.items@,
                                    nu,
                                    hm,
                                    id2,
                                )) by {
                                if 0 <= id2 < self.items@.len() {
                                } else {
                                }
                            }
                        },
                        None => {
                            assert forall|id2: int|
                                !(#[trigger] url_candidate(self.items@, nu, id2)) by {
                                if 0 <= id2 < self.items@.len() {
                                } else {
                                }
                            }
                        },
                    }
                },
            }
        }
        match best {
            Some(p) => Some(p),
            None => best_any,
        }
    }
}


/// The element models of a run of items, with duplicates removed,
/// first occurrence kept.
pub open spec fn dedup_element_models(
    ms: Seq<(ChestPathElementType, Seq<char>)>,
) -> Seq<(ChestPathElementType, Seq<char>)>
    decreases ms.len(),
{
    if ms.len() == 0 {
        Seq::<(ChestPathElementType, Seq<char>)>::empty()
    } else {
        let rest = dedup_element_models(ms.drop_last());
        if rest.contains(ms.last()) {
            rest
        } else {
            rest.push(ms.last())
        }
    }
}

/// Whether the list holds an element with this model.
fn contains_element(v: &Vec<ChestPathElement>, e: &ChestPathElement) -> (r: bool)
    ensures
        r == elems_models(v@).contains(element_model(*e)),
{
    let mut i: usize = 0;
    while i < v.len()
        invariant
            i <= v@.len(),
            forall|k: int| 0 <= k < i ==> element_model(#[trigger] v@[k]) != element_model(*e),
        decreases v@.len() - i,
    {
        if crate::content::element_eq(&v[i], e) {
            proof {
                assert(elems_models(v@)[i as int] == element_model(*e));
            }
            return true;
        }
        i += 1;
    }
    proof {
        assert forall|k: int| 0 <= k < elems_models(v@).len() implies elems_models(v@)[k]
            != element_model(*e) by {
            assert(elems_models(v@)[k] == element_model(v@[k]));
        }
    }
    false
}

impl ChestPathElement {
    /// Converts a run of chest items to the path elements that
    /// reference them, collapsing items that share one element.
    pub fn path_elements_for_items(items: &[&IndexedChestItem]) -> (r: Vec<
        ChestPathElement,
    >)
        ensures
            elems_models(r@) == dedup_element_models(
                Seq::new(items@.len(), |i: int| spec_item_element(*items@[i])),
            ),
    {
        let ghost target = Seq::new(items@.len(), |i: int| spec_item_element(*items@[i]));
        let mut result: Vec<ChestPathElement> = Vec::new();
        proof {
            assert(target.take(0) =~= Seq::<(ChestPathElementType, Seq<char>)>::empty());
            assert(elems_models(result@) =~= dedup_element_models(target.take(0)));
        }
        let mut i: usize = 0;
        while i < items.len()
            invariant
                i <= items@.len(),
                target == Seq::new(items@.len(), |k: int| spec_item_element(*items@[k])),
                elems_models(result@) == dedup_element_models(target.take(i as int)),
            decreases items@.len() - i,
        {
            let element = items[i].as_path_element();
            proof {
                assert(element_model(element) == target[i as int]);
                assert(target.take(i + 1).drop_last() =~= target.take(i as int));
                assert(target.take(i + 1).last() == target[i as int]);
            }
            let ghost result0 = result@;
            if !contains_element(&result, &element) {
                result.push(element);
                proof {
                    assert(elems_models(result@) =~= elems_models(result0).push(
                        target[i as int],
                    ));
                }
            }
            i += 1;
        }
        proof {
            assert(target.take(items@.len() as int) =~= target);
        }
        result
    }
}

} // verus!
