use vstd::prelude::*;
use crate::chest::{Chest, ChestListEntry};
use crate::content::{clone_path, path_model, ChestContents, ChestPath};
use crate::error::ChestError;
use crate::indexed::{IndexedChestContents, IndexedChestItem};
use crate::search::{
    elems_lex_lt, fuzzy_score, query_segments, search_result_ok, MIN_SEARCH_SCORE,
};
use crate::content::ChestSearchResult;
use crate::strutil::{lex_lt, lemma_lex_lt_transitive, lemma_lex_lt_trichotomy, str_eq,
    str_lt, string_push_char};

verus! {

/// Path to an item within all chests: the chest identifier and the path
/// inside that chest.
#[derive(Clone, Debug)]
pub struct ItemPath {
    pub identifier: String,
    pub chest_path: ChestPath,
}

/// Parameters for searching a chest.
#[derive(Clone, Debug)]
pub struct SearchParameters {
    pub result_count: usize,
}

/// The default number of results kept by a search.
pub const DEFAULT_RESULT_COUNT: usize = 20;

impl Default for SearchParameters {
    /// The default search keeps twenty results.
    fn default() -> (r: Self)
        ensures
            r.result_count == DEFAULT_RESULT_COUNT,
    {
        SearchParameters { result_count: DEFAULT_RESULT_COUNT }
    }
}

/// A single search result across the database.
#[derive(Clone, Debug)]
pub struct SearchResult {
    pub path: ItemPath,
    pub score: usize,
}

/// The theme that a front end renders with.
#[derive(Clone, Copy, PartialEq, Eq, Structural, Debug)]
pub enum Theme {
    Dark,
    Light,
}

/// The items, page items and base classes found at a path.
pub struct ItemContents<'a> {
    pub chest_items: Vec<&'a IndexedChestItem>,
    pub page_items: Vec<&'a crate::content::PageItem>,
    pub bases: Vec<ChestPath>,
}

/// One version of a chest family: the version string and the identifier
/// of the chest that carries it.
struct VersionEntry {
    version: String,
    identifier: String,
}

/// All installed versions of one chest family, by its category tag.
struct TagEntry {
    tag: String,
    latest_version: String,
    versions: Vec<VersionEntry>,
}

/// One loaded chest: its identifier, the open chest and its indexed
/// contents.
struct LoadedChest {
    identifier: String,
    chest: Chest,
    contents: IndexedChestContents,
}

/// Database of all available chests.
pub struct Database {
    data_path: String,
    chests: Vec<LoadedChest>,
    tags: Vec<TagEntry>,
}

/// Splitting a version string on `.`, `-` and `_`.
pub open spec fn split_version(s: Seq<char>) -> Seq<Seq<char>>
    decreases s.len(),
{
    if s.len() == 0 {
        seq![Seq::<char>::empty()]
    } else {
        let rest = split_version(s.drop_last());
        if s.last() == '.' || s.last() == '-' || s.last() == '_' {
            rest.push(Seq::<char>::empty())
        } else {
            rest.update(rest.len() - 1, rest.last().push(s.last()))
        }
    }
}

proof fn lemma_split_version_nonempty(s: Seq<char>)
    ensures
        split_version(s).len() >= 1,
    decreases s.len(),
{
    if s.len() > 0 {
        lemma_split_version_nonempty(s.drop_last());
    }
}

/// Whether a character is a decimal digit.
pub open spec fn spec_digit(c: char) -> bool {
    48 <= (c as u32) <= 57
}

/// The number that a digit sequence denotes.
pub open spec fn digits_value(s: Seq<char>) -> int
    decreases s.len(),
{
    if s.len() == 0 {
        0
    } else {
        digits_value(s.drop_last()) * 10 + ((s.last() as u32) - 48)
    }
}

/// What parsing a version component as a number yields: the value for a
/// non-empty all-digit component that fits, nothing otherwise.
pub open spec fn spec_parse_u32(s: Seq<char>) -> Option<u32> {
    if s.len() > 0 && (forall|i: int| 0 <= i < s.len() ==> spec_digit(#[trigger] s[i]))
        && digits_value(s) <= u32::MAX as int {
        Some(digits_value(s) as u32)
    } else {
        None
    }
}

/// Digit values never shrink as digits are appended.
proof fn lemma_digits_value_nonneg(s: Seq<char>)
    requires
        forall|i: int| 0 <= i < s.len() ==> spec_digit(#[trigger] s[i]),
    ensures
        digits_value(s) >= 0,
    decreases s.len(),
{
    if s.len() > 0 {
        assert(forall|i: int| 0 <= i < s.len() - 1 ==> s.drop_last()[i] == s[i]);
        lemma_digits_value_nonneg(s.drop_last());
    }
}

/// A prefix of a digit sequence denotes no more than the whole.
proof fn lemma_digits_value_monotone(s: Seq<char>, i: int)
    requires
        forall|k: int| 0 <= k < s.len() ==> spec_digit(#[trigger] s[k]),
        0 <= i <= s.len(),
    ensures
        digits_value(s.take(i)) <= digits_value(s),
    decreases s.len() - i,
{
    if i < s.len() {
        lemma_digits_value_monotone(s, i + 1);
        assert(s.take(i + 1).drop_last() =~= s.take(i));
        assert(forall|k: int| 0 <= k < i ==> s.take(i)[k] == s[k]);
        lemma_digits_value_nonneg(s.take(i));
        assert(digits_value(s.take(i + 1)) == digits_value(s.take(i)) * 10 + ((s[i] as u32)
            - 48));
    } else {
        assert(s.take(i) =~= s);
    }
}

/// Parses a version component as a number.
pub fn parse_u32(s: &str) -> (r: Option<u32>)
    ensures
        r == spec_parse_u32(s@),
{
    let n = s.unicode_len();
    if n == 0 {
        return None;
    }
    let mut acc: u32 = 0;
    let mut i: usize = 0;
    while i < n
        invariant
            i <= n,
            n == s@.len(),
            forall|k: int| 0 <= k < i ==> spec_digit(#[trigger] s@[k]),
            acc as int == digits_value(s@.take(i as int)),
        decreases n - i,
    {
        let c = s.get_char(i);
        let u = c as u32;
        if u < 48 || u > 57 {
            return None;
        }
        let d = u - 48;
        proof {
            assert(s@.take(i + 1).drop_last() =~= s@.take(i as int));
            assert(s@.take(i + 1).last() == s@[i as int]);
        }
        if acc > (u32::MAX - d) / 10 {
            proof {
                assert(forall|k: int| 0 <= k < i ==> s@.take(i as int)[k] == s@[k]);
                lemma_digits_value_nonneg(s@.take(i as int));
                assert(digits_value(s@.take(i + 1)) > u32::MAX as int);
                if forall|k: int| 0 <= k < s@.len() ==> spec_digit(#[trigger] s@[k]) {
                    lemma_digits_value_monotone(s@, i + 1);
                }
            }
            return None;
        }
        acc = acc * 10 + d;
        i += 1;
    }
    proof {
        assert(s@.take(n as int) =~= s@);
    }
    Some(acc)
}

/// The numeric components of a list of version parts, in order.
pub open spec fn numeric_parts(parts: Seq<Seq<char>>) -> Seq<u32>
    decreases parts.len(),
{
    if parts.len() == 0 {
        Seq::<u32>::empty()
    } else {
        numeric_parts(parts.drop_last()) + (match spec_parse_u32(parts.last()) {
            Some(v) => seq![v],
            None => Seq::<u32>::empty(),
        })
    }
}

/// The semantic version of a version string: its numeric components, in
/// order; non-numeric components do not contribute.
pub open spec fn spec_semantic_version(version: Seq<char>) -> Seq<u32> {
    numeric_parts(split_version(version))
}

/// Splits a version string into its components.
fn split_version_parts(s: &str) -> (r: Vec<String>)
    ensures
        crate::pathutil::seq_views(r@) == split_version(s@),
        r@.len() >= 1,
{
    let n = s.unicode_len();
    let mut r: Vec<String> = Vec::new();
    r.push(String::new());
    proof {
        assert(s@.take(0) =~= Seq::<char>::empty());
        assert(crate::pathutil::seq_views(r@) =~= split_version(s@.take(0)));
    }
    let mut i: usize = 0;
    while i < n
        invariant
            i <= n,
            n == s@.len(),
            r@.len() >= 1,
            crate::pathutil::seq_views(r@) == split_version(s@.take(i as int)),
        decreases n - i,
    {
        let c = s.get_char(i);
        proof {
            assert(s@.take(i + 1).drop_last() =~= s@.take(i as int));
            assert(s@.take(i + 1).last() == s@[i as int]);
            lemma_split_version_nonempty(s@.take(i as int));
        }
        if c == '.' || c == '-' || c == '_' {
            r.push(String::new());
            proof {
                assert(crate::pathutil::seq_views(r@) =~= split_version(s@.take(i + 1)));
            }
        } else {
            let li = r.len() - 1;
            string_push_char(&mut r[li], c);
            proof {
                let prev = split_version(s@.take(i as int));
                assert(split_version(s@.take(i + 1)) == prev.update(
                    prev.len() - 1,
                    prev.last().push(s@[i as int]),
                ));
                assert(crate::pathutil::seq_views(r@) =~= split_version(s@.take(i + 1)));
            }
        }
        i += 1;
    }
    proof {
        assert(s@.take(n as int) =~= s@);
    }
    r
}

/// Converts a version string into its semantic version for comparison.
pub fn semantic_version(version: &str) -> (r: Vec<u32>)
    ensures
        r@ == spec_semantic_version(version@),
{
    let parts = split_version_parts(version);
    let ghost pviews = crate::pathutil::seq_views(parts@);
    let mut r: Vec<u32> = Vec::new();
    proof {
        assert(pviews.take(0) =~= Seq::<Seq<char>>::empty());
        assert(r@ =~= numeric_parts(pviews.take(0)));
    }
    let mut i: usize = 0;
    while i < parts.len()
        invariant
            i <= parts@.len(),
            pviews == crate::pathutil::seq_views(parts@),
            r@ == numeric_parts(pviews.take(i as int)),
        decreases parts@.len() - i,
    {
        proof {
            assert(pviews.take(i + 1).drop_last() =~= pviews.take(i as int));
            assert(pviews.take(i + 1).last() == parts@[i as int]@);
        }
        match parse_u32(parts[i].as_str()) {
            Some(v) => {
                r.push(v);
                proof {
                    assert(r@ =~= numeric_parts(pviews.take(i + 1)));
                }
            },
            None => {
                proof {
                    assert(r@ =~= numeric_parts(pviews.take(i + 1)));
                }
            },
        }
        i += 1;
    }
    proof {
        assert(pviews.take(parts@.len() as int) =~= pviews);
    }
    r
}

/// Lexicographic order on semantic versions.
pub open spec fn version_key_lt(a: Seq<u32>, b: Seq<u32>) -> bool
    decreases a.len(),
{
    if b.len() == 0 {
        false
    } else if a.len() == 0 {
        true
    } else if a[0] < b[0] {
        true
    } else if a[0] == b[0] {
        version_key_lt(a.drop_first(), b.drop_first())
    } else {
        false
    }
}

/// Compares two semantic versions.
fn version_key_lt_exec(a: &Vec<u32>, b: &Vec<u32>) -> (r: bool)
    ensures
        r == version_key_lt(a@, b@),
{
    proof {
        assert(a@.skip(0) =~= a@);
        assert(b@.skip(0) =~= b@);
    }
    version_key_lt_from(a, b, 0)
}

fn version_key_lt_from(a: &Vec<u32>, b: &Vec<u32>, i: usize) -> (r: bool)
    requires
        i <= a@.len(),
        i <= b@.len(),
    ensures
        r == version_key_lt(a@.skip(i as int), b@.skip(i as int)),
    decreases a@.len() - i,
{
    let ghost sa = a@.skip(i as int);
    let ghost sb = b@.skip(i as int);
    if i == b.len() {
        false
    } else if i == a.len() {
        true
    } else {
        proof {
            assert(sa[0] == a@[i as int]);
            assert(sb[0] == b@[i as int]);
        }
        if a[i] < b[i] {
            true
        } else if a[i] == b[i] {
            proof {
                assert(sa.drop_first() =~= a@.skip(i + 1));
                assert(sb.drop_first() =~= b@.skip(i + 1));
            }
            version_key_lt_from(a, b, i + 1)
        } else {
            false
        }
    }
}


/// The index of the first loaded chest with the identifier.
spec fn find_chest(entries: Seq<LoadedChest>, ident: Seq<char>) -> Option<int>
    decreases entries.len(),
{
    if entries.len() == 0 {
        None
    } else if entries[0].identifier@ == ident {
        Some(0int)
    } else {
        match find_chest(entries.drop_first(), ident) {
            Some(i) => Some(i + 1),
            None => None,
        }
    }
}

/// The index of the first tag entry with the tag.
spec fn find_tag(tags: Seq<TagEntry>, tag: Seq<char>) -> Option<int>
    decreases tags.len(),
{
    if tags.len() == 0 {
        None
    } else if tags[0].tag@ == tag {
        Some(0int)
    } else {
        match find_tag(tags.drop_first(), tag) {
            Some(i) => Some(i + 1),
            None => None,
        }
    }
}

/// The index of the first version entry with the version.
spec fn find_version(vs: Seq<VersionEntry>, version: Seq<char>) -> Option<int>
    decreases vs.len(),
{
    if vs.len() == 0 {
        None
    } else if vs[0].version@ == version {
        Some(0int)
    } else {
        match find_version(vs.drop_first(), version) {
            Some(i) => Some(i + 1),
            None => None,
        }
    }
}

/// What a first-match search finds, characterised by indexes.
proof fn lemma_find_chest_char(entries: Seq<LoadedChest>, ident: Seq<char>)
    ensures
        match find_chest(entries, ident) {
            Some(i) => 0 <= i < entries.len() && entries[i].identifier@ == ident
                && (forall|j: int| 0 <= j < i ==> (#[trigger] entries[j]).identifier@ != ident),
            None => forall|j: int|
                0 <= j < entries.len() ==> (#[trigger] entries[j]).identifier@ != ident,
        },
    decreases entries.len(),
{
    if entries.len() > 0 {
        lemma_find_chest_char(entries.drop_first(), ident);
        assert(forall|j: int|
            1 <= j < entries.len() ==> entries[j] == #[trigger] entries.drop_first()[j - 1]);
        if entries[0].identifier@ != ident {
            match find_chest(entries.drop_first(), ident) {
                Some(f) => {
                    assert forall|j: int|
                        0 <= j < f + 1 implies (#[trigger] entries[j]).identifier@ != ident by {
                        if j > 0 {
                            assert(entries[j] == entries.drop_first()[j - 1]);
                        }
                    }
                },
                None => {
                    assert forall|j: int|
                        0 <= j < entries.len() implies (#[trigger] entries[j]).identifier@
                        != ident by {
                        if j > 0 {
                            assert(entries[j] == entries.drop_first()[j - 1]);
                        }
                    }
                },
            }
        }
    }
}

proof fn lemma_find_tag_char(tags: Seq<TagEntry>, tag: Seq<char>)
    ensures
        match find_tag(tags, tag) {
            Some(i) => 0 <= i < tags.len() && tags[i].tag@ == tag && (forall|j: int|
                0 <= j < i ==> (#[trigger] tags[j]).tag@ != tag),
            None => forall|j: int| 0 <= j < tags.len() ==> (#[trigger] tags[j]).tag@ != tag,
        },
    decreases tags.len(),
{
    if tags.len() > 0 {
        lemma_find_tag_char(tags.drop_first(), tag);
        assert(forall|j: int|
            1 <= j < tags.len() ==> tags[j] == #[trigger] tags.drop_first()[j - 1]);
        if tags[0].tag@ != tag {
            match find_tag(tags.drop_first(), tag) {
                Some(f) => {
                    assert forall|j: int|
                        0 <= j < f + 1 implies (#[trigger] tags[j]).tag@ != tag by {
                        if j > 0 {
                            assert(tags[j] == tags.drop_first()[j - 1]);
                        }
                    }
                },
                None => {
                    assert forall|j: int|
                        0 <= j < tags.len() implies (#[trigger] tags[j]).tag@
                        != tag by {
                        if j > 0 {
                            assert(tags[j] == tags.drop_first()[j - 1]);
                        }
                    }
                },
            }
        }
    }
}

proof fn lemma_find_version_char(vs: Seq<VersionEntry>, version: Seq<char>)
    ensures
        match find_version(vs, version) {
            Some(i) => 0 <= i < vs.len() && vs[i].version@ == version && (forall|j: int|
                0 <= j < i ==> (#[trigger] vs[j]).version@ != version),
            None => forall|j: int|
                0 <= j < vs.len() ==> (#[trigger] vs[j]).version@ != version,
        },
    decreases vs.len(),
{
    if vs.len() > 0 {
        lemma_find_version_char(vs.drop_first(), version);
        assert(forall|j: int|
            1 <= j < vs.len() ==> vs[j] == #[trigger] vs.drop_first()[j - 1]);
        if vs[0].version@ != version {
            match find_version(vs.drop_first(), version) {
                Some(f) => {
                    assert forall|j: int|
                        0 <= j < f + 1 implies (#[trigger] vs[j]).version@ != version by {
                        if j > 0 {
                            assert(vs[j] == vs.drop_first()[j - 1]);
                        }
                    }
                },
                None => {
                    assert forall|j: int|
                        0 <= j < vs.len() implies (#[trigger] vs[j]).version@
                        != version by {
                        if j > 0 {
                            assert(vs[j] == vs.drop_first()[j - 1]);
                        }
                    }
                },
            }
        }
    }
}

impl Database {
    /// Well-formedness: every loaded chest and its index are well
    /// formed.
    pub closed spec fn wf(self) -> bool {
        &&& (forall|i: int|
            0 <= i < self.chests@.len() ==> (#[trigger] self.chests@[i]).chest.wf()
                && self.chests@[i].contents.wf())
        &&& (forall|i: int, j: int|
            0 <= i < j < self.tags@.len() ==> (#[trigger] self.tags@[i]).tag@ != (
            #[trigger] self.tags@[j]).tag@)
    }

    /// The indexed contents stored under an identifier.
    pub closed spec fn spec_chest(self, ident: Seq<char>) -> Option<IndexedChestContents> {
        match find_chest(self.chests@, ident) {
            Some(i) => Some(self.chests@[i].contents),
            None => None,
        }
    }

    /// The chest store stored under an identifier.
    pub closed spec fn spec_chest_store(self, ident: Seq<char>) -> Option<Chest> {
        match find_chest(self.chests@, ident) {
            Some(i) => Some(self.chests@[i].chest),
            None => None,
        }
    }

    /// The recorded latest version of a tag.
    pub closed spec fn spec_tag_latest(self, tag: Seq<char>) -> Option<Seq<char>> {
        match find_tag(self.tags@, tag) {
            Some(i) => Some(self.tags@[i].latest_version@),
            None => None,
        }
    }

    /// The versions recorded for a tag, with their identifiers.
    pub closed spec fn spec_tag_versions(self, tag: Seq<char>) -> Option<
        Seq<(Seq<char>, Seq<char>)>,
    > {
        match find_tag(self.tags@, tag) {
            Some(i) => Some(
                Seq::new(
                    self.tags@[i].versions@.len(),
                    |j: int|
                        (
                            self.tags@[i].versions@[j].version@,
                            self.tags@[i].versions@[j].identifier@,
                        ),
                ),
            ),
            None => None,
        }
    }

    /// The identifier stored for an exact version of a tag.
    pub closed spec fn spec_tag_version_identifier(
        self,
        tag: Seq<char>,
        version: Seq<char>,
    ) -> Option<Seq<char>> {
        match find_tag(self.tags@, tag) {
            Some(i) => match find_version(self.tags@[i].versions@, version) {
                Some(j) => Some(self.tags@[i].versions@[j].identifier@),
                None => None,
            },
            None => None,
        }
    }

    /// Whether an identifier is the one stored for some tag's recorded
    /// latest version.
    pub open spec fn from_latest_version(self, ident: Seq<char>) -> bool {
        exists|tag: Seq<char>|
            (#[trigger] self.spec_tag_latest(tag)) matches Some(v)
                && self.spec_tag_version_identifier(tag, v) == Some(ident)
    }

    /// The directory where installed chests live.
    pub closed spec fn spec_data_path(self) -> Seq<char> {
        self.data_path@
    }

    /// Creates an empty database over the given data directory; the
    /// caller scans that directory and registers each chest it can open
    /// and parse.
    pub fn new(data_path: String) -> (r: Self)
        ensures
            r.wf(),
            r.spec_data_path() == data_path@,
            forall|ident: Seq<char>| #[trigger] r.spec_chest(ident) is None,
    {
        let r = Database { data_path, chests: Vec::new(), tags: Vec::new() };
        proof {
            assert forall|ident: Seq<char>| #[trigger] r.spec_chest(ident) is None by {
                assert(find_chest(r.chests@, ident) is None);
            }
        }
        r
    }

    /// The data directory path.
    pub fn data_path(&self) -> (r: &str)
        ensures
            r@ == self.spec_data_path(),
    {
        self.data_path.as_str()
    }

    /// Finds the position of a loaded chest by identifier.
    fn find_chest_index(&self, identifier: &str) -> (r: Option<usize>)
        ensures
            match r {
                Some(i) => find_chest(self.chests@, identifier@) == Some(i as int),
                None => find_chest(self.chests@, identifier@) is None,
            },
    {
        let mut i: usize = 0;
        while i < self.chests.len()
            invariant
                i <= self.chests@.len(),
                forall|j: int|
                    0 <= j < i ==> (#[trigger] self.chests@[j]).identifier@
                        != identifier@,
            decreases self.chests@.len() - i,
        {
            if str_eq(self.chests[i].identifier.as_str(), identifier) {
                proof {
                    lemma_find_chest_char(self.chests@, identifier@);
                    match find_chest(self.chests@, identifier@) {
                        Some(f) => {
                            if f < i as int {
                                assert(self.chests@[f].identifier@ != identifier@);
                            }
                            if f > i as int {
                                assert(self.chests@[i as int].identifier@ != identifier@);
                            }
                        },
                        None => {
                            assert(self.chests@[i as int].identifier@ != identifier@);
                        },
                    }
                }
                return Some(i);
            }
            i += 1;
        }
        proof {
            lemma_find_chest_char(self.chests@, identifier@);
        }
        None
    }

    /// Finds the position of a tag entry by tag.
    fn find_tag_index(&self, tag: &str) -> (r: Option<usize>)
        ensures
            match r {
                Some(i) => find_tag(self.tags@, tag@) == Some(i as int),
                None => find_tag(self.tags@, tag@) is None,
            },
    {
        let mut i: usize = 0;
        while i < self.tags.len()
            invariant
                i <= self.tags@.len(),
                forall|j: int| 0 <= j < i ==> (#[trigger] self.tags@[j]).tag@ != tag@,
            decreases self.tags@.len() - i,
        {
            if str_eq(self.tags[i].tag.as_str(), tag) {
                proof {
                    lemma_find_tag_char(self.tags@, tag@);
                    match find_tag(self.tags@, tag@) {
                        Some(f) => {
                            if f < i as int {
                                assert(self.tags@[f].tag@ != tag@);
                            }
                            if f > i as int {
                                assert(self.tags@[i as int].tag@ != tag@);
                            }
                        },
                        None => {
                            assert(self.tags@[i as int].tag@ != tag@);
                        },
                    }
                }
                return Some(i);
            }
            i += 1;
        }
        proof {
            lemma_find_tag_char(self.tags@, tag@);
        }
        None
    }

    /// Gets a chest's indexed contents by its identifier.
    pub fn chest(&self, identifier: &str) -> (r: Option<&IndexedChestContents>)
        requires
            self.wf(),
        ensures
            match r {
                Some(c) => self.spec_chest(identifier@) == Some(*c) && c.wf(),
                None => self.spec_chest(identifier@) is None,
            },
    {
        match self.find_chest_index(identifier) {
            Some(i) => {
                proof {
                    lemma_find_chest_char(self.chests@, identifier@);
                }
                Some(&self.chests[i].contents)
            },
            None => None,
        }
    }

    /// Gets chest items by path: within the named chest, exactly the
    /// items that the level-by-level walk of the path elements selects.
    pub fn items_at_path(&self, path: &ItemPath) -> (r: Vec<&IndexedChestItem>)
        requires
            self.wf(),
        ensures
            self.spec_chest(path.identifier@) is None ==> r@.len() == 0,
            match self.spec_chest(path.identifier@) {
                Some(c) => r@.len() == crate::search::walk_matching(
                    c.items@,
                    c.root_item_ids@,
                    crate::content::path_model(path.chest_path),
                ).len() && (forall|k: int|
                    0 <= k < r@.len() ==> *(#[trigger] r@[k]) == c.items@[
                        crate::search::walk_matching(
                            c.items@,
                            c.root_item_ids@,
                            crate::content::path_model(path.chest_path),
                        )[k] as int
                    ]),
                None => r@.len() == 0,
            },
    {
        match self.find_chest_index(path.identifier.as_str()) {
            Some(i) => {
                proof {
                    lemma_find_chest_char(self.chests@, path.identifier@);
                }
                self.chests[i].contents.get(&path.chest_path)
            },
            None => Vec::new(),
        }
    }
}


/// The page items contributed by a run of item ids: the contents of
/// each page among them, concatenated in order.
pub open spec fn gathered_page_items(
    items: Seq<IndexedChestItem>,
    w: Seq<usize>,
) -> Seq<crate::content::PageItem>
    decreases w.len(),
{
    if w.len() == 0 {
        Seq::<crate::content::PageItem>::empty()
    } else {
        gathered_page_items(items, w.drop_last()) + (match items[w.last() as int].data {
            crate::indexed::IndexedChestItemData::Page(p) => p.contents@,
            _ => Seq::<crate::content::PageItem>::empty(),
        })
    }
}

/// The child item ids contributed by a run of item ids: the in-range
/// children of each non-page item, concatenated in order.
pub open spec fn gathered_child_ids(items: Seq<IndexedChestItem>, w: Seq<usize>) -> Seq<
    usize,
>
    decreases w.len(),
{
    if w.len() == 0 {
        Seq::<usize>::empty()
    } else {
        gathered_child_ids(items, w.drop_last()) + (match items[w.last() as int].data {
            crate::indexed::IndexedChestItemData::Page(_) => Seq::<usize>::empty(),
            _ => crate::search::bounded_ids(
                items,
                crate::indexed::data_content_ids(items[w.last() as int].data),
            ),
        })
    }
}

/// The base-class paths contributed by a run of item ids: the declared
/// bases of each object among them, as element runs, concatenated in
/// order.
pub open spec fn gathered_bases(items: Seq<IndexedChestItem>, w: Seq<usize>) -> Seq<
    Seq<crate::content::ChestPathElement>,
>
    decreases w.len(),
{
    if w.len() == 0 {
        Seq::<Seq<crate::content::ChestPathElement>>::empty()
    } else {
        gathered_bases(items, w.drop_last()) + (match items[w.last() as int].data {
            crate::indexed::IndexedChestItemData::Object(o) => Seq::new(
                o.info.bases@.len(),
                |j: int| o.info.bases@[j].elements@,
            ),
            _ => Seq::<Seq<crate::content::ChestPathElement>>::empty(),
        })
    }
}

/// Lexicographic order on semantic versions is a strict total order.
proof fn lemma_version_key_trichotomy(a: Seq<u32>, b: Seq<u32>)
    ensures
        version_key_lt(a, b) || version_key_lt(b, a) || a == b,
        version_key_lt(a, b) ==> !version_key_lt(b, a) && a != b,
    decreases a.len(),
{
    if a.len() == 0 && b.len() == 0 {
        assert(a =~= b);
    } else if a.len() != 0 && b.len() != 0 {
        if a[0] == b[0] {
            lemma_version_key_trichotomy(a.drop_first(), b.drop_first());
            if a.drop_first() == b.drop_first() {
                assert(forall|i: int| 1 <= i < a.len() ==> a[i] == a.drop_first()[i - 1]);
                assert(forall|i: int| 1 <= i < b.len() ==> b[i] == b.drop_first()[i - 1]);
                assert(a =~= b);
            }
        }
    }
}

/// Lexicographic order on semantic versions is transitive.
proof fn lemma_version_key_transitive(a: Seq<u32>, b: Seq<u32>, c: Seq<u32>)
    requires
        version_key_lt(a, b),
        version_key_lt(b, c),
    ensures
        version_key_lt(a, c),
    decreases a.len(),
{
    if a.len() != 0 && b.len() != 0 && c.len() != 0 {
        if a[0] == b[0] && b[0] == c[0] {
            lemma_version_key_transitive(a.drop_first(), b.drop_first(), c.drop_first());
        }
    }
}

/// The latest of a list of versions: no other version's semantic
/// version orders above it.
fn recompute_latest(versions: &Vec<VersionEntry>) -> (r: String)
    requires
        versions@.len() >= 1,
    ensures
        exists|b: int| 0 <= b < versions@.len() && r@ == (#[trigger] versions@[b]).version@,
        forall|j: int|
            0 <= j < versions@.len() ==> !version_key_lt(
                spec_semantic_version(r@),
                spec_semantic_version((#[trigger] versions@[j]).version@),
            ),
{
    let mut best: usize = 0;
    let mut best_key = semantic_version(versions[0].version.as_str());
    proof {
        lemma_version_key_trichotomy(
            best_key@,
            spec_semantic_version(versions@[0].version@),
        );
    }
    let mut j: usize = 1;
    while j < versions.len()
        invariant
            1 <= j <= versions@.len(),
            best < j,
            best_key@ == spec_semantic_version(versions@[best as int].version@),
            forall|x: int|
                0 <= x < j ==> !version_key_lt(
                    best_key@,
                    spec_semantic_version((#[trigger] versions@[x]).version@),
                ),
        decreases versions@.len() - j,
    {
        let key = semantic_version(versions[j].version.as_str());
        let mut better = false;
        if version_key_lt_exec(&best_key, &key) {
            better = true;
        } else if !version_key_lt_exec(&key, &best_key) && str_lt(
            versions[best].version.as_str(),
            versions[j].version.as_str(),
        ) {
            better = true;
        }
        if better {
            proof {
                lemma_version_key_trichotomy(best_key@, key@);
                assert forall|x: int|
                    0 <= x < j + 1 implies !version_key_lt(
                    key@,
                    spec_semantic_version((#[trigger] versions@[x]).version@),
                ) by {
                    if x < j {
                        let sx = spec_semantic_version(versions@[x].version@);
                        if version_key_lt(key@, sx) {
                            if version_key_lt(best_key@, key@) {
                                lemma_version_key_transitive(best_key@, key@, sx);
                            } else {
                                assert(best_key@ == key@);
                            }
                        }
                    } else {
                        lemma_version_key_trichotomy(
                            key@,
                            spec_semantic_version(versions@[x].version@),
                        );
                    }
                }
            }
            best = j;
            best_key = key;
        } else {
            proof {
                lemma_version_key_trichotomy(best_key@, key@);
                assert forall|x: int|
                    0 <= x < j + 1 implies !version_key_lt(
                    best_key@,
                    spec_semantic_version((#[trigger] versions@[x]).version@),
                ) by {
                }
            }
        }
        j += 1;
    }
    versions[best].version.clone()
}

/// How many `@` characters a sequence holds.
pub open spec fn count_at(s: Seq<char>) -> int
    decreases s.len(),
{
    if s.len() == 0 {
        0
    } else {
        count_at(s.drop_last()) + if s.last() == '@' {
            1int
        } else {
            0int
        }
    }
}

/// The index of the first `@` of a sequence, or a negative number.
pub open spec fn first_at(s: Seq<char>) -> int
    decreases s.len(),
{
    if s.len() == 0 {
        -1
    } else {
        let r = first_at(s.drop_last());
        if r >= 0 {
            r
        } else if s.last() == '@' {
            s.len() - 1
        } else {
            -1
        }
    }
}

proof fn lemma_first_at_bound(s: Seq<char>)
    ensures
        first_at(s) < s.len(),
        count_at(s) > 0 ==> 0 <= first_at(s),
        count_at(s) == 0 ==> first_at(s) < 0,
        count_at(s) >= 0,
    decreases s.len(),
{
    if s.len() > 0 {
        lemma_first_at_bound(s.drop_last());
    }
}

/// What parsing a tag name yields: the identifier for a bare tag's
/// latest version, the identifier for an exact `name@version`, nothing
/// for any other shape.
pub open spec fn spec_identifier_for_tag(db: Database, tag: Seq<char>) -> Option<
    Seq<char>,
> {
    if count_at(tag) == 0 {
        match db.spec_tag_latest(tag) {
            Some(latest) => db.spec_tag_version_identifier(tag, latest),
            None => None,
        }
    } else if count_at(tag) == 1 {
        db.spec_tag_version_identifier(
            tag.take(first_at(tag)),
            tag.skip(first_at(tag) + 1),
        )
    } else {
        None
    }
}



/// Finds the position of a version entry by version string.
fn find_version_index(versions: &Vec<VersionEntry>, version: &str) -> (r: Option<usize>)
    ensures
        match r {
            Some(i) => find_version(versions@, version@) == Some(i as int),
            None => find_version(versions@, version@) is None,
        },
{
    let mut i: usize = 0;
    while i < versions.len()
        invariant
            i <= versions@.len(),
            forall|j: int|
                0 <= j < i ==> (#[trigger] versions@[j]).version@ != version@,
        decreases versions@.len() - i,
    {
        if str_eq(versions[i].version.as_str(), version) {
            proof {
                lemma_find_version_char(versions@, version@);
                match find_version(versions@, version@) {
                    Some(f) => {
                        if f < i as int {
                            assert(versions@[f].version@ != version@);
                        }
                        if f > i as int {
                            assert(versions@[i as int].version@ != version@);
                        }
                    },
                    None => {
                        assert(versions@[i as int].version@ != version@);
                    },
                }
            }
            return Some(i);
        }
        i += 1;
    }
    proof {
        lemma_find_version_char(versions@, version@);
    }
    None
}

/// Replacing a version entry in place, keeping its version string,
/// leaves lookups of other versions unchanged.
proof fn lemma_find_version_update(
    vs: Seq<VersionEntry>,
    vi: int,
    rep: VersionEntry,
    v: Seq<char>,
)
    requires
        0 <= vi < vs.len(),
        rep.version@ == vs[vi].version@,
        v != rep.version@,
    ensures
        find_version(vs.update(vi, rep), v) == find_version(vs, v),
    decreases vs.len(),
{
    let vs2 = vs.update(vi, rep);
    assert(forall|i: int| 1 <= i < vs.len() ==> vs[i] == #[trigger] vs.drop_first()[i - 1]);
    if vi == 0 {
        assert(vs2[0] == rep);
        assert(vs2.drop_first() =~= vs.drop_first());
    } else {
        assert(vs2[0] == vs[0]);
        assert(vs2.drop_first() =~= vs.drop_first().update(vi - 1, rep));
        lemma_find_version_update(vs.drop_first(), vi - 1, rep, v);
    }
}

/// Appending a version entry leaves lookups of other versions
/// unchanged.
proof fn lemma_find_version_push(vs: Seq<VersionEntry>, rep: VersionEntry, v: Seq<char>)
    requires
        v != rep.version@,
    ensures
        find_version(vs.push(rep), v) == find_version(vs, v),
    decreases vs.len(),
{
    let vs2 = vs.push(rep);
    assert(forall|i: int| 1 <= i < vs.len() ==> vs[i] == #[trigger] vs.drop_first()[i - 1]);
    if vs.len() == 0 {
        assert(vs2[0] == rep);
        assert(vs2.drop_first() =~= Seq::<VersionEntry>::empty());
    } else {
        assert(vs2[0] == vs[0]);
        assert(vs2.drop_first() =~= vs.drop_first().push(rep));
        lemma_find_version_push(vs.drop_first(), rep, v);
    }
}

impl Database {
    /// Installs a chest into the database: the caller has already copied
    /// its file into the data directory, reopened it from there, and
    /// decoded its manifest. The chest is indexed and becomes available
    /// under its identifier, and the tag index records its version and
    /// recomputes the family's latest version.
    #[verifier::rlimit(100)]
    pub fn install(&mut self, chest: Chest, contents: ChestContents)
        requires
            old(self).wf(),
            chest.wf(),
        ensures
            final(self).wf(),
            final(self).spec_data_path() == old(self).spec_data_path(),
            final(self).spec_tag_version_identifier(
                contents.info.category_tag@,
                contents.info.version@,
            ) == Some(contents.info.identifier@),
            (match final(self).spec_chest(contents.info.identifier@) {
                Some(c) => c.wf() && c.info == contents.info && c.root_item_ids@.len()
                    == contents.items@.len() && (forall|k: int|
                    0 <= k < c.root_item_ids@.len() ==> crate::indexed::data_matches(
                        contents.items@[k],
                        (#[trigger] c.items@[c.root_item_ids@[k] as int]).data,
                    )),
                None => false,
            }),
            final(self).spec_chest_store(contents.info.identifier@) == Some(chest),
            (match (
                final(self).spec_tag_latest(contents.info.category_tag@),
                final(self).spec_tag_versions(contents.info.category_tag@),
            ) {
                (Some(latest), Some(vs)) => (exists|b: int|
                    0 <= b < vs.len() && (#[trigger] vs[b]).0 == latest) && (forall|
                    j: int,
                |
                    0 <= j < vs.len() ==> !version_key_lt(
                        spec_semantic_version(latest),
                        spec_semantic_version((#[trigger] vs[j]).0),
                    )),
                _ => false,
            }),
            forall|v: Seq<char>|
                v != contents.info.version@
                    ==> #[trigger] final(self).spec_tag_version_identifier(
                    contents.info.category_tag@,
                    v,
                ) == old(self).spec_tag_version_identifier(
                    contents.info.category_tag@,
                    v,
                ),
    {
        let identifier = contents.info.identifier.clone();
        let version = contents.info.version.clone();
        let tag = contents.info.category_tag.clone();
        let ghost ident_v = identifier@;
        let ghost version_v = version@;
        let ghost tag_v = tag@;
        // Update the tag index: take the family's entry out, record the
        // version, recompute the latest, and put the entry back in
        // front.
        let ghost mut old_ti: Option<int> = None;
        let mut entry = match self.find_tag_index(tag.as_str()) {
            Some(ti) => {
                proof {
                    lemma_find_tag_char(self.tags@, tag_v);
                    old_ti = Some(ti as int);
                }
                self.tags.remove(ti)
            },
            None => TagEntry {
                tag: tag.clone(),
                latest_version: String::new(),
                versions: Vec::new(),
            },
        };
        let ghost entry0 = entry;
        proof {
            assert(entry.tag@ == tag_v);
            match old_ti {
                Some(ti) => {
                    assert(find_tag(old(self).tags@, tag_v) == Some(ti));
                    assert(old(self).tags@[ti] == entry0);
                },
                None => {
                    assert(find_tag(old(self).tags@, tag_v) is None);
                    assert(entry0.versions@.len() == 0);
                },
            }
        }
        let replacement = VersionEntry {
            version: version.clone(),
            identifier: identifier.clone(),
        };
        let ghost rep = replacement;
        let ghost vs0 = entry.versions@;
        let ghost mut replaced_at: Option<int> = None;
        match find_version_index(&entry.versions, version.as_str()) {
            Some(vi) => {
                proof {
                    lemma_find_version_char(vs0, version_v);
                    replaced_at = Some(vi as int);
                }
                let _ = entry.versions.remove(vi);
                entry.versions.insert(vi, replacement);
                proof {
                    vs0.remove_ensures(vi as int);
                    vs0.remove(vi as int).insert_ensures(vi as int, rep);
                    assert(entry.versions@ =~= vs0.update(vi as int, rep));
                    lemma_find_version_char(entry.versions@, version_v);
                    match find_version(entry.versions@, version_v) {
                        Some(f) => {
                            if f < vi as int {
                                assert(entry.versions@[f] == vs0[f]);
                                assert(vs0[f].version@ != version_v);
                            }
                            assert(f == vi as int);
                            assert(entry.versions@[f].identifier@ == ident_v);
                        },
                        None => {
                            assert(entry.versions@[vi as int].version@ == version_v);
                            assert(false);
                        },
                    }
                }
            },
            None => {
                proof {
                    lemma_find_version_char(vs0, version_v);
                }
                entry.versions.push(replacement);
                proof {
                    assert(entry.versions@ == vs0.push(rep));
                    assert(forall|j: int|
                        0 <= j < vs0.len() ==> #[trigger] entry.versions@[j] == vs0[j]);
                    lemma_find_version_char(entry.versions@, version_v);
                    match find_version(entry.versions@, version_v) {
                        Some(f) => {
                            if f < vs0.len() {
                                assert(vs0[f].version@ != version_v);
                            }
                            assert(f == vs0.len());
                            assert(entry.versions@[f].identifier@ == ident_v);
                        },
                        None => {
                            assert(entry.versions@[vs0.len() as int].version@
                                == version_v);
                            assert(false);
                        },
                    }
                }
            },
        }
        proof {
            match replaced_at {
                Some(vi) => {
                    assert(entry.versions@ == vs0.update(vi, rep));
                },
                None => {
                    assert(entry.versions@ == vs0.push(rep));
                },
            }
        }
        let ghost versions_final = entry.versions@;
        entry.latest_version = recompute_latest(&entry.versions);
        let ghost latest_v = entry.latest_version@;
        let ghost entry_final = entry;
        let ghost tags0 = self.tags@;
        self.tags.insert(0, entry);
        proof {
            tags0.insert_ensures(0, entry_final);
            assert(self.tags@[0] == entry_final);
            assert(find_tag(self.tags@, tag_v) == Some(0int));
            assert(entry_final.tag@ == tag_v);
            assert forall|x: int| 0 <= x < tags0.len() implies (#[trigger] tags0[
                x
            ]).tag@ != tag_v by {
                match old_ti {
                    Some(ti) => {
                        old(self).tags@.remove_ensures(ti);
                        assert(old(self).tags@[ti].tag@ == tag_v);
                        if x < ti {
                            assert(tags0[x] == old(self).tags@[x]);
                        } else {
                            assert(tags0[x] == old(self).tags@[x + 1]);
                        }
                    },
                    None => {
                        lemma_find_tag_char(old(self).tags@, tag_v);
                        assert(tags0 == old(self).tags@);
                    },
                }
            }
            assert forall|x: int, y: int|
                0 <= x < y < tags0.len() implies (#[trigger] tags0[x]).tag@ != (
            #[trigger] tags0[y]).tag@ by {
                match old_ti {
                    Some(ti) => {
                        old(self).tags@.remove_ensures(ti);
                        if x < ti {
                            assert(tags0[x] == old(self).tags@[x]);
                        } else {
                            assert(tags0[x] == old(self).tags@[x + 1]);
                        }
                        if y < ti {
                            assert(tags0[y] == old(self).tags@[y]);
                        } else {
                            assert(tags0[y] == old(self).tags@[y + 1]);
                        }
                    },
                    None => {
                        assert(tags0 == old(self).tags@);
                    },
                }
            }
            assert forall|x: int, y: int|
                0 <= x < y < self.tags@.len() implies (#[trigger] self.tags@[x]).tag@
                != (#[trigger] self.tags@[y]).tag@ by {
                assert(self.tags@[y] == tags0[y - 1]);
                if x == 0 {
                    assert(self.tags@[x] == entry_final);
                } else {
                    assert(self.tags@[x] == tags0[x - 1]);
                }
            }
            assert(entry_final.versions@ == versions_final);
            // the recomputed latest orders at least as high as every
            // recorded version
            assert(self.spec_tag_latest(tag_v) == Some(latest_v));
            match self.spec_tag_versions(tag_v) {
                Some(vsp) => {
                    assert(vsp.len() == versions_final.len());
                    assert(forall|j: int|
                        0 <= j < vsp.len() ==> (#[trigger] vsp[j]) == (
                            versions_final[j].version@,
                            versions_final[j].identifier@,
                        ));
                    let b = choose|b: int|
                        0 <= b < versions_final.len() && latest_v == (
                        #[trigger] versions_final[b]).version@;
                    assert(vsp[b].0 == latest_v);
                    assert forall|j: int| 0 <= j < vsp.len() implies !version_key_lt(
                        spec_semantic_version(latest_v),
                        spec_semantic_version((#[trigger] vsp[j]).0),
                    ) by {
                        assert(vsp[j].0 == versions_final[j].version@);
                        assert(!version_key_lt(
                            spec_semantic_version(latest_v),
                            spec_semantic_version(versions_final[j].version@),
                        ));
                    }
                },
                None => {
                    assert(false);
                },
            }
        }
        // Update the loaded chests.
        let indexed = contents.to_indexed();
        let new_chest = LoadedChest {
            identifier: identifier.clone(),
            chest,
            contents: indexed,
        };
        let ghost nc = new_chest;
        match self.find_chest_index(identifier.as_str()) {
            Some(ci) => {
                proof {
                    lemma_find_chest_char(self.chests@, ident_v);
                }
                let ghost cs0 = self.chests@;
                let _ = self.chests.remove(ci);
                self.chests.insert(ci, new_chest);
                proof {
                    cs0.remove_ensures(ci as int);
                    cs0.remove(ci as int).insert_ensures(ci as int, nc);
                    assert(self.chests@ =~= cs0.update(ci as int, nc));
                    lemma_find_chest_char(self.chests@, ident_v);
                    match find_chest(self.chests@, ident_v) {
                        Some(f) => {
                            if f < ci as int {
                                assert(self.chests@[f] == cs0[f]);
                                assert(cs0[f].identifier@ != ident_v);
                            }
                            assert(f == ci as int);
                        },
                        None => {
                            assert(self.chests@[ci as int].identifier@ == ident_v);
                            assert(false);
                        },
                    }
                    assert forall|i: int|
                        0 <= i < self.chests@.len() implies (#[trigger] self.chests@[
                    i]).chest.wf() && self.chests@[i].contents.wf() by {
                        if i != ci as int {
                            assert(self.chests@[i] == cs0[i]);
                        }
                    }
                }
            },
            None => {
                proof {
                    lemma_find_chest_char(self.chests@, ident_v);
                }
                let ghost cs0 = self.chests@;
                self.chests.push(new_chest);
                proof {
                    assert(self.chests@ == cs0.push(nc));
                    assert(forall|j: int|
                        0 <= j < cs0.len() ==> #[trigger] self.chests@[j] == cs0[j]);
                    lemma_find_chest_char(self.chests@, ident_v);
                    match find_chest(self.chests@, ident_v) {
                        Some(f) => {
                            if f < cs0.len() {
                                assert(cs0[f].identifier@ != ident_v);
                            }
                            assert(f == cs0.len());
                        },
                        None => {
                            assert(self.chests@[cs0.len() as int].identifier@
                                == ident_v);
                            assert(false);
                        },
                    }
                    assert forall|i: int|
                        0 <= i < self.chests@.len() implies (#[trigger] self.chests@[
                    i]).chest.wf() && self.chests@[i].contents.wf() by {
                        if i < cs0.len() {
                            assert(self.chests@[i] == cs0[i]);
                        }
                    }
                }
            },
        }
        proof {
            // versions other than the installed one keep their
            // identifiers; the tag index is untouched past this point
            assert(find_tag(self.tags@, tag_v) == Some(0int));
            assert(self.tags@[0] == entry_final);
            assert forall|v: Seq<char>|
                v != version_v implies #[trigger] self.spec_tag_version_identifier(
                tag_v,
                v,
            ) == old(self).spec_tag_version_identifier(tag_v, v) by {
                match replaced_at {
                    Some(vi) => {
                        lemma_find_version_update(vs0, vi, rep, v);
                    },
                    None => {
                        lemma_find_version_push(vs0, rep, v);
                    },
                }
                assert(find_version(versions_final, v) == find_version(vs0, v));
                match find_version(vs0, v) {
                    Some(f) => {
                        assert(versions_final[f] == vs0[f]) by {
                            lemma_find_version_char(vs0, v);
                            match replaced_at {
                                Some(vi) => {
                                    assert(vs0[vi].version@ == version_v);
                                    assert(f != vi);
                                },
                                None => {},
                            }
                        }
                        assert(self.spec_tag_version_identifier(tag_v, v) == Some(
                            vs0[f].identifier@,
                        ));
                    },
                    None => {
                        assert(self.spec_tag_version_identifier(tag_v, v) is None);
                    },
                }
                match old_ti {
                    Some(ti) => {
                        assert(old(self).tags@[ti].versions@ == vs0);
                        match find_version(vs0, v) {
                            Some(f) => {
                                assert(old(self).spec_tag_version_identifier(tag_v, v)
                                    == Some(vs0[f].identifier@));
                            },
                            None => {
                                assert(old(self).spec_tag_version_identifier(
                                    tag_v,
                                    v,
                                ) is None);
                            },
                        }
                    },
                    None => {
                        assert(find_version(vs0, v) is None);
                        assert(old(self).spec_tag_version_identifier(tag_v, v) is None);
                    },
                }
            }
        }
    }

    /// Gets the user visible tag name for a chest identifier: the bare
    /// category tag when the chest carries the latest version of its
    /// family, `tag@version` otherwise.
    pub fn tag_for_identifier(&self, identifier: &str) -> (r: Option<String>)
        requires
            self.wf(),
        ensures
            self.spec_chest(identifier@) is None <==> r is None,
            r matches Some(name) ==> (match self.spec_chest(identifier@) {
                Some(c) => {
                    let tag = c.info.category_tag@;
                    let ver = c.info.version@;
                    if self.spec_tag_latest(tag) == Some(ver) {
                        name@ == tag
                    } else {
                        name@ == tag + seq!['@'] + ver
                    }
                },
                None => false,
            }),
    {
        let ci = match self.find_chest_index(identifier) {
            Some(ci) => ci,
            None => {
                return None;
            },
        };
        proof {
            lemma_find_chest_char(self.chests@, identifier@);
        }
        let tag = &self.chests[ci].contents.info.category_tag;
        let version = &self.chests[ci].contents.info.version;
        let is_latest = match self.find_tag_index(tag.as_str()) {
            Some(ti) => {
                proof {
                    lemma_find_tag_char(self.tags@, tag@);
                }
                str_eq(self.tags[ti].latest_version.as_str(), version.as_str())
            },
            None => false,
        };
        if is_latest {
            Some(tag.clone())
        } else {
            proof {
                reveal_strlit("@");
            }
            let mut name = tag.clone();
            name.append("@");
            name.append(version.as_str());
            proof {
                assert("@"@ =~= seq!['@']);
            }
            Some(name)
        }
    }

    /// Looks up the chest identifier for a tag name: a bare name maps
    /// to the identifier of its latest version, `name@version` to the
    /// identifier of that exact version, any other shape to nothing.
    pub fn identifier_for_tag(&self, tag: &str) -> (r: Option<String>)
        requires
            self.wf(),
        ensures
            match r {
                Some(id) => spec_identifier_for_tag(*self, tag@) == Some(id@),
                None => spec_identifier_for_tag(*self, tag@) is None,
            },
    {
        let n = tag.unicode_len();
        let mut ats: usize = 0;
        let mut first: usize = n;
        let mut i: usize = 0;
        while i < n
            invariant
                i <= n,
                n == tag@.len(),
                ats <= i,
                ats as int == count_at(tag@.take(i as int)),
                first == n || (first < i && first as int == first_at(tag@.take(i as int))),
                first == n ==> first_at(tag@.take(i as int)) < 0,
            decreases n - i,
        {
            let c = tag.get_char(i);
            proof {
                assert(tag@.take(i + 1).drop_last() =~= tag@.take(i as int));
                assert(tag@.take(i + 1).last() == tag@[i as int]);
                lemma_first_at_bound(tag@.take(i as int));
            }
            if c == '@' {
                if ats == 0 {
                    first = i;
                }
                ats = ats + 1;
            }
            i += 1;
        }
        proof {
            assert(tag@.take(n as int) =~= tag@);
            lemma_first_at_bound(tag@);
        }
        if ats == 0 {
            let ti = match self.find_tag_index(tag) {
                Some(ti) => ti,
                None => {
                    return None;
                },
            };
            proof {
                lemma_find_tag_char(self.tags@, tag@);
            }
            let latest = self.tags[ti].latest_version.clone();
            self.lookup_version_identifier(ti, latest.as_str())
        } else if ats == 1 {
            let name = tag.substring_char(0, first);
            let version = tag.substring_char(first + 1, n);
            proof {
                assert(name@ =~= tag@.take(first_at(tag@)));
                assert(version@ =~= tag@.skip(first_at(tag@) + 1));
            }
            let ti = match self.find_tag_index(name) {
                Some(ti) => ti,
                None => {
                    return None;
                },
            };
            proof {
                lemma_find_tag_char(self.tags@, name@);
            }
            self.lookup_version_identifier(ti, version)
        } else {
            None
        }
    }

    /// Looks up the identifier stored for a version within a tag entry.
    fn lookup_version_identifier(&self, ti: usize, version: &str) -> (r: Option<String>)
        requires
            ti < self.tags@.len(),
        ensures
            match r {
                Some(id) => (match find_version(self.tags@[ti as int].versions@, version@) {
                    Some(j) => self.tags@[ti as int].versions@[j].identifier@ == id@,
                    None => false,
                }),
                None => find_version(self.tags@[ti as int].versions@, version@) is None,
            },
    {
        let entry = &self.tags[ti];
        let mut j: usize = 0;
        while j < entry.versions.len()
            invariant
                j <= entry.versions@.len(),
                entry == &self.tags@[ti as int],
                forall|x: int|
                    0 <= x < j ==> (#[trigger] entry.versions@[x]).version@ != version@,
            decreases entry.versions@.len() - j,
        {
            if str_eq(entry.versions[j].version.as_str(), version) {
                proof {
                    lemma_find_version_char(entry.versions@, version@);
                    match find_version(entry.versions@, version@) {
                        Some(f) => {
                            if f < j as int {
                                assert(entry.versions@[f].version@ != version@);
                            }
                            if f > j as int {
                                assert(entry.versions@[j as int].version@ != version@);
                            }
                        },
                        None => {
                            assert(entry.versions@[j as int].version@ != version@);
                        },
                    }
                }
                return Some(entry.versions[j].identifier.clone());
            }
            j += 1;
        }
        proof {
            lemma_find_version_char(entry.versions@, version@);
        }
        None
    }
}


/// The model of an optional hint item path.
pub open spec fn item_hint_model(path_hint: Option<&ItemPath>) -> Option<
    Seq<(crate::content::ChestPathElementType, Seq<char>)>,
> {
    match path_hint {
        Some(h) => Some(path_model(h.chest_path)),
        None => None,
    }
}

/// The order on chest paths used across the database: shorter paths
/// first, then element-wise.
pub open spec fn db_path_lt(
    p: Seq<(crate::content::ChestPathElementType, Seq<char>)>,
    q: Seq<(crate::content::ChestPathElementType, Seq<char>)>,
) -> bool {
    p.len() < q.len() || (p.len() == q.len() && elems_lex_lt(p, q))
}

/// The order on item paths: by chest path, then by identifier.
pub open spec fn db_item_lt(a: ItemPath, b: ItemPath) -> bool {
    db_path_lt(path_model(a.chest_path), path_model(b.chest_path)) || (path_model(
        a.chest_path,
    ) == path_model(b.chest_path) && lex_lt(a.identifier@, b.identifier@))
}

/// The strict ranking order on database search results.
pub open spec fn db_result_lt(a: SearchResult, b: SearchResult) -> bool {
    a.score > b.score || (a.score == b.score && db_item_lt(a.path, b.path))
}

/// Two database results that the ranking cannot tell apart.
pub open spec fn db_result_eq(a: SearchResult, b: SearchResult) -> bool {
    a.score == b.score && path_model(a.path.chest_path) == path_model(b.path.chest_path)
        && a.path.identifier@ == b.path.identifier@
}

/// The ranking order on database search results.
pub open spec fn db_result_le(a: SearchResult, b: SearchResult) -> bool {
    db_result_lt(a, b) || db_result_eq(a, b)
}

/// A database search result is sound for the database and the query
/// segments: its identifier names an installed chest, its path is the
/// full path of an item of that chest, and that item's name
/// fuzzy-matches the final segment with a score that contributes to the
/// result's score.
pub open spec fn db_search_ok(db: Database, segs: Seq<Seq<char>>, r: SearchResult) -> bool {
    &&& r.score >= MIN_SEARCH_SCORE
    &&& path_model(r.path.chest_path).len() >= 1
    &&& segs.len() >= 1
    &&& (match db.spec_chest(r.path.identifier@) {
        Some(c) => exists|id: int|
            0 <= id < c.items@.len() && path_model(r.path.chest_path)
                == #[trigger] crate::search::spec_item_path(c.items@, id),
        None => false,
    })
    &&& exists|s: usize|
        fuzzy_score(path_model(r.path.chest_path).last().1, segs.last()) == Some(s)
            && MIN_SEARCH_SCORE <= s <= r.score
}

/// The database ranking order is total.
proof fn lemma_db_result_le_total(a: SearchResult, b: SearchResult)
    ensures
        db_result_le(a, b) || db_result_le(b, a),
{
    let p = path_model(a.path.chest_path);
    let q = path_model(b.path.chest_path);
    if a.score == b.score {
        if p.len() == q.len() {
            crate::search::lemma_elems_lex_lt_trichotomy(p, q);
            if !elems_lex_lt(p, q) && !elems_lex_lt(q, p) {
                lemma_lex_lt_trichotomy(a.path.identifier@, b.path.identifier@);
            }
        }
    }
}

/// The database ranking order is transitive.
proof fn lemma_db_result_le_transitive(a: SearchResult, b: SearchResult, c: SearchResult)
    requires
        db_result_le(a, b),
        db_result_le(b, c),
    ensures
        db_result_le(a, c),
{
    let p = path_model(a.path.chest_path);
    let q = path_model(b.path.chest_path);
    let w = path_model(c.path.chest_path);
    if a.score == b.score && b.score == c.score {
        if db_item_lt(a.path, b.path) && db_item_lt(b.path, c.path) {
            if p.len() == q.len() && q.len() == w.len() {
                if elems_lex_lt(p, q) && elems_lex_lt(q, w) {
                    crate::search::lemma_elems_lex_lt_transitive(p, q, w);
                } else if p == q && q == w {
                    lemma_lex_lt_transitive(
                        a.path.identifier@,
                        b.path.identifier@,
                        c.path.identifier@,
                    );
                }
            }
        }
    }
}

/// The database ranking order, executably.
fn db_result_le_exec(a: &SearchResult, b: &SearchResult) -> (r: bool)
    ensures
        r == db_result_le(*a, *b),
{
    let ghost p = path_model(a.path.chest_path);
    let ghost q = path_model(b.path.chest_path);
    proof {
        assert(p =~= crate::search::elems_models(a.path.chest_path.elements@));
        assert(q =~= crate::search::elems_models(b.path.chest_path.elements@));
        assert(crate::search::elems_models(a.path.chest_path.elements@).subrange(
            0,
            a.path.chest_path.elements@.len() as int,
        ) =~= p);
        assert(crate::search::elems_models(b.path.chest_path.elements@).subrange(
            0,
            b.path.chest_path.elements@.len() as int,
        ) =~= q);
    }
    if a.score > b.score {
        return true;
    }
    if a.score < b.score {
        return false;
    }
    let la = a.path.chest_path.elements.len();
    let lb = b.path.chest_path.elements.len();
    if la < lb {
        return true;
    }
    if la > lb {
        return false;
    }
    if crate::search::elements_lex_lt_from(
        &a.path.chest_path.elements,
        &b.path.chest_path.elements,
        0,
        la,
        lb,
    ) {
        return true;
    }
    if !crate::search::elements_eq_from(
        &a.path.chest_path.elements,
        &b.path.chest_path.elements,
        0,
        la,
        lb,
    ) {
        return false;
    }
    if str_lt(a.path.identifier.as_str(), b.path.identifier.as_str()) {
        return true;
    }
    str_eq(a.path.identifier.as_str(), b.path.identifier.as_str())
}

/// Whether the database ranking cannot tell two results apart.
fn db_result_eq_exec(a: &SearchResult, b: &SearchResult) -> (r: bool)
    ensures
        r == db_result_eq(*a, *b),
{
    let ghost p = path_model(a.path.chest_path);
    let ghost q = path_model(b.path.chest_path);
    proof {
        assert(p =~= crate::search::elems_models(a.path.chest_path.elements@));
        assert(q =~= crate::search::elems_models(b.path.chest_path.elements@));
        assert(crate::search::elems_models(a.path.chest_path.elements@).subrange(
            0,
            a.path.chest_path.elements@.len() as int,
        ) =~= p);
        assert(crate::search::elems_models(b.path.chest_path.elements@).subrange(
            0,
            b.path.chest_path.elements@.len() as int,
        ) =~= q);
    }
    if a.score != b.score {
        return false;
    }
    if !str_eq(a.path.identifier.as_str(), b.path.identifier.as_str()) {
        return false;
    }
    let la = a.path.chest_path.elements.len();
    let lb = b.path.chest_path.elements.len();
    crate::search::elements_eq_from(
        &a.path.chest_path.elements,
        &b.path.chest_path.elements,
        0,
        la,
        lb,
    )
}

/// A tag's recorded version list and its per-version identifier lookup
/// agree: every listed version resolves to an identifier, and every
/// version that resolves is listed.
pub proof fn lemma_tag_versions_extent(db: Database, tag: Seq<char>)
    ensures
        match db.spec_tag_versions(tag) {
            Some(vs) => (forall|j: int|
                0 <= j < vs.len() ==> db.spec_tag_version_identifier(
                    tag,
                    (#[trigger] vs[j]).0,
                ) is Some) && (forall|v: Seq<char>|
                #[trigger] db.spec_tag_version_identifier(tag, v) is Some ==> (exists|
                    j: int,
                |
                    0 <= j < vs.len() && (#[trigger] vs[j]).0 == v)),
            None => forall|v: Seq<char>|
                #[trigger] db.spec_tag_version_identifier(tag, v) is None,
        },
{
    match find_tag(db.tags@, tag) {
        Some(i) => {
            let versions = db.tags@[i].versions@;
            let vs = db.spec_tag_versions(tag)->Some_0;
            assert(vs.len() == versions.len());
            assert forall|j: int|
                0 <= j < vs.len() implies db.spec_tag_version_identifier(
                tag,
                (#[trigger] vs[j]).0,
            ) is Some by {
                assert(vs[j] == (versions[j].version@, versions[j].identifier@));
                lemma_find_version_char(versions, versions[j].version@);
                match find_version(versions, versions[j].version@) {
                    Some(f) => {
                        assert(db.spec_tag_version_identifier(tag, versions[j].version@)
                            == Some(versions[f].identifier@));
                    },
                    None => {
                        assert(versions[j].version@ == versions[j].version@);
                        assert(false);
                    },
                }
            }
            assert forall|v: Seq<char>|
                #[trigger] db.spec_tag_version_identifier(tag, v) is Some implies (
            exists|j: int| 0 <= j < vs.len() && (#[trigger] vs[j]).0 == v) by {
                lemma_find_version_char(versions, v);
                let f = find_version(versions, v)->Some_0;
                assert(versions[f].version@ == v);
                assert(vs[f].0 == v);
            }
        },
        None => {},
    }
}

/// Results with pairwise distinct rankings that all appear, up to
/// ranking equality, in one run cannot outnumber it.
proof fn lemma_equiv_witnesses_count(a: Seq<SearchResult>, b: Seq<SearchResult>)
    requires
        forall|i: int, j: int|
            0 <= i < j < a.len() ==> !db_result_eq(#[trigger] a[i], #[trigger] a[j]),
        forall|k: int|
            0 <= k < a.len() ==> db_result_equiv_present(
                b,
                (#[trigger] a[k]).score,
                a[k].path.identifier@,
                path_model(a[k].path.chest_path),
            ),
    ensures
        a.len() <= b.len(),
{
    let dom = vstd::set_lib::set_int_range(0, a.len() as int);
    vstd::set_lib::lemma_int_range(0, a.len() as int);
    let f = |i: int|
        choose|k: int|
            0 <= k < b.len() && (#[trigger] b[k]).score == a[i].score
                && b[k].path.identifier@ == a[i].path.identifier@ && path_model(
                b[k].path.chest_path,
            ) == path_model(a[i].path.chest_path);
    assert forall|i: int| dom.contains(i) implies 0 <= #[trigger] f(i) < b.len()
        && b[f(i)].score == a[i].score && b[f(i)].path.identifier@
        == a[i].path.identifier@ && path_model(b[f(i)].path.chest_path) == path_model(
        a[i].path.chest_path,
    ) by {
        assert(db_result_equiv_present(
            b,
            a[i].score,
            a[i].path.identifier@,
            path_model(a[i].path.chest_path),
        ));
    }
    assert(vstd::relations::injective_on(f, dom)) by {
        assert forall|x1: int, x2: int|
            dom.contains(x1) && dom.contains(x2) && #[trigger] f(x1) == #[trigger] f(
                x2,
            ) implies x1 == x2 by {
            if x1 != x2 {
                assert(b[f(x1)].score == a[x1].score);
                assert(b[f(x2)].score == a[x2].score);
                assert(db_result_eq(a[x1], a[x2]));
                if x1 < x2 {
                    assert(!db_result_eq(a[x1], a[x2]));
                } else {
                    assert(!db_result_eq(a[x2], a[x1]));
                    assert(db_result_eq(a[x2], a[x1]));
                }
                assert(false);
            }
        }
    }
    let img = dom.map(f);
    vstd::set_lib::lemma_map_size(dom, img, f);
    vstd::set_lib::lemma_int_range(0, b.len() as int);
    assert forall|y: int| img.contains(y) implies vstd::set_lib::set_int_range(
        0,
        b.len() as int,
    ).contains(y) by {
        let i = choose|i: int| dom.contains(i) && #[trigger] f(i) == y;
        assert(0 <= f(i) < b.len());
    }
    vstd::set_lib::lemma_len_subset(img, vstd::set_lib::set_int_range(0, b.len() as int));
}

/// Whether a database result run holds the given result.
pub open spec fn db_result_present(rs: Seq<SearchResult>, x: SearchResult) -> bool {
    exists|k: int| 0 <= k < rs.len() && #[trigger] rs[k] == x
}

/// Whether a database result run holds a result with the given score,
/// identifier and path.
pub open spec fn db_result_equiv_present(
    rs: Seq<SearchResult>,
    score: usize,
    ident: Seq<char>,
    pm: Seq<(crate::content::ChestPathElementType, Seq<char>)>,
) -> bool {
    exists|k: int|
        0 <= k < rs.len() && (#[trigger] rs[k]).score == score && rs[k].path.identifier@
            == ident && path_model(rs[k].path.chest_path) == pm
}

/// Sorts database search results by the ranking order.
fn db_sort_results(
    input: Vec<SearchResult>,
    Ghost(p): Ghost<spec_fn(SearchResult) -> bool>,
) -> (r: Vec<SearchResult>)
    requires
        forall|k: int| 0 <= k < input@.len() ==> p(#[trigger] input@[k]),
    ensures
        r@.len() == input@.len(),
        forall|i: int, j: int|
            0 <= i < j < r@.len() ==> db_result_le(#[trigger] r@[i], #[trigger] r@[j]),
        forall|k: int| 0 <= k < r@.len() ==> p(#[trigger] r@[k]),
        forall|j: int|
            #![trigger input@[j]]
            0 <= j < input@.len() ==> db_result_present(r@, input@[j]),
{
    let ghost input0 = input@;
    let mut rest = input;
    let mut out: Vec<SearchResult> = Vec::new();
    while rest.len() > 0
        invariant
            forall|k: int| 0 <= k < rest@.len() ==> p(#[trigger] rest@[k]),
            forall|k: int| 0 <= k < out@.len() ==> p(#[trigger] out@[k]),
            forall|i: int, j: int|
                0 <= i < j < out@.len() ==> db_result_le(
                    #[trigger] out@[i],
                    #[trigger] out@[j],
                ),
            out@.len() + rest@.len() == input0.len(),
            rest@.len() <= input0.len(),
            rest@ == input0.skip(input0.len() - rest@.len()),
            forall|j: int|
                #![trigger input0[j]]
                0 <= j < input0.len() - rest@.len() ==> db_result_present(
                    out@,
                    input0[j],
                ),
        decreases rest@.len(),
    {
        let ghost rest0 = rest@;
        let ghost kpos = input0.len() - rest0.len();
        let x = rest.remove(0);
        proof {
            assert(x == rest0[0]);
            assert(rest0[0] == input0.skip(kpos)[0]);
            assert(x == input0[kpos]);
            assert(forall|k: int| 0 <= k < rest@.len() ==> rest@[k] == rest0[k + 1]);
            assert(rest@ =~= input0.skip(input0.len() - rest@.len()));
        }
        let mut p_idx: usize = 0;
        while p_idx < out.len() && db_result_le_exec(&out[p_idx], &x)
            invariant
                p_idx <= out@.len(),
                forall|i: int, j: int|
                    0 <= i < j < out@.len() ==> db_result_le(
                        #[trigger] out@[i],
                        #[trigger] out@[j],
                    ),
                forall|j: int| 0 <= j < p_idx ==> db_result_le(#[trigger] out@[j], x),
            decreases out@.len() - p_idx,
        {
            p_idx += 1;
        }
        proof {
            if p_idx < out@.len() {
                lemma_db_result_le_total(out@[p_idx as int], x);
                assert(db_result_le(x, out@[p_idx as int]));
                assert forall|j: int| p_idx <= j < out@.len() implies db_result_le(
                    x,
                    #[trigger] out@[j],
                ) by {
                    if j > p_idx {
                        lemma_db_result_le_transitive(x, out@[p_idx as int], out@[j]);
                    }
                }
            }
        }
        let ghost out0 = out@;
        out.insert(p_idx, x);
        proof {
            out0.insert_ensures(p_idx as int, x);
            assert(forall|k: int| 0 <= k < p_idx ==> #[trigger] out@[k] == out0[k]);
            assert(forall|k: int|
                p_idx < k < out@.len() ==> #[trigger] out@[k] == out0[k - 1]);
            assert(out@[p_idx as int] == x);
            assert forall|i: int, j: int|
                0 <= i < j < out@.len() implies db_result_le(
                #[trigger] out@[i],
                #[trigger] out@[j],
            ) by {
                let pi = p_idx as int;
                if i < pi && j < pi {
                } else if i < pi && j == pi {
                } else if i < pi && j > pi {
                } else if i == pi {
                } else {
                }
            }
            assert forall|k: int| 0 <= k < out@.len() implies p(#[trigger] out@[k]) by {
                let pi = p_idx as int;
                if k < pi {
                    assert(out@[k] == out0[k]);
                } else if k == pi {
                } else {
                    assert(out@[k] == out0[k - 1]);
                }
            }
            assert forall|j: int|
                #![trigger input0[j]]
                0 <= j < kpos + 1 implies db_result_present(out@, input0[j]) by {
                if j == kpos {
                    assert(out@[p_idx as int] == input0[j]);
                } else {
                    let k0 = choose|k0: int|
                        0 <= k0 < out0.len() && #[trigger] out0[k0] == input0[j];
                    if k0 < p_idx as int {
                        assert(out@[k0] == input0[j]);
                    } else {
                        assert(out@[k0 + 1] == input0[j]);
                    }
                }
            }
        }
    }
    out
}

/// Removes adjacent database results that the ranking cannot tell
/// apart.
fn db_dedup_results(
    input: Vec<SearchResult>,
    Ghost(p): Ghost<spec_fn(SearchResult) -> bool>,
) -> (r: Vec<SearchResult>)
    requires
        forall|k: int| 0 <= k < input@.len() ==> p(#[trigger] input@[k]),
        forall|i: int, j: int|
            0 <= i < j < input@.len() ==> db_result_le(
                #[trigger] input@[i],
                #[trigger] input@[j],
            ),
    ensures
        forall|k: int| 0 <= k < r@.len() ==> p(#[trigger] r@[k]),
        forall|i: int, j: int|
            0 <= i < j < r@.len() ==> db_result_le(#[trigger] r@[i], #[trigger] r@[j]),
        forall|k: int|
            0 <= k && k + 1 < r@.len() ==> db_result_lt(#[trigger] r@[k], r@[k + 1]),
        r@.len() <= input@.len(),
        forall|j: int|
            #![trigger input@[j]]
            0 <= j < input@.len() ==> db_result_equiv_present(
                r@,
                input@[j].score,
                input@[j].path.identifier@,
                path_model(input@[j].path.chest_path),
            ),
{
    let ghost input0 = input@;
    let mut rest = input;
    let mut out: Vec<SearchResult> = Vec::new();
    while rest.len() > 0
        invariant
            forall|i: int, j: int|
                0 <= i < j < input0.len() ==> db_result_le(
                    #[trigger] input0[i],
                    #[trigger] input0[j],
                ),
            forall|x: int| 0 <= x < input0.len() ==> p(#[trigger] input0[x]),
            rest@.len() <= input0.len(),
            rest@ == input0.skip(input0.len() - rest@.len()),
            out@.len() + rest@.len() <= input0.len(),
            forall|x: int| 0 <= x < out@.len() ==> p(#[trigger] out@[x]),
            forall|i: int, j: int|
                0 <= i < j < out@.len() ==> db_result_le(
                    #[trigger] out@[i],
                    #[trigger] out@[j],
                ),
            forall|x: int|
                0 <= x && x + 1 < out@.len() ==> db_result_lt(
                    #[trigger] out@[x],
                    out@[x + 1],
                ),
            out@.len() > 0 ==> (forall|y: int|
                input0.len() - rest@.len() <= y < input0.len() ==> db_result_le(
                    out@.last(),
                    #[trigger] input0[y],
                )),
            forall|j: int|
                #![trigger input0[j]]
                0 <= j < input0.len() - rest@.len() ==> db_result_equiv_present(
                    out@,
                    input0[j].score,
                    input0[j].path.identifier@,
                    path_model(input0[j].path.chest_path),
                ),
        decreases rest@.len(),
    {
        let ghost rest0 = rest@;
        let ghost kpos = input0.len() - rest0.len();
        let x = rest.remove(0);
        proof {
            assert(rest@ =~= input0.skip(input0.len() - rest@.len()));
            assert(x == rest0[0]);
            assert(rest0[0] == input0.skip(kpos)[0]);
            assert(x == input0[kpos]);
            assert(p(input0[kpos]));
        }
        let mut keep = true;
        if out.len() > 0 {
            let li = out.len() - 1;
            proof {
                assert(out@[li as int] == out@.last());
            }
            if db_result_eq_exec(&out[li], &x) {
                keep = false;
            }
        }
        if keep {
            let ghost out0 = out@;
            out.push(x);
            proof {
                assert(out@ == out0.push(x));
                assert(forall|y: int|
                    0 <= y < out0.len() ==> #[trigger] out@[y] == out0[y]);
                assert(out@[out@.len() - 1] == x);
                assert(out@.last() == x);
                if out0.len() > 0 {
                    assert(db_result_le(out0.last(), input0[kpos]));
                    assert(db_result_le(out0.last(), x));
                    assert(!db_result_eq(out0.last(), x));
                    assert(db_result_lt(out0.last(), x));
                    assert forall|i: int, j: int|
                        0 <= i < j < out@.len() implies db_result_le(
                        #[trigger] out@[i],
                        #[trigger] out@[j],
                    ) by {
                        if j < out@.len() - 1 {
                            assert(out@[i] == out0[i] && out@[j] == out0[j]);
                        } else if i < out@.len() - 1 {
                            assert(out@[i] == out0[i]);
                            assert(out@[j] == x);
                            if i < out0.len() - 1 {
                                lemma_db_result_le_transitive(out0[i], out0.last(), x);
                            }
                        }
                    }
                    assert forall|x2: int|
                        0 <= x2 && x2 + 1 < out@.len() implies db_result_lt(
                        #[trigger] out@[x2],
                        out@[x2 + 1],
                    ) by {
                        if x2 + 1 < out@.len() - 1 {
                            assert(out@[x2] == out0[x2] && out@[x2 + 1] == out0[x2 + 1]);
                        } else {
                            assert(out@[x2] == out0[out0.len() - 1]);
                            assert(out@[x2 + 1] == x);
                        }
                    }
                }
                assert forall|y: int|
                    kpos + 1 <= y < input0.len() implies db_result_le(
                    out@.last(),
                    #[trigger] input0[y],
                ) by {
                    assert(db_result_le(input0[kpos], input0[y]));
                }
                assert forall|j: int|
                    #![trigger input0[j]]
                    0 <= j < kpos + 1 implies db_result_equiv_present(
                    out@,
                    input0[j].score,
                    input0[j].path.identifier@,
                    path_model(input0[j].path.chest_path),
                ) by {
                    if j == kpos {
                        assert(out@[out@.len() - 1] == x);
                    } else {
                        let k0 = choose|k0: int|
                            0 <= k0 < out0.len() && (#[trigger] out0[k0]).score
                                == input0[j].score && out0[k0].path.identifier@
                                == input0[j].path.identifier@ && path_model(
                                out0[k0].path.chest_path,
                            ) == path_model(input0[j].path.chest_path);
                        assert(out@[k0] == out0[k0]);
                    }
                }
            }
        } else {
            proof {
                assert(db_result_eq(out@.last(), x));
                assert forall|y: int|
                    kpos + 1 <= y < input0.len() implies db_result_le(
                    out@.last(),
                    #[trigger] input0[y],
                ) by {
                    assert(db_result_le(input0[kpos], input0[y]));
                    assert(db_result_le(out@.last(), x));
                    assert(x == input0[kpos]);
                    lemma_db_result_le_transitive(out@.last(), x, input0[y]);
                }
                assert forall|j: int|
                    #![trigger input0[j]]
                    0 <= j < kpos + 1 implies db_result_equiv_present(
                    out@,
                    input0[j].score,
                    input0[j].path.identifier@,
                    path_model(input0[j].path.chest_path),
                ) by {
                    if j == kpos {
                        assert(out@[out@.len() - 1].score == input0[j].score
                            && out@[out@.len() - 1].path.identifier@ == input0[
                            j
                        ].path.identifier@ && path_model(
                            out@[out@.len() - 1].path.chest_path,
                        ) == path_model(input0[j].path.chest_path));
                    }
                }
            }
        }
    }
    proof {
        assert(rest@.len() == 0);
        assert forall|j: int|
            #![trigger input@[j]]
            0 <= j < input@.len() implies db_result_equiv_present(
            out@,
            input@[j].score,
            input@[j].path.identifier@,
            path_model(input@[j].path.chest_path),
        ) by {
            assert(0 <= j < input0.len() - rest@.len());
            assert(db_result_equiv_present(
                out@,
                input0[j].score,
                input0[j].path.identifier@,
                path_model(input0[j].path.chest_path),
            ));
        }
    }
    out
}


impl Database {
    /// Searches all chests for items matching a string query. With a
    /// path, only that chest is searched from the path; otherwise the
    /// latest version of every tag is searched from its root. Results
    /// are ranked by score, ties broken by item path, deduplicated and
    /// cut to the requested count.
    pub fn search(
        &self,
        path: Option<&ItemPath>,
        query: &str,
        parameters: SearchParameters,
    ) -> (r: Vec<SearchResult>)
        requires
            self.wf(),
        ensures
            r@.len() <= parameters.result_count,
            query_segments(query@).len() == 0 ==> r@.len() == 0,
            forall|k: int|
                0 <= k < r@.len() ==> db_search_ok(
                    *self,
                    query_segments(query@),
                    #[trigger] r@[k],
                ),
            (match path {
                Some(start) => forall|k: int|
                    0 <= k < r@.len() ==> (#[trigger] r@[k]).path.identifier@
                        == start.identifier@,
                None => true,
            }),
            forall|i: int, j: int|
                0 <= i < j < r@.len() ==> db_result_le(#[trigger] r@[i], #[trigger] r@[j]),
            forall|k: int|
                0 <= k && k + 1 < r@.len() ==> db_result_lt(#[trigger] r@[k], r@[k + 1]),
            (match path {
                None => forall|k: int|
                    0 <= k < r@.len() ==> self.from_latest_version(
                        (#[trigger] r@[k]).path.identifier@,
                    ),
                Some(_) => true,
            }),
            (match path {
                Some(start) => (match self.spec_chest(start.identifier@) {
                    Some(c) => (path_model(start.chest_path).len() > 0
                        && crate::search::walk_matching(
                        c.items@,
                        c.root_item_ids@,
                        path_model(start.chest_path),
                    ).len() == 0) ==> r@.len() == 0,
                    None => true,
                }),
                None => true,
            }),
            (match path {
                Some(start) => (match self.spec_chest(start.identifier@) {
                    Some(c) => (query_segments(query@).len() == 1 && path_model(
                        start.chest_path,
                    ).len() == 0 && r@.len() < parameters.result_count) ==> (forall|
                        iid: int,
                    |
                        #[trigger] crate::search::strong_match(
                            c.items@,
                            query_segments(query@).last(),
                            iid,
                        ) ==> db_result_equiv_present(
                            r@,
                            crate::search::fuzzy_score(
                                crate::indexed::indexed_name(c.items@[iid].data),
                                query_segments(query@).last(),
                            )->Some_0,
                            start.identifier@,
                            crate::search::spec_item_path(c.items@, iid),
                        )),
                    None => true,
                }),
                None => true,
            }),
    {
        let ghost segs = query_segments(query@);
        let ghost mut found_all: Seq<ChestSearchResult> = Seq::empty();
        let ghost mut items_of_chest: Seq<IndexedChestItem> = Seq::empty();
        let ghost mut mapped: Seq<SearchResult> = Seq::empty();
        let mut results: Vec<SearchResult> = Vec::new();
        match path {
            Some(start) => {
                match self.find_chest_index(start.identifier.as_str()) {
                    None => {
                        proof {
                            lemma_find_chest_char(self.chests@, start.identifier@);
                            assert(self.spec_chest(start.identifier@) is None);
                        }
                    },
                    Some(ci) => {
                        proof {
                            lemma_find_chest_char(self.chests@, start.identifier@);
                        }
                        let ghost chest_items = self.chests@[ci as int].contents.items@;
                        proof {
                            assert(self.spec_chest(start.identifier@) == Some(
                                self.chests@[ci as int].contents,
                            ));
                        }
                        let mut found = self.chests[ci].contents.search(
                            &start.chest_path,
                            query,
                            &parameters,
                        );
                        proof {
                            found_all = found@;
                            items_of_chest = chest_items;
                            assert(found@ =~= found_all.skip(0));
                        }
                        while found.len() > 0
                            invariant
                                (match self.spec_chest(start.identifier@) {
                                    Some(c) => c.items@ == chest_items,
                                    None => false,
                                }),
                                forall|k: int|
                                    0 <= k < found@.len() ==> search_result_ok(
                                        chest_items,
                                        segs,
                                        #[trigger] found@[k],
                                    ),
                                segs.len() == 0 ==> found@.len() == 0,
                                forall|k: int|
                                    0 <= k < results@.len() ==> db_search_ok(
                                        *self,
                                        segs,
                                        #[trigger] results@[k],
                                    ) && (#[trigger] results@[k]).path.identifier@
                                        == start.identifier@,
                                segs.len() == 0 ==> results@.len() == 0,
                                found@ == found_all.skip(results@.len() as int),
                                results@.len() <= found_all.len(),
                                forall|k: int|
                                    0 <= k < results@.len() ==> ((#[trigger] results@[
                                    k]).score == found_all[k].score && path_model(
                                        results@[k].path.chest_path,
                                    ) == path_model(found_all[k].path)),
                            decreases found@.len(),
                        {
                            let ghost found0 = found@;
                            let ghost processed = results@.len() as int;
                            let cr = found.remove(0);
                            let ghost crg = cr;
                            proof {
                                assert(cr == found0[0]);
                                assert(forall|k: int|
                                    0 <= k < found@.len() ==> found@[k] == found0[k + 1]);
                                assert(found0 == found_all.skip(processed));
                                assert(cr == found_all[processed]);
                                assert(found@ =~= found_all.skip(processed + 1));
                            }
                            let item = SearchResult {
                                path: ItemPath {
                                    identifier: start.identifier.clone(),
                                    chest_path: cr.path,
                                },
                                score: cr.score,
                            };
                            proof {
                                let id = choose|id: int|
                                    0 <= id < chest_items.len() && path_model(crg.path)
                                        == #[trigger] crate::search::spec_item_path(
                                        chest_items,
                                        id,
                                    );
                                match self.spec_chest(item.path.identifier@) {
                                    Some(c) => {
                                        assert(path_model(item.path.chest_path)
                                            == crate::search::spec_item_path(
                                            c.items@,
                                            id,
                                        ));
                                    },
                                    None => {
                                        assert(false);
                                    },
                                }
                                assert(db_search_ok(*self, segs, item));
                            }
                            results.push(item);
                        }
                        proof {
                            assert(found_all.skip(results@.len() as int).len() == 0);
                            assert(results@.len() == found_all.len());
                            mapped = results@;
                        }
                    },
                }
            },
            None => {
                let mut ti: usize = 0;
                while ti < self.tags.len()
                    invariant
                        self.wf(),
                        ti <= self.tags@.len(),
                        forall|k: int|
                            0 <= k < results@.len() ==> db_search_ok(
                                *self,
                                segs,
                                #[trigger] results@[k],
                            ),
                        forall|k: int|
                            0 <= k < results@.len() ==> self.from_latest_version(
                                (#[trigger] results@[k]).path.identifier@,
                            ),
                        segs.len() == 0 ==> results@.len() == 0,
                        segs == query_segments(query@),
                    decreases self.tags@.len() - ti,
                {
                    let latest = self.tags[ti].latest_version.clone();
                    let identifier = match self.lookup_version_identifier(
                        ti,
                        latest.as_str(),
                    ) {
                        Some(identifier) => identifier,
                        None => {
                            ti += 1;
                            continue ;
                        },
                    };
                    let ci = match self.find_chest_index(identifier.as_str()) {
                        Some(ci) => {
                            proof {
                                lemma_find_chest_char(self.chests@, identifier@);
                            }
                            ci
                        },
                        None => {
                            ti += 1;
                            continue ;
                        },
                    };
                    let ghost chest_items = self.chests@[ci as int].contents.items@;
                    proof {
                        assert(self.spec_chest(identifier@) == Some(
                            self.chests@[ci as int].contents,
                        ));
                        let tg = self.tags@[ti as int].tag@;
                        lemma_find_tag_char(self.tags@, tg);
                        match find_tag(self.tags@, tg) {
                            Some(i) => {
                                if i < ti as int {
                                    assert(self.tags@[i].tag@ != self.tags@[
                                        ti as int
                                    ].tag@);
                                    assert(false);
                                } else if i > ti as int {
                                    assert(self.tags@[ti as int].tag@ != tg);
                                    assert(false);
                                }
                            },
                            None => {
                                assert(self.tags@[ti as int].tag@ != tg);
                                assert(false);
                            },
                        }
                        assert(self.spec_tag_latest(tg) == Some(latest@));
                        assert(self.spec_tag_version_identifier(tg, latest@) == Some(
                            identifier@,
                        ));
                        assert(self.from_latest_version(identifier@));
                    }
                    let root = ChestPath::root();
                    let mut found = self.chests[ci].contents.search(
                        &root,
                        query,
                        &parameters,
                    );
                    while found.len() > 0
                        invariant
                            (match self.spec_chest(identifier@) {
                                Some(c) => c.items@ == chest_items,
                                None => false,
                            }),
                            forall|k: int|
                                0 <= k < found@.len() ==> search_result_ok(
                                    chest_items,
                                    segs,
                                    #[trigger] found@[k],
                                ),
                            segs.len() == 0 ==> found@.len() == 0,
                            forall|k: int|
                                0 <= k < results@.len() ==> db_search_ok(
                                    *self,
                                    segs,
                                    #[trigger] results@[k],
                                ),
                            self.from_latest_version(identifier@),
                            forall|k: int|
                                0 <= k < results@.len() ==> self.from_latest_version(
                                    (#[trigger] results@[k]).path.identifier@,
                                ),
                            segs.len() == 0 ==> results@.len() == 0,
                        decreases found@.len(),
                    {
                        let ghost found0 = found@;
                        let cr = found.remove(0);
                        let ghost crg = cr;
                        proof {
                            assert(cr == found0[0]);
                            assert(forall|k: int|
                                0 <= k < found@.len() ==> found@[k] == found0[k + 1]);
                        }
                        let item = SearchResult {
                            path: ItemPath {
                                identifier: identifier.clone(),
                                chest_path: cr.path,
                            },
                            score: cr.score,
                        };
                        proof {
                            let id = choose|id: int|
                                0 <= id < chest_items.len() && path_model(crg.path)
                                    == #[trigger] crate::search::spec_item_path(
                                    chest_items,
                                    id,
                                );
                            match self.spec_chest(item.path.identifier@) {
                                Some(c) => {
                                    assert(path_model(item.path.chest_path)
                                        == crate::search::spec_item_path(c.items@, id));
                                },
                                None => {
                                    assert(false);
                                },
                            }
                            assert(db_search_ok(*self, segs, item));
                        }
                        results.push(item);
                    }
                    ti += 1;
                }
            },
        }
        let ghost results_final = results@;
        let sorted = db_sort_results(
            results,
            Ghost(
                |res: SearchResult|
                    db_search_ok(*self, segs, res) && (match path {
                        Some(start) => res.path.identifier@ == start.identifier@,
                        None => self.from_latest_version(res.path.identifier@),
                    }),
            ),
        );
        let ghost sortedg = sorted@;
        let deduped = db_dedup_results(
            sorted,
            Ghost(
                |res: SearchResult|
                    db_search_ok(*self, segs, res) && (match path {
                        Some(start) => res.path.identifier@ == start.identifier@,
                        None => self.from_latest_version(res.path.identifier@),
                    }),
            ),
        );
        let mut out = deduped;
        let ghost before = out@;
        out.truncate(parameters.result_count);
        proof {
            if parameters.result_count <= before.len() {
                assert(out@ == before.subrange(0, parameters.result_count as int));
                assert(forall|k: int|
                    0 <= k < out@.len() ==> #[trigger] out@[k] == before[k]);
            }
            if segs.len() == 0 && out@.len() > 0 {
                assert(out@[0] == before[0]);
                assert(db_search_ok(*self, segs, out@[0]));
                assert(false);
            }
            match path {
                None => {
                    assert forall|k: int|
                        0 <= k < out@.len() implies self.from_latest_version(
                        (#[trigger] out@[k]).path.identifier@,
                    ) by {
                        if parameters.result_count <= before.len() {
                            assert(out@[k] == before[k]);
                        }
                    }
                },
                Some(_) => {},
            }
            match path {
                Some(start) => {
                    match self.spec_chest(start.identifier@) {
                        Some(c) => {
                            if path_model(start.chest_path).len() > 0
                                && crate::search::walk_matching(
                                c.items@,
                                c.root_item_ids@,
                                path_model(start.chest_path),
                            ).len() == 0 {
                                assert(items_of_chest == c.items@);
                                assert(found_all.len() == 0);
                                assert(mapped.len() == 0);
                                assert(results_final == mapped);
                                assert(sortedg.len() == 0);
                                assert(before.len() == 0);
                                assert(out@.len() == 0);
                            }
                            if segs.len() == 1 && path_model(start.chest_path).len() == 0
                                && out@.len() < parameters.result_count {
                                assert(out@ == before);
                                assert(results_final == mapped);
                                assert(items_of_chest == c.items@);
                                assert(mapped.len() == found_all.len());
                                assert forall|j: int|
                                    0 <= j < mapped.len() implies db_result_equiv_present(
                                    out@,
                                    (#[trigger] mapped[j]).score,
                                    mapped[j].path.identifier@,
                                    path_model(mapped[j].path.chest_path),
                                ) by {
                                    assert(db_result_present(sortedg, mapped[j]));
                                    let k = choose|k: int|
                                        0 <= k < sortedg.len() && #[trigger] sortedg[k]
                                            == mapped[j];
                                    assert(db_result_equiv_present(
                                        before,
                                        sortedg[k].score,
                                        sortedg[k].path.identifier@,
                                        path_model(sortedg[k].path.chest_path),
                                    ));
                                }
                                crate::search::lemma_chest_results_distinct(found_all);
                                assert forall|i: int, j: int|
                                    0 <= i < j < mapped.len() implies !db_result_eq(
                                    #[trigger] mapped[i],
                                    #[trigger] mapped[j],
                                ) by {
                                    if db_result_eq(mapped[i], mapped[j]) {
                                        assert(crate::search::result_eq(
                                            found_all[i],
                                            found_all[j],
                                        ));
                                        assert(!crate::search::result_eq(
                                            found_all[i],
                                            found_all[j],
                                        ));
                                    }
                                }
                                lemma_equiv_witnesses_count(mapped, out@);
                                assert(found_all.len() < parameters.result_count);
                                assert forall|iid: int|
                                    #[trigger] crate::search::strong_match(
                                        c.items@,
                                        segs.last(),
                                        iid,
                                    ) implies db_result_equiv_present(
                                    out@,
                                    crate::search::fuzzy_score(
                                        crate::indexed::indexed_name(c.items@[iid].data),
                                        segs.last(),
                                    )->Some_0,
                                    start.identifier@,
                                    crate::search::spec_item_path(c.items@, iid),
                                ) by {
                                    assert(crate::search::strong_match(
                                        items_of_chest,
                                        segs.last(),
                                        iid,
                                    ));
                                    assert(crate::search::result_equiv_present(
                                        found_all,
                                        crate::search::fuzzy_score(
                                            crate::indexed::indexed_name(
                                                items_of_chest[iid].data,
                                            ),
                                            segs.last(),
                                        )->Some_0,
                                        crate::search::spec_item_path(
                                            items_of_chest,
                                            iid,
                                        ),
                                    ));
                                    let w = choose|w: int|
                                        0 <= w < found_all.len() && (#[trigger] found_all[
                                        w]).score == crate::search::fuzzy_score(
                                            crate::indexed::indexed_name(
                                                items_of_chest[iid].data,
                                            ),
                                            segs.last(),
                                        )->Some_0 && path_model(found_all[w].path)
                                            == crate::search::spec_item_path(
                                            items_of_chest,
                                            iid,
                                        );
                                    assert(db_result_equiv_present(
                                        out@,
                                        mapped[w].score,
                                        mapped[w].path.identifier@,
                                        path_model(mapped[w].path.chest_path),
                                    ));
                                    assert(mapped[w].path.identifier@
                                        == start.identifier@);
                                }
                            }
                        },
                        None => {},
                    }
                },
                None => {},
            }
        }
        out
    }

    /// Gets chest item contents by path: for the items that the walk
    /// of the path selects, the contained items of each non-page item,
    /// the page items of each page, and the declared bases of each
    /// object, in walk order.
    pub fn item_contents_at_path(&self, path: &ItemPath) -> (r: ItemContents)
        requires
            self.wf(),
        ensures
            self.spec_chest(path.identifier@) is None ==> (r.chest_items@.len() == 0
                && r.page_items@.len() == 0 && r.bases@.len() == 0),
            match self.spec_chest(path.identifier@) {
                Some(c) => ({
                    let w = crate::search::walk_matching(
                        c.items@,
                        c.root_item_ids@,
                        crate::content::path_model(path.chest_path),
                    );
                    &&& r.chest_items@.len() == gathered_child_ids(c.items@, w).len()
                    &&& (forall|k: int|
                        0 <= k < r.chest_items@.len() ==> *(#[trigger] r.chest_items@[k])
                            == c.items@[gathered_child_ids(c.items@, w)[k] as int])
                    &&& r.page_items@.len() == gathered_page_items(c.items@, w).len()
                    &&& (forall|k: int|
                        0 <= k < r.page_items@.len() ==> *(#[trigger] r.page_items@[k])
                            == gathered_page_items(c.items@, w)[k])
                    &&& r.bases@.len() == gathered_bases(c.items@, w).len()
                    &&& (forall|k: int|
                        0 <= k < r.bases@.len() ==> (#[trigger] r.bases@[k]).elements@
                            == gathered_bases(c.items@, w)[k])
                }),
                None => true,
            },
    {
        let ci = match self.find_chest_index(path.identifier.as_str()) {
            Some(ci) => {
                proof {
                    lemma_find_chest_char(self.chests@, path.identifier@);
                }
                ci
            },
            None => {
                return ItemContents {
                    chest_items: Vec::new(),
                    page_items: Vec::new(),
                    bases: Vec::new(),
                };
            },
        };
        let contents = &self.chests[ci].contents;
        let ghost cg = self.chests@[ci as int].contents;
        let ghost itemsg = cg.items@;
        let items = contents.get(&path.chest_path);
        let ghost wg = crate::search::walk_matching(
            itemsg,
            cg.root_item_ids@,
            crate::content::path_model(path.chest_path),
        );
        let mut chest_items: Vec<&IndexedChestItem> = Vec::new();
        let mut page_items: Vec<&crate::content::PageItem> = Vec::new();
        let mut bases: Vec<ChestPath> = Vec::new();
        proof {
            assert(wg.take(0) =~= Seq::<usize>::empty());
        }
        let mut i: usize = 0;
        while i < items.len()
            invariant
                self.wf(),
                ci < self.chests@.len(),
                cg == self.chests@[ci as int].contents,
                itemsg == cg.items@,
                contents.items@ == itemsg,
                wg == crate::search::walk_matching(
                    itemsg,
                    cg.root_item_ids@,
                    crate::content::path_model(path.chest_path),
                ),
                items@.len() == wg.len(),
                forall|k: int|
                    0 <= k < items@.len() ==> *(#[trigger] items@[k]) == itemsg[
                        wg[k] as int
                    ],
                i <= items@.len(),
                chest_items@.len() == gathered_child_ids(itemsg, wg.take(i as int)).len(),
                forall|k: int|
                    0 <= k < chest_items@.len() ==> *(#[trigger] chest_items@[k])
                        == itemsg[gathered_child_ids(itemsg, wg.take(i as int))[k] as int],
                page_items@.len() == gathered_page_items(itemsg, wg.take(i as int)).len(),
                forall|k: int|
                    0 <= k < page_items@.len() ==> *(#[trigger] page_items@[k])
                        == gathered_page_items(itemsg, wg.take(i as int))[k],
                bases@.len() == gathered_bases(itemsg, wg.take(i as int)).len(),
                forall|k: int|
                    0 <= k < bases@.len() ==> (#[trigger] bases@[k]).elements@
                        == gathered_bases(itemsg, wg.take(i as int))[k],
            decreases items@.len() - i,
        {
            let item = items[i];
            proof {
                assert(wg.take(i + 1).drop_last() =~= wg.take(i as int));
                assert(wg.take(i + 1).last() == wg[i as int]);
                assert(*item == itemsg[wg[i as int] as int]);
            }
            match &item.data {
                crate::indexed::IndexedChestItemData::Page(page) => {
                    let ghost pg0 = page_items@;
                    let ghost pc = page.contents@;
                    proof {
                        assert(gathered_page_items(itemsg, wg.take(i + 1))
                            == gathered_page_items(itemsg, wg.take(i as int)) + pc);
                        assert(gathered_child_ids(itemsg, wg.take(i + 1))
                            =~= gathered_child_ids(itemsg, wg.take(i as int)));
                        assert(gathered_bases(itemsg, wg.take(i + 1)) =~= gathered_bases(
                            itemsg,
                            wg.take(i as int),
                        ));
                    }
                    let mut j: usize = 0;
                    while j < page.contents.len()
                        invariant
                            pc == page.contents@,
                            j <= pc.len(),
                            page_items@.len() == pg0.len() + j,
                            forall|k: int|
                                0 <= k < pg0.len() ==> #[trigger] page_items@[k]
                                    == pg0[k],
                            forall|k: int|
                                pg0.len() <= k < page_items@.len()
                                    ==> *(#[trigger] page_items@[k]) == pc[
                                    k - pg0.len()
                                ],
                        decreases page.contents@.len() - j,
                    {
                        page_items.push(&page.contents[j]);
                        j += 1;
                    }
                },
                crate::indexed::IndexedChestItemData::Object(object) => {
                    let ghost b0 = bases@;
                    let ghost ob = object.info.bases@;
                    proof {
                        assert(gathered_child_ids(itemsg, wg.take(i + 1))
                            == gathered_child_ids(itemsg, wg.take(i as int))
                            + crate::search::bounded_ids(
                            itemsg,
                            crate::indexed::data_content_ids(item.data),
                        ));
                        assert(gathered_page_items(itemsg, wg.take(i + 1))
                            =~= gathered_page_items(itemsg, wg.take(i as int)));
                        assert(gathered_bases(itemsg, wg.take(i + 1)) == gathered_bases(
                            itemsg,
                            wg.take(i as int),
                        ) + Seq::new(ob.len(), |j: int| ob[j].elements@));
                    }
                    let mut sub = item.contents(contents);
                    chest_items.append(&mut sub);
                    let mut j: usize = 0;
                    while j < object.info.bases.len()
                        invariant
                            ob == object.info.bases@,
                            j <= ob.len(),
                            bases@.len() == b0.len() + j,
                            forall|k: int|
                                0 <= k < b0.len() ==> #[trigger] bases@[k] == b0[k],
                            forall|k: int|
                                b0.len() <= k < bases@.len()
                                    ==> (#[trigger] bases@[k]).elements@ == ob[
                                    k - b0.len()
                                ].elements@,
                        decreases object.info.bases@.len() - j,
                    {
                        bases.push(clone_path(&object.info.bases[j]));
                        j += 1;
                    }
                },
                _ => {
                    proof {
                        assert(gathered_child_ids(itemsg, wg.take(i + 1))
                            == gathered_child_ids(itemsg, wg.take(i as int))
                            + crate::search::bounded_ids(
                            itemsg,
                            crate::indexed::data_content_ids(item.data),
                        ));
                        assert(gathered_page_items(itemsg, wg.take(i + 1))
                            =~= gathered_page_items(itemsg, wg.take(i as int)));
                        assert(gathered_bases(itemsg, wg.take(i + 1)) =~= gathered_bases(
                            itemsg,
                            wg.take(i as int),
                        ));
                    }
                    let mut sub = item.contents(contents);
                    chest_items.append(&mut sub);
                },
            }
            i += 1;
        }
        proof {
            assert(wg.take(wg.len() as int) =~= wg);
        }
        ItemContents { chest_items, page_items, bases }
    }

    /// Gets the path of the item that a URL points at within a chest:
    /// the same reverse lookup through the URL index as the page
    /// lookup.
    pub fn item_for_path(
        &self,
        identifier: &str,
        url: &str,
        path_hint: Option<&ItemPath>,
    ) -> (r: Option<ItemPath>)
        requires
            self.wf(),
        ensures
            self.spec_chest(identifier@) is None ==> r is None,
            r matches Some(p) ==> p.identifier@ == identifier@,
            (match self.spec_chest(identifier@) {
                Some(c) => {
                    &&& (r is None <==> (forall|id: int|
                        !(#[trigger] crate::search::url_candidate(
                            c.items@,
                            crate::search::normalized_url(url@),
                            id,
                        ))))
                    &&& (r matches Some(p) ==> ((exists|id: int|
                        #[trigger] crate::search::page_candidate(
                            c.items@,
                            crate::search::normalized_url(url@),
                            item_hint_model(path_hint),
                            id,
                        )) ==> ((exists|id: int|
                        (#[trigger] crate::search::page_candidate(
                            c.items@,
                            crate::search::normalized_url(url@),
                            item_hint_model(path_hint),
                            id,
                        )) && path_model(p.chest_path) == crate::search::spec_item_path(
                            c.items@,
                            id,
                        )) && (forall|id: int|
                        (#[trigger] crate::search::page_candidate(
                            c.items@,
                            crate::search::normalized_url(url@),
                            item_hint_model(path_hint),
                            id,
                        )) ==> !crate::search::chain_lt(
                            path_model(p.chest_path),
                            crate::search::spec_item_path(c.items@, id),
                        )))))
                    &&& (r matches Some(p) ==> (!(exists|id: int|
                        #[trigger] crate::search::page_candidate(
                            c.items@,
                            crate::search::normalized_url(url@),
                            item_hint_model(path_hint),
                            id,
                        )) ==> ((exists|id: int|
                        (#[trigger] crate::search::url_candidate(
                            c.items@,
                            crate::search::normalized_url(url@),
                            id,
                        )) && path_model(p.chest_path) == crate::search::spec_item_path(
                            c.items@,
                            id,
                        )) && (forall|id: int|
                        (#[trigger] crate::search::url_candidate(
                            c.items@,
                            crate::search::normalized_url(url@),
                            id,
                        )) ==> !crate::search::chain_lt(
                            path_model(p.chest_path),
                            crate::search::spec_item_path(c.items@, id),
                        )))))
                },
                None => true,
            }),
    {
        self.page_for_path(identifier, url, path_hint)
    }

    /// Gets the path of the deepest item of a chest whose URL equals
    /// the given one, preferring parents of the hint and falling back
    /// to the deepest match overall.
    pub fn page_for_path(
        &self,
        identifier: &str,
        url: &str,
        path_hint: Option<&ItemPath>,
    ) -> (r: Option<ItemPath>)
        requires
            self.wf(),
        ensures
            self.spec_chest(identifier@) is None ==> r is None,
            r matches Some(p) ==> p.identifier@ == identifier@,
            (match self.spec_chest(identifier@) {
                Some(c) => {
                    &&& (r is None <==> (forall|id: int|
                        !(#[trigger] crate::search::url_candidate(
                            c.items@,
                            crate::search::normalized_url(url@),
                            id,
                        ))))
                    &&& (r matches Some(p) ==> ((exists|id: int|
                        #[trigger] crate::search::page_candidate(
                            c.items@,
                            crate::search::normalized_url(url@),
                            item_hint_model(path_hint),
                            id,
                        )) ==> ((exists|id: int|
                        (#[trigger] crate::search::page_candidate(
                            c.items@,
                            crate::search::normalized_url(url@),
                            item_hint_model(path_hint),
                            id,
                        )) && path_model(p.chest_path) == crate::search::spec_item_path(
                            c.items@,
                            id,
                        )) && (forall|id: int|
                        (#[trigger] crate::search::page_candidate(
                            c.items@,
                            crate::search::normalized_url(url@),
                            item_hint_model(path_hint),
                            id,
                        )) ==> !crate::search::chain_lt(
                            path_model(p.chest_path),
                            crate::search::spec_item_path(c.items@, id),
                        )))))
                    &&& (r matches Some(p) ==> (!(exists|id: int|
                        #[trigger] crate::search::page_candidate(
                            c.items@,
                            crate::search::normalized_url(url@),
                            item_hint_model(path_hint),
                            id,
                        )) ==> ((exists|id: int|
                        (#[trigger] crate::search::url_candidate(
                            c.items@,
                            crate::search::normalized_url(url@),
                            id,
                        )) && path_model(p.chest_path) == crate::search::spec_item_path(
                            c.items@,
                            id,
                        )) && (forall|id: int|
                        (#[trigger] crate::search::url_candidate(
                            c.items@,
                            crate::search::normalized_url(url@),
                            id,
                        )) ==> !crate::search::chain_lt(
                            path_model(p.chest_path),
                            crate::search::spec_item_path(c.items@, id),
                        )))))
                },
                None => true,
            }),
    {
        let ci = match self.find_chest_index(identifier) {
            Some(ci) => {
                proof {
                    lemma_find_chest_char(self.chests@, identifier@);
                }
                ci
            },
            None => {
                return None;
            },
        };
        let hint = match path_hint {
            Some(h) => Some(&h.chest_path),
            None => None,
        };
        let ghost hintg = hint;
        let res = self.chests[ci].contents.page_for_path(url, hint);
        proof {
            let c = self.chests@[ci as int].contents;
            let nu = crate::search::normalized_url(url@);
            let hm = item_hint_model(path_hint);
            assert(crate::search::page_hint_model(hintg) == hm);
            match &res {
                None => {
                    assert forall|id: int|
                        !(#[trigger] crate::search::url_candidate(c.items@, nu, id)) by {
                        assert(!crate::search::url_candidate(c.items@, nu, id));
                    }
                },
                Some(p) => {
                    if exists|id: int|
                        #[trigger] crate::search::page_candidate(c.items@, nu, hm, id) {
                        let wid = choose|id: int|
                            #[trigger] crate::search::page_candidate(c.items@, nu, hm, id);
                        assert(crate::search::page_candidate(
                            c.items@,
                            nu,
                            crate::search::page_hint_model(hintg),
                            wid,
                        ));
                        let id0 = choose|id: int|
                            (#[trigger] crate::search::page_candidate(
                                c.items@,
                                nu,
                                crate::search::page_hint_model(hintg),
                                id,
                            )) && path_model(*p) == crate::search::spec_item_path(
                                c.items@,
                                id,
                            );
                        assert(crate::search::page_candidate(c.items@, nu, hm, id0)
                            && path_model(*p) == crate::search::spec_item_path(
                            c.items@,
                            id0,
                        ));
                        assert forall|id: int|
                            (#[trigger] crate::search::page_candidate(
                                c.items@,
                                nu,
                                hm,
                                id,
                            )) implies !crate::search::chain_lt(
                            path_model(*p),
                            crate::search::spec_item_path(c.items@, id),
                        ) by {
                            assert(crate::search::page_candidate(
                                c.items@,
                                nu,
                                crate::search::page_hint_model(hintg),
                                id,
                            ) == crate::search::page_candidate(c.items@, nu, hm, id));
                        }
                    } else {
                        assert(!(exists|id: int|
                            #[trigger] crate::search::page_candidate(
                                c.items@,
                                nu,
                                crate::search::page_hint_model(hintg),
                                id,
                            ))) by {
                            if exists|id: int|
                                #[trigger] crate::search::page_candidate(
                                    c.items@,
                                    nu,
                                    crate::search::page_hint_model(hintg),
                                    id,
                                ) {
                                let w = choose|id: int|
                                    #[trigger] crate::search::page_candidate(
                                        c.items@,
                                        nu,
                                        crate::search::page_hint_model(hintg),
                                        id,
                                    );
                                assert(crate::search::page_candidate(
                                    c.items@,
                                    nu,
                                    hm,
                                    w,
                                ));
                            }
                        }
                        let id0 = choose|id: int|
                            (#[trigger] crate::search::url_candidate(c.items@, nu, id))
                                && path_model(*p) == crate::search::spec_item_path(
                                c.items@,
                                id,
                            );
                        assert(crate::search::url_candidate(c.items@, nu, id0)
                            && path_model(*p) == crate::search::spec_item_path(
                            c.items@,
                            id0,
                        ));
                    }
                },
            }
        }
        match res {
            Some(chest_path) => Some(
                ItemPath { identifier: identifier.to_owned(), chest_path },
            ),
            None => None,
        }
    }

    /// Reads a file from a chest in the database, applying the theme's
    /// path replacement rules first.
    pub fn read(&self, identifier: &str, path: &str, theme: Theme) -> (r: Result<
        Vec<u8>,
        ChestError,
    >)
        requires
            self.wf(),
        ensures
            self.spec_chest(identifier@) is None ==> (r is Err && r->Err_0
                == ChestError::NotFound),
            (match (self.spec_chest(identifier@), self.spec_chest_store(identifier@)) {
                (Some(c), Some(st)) => crate::chest::backing_ok(st.backing_model())
                    ==> ({
                    let transformed = crate::search::apply_rules(
                        path@,
                        crate::search::theme_rules(
                            match theme {
                                Theme::Light => c.info.light_mode,
                                Theme::Dark => c.info.dark_mode,
                            },
                        ),
                    );
                    &&& (r is Ok <==> st.spec_read(transformed) is Some)
                    &&& (r is Ok ==> Some(r.unwrap()@) == st.spec_read(transformed))
                    &&& (r is Err ==> (r->Err_0 == ChestError::NotFound || r->Err_0
                        == ChestError::MissingBackingArchive))
                }),
                _ => true,
            }),
    {
        let ci = match self.find_chest_index(identifier) {
            Some(ci) => {
                proof {
                    lemma_find_chest_char(self.chests@, identifier@);
                }
                ci
            },
            None => {
                return Err(ChestError::NotFound);
            },
        };
        let entry = &self.chests[ci];
        let transformed = entry.contents.transform_path_for_theme(path, theme);
        let r = entry.chest.read(transformed.as_str());
        proof {
            let st = entry.chest;
            if crate::chest::backing_ok(st.backing_model()) {
                let parts = crate::pathutil::file_lookup_parts(transformed@);
                match crate::chest::dir_lookup(st.root_dir(), parts) {
                    Some(node) => match node {
                        crate::chest::ChestNode::File(f) => {
                            match f {
                                crate::chest::ChestFile::InMemory(_) => {},
                                crate::chest::ChestFile::ArchiveBacked => {},
                            }
                        },
                        crate::chest::ChestNode::Directory(_) => {},
                    },
                    None => {},
                }
            }
        }
        r
    }

    /// Lists a directory from a chest in the database: exactly what the
    /// stored chest's own listing yields.
    pub fn list_dir(&self, identifier: &str, path: &str) -> (r: Result<
        Vec<ChestListEntry>,
        ChestError,
    >)
        requires
            self.wf(),
        ensures
            self.spec_chest(identifier@) is None ==> (r is Err && r->Err_0
                == ChestError::NotFound),
            (match self.spec_chest_store(identifier@) {
                Some(st) => match crate::chest::dir_lookup(
                    st.root_dir(),
                    crate::pathutil::dir_lookup_parts(path@),
                ) {
                    Some(crate::chest::ChestNode::Directory(d)) => r is Ok && {
                        let es = r.unwrap()@;
                        &&& es.len() == d.entries@.len()
                        &&& (forall|i: int|
                            0 <= i < es.len() ==> crate::chest::list_entry_name(
                                #[trigger] es[i],
                            ) == d.entries@[i].name@)
                        &&& (forall|i: int|
                            0 <= i < es.len() ==> ((#[trigger] es[i]) is Directory
                                <==> d.entries@[i].node is Directory))
                    },
                    _ => r == Err::<Vec<ChestListEntry>, ChestError>(
                        ChestError::NotFound,
                    ),
                },
                None => true,
            }),
            r is Ok ==> (forall|i: int, j: int|
                0 <= i < j < r.unwrap()@.len() ==> lex_lt(
                    crate::chest::list_entry_name(#[trigger] r.unwrap()@[i]),
                    crate::chest::list_entry_name(#[trigger] r.unwrap()@[j]),
                )),
    {
        let ci = match self.find_chest_index(identifier) {
            Some(ci) => {
                proof {
                    lemma_find_chest_char(self.chests@, identifier@);
                }
                ci
            },
            None => {
                return Err(ChestError::NotFound);
            },
        };
        self.chests[ci].chest.list_dir(path)
    }
}

} // verus!
