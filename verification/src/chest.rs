use vstd::prelude::*;
use crate::error::ChestError;
use crate::pathutil::{
    dir_lookup_parts, dir_parts, file_lookup_parts, file_parts, is_valid_name, seq_views,
    split_on_slash, valid_name_char, validate_name,
};
use crate::strutil::{
    lex_lt, lemma_lex_lt_trichotomy, str_concat, str_drop_first, str_ends_with, str_eq,
    str_lt, str_starts_with_char,
};

verus! {

/// A single file held by a chest: either its bytes in memory, or a marker
/// that the payload still lives in the backing archive.
pub enum ChestFile {
    InMemory(Vec<u8>),
    ArchiveBacked,
}

/// A node of the virtual directory tree: a file or a subdirectory.
pub enum ChestNode {
    File(ChestFile),
    Directory(ChestDirectory),
}

/// A named entry of a directory.
pub struct ChestDirectoryEntry {
    pub name: String,
    pub node: ChestNode,
}

/// Directory listing for a directory within a chest. Entries are kept
/// sorted by name so listings and walks are lexicographic.
pub struct ChestDirectory {
    pub entries: Vec<ChestDirectoryEntry>,
}

/// Directory listing entry for querying the contents of a chest.
pub enum ChestListEntry {
    File(String),
    Directory(String),
}

/// The name carried by a listing entry.
pub open spec fn list_entry_name(e: ChestListEntry) -> Seq<char> {
    match e {
        ChestListEntry::File(n) => n@,
        ChestListEntry::Directory(n) => n@,
    }
}

/// Entry names are valid and strictly sorted.
pub open spec fn dir_entries_sorted(es: Seq<ChestDirectoryEntry>) -> bool {
    &&& forall|i: int| 0 <= i < es.len() ==> is_valid_name(#[trigger] es[i].name@)
    &&& forall|i: int, j: int|
        0 <= i < j < es.len() ==> lex_lt(#[trigger] es[i].name@, #[trigger] es[j].name@)
}

/// Well-formedness of a directory: entries sorted, names valid, and all
/// subdirectories well formed.
pub open spec fn dir_wf(d: ChestDirectory) -> bool
    decreases d,
{
    &&& dir_entries_sorted(d.entries@)
    &&& forall|i: int| 0 <= i < d.entries@.len() ==> node_wf(#[trigger] d.entries@[i].node)
}

pub open spec fn node_wf(n: ChestNode) -> bool
    decreases n,
{
    match n {
        ChestNode::File(_) => true,
        ChestNode::Directory(d) => dir_wf(d),
    }
}

/// In a sorted entry list, names are distinct.
pub proof fn lemma_sorted_distinct(es: Seq<ChestDirectoryEntry>, i: int, j: int)
    requires
        dir_entries_sorted(es),
        0 <= i < es.len(),
        0 <= j < es.len(),
        i != j,
    ensures
        es[i].name@ != es[j].name@,
{
    if i < j {
        lemma_lex_lt_trichotomy(es[i].name@, es[j].name@);
    } else {
        lemma_lex_lt_trichotomy(es[j].name@, es[i].name@);
    }
}

/// The first entry of the list that carries the name, if any.
pub open spec fn entries_get(es: Seq<ChestDirectoryEntry>, name: Seq<char>) -> Option<
    ChestNode,
>
    decreases es.len(),
{
    if es.len() == 0 {
        None
    } else if es[0].name@ == name {
        Some(es[0].node)
    } else {
        entries_get(es.drop_first(), name)
    }
}

/// The node that a directory holds under a name, if any.
pub open spec fn dir_get(d: ChestDirectory, name: Seq<char>) -> Option<ChestNode> {
    entries_get(d.entries@, name)
}

/// A name that stands in no entry is not found.
pub proof fn lemma_entries_get_none(es: Seq<ChestDirectoryEntry>, name: Seq<char>)
    ensures
        (entries_get(es, name) is None) <==> (forall|i: int|
            0 <= i < es.len() ==> #[trigger] es[i].name@ != name),
    decreases es.len(),
{
    if es.len() > 0 {
        lemma_entries_get_none(es.drop_first(), name);
        assert(forall|i: int| 1 <= i < es.len() ==> es[i] == #[trigger] es.drop_first()[
            i - 1
        ]);
        if es[0].name@ != name && entries_get(es.drop_first(), name) is None {
            assert(forall|i: int| 0 <= i < es.len() ==> #[trigger] es[i].name@ != name)
                by {
                assert(forall|i: int|
                    1 <= i < es.len() ==> #[trigger] es[i].name@ == es.drop_first()[i
                        - 1].name@);
            }
        }
    }
}

/// When names are distinct and an entry with the name stands at index
/// `i`, it is the one found.
pub proof fn lemma_entries_get_at(es: Seq<ChestDirectoryEntry>, i: int)
    requires
        0 <= i < es.len(),
        forall|j: int, k: int|
            0 <= j < k < es.len() ==> #[trigger] es[j].name@ != #[trigger] es[k].name@,
    ensures
        entries_get(es, es[i].name@) == Some(es[i].node),
    decreases es.len(),
{
    if i > 0 {
        assert(es[0].name@ != es[i].name@);
        assert(forall|i: int| 1 <= i < es.len() ==> es[i] == #[trigger] es.drop_first()[
            i - 1
        ]);
        lemma_entries_get_at(es.drop_first(), i - 1);
    }
}

/// When an entry with the name stands at index `i` of a sorted entry
/// list, `dir_get` returns its node.
pub proof fn lemma_dir_get_at(d: ChestDirectory, i: int)
    requires
        dir_entries_sorted(d.entries@),
        0 <= i < d.entries@.len(),
    ensures
        dir_get(d, d.entries@[i].name@) == Some(d.entries@[i].node),
{
    let es = d.entries@;
    assert(forall|j: int, k: int|
        0 <= j < k < es.len() ==> #[trigger] es[j].name@ != #[trigger] es[k].name@) by {
        assert forall|j: int, k: int| 0 <= j < k < es.len() implies #[trigger] es[j].name@
            != #[trigger] es[k].name@ by {
            lemma_sorted_distinct(es, j, k);
        }
    }
    lemma_entries_get_at(es, i);
}

/// The node found by walking a sequence of path components from a
/// directory. An empty walk names the directory itself; a file is only
/// found as the final component.
pub open spec fn dir_lookup(d: ChestDirectory, parts: Seq<Seq<char>>) -> Option<ChestNode>
    decreases parts.len(),
{
    if parts.len() == 0 {
        Some(ChestNode::Directory(d))
    } else {
        match dir_get(d, parts[0]) {
            Some(ChestNode::Directory(sub)) => dir_lookup(sub, parts.drop_first()),
            Some(ChestNode::File(f)) => if parts.len() == 1 {
                Some(ChestNode::File(f))
            } else {
                None
            },
            None => None,
        }
    }
}

/// One component sequence is a prefix of another.
pub open spec fn is_path_prefix(a: Seq<Seq<char>>, b: Seq<Seq<char>>) -> bool {
    a.len() <= b.len() && a == b.take(a.len() as int)
}

/// Finds the index of the entry with the given name.
fn dir_find_index(d: &ChestDirectory, name: &str) -> (r: Option<usize>)
    ensures
        match r {
            Some(i) => i < d.entries@.len() && d.entries@[i as int].name@ == name@,
            None => forall|i: int|
                0 <= i < d.entries@.len() ==> #[trigger] d.entries@[i].name@ != name@,
        },
{
    let mut i: usize = 0;
    while i < d.entries.len()
        invariant
            i <= d.entries@.len(),
            forall|j: int| 0 <= j < i ==> #[trigger] d.entries@[j].name@ != name@,
        decreases d.entries@.len() - i,
    {
        if str_eq(d.entries[i].name.as_str(), name) {
            return Some(i);
        }
        i += 1;
    }
    None
}

/// Walks the remaining components from `i` and returns the node found.
fn lookup_node<'a>(d: &'a ChestDirectory, parts: &Vec<String>, i: usize) -> (r: Option<
    &'a ChestNode,
>)
    requires
        dir_wf(*d),
        i < parts@.len(),
    ensures
        match r {
            Some(n) => dir_lookup(*d, seq_views(parts@).skip(i as int)) == Some(*n)
                && node_wf(*n),
            None => dir_lookup(*d, seq_views(parts@).skip(i as int)) is None,
        },
    decreases parts@.len() - i,
{
    let n = parts.len();
    let ghost rest = seq_views(parts@).skip(i as int);
    proof {
        assert(rest[0] == parts@[i as int]@);
    }
    match dir_find_index(d, parts[i].as_str()) {
        None => {
            proof {
                lemma_entries_get_none(d.entries@, rest[0]);
            }
            None
        },
        Some(j) => {
            proof {
                lemma_dir_get_at(*d, j as int);
            }
            let entry = &d.entries[j];
            if i + 1 == n {
                proof {
                    assert(rest.len() == 1);
                    if entry.node is Directory {
                        assert(rest.drop_first() =~= seq_views(parts@).skip(i + 1));
                        assert(seq_views(parts@).skip(i + 1).len() == 0);
                    }
                }
                Some(&entry.node)
            } else {
                match &entry.node {
                    ChestNode::Directory(sub) => {
                        proof {
                            assert(rest.drop_first() =~= seq_views(parts@).skip(i + 1));
                        }
                        lookup_node(sub, parts, i + 1)
                    },
                    ChestNode::File(_) => {
                        proof {
                            assert(rest.len() > 1);
                        }
                        None
                    },
                }
            }
        },
    }
}

/// Walks the remaining components from `i` and returns the directory
/// found, failing when the walk meets a file or a missing name.
fn lookup_dir<'a>(d: &'a ChestDirectory, parts: &Vec<String>, i: usize) -> (r: Option<
    &'a ChestDirectory,
>)
    requires
        dir_wf(*d),
        i <= parts@.len(),
    ensures
        match r {
            Some(sub) => dir_lookup(*d, seq_views(parts@).skip(i as int)) == Some(
                ChestNode::Directory(*sub),
            ) && dir_wf(*sub),
            None => !(dir_lookup(*d, seq_views(parts@).skip(i as int)) matches Some(
                ChestNode::Directory(_),
            )),
        },
    decreases parts@.len() - i,
{
    if i == parts.len() {
        proof {
            assert(seq_views(parts@).skip(i as int).len() == 0);
        }
        Some(d)
    } else {
        let ghost rest = seq_views(parts@).skip(i as int);
        proof {
            assert(rest[0] == parts@[i as int]@);
        }
        match dir_find_index(d, parts[i].as_str()) {
            None => {
                proof {
                    lemma_entries_get_none(d.entries@, rest[0]);
                }
                None
            },
            Some(j) => {
                proof {
                    lemma_dir_get_at(*d, j as int);
                    assert(rest.drop_first() =~= seq_views(parts@).skip(i + 1));
                }
                match &d.entries[j].node {
                    ChestNode::Directory(sub) => lookup_dir(sub, parts, i + 1),
                    ChestNode::File(_) => None,
                }
            },
        }
    }
}

/// After replacing the entry at index `j` by one with the same name,
/// lookups see the new node under that name and are otherwise unchanged.
proof fn lemma_entries_get_update(
    es: Seq<ChestDirectoryEntry>,
    j: int,
    e2: ChestDirectoryEntry,
)
    requires
        0 <= j < es.len(),
        e2.name@ == es[j].name@,
        forall|a: int, b: int|
            0 <= a < b < es.len() ==> #[trigger] es[a].name@ != #[trigger] es[b].name@,
    ensures
        entries_get(es.update(j, e2), e2.name@) == Some(e2.node),
        forall|x: Seq<char>|
            x != e2.name@ ==> #[trigger] entries_get(es.update(j, e2), x) == entries_get(
                es,
                x,
            ),
    decreases es.len(),
{
    let es2 = es.update(j, e2);
    assert(forall|i: int| 1 <= i < es.len() ==> es[i] == #[trigger] es.drop_first()[i - 1]);
    if j == 0 {
        assert(es2[0] == e2);
        assert(es2.drop_first() =~= es.drop_first());
        assert forall|x: Seq<char>|
            x != e2.name@ implies #[trigger] entries_get(es2, x) == entries_get(es, x) by {
            assert(entries_get(es2, x) == entries_get(es2.drop_first(), x));
            assert(entries_get(es, x) == entries_get(es.drop_first(), x));
        }
    } else {
        assert(es2[0] == es[0]);
        assert(es2.drop_first() =~= es.drop_first().update(j - 1, e2));
        assert(es[0].name@ != es[j].name@);
        lemma_entries_get_update(es.drop_first(), j - 1, e2);
        assert(entries_get(es2, e2.name@) == Some(e2.node)) by {
            assert(entries_get(es2, e2.name@) == entries_get(es2.drop_first(), e2.name@));
        }
        assert forall|x: Seq<char>|
            x != e2.name@ implies #[trigger] entries_get(es2, x) == entries_get(es, x) by {
            if x == es[0].name@ {
                assert(entries_get(es2, x) == Some(es2[0].node));
                assert(entries_get(es, x) == Some(es[0].node));
            } else {
                assert(entries_get(es2, x) == entries_get(es2.drop_first(), x));
                assert(entries_get(es, x) == entries_get(es.drop_first(), x));
                assert(entries_get(es.drop_first().update(j - 1, e2), x) == entries_get(
                    es.drop_first(),
                    x,
                ));
            }
        }
    }
}

/// After inserting an entry with a fresh name at any position, lookups
/// see the new node under its name and are otherwise unchanged.
proof fn lemma_entries_get_insert(
    es: Seq<ChestDirectoryEntry>,
    pos: int,
    e: ChestDirectoryEntry,
)
    requires
        0 <= pos <= es.len(),
        forall|k: int| 0 <= k < es.len() ==> #[trigger] es[k].name@ != e.name@,
    ensures
        entries_get(es.insert(pos, e), e.name@) == Some(e.node),
        forall|x: Seq<char>|
            x != e.name@ ==> #[trigger] entries_get(es.insert(pos, e), x) == entries_get(
                es,
                x,
            ),
    decreases es.len(),
{
    let es2 = es.insert(pos, e);
    assert(forall|i: int| 1 <= i < es.len() ==> es[i] == #[trigger] es.drop_first()[i - 1]);
    es.insert_ensures(pos, e);
    if pos == 0 {
        assert(es2[0] == e);
        assert(es2.drop_first() =~= es);
        assert forall|x: Seq<char>|
            x != e.name@ implies #[trigger] entries_get(es2, x) == entries_get(es, x) by {
            assert(entries_get(es2, x) == entries_get(es2.drop_first(), x));
        }
    } else {
        assert(es2[0] == es[0]);
        assert(es2.drop_first() =~= es.drop_first().insert(pos - 1, e));
        lemma_entries_get_insert(es.drop_first(), pos - 1, e);
        assert(es[0].name@ != e.name@);
        assert(entries_get(es2, e.name@) == Some(e.node)) by {
            assert(entries_get(es2, e.name@) == entries_get(es2.drop_first(), e.name@));
        }
        assert forall|x: Seq<char>|
            x != e.name@ implies #[trigger] entries_get(es2, x) == entries_get(es, x) by {
            if x == es[0].name@ {
                assert(entries_get(es2, x) == Some(es2[0].node));
                assert(entries_get(es, x) == Some(es[0].node));
            } else {
                assert(entries_get(es2, x) == entries_get(es2.drop_first(), x));
                assert(entries_get(es, x) == entries_get(es.drop_first(), x));
                assert(entries_get(es.drop_first().insert(pos - 1, e), x) == entries_get(
                    es.drop_first(),
                    x,
                ));
            }
        }
    }
}

/// Replacing an entry by one with the same valid name keeps the listing
/// sorted.
proof fn lemma_sorted_update(es: Seq<ChestDirectoryEntry>, j: int, e2: ChestDirectoryEntry)
    requires
        dir_entries_sorted(es),
        0 <= j < es.len(),
        e2.name@ == es[j].name@,
    ensures
        dir_entries_sorted(es.update(j, e2)),
{
}

/// Inserting a valid name at its ordered position keeps the listing
/// sorted.
proof fn lemma_sorted_insert(es: Seq<ChestDirectoryEntry>, pos: int, e: ChestDirectoryEntry)
    requires
        dir_entries_sorted(es),
        0 <= pos <= es.len(),
        is_valid_name(e.name@),
        forall|k: int| 0 <= k < pos ==> lex_lt(#[trigger] es[k].name@, e.name@),
        forall|k: int| pos <= k < es.len() ==> lex_lt(e.name@, #[trigger] es[k].name@),
    ensures
        dir_entries_sorted(es.insert(pos, e)),
{
    let es2 = es.insert(pos, e);
    es.insert_ensures(pos, e);
    assert forall|i: int, j: int| 0 <= i < j < es2.len() implies lex_lt(
        #[trigger] es2[i].name@,
        #[trigger] es2[j].name@,
    ) by {
        if i < pos && j < pos {
        } else if i < pos && j == pos {
        } else if i < pos && j > pos {
            assert(es2[i] == es[i]);
            assert(es2[j] == es[j - 1]);
            if j - 1 == i {
            } else {
                assert(lex_lt(es[i].name@, es[j - 1].name@));
            }
        } else if i == pos {
            assert(es2[j] == es[j - 1]);
        } else {
            assert(es2[i] == es[i - 1]);
            assert(es2[j] == es[j - 1]);
        }
    }
    assert(forall|i: int|
        0 <= i < es2.len() ==> is_valid_name(#[trigger] es2[i].name@));
}

/// Finds the position at which a fresh name keeps the entries sorted.
fn find_insert_pos(d: &ChestDirectory, name: &str) -> (r: usize)
    requires
        dir_entries_sorted(d.entries@),
    ensures
        r <= d.entries@.len(),
        forall|k: int| 0 <= k < r ==> lex_lt(#[trigger] d.entries@[k].name@, name@),
        forall|k: int|
            r <= k < d.entries@.len() ==> !lex_lt(#[trigger] d.entries@[k].name@, name@),
{
    let mut i: usize = 0;
    while i < d.entries.len()
        invariant
            i <= d.entries@.len(),
            dir_entries_sorted(d.entries@),
            forall|k: int| 0 <= k < i ==> lex_lt(#[trigger] d.entries@[k].name@, name@),
        decreases d.entries@.len() - i,
    {
        if !str_lt(d.entries[i].name.as_str(), name) {
            proof {
                assert forall|k: int|
                    i <= k < d.entries@.len() implies !lex_lt(
                    #[trigger] d.entries@[k].name@,
                    name@,
                ) by {
                    if k > i && lex_lt(d.entries@[k].name@, name@) {
                        crate::strutil::lemma_lex_lt_transitive(
                            d.entries@[i as int].name@,
                            d.entries@[k].name@,
                            name@,
                        );
                    }
                }
            }
            return i;
        }
        i += 1;
    }
    i
}

/// A head component shared by two paths relates their prefixes through
/// their tails.
proof fn lemma_prefix_uncons(q: Seq<Seq<char>>, r: Seq<Seq<char>>)
    requires
        q.len() > 0,
        r.len() > 0,
        q[0] == r[0],
    ensures
        is_path_prefix(q, r) <==> is_path_prefix(q.drop_first(), r.drop_first()),
{
    if is_path_prefix(q, r) {
        assert(q.drop_first() =~= r.drop_first().take(q.len() - 1));
    }
    if is_path_prefix(q.drop_first(), r.drop_first()) {
        assert forall|i: int| 0 <= i < q.len() implies q[i] == r.take(q.len() as int)[i]
            by {
            if i > 0 {
                assert(q[i] == q.drop_first()[i - 1]);
                assert(q.drop_first()[i - 1] == r.drop_first().take(q.len() - 1)[i - 1]);
                assert(r.drop_first()[i - 1] == r[i]);
            }
        }
        assert(q =~= r.take(q.len() as int));
    }
}

/// After a change that only replaces what one name maps to, and maps it
/// to a file, lookups along other branches are unchanged and files at
/// other paths survive.
proof fn lemma_write_final_frame(
    d1: ChestDirectory,
    d2: ChestDirectory,
    name: Seq<char>,
    file: ChestFile,
)
    requires
        dir_get(d2, name) == Some(ChestNode::File(file)),
        !(dir_get(d1, name) matches Some(ChestNode::Directory(_))),
        forall|x: Seq<char>| x != name ==> #[trigger] dir_get(d2, x) == dir_get(d1, x),
    ensures
        dir_lookup(d2, seq![name]) == Some(ChestNode::File(file)),
        forall|q: Seq<Seq<char>>|
            !is_path_prefix(q, seq![name]) && !is_path_prefix(seq![name], q)
                ==> #[trigger] dir_lookup(d2, q) == dir_lookup(d1, q),
        forall|q: Seq<Seq<char>>|
            #![trigger dir_lookup(d2, q)]
            q != seq![name] ==> (dir_lookup(d1, q) matches Some(ChestNode::File(f))
                ==> dir_lookup(d2, q) == Some(ChestNode::File(f))),
        forall|q: Seq<Seq<char>>|
            #![trigger dir_lookup(d2, q)]
            q.len() > 0 && is_path_prefix(q, seq![name]) && q != seq![name]
                ==> dir_lookup(d2, q) matches Some(ChestNode::Directory(_)),
{
    let rest = seq![name];
    assert(rest[0] == name);
    assert forall|q: Seq<Seq<char>>|
        #![trigger dir_lookup(d2, q)]
        q.len() > 0 && is_path_prefix(q, rest) && q != rest implies dir_lookup(
        d2,
        q,
    ) matches Some(ChestNode::Directory(_)) by {
        assert(q.len() <= rest.len());
        if q.len() == 1 {
            assert(q =~= rest);
        }
    }
    assert forall|q: Seq<Seq<char>>|
        !is_path_prefix(q, rest) && !is_path_prefix(rest, q) implies #[trigger] dir_lookup(
        d2,
        q,
    ) == dir_lookup(d1, q) by {
        if q.len() == 0 {
            assert(q =~= rest.take(0));
            assert(is_path_prefix(q, rest));
        } else if q[0] == name {
            assert(rest =~= q.take(1));
            assert(is_path_prefix(rest, q));
        } else {
            assert(dir_get(d2, q[0]) == dir_get(d1, q[0]));
        }
    }
    assert forall|q: Seq<Seq<char>>|
        #![trigger dir_lookup(d2, q)]
        q != rest implies (dir_lookup(d1, q) matches Some(ChestNode::File(f))
        ==> dir_lookup(d2, q) == Some(ChestNode::File(f))) by {
        if q.len() == 0 {
        } else if q[0] == name {
            if q.len() == 1 {
                assert(q =~= rest);
            }
        } else {
            assert(dir_get(d2, q[0]) == dir_get(d1, q[0]));
        }
    }
}

/// After a change inside the subdirectory under one name, lookups along
/// other branches are unchanged, the written file is found, and files at
/// other paths survive.
proof fn lemma_write_child_frame(
    d1: ChestDirectory,
    d2: ChestDirectory,
    name: Seq<char>,
    tail: Seq<Seq<char>>,
    sub1: ChestDirectory,
    sub2: ChestDirectory,
    file: ChestFile,
)
    requires
        tail.len() >= 1,
        dir_get(d1, name) == Some(ChestNode::Directory(sub1)),
        dir_get(d2, name) == Some(ChestNode::Directory(sub2)),
        forall|x: Seq<char>| x != name ==> #[trigger] dir_get(d2, x) == dir_get(d1, x),
        dir_lookup(sub2, tail) == Some(ChestNode::File(file)),
        forall|t: Seq<Seq<char>>|
            !is_path_prefix(t, tail) && !is_path_prefix(tail, t)
                ==> #[trigger] dir_lookup(sub2, t) == dir_lookup(sub1, t),
        forall|t: Seq<Seq<char>>|
            #![trigger dir_lookup(sub2, t)]
            t != tail ==> (dir_lookup(sub1, t) matches Some(ChestNode::File(f))
                ==> dir_lookup(sub2, t) == Some(ChestNode::File(f))),
        forall|t: Seq<Seq<char>>|
            #![trigger dir_lookup(sub2, t)]
            t.len() > 0 && is_path_prefix(t, tail) && t != tail ==> dir_lookup(
                sub2,
                t,
            ) matches Some(ChestNode::Directory(_)),
    ensures
        dir_lookup(d2, seq![name] + tail) == Some(ChestNode::File(file)),
        forall|q: Seq<Seq<char>>|
            !is_path_prefix(q, seq![name] + tail) && !is_path_prefix(seq![name] + tail, q)
                ==> #[trigger] dir_lookup(d2, q) == dir_lookup(d1, q),
        forall|q: Seq<Seq<char>>|
            #![trigger dir_lookup(d2, q)]
            q != seq![name] + tail ==> (dir_lookup(d1, q) matches Some(
                ChestNode::File(f),
            ) ==> dir_lookup(d2, q) == Some(ChestNode::File(f))),
        forall|q: Seq<Seq<char>>|
            #![trigger dir_lookup(d2, q)]
            q.len() > 0 && is_path_prefix(q, seq![name] + tail) && q != seq![name] + tail
                ==> dir_lookup(d2, q) matches Some(ChestNode::Directory(_)),
{
    let rest = seq![name] + tail;
    assert(rest[0] == name);
    assert(rest.drop_first() =~= tail);
    assert(dir_lookup(d2, rest) == Some(ChestNode::File(file)));
    assert forall|q: Seq<Seq<char>>|
        #![trigger dir_lookup(d2, q)]
        q.len() > 0 && is_path_prefix(q, rest) && q != rest implies dir_lookup(
        d2,
        q,
    ) matches Some(ChestNode::Directory(_)) by {
        assert(q[0] == rest.take(q.len() as int)[0]);
        assert(q[0] == name);
        let t = q.drop_first();
        assert(q =~= seq![q[0]] + t);
        if t.len() == 0 {
            assert(dir_lookup(d2, q) == Some(ChestNode::Directory(sub2)));
        } else {
            lemma_prefix_uncons(q, rest);
            assert(is_path_prefix(t, tail));
            if t == tail {
                assert(q =~= rest);
            }
            assert(t != tail);
            assert(dir_lookup(sub2, t) matches Some(ChestNode::Directory(_)));
            assert(dir_lookup(d2, q) == dir_lookup(sub2, t));
        }
    }
    assert forall|q: Seq<Seq<char>>|
        !is_path_prefix(q, rest) && !is_path_prefix(rest, q) implies #[trigger] dir_lookup(
        d2,
        q,
    ) == dir_lookup(d1, q) by {
        if q.len() == 0 {
            assert(q =~= rest.take(0));
            assert(is_path_prefix(q, rest));
        } else if q[0] != name {
            assert(dir_get(d2, q[0]) == dir_get(d1, q[0]));
        } else {
            let t = q.drop_first();
            lemma_prefix_uncons(q, rest);
            lemma_prefix_uncons(rest, q);
            assert(!is_path_prefix(t, tail) && !is_path_prefix(tail, t));
            assert(dir_lookup(sub2, t) == dir_lookup(sub1, t));
        }
    }
    assert forall|q: Seq<Seq<char>>|
        #![trigger dir_lookup(d2, q)]
        q != rest implies (dir_lookup(d1, q) matches Some(ChestNode::File(f))
        ==> dir_lookup(d2, q) == Some(ChestNode::File(f))) by {
        if q.len() == 0 {
        } else if q[0] != name {
            assert(dir_get(d2, q[0]) == dir_get(d1, q[0]));
        } else {
            let t = q.drop_first();
            assert(q =~= seq![q[0]] + t);
            if t == tail {
                assert(q =~= rest);
            }
            assert(dir_lookup(d1, q) == dir_lookup(sub1, t));
            assert(dir_lookup(d2, q) == dir_lookup(sub2, t));
        }
    }
}

/// After a fresh subdirectory is created under a previously absent name,
/// lookups along other branches are unchanged and the written file is
/// found.
proof fn lemma_write_new_child_frame(
    d1: ChestDirectory,
    d2: ChestDirectory,
    name: Seq<char>,
    tail: Seq<Seq<char>>,
    sub2: ChestDirectory,
    file: ChestFile,
)
    requires
        tail.len() >= 1,
        dir_get(d1, name) is None,
        dir_get(d2, name) == Some(ChestNode::Directory(sub2)),
        forall|x: Seq<char>| x != name ==> #[trigger] dir_get(d2, x) == dir_get(d1, x),
        dir_lookup(sub2, tail) == Some(ChestNode::File(file)),
        forall|t: Seq<Seq<char>>|
            t.len() > 0 && !is_path_prefix(t, tail) && !is_path_prefix(tail, t)
                ==> #[trigger] dir_lookup(sub2, t) is None,
        forall|t: Seq<Seq<char>>|
            #![trigger dir_lookup(sub2, t)]
            t.len() > 0 && is_path_prefix(t, tail) && t != tail ==> dir_lookup(
                sub2,
                t,
            ) matches Some(ChestNode::Directory(_)),
    ensures
        dir_lookup(d2, seq![name] + tail) == Some(ChestNode::File(file)),
        forall|q: Seq<Seq<char>>|
            !is_path_prefix(q, seq![name] + tail) && !is_path_prefix(seq![name] + tail, q)
                ==> #[trigger] dir_lookup(d2, q) == dir_lookup(d1, q),
        forall|q: Seq<Seq<char>>|
            #![trigger dir_lookup(d2, q)]
            q != seq![name] + tail ==> (dir_lookup(d1, q) matches Some(
                ChestNode::File(f),
            ) ==> dir_lookup(d2, q) == Some(ChestNode::File(f))),
        forall|q: Seq<Seq<char>>|
            #![trigger dir_lookup(d2, q)]
            q.len() > 0 && is_path_prefix(q, seq![name] + tail) && q != seq![name] + tail
                ==> dir_lookup(d2, q) matches Some(ChestNode::Directory(_)),
{
    let rest = seq![name] + tail;
    assert(rest[0] == name);
    assert(rest.drop_first() =~= tail);
    assert(dir_lookup(d2, rest) == Some(ChestNode::File(file)));
    assert forall|q: Seq<Seq<char>>|
        #![trigger dir_lookup(d2, q)]
        q.len() > 0 && is_path_prefix(q, rest) && q != rest implies dir_lookup(
        d2,
        q,
    ) matches Some(ChestNode::Directory(_)) by {
        assert(q[0] == rest.take(q.len() as int)[0]);
        assert(q[0] == name);
        let t = q.drop_first();
        assert(q =~= seq![q[0]] + t);
        if t.len() == 0 {
            assert(dir_lookup(d2, q) == Some(ChestNode::Directory(sub2)));
        } else {
            lemma_prefix_uncons(q, rest);
            assert(is_path_prefix(t, tail));
            if t == tail {
                assert(q =~= rest);
            }
            assert(t != tail);
            assert(dir_lookup(sub2, t) matches Some(ChestNode::Directory(_)));
            assert(dir_lookup(d2, q) == dir_lookup(sub2, t));
        }
    }
    assert forall|q: Seq<Seq<char>>|
        !is_path_prefix(q, rest) && !is_path_prefix(rest, q) implies #[trigger] dir_lookup(
        d2,
        q,
    ) == dir_lookup(d1, q) by {
        if q.len() == 0 {
            assert(q =~= rest.take(0));
            assert(is_path_prefix(q, rest));
        } else if q[0] != name {
            assert(dir_get(d2, q[0]) == dir_get(d1, q[0]));
        } else {
            let t = q.drop_first();
            assert(dir_lookup(d1, q) is None);
            if t.len() == 0 {
                assert(q =~= rest.take(1));
                assert(is_path_prefix(q, rest));
            } else {
                lemma_prefix_uncons(q, rest);
                lemma_prefix_uncons(rest, q);
                assert(dir_lookup(sub2, t) is None);
                assert(dir_lookup(d2, q) is None);
            }
        }
    }
    assert forall|q: Seq<Seq<char>>|
        #![trigger dir_lookup(d2, q)]
        q != rest implies (dir_lookup(d1, q) matches Some(ChestNode::File(f))
        ==> dir_lookup(d2, q) == Some(ChestNode::File(f))) by {
        if q.len() == 0 {
        } else if q[0] != name {
            assert(dir_get(d2, q[0]) == dir_get(d1, q[0]));
        } else {
            assert(dir_lookup(d1, q) is None);
        }
    }
}

/// Whether writing a file along these components must fail: a file
/// stands where a directory is needed, or a directory stands where the
/// file itself would go.
pub open spec fn write_conflict(d: ChestDirectory, parts: Seq<Seq<char>>) -> bool
    decreases parts.len(),
{
    if parts.len() == 0 {
        true
    } else {
        match dir_get(d, parts[0]) {
            None => false,
            Some(ChestNode::File(_)) => parts.len() > 1,
            Some(ChestNode::Directory(sub)) => if parts.len() == 1 {
                true
            } else {
                write_conflict(sub, parts.drop_first())
            },
        }
    }
}

/// Checks whether a write along the remaining components would conflict.
fn check_write_conflict(d: &ChestDirectory, parts: &Vec<String>, i: usize) -> (r: bool)
    requires
        dir_wf(*d),
        i < parts@.len(),
    ensures
        r == write_conflict(*d, seq_views(parts@).skip(i as int)),
    decreases parts@.len() - i,
{
    let n = parts.len();
    let ghost rest = seq_views(parts@).skip(i as int);
    proof {
        assert(rest[0] == parts@[i as int]@);
    }
    match dir_find_index(d, parts[i].as_str()) {
        None => {
            proof {
                lemma_entries_get_none(d.entries@, rest[0]);
            }
            false
        },
        Some(j) => {
            proof {
                lemma_dir_get_at(*d, j as int);
            }
            match &d.entries[j].node {
                ChestNode::File(_) => i + 1 < n,
                ChestNode::Directory(sub) => {
                    if i + 1 == n {
                        true
                    } else {
                        proof {
                            assert(rest.drop_first() =~= seq_views(parts@).skip(i + 1));
                        }
                        check_write_conflict(sub, parts, i + 1)
                    }
                },
            }
        },
    }
}

/// Writes a file at the remaining components, creating intermediate
/// directories as needed. The path must already have been checked for
/// validity and conflicts, so the write always succeeds.
fn write_node(dir: &mut ChestDirectory, parts: &Vec<String>, i: usize, file: ChestFile)
    requires
        dir_wf(*old(dir)),
        i < parts@.len(),
        forall|j: int|
            i <= j < parts@.len() ==> is_valid_name(#[trigger] seq_views(parts@)[j]),
        !write_conflict(*old(dir), seq_views(parts@).skip(i as int)),
    ensures
        dir_wf(*final(dir)),
        dir_lookup(*final(dir), seq_views(parts@).skip(i as int)) == Some(
            ChestNode::File(file),
        ),
        forall|q: Seq<Seq<char>>|
            !is_path_prefix(q, seq_views(parts@).skip(i as int)) && !is_path_prefix(
                seq_views(parts@).skip(i as int),
                q,
            ) ==> #[trigger] dir_lookup(*final(dir), q) == dir_lookup(*old(dir), q),
        forall|q: Seq<Seq<char>>|
            #![trigger dir_lookup(*final(dir), q)]
            q != seq_views(parts@).skip(i as int) ==> (dir_lookup(
                *old(dir),
                q,
            ) matches Some(ChestNode::File(f)) ==> dir_lookup(*final(dir), q) == Some(
                ChestNode::File(f),
            )),
        forall|q: Seq<Seq<char>>|
            #![trigger dir_lookup(*final(dir), q)]
            q.len() > 0 && is_path_prefix(q, seq_views(parts@).skip(i as int)) && q
                != seq_views(parts@).skip(i as int) ==> dir_lookup(
                *final(dir),
                q,
            ) matches Some(ChestNode::Directory(_)),
    decreases parts@.len() - i,
{
    let n = parts.len();
    let ghost rest = seq_views(parts@).skip(i as int);
    let ghost d1 = *dir;
    proof {
        assert(seq_views(parts@)[i as int] == parts@[i as int]@);
        assert(rest[0] == parts@[i as int]@);
        assert(is_valid_name(rest[0]));
        assert forall|a: int, b: int| 0 <= a < b < d1.entries@.len() implies #[trigger] d1
            .entries@[a].name@ != #[trigger] d1.entries@[b].name@ by {
            lemma_sorted_distinct(d1.entries@, a, b);
        }
    }
    match dir_find_index(dir, parts[i].as_str()) {
        Some(j) => {
            proof {
                lemma_dir_get_at(d1, j as int);
            }
            let entry = dir.entries.remove(j);
            let name_string = entry.name;
            if i + 1 == n {
                proof {
                    assert(rest.len() == 1);
                    if entry.node is Directory {
                        assert(write_conflict(d1, rest));
                    }
                }
                let e_new = ChestDirectoryEntry {
                    name: name_string,
                    node: ChestNode::File(file),
                };
                let ghost e2 = e_new;
                dir.entries.insert(j, e_new);
                proof {
                    lemma_update_via_remove_insert(d1.entries@, j as int, e2);
                    lemma_entries_get_update(d1.entries@, j as int, e2);
                    lemma_sorted_update(d1.entries@, j as int, e2);
                    assert(dir_wf(*dir)) by {
                        assert(forall|k: int|
                            0 <= k < dir.entries@.len() ==> node_wf(
                                #[trigger] dir.entries@[k].node,
                            ));
                    }
                    lemma_write_final_frame(d1, *dir, rest[0], file);
                    assert(rest =~= seq![rest[0]]);
                }
            } else {
                let ghost rest2 = seq_views(parts@).skip(i + 1);
                proof {
                    assert(rest.drop_first() =~= rest2);
                }
                match entry.node {
                    ChestNode::Directory(mut sub) => {
                        let ghost sub1 = sub;
                        proof {
                            assert(node_wf(d1.entries@[j as int].node));
                            assert(!write_conflict(sub1, rest2));
                        }
                        write_node(&mut sub, parts, i + 1, file);
                        let e_new = ChestDirectoryEntry {
                            name: name_string,
                            node: ChestNode::Directory(sub),
                        };
                        let ghost e2 = e_new;
                        dir.entries.insert(j, e_new);
                        proof {
                            lemma_update_via_remove_insert(d1.entries@, j as int, e2);
                            lemma_entries_get_update(d1.entries@, j as int, e2);
                            lemma_sorted_update(d1.entries@, j as int, e2);
                            assert(dir_wf(*dir)) by {
                                assert(forall|k: int|
                                    0 <= k < dir.entries@.len() ==> node_wf(
                                        #[trigger] dir.entries@[k].node,
                                    ));
                            }
                            lemma_write_child_frame(
                                d1,
                                *dir,
                                rest[0],
                                rest2,
                                sub1,
                                e2.node->Directory_0,
                                file,
                            );
                            assert(rest =~= seq![rest[0]] + rest2);
                        }
                    },
                    ChestNode::File(_) => {
                        proof {
                            assert(write_conflict(d1, rest));
                            assert(false);
                        }
                    },
                }
            }
        },
        None => {
            proof {
                lemma_entries_get_none(d1.entries@, rest[0]);
            }
            let pos = find_insert_pos(dir, parts[i].as_str());
            proof {
                assert forall|k: int|
                    pos <= k < d1.entries@.len() implies lex_lt(
                    rest[0],
                    #[trigger] d1.entries@[k].name@,
                ) by {
                    lemma_lex_lt_trichotomy(d1.entries@[k].name@, rest[0]);
                }
            }
            if i + 1 == n {
                let e_new = ChestDirectoryEntry {
                    name: parts[i].clone(),
                    node: ChestNode::File(file),
                };
                let ghost e2 = e_new;
                dir.entries.insert(pos, e_new);
                proof {
                    assert(rest.len() == 1);
                    lemma_entries_get_insert(d1.entries@, pos as int, e2);
                    lemma_sorted_insert(d1.entries@, pos as int, e2);
                    d1.entries@.insert_ensures(pos as int, e2);
                    assert(dir_wf(*dir)) by {
                        assert(forall|k: int|
                            0 <= k < dir.entries@.len() ==> node_wf(
                                #[trigger] dir.entries@[k].node,
                            ));
                    }
                    lemma_write_final_frame(d1, *dir, rest[0], file);
                    assert(rest =~= seq![rest[0]]);
                }
            } else {
                let ghost rest2 = seq_views(parts@).skip(i + 1);
                proof {
                    assert(rest.drop_first() =~= rest2);
                }
                let mut sub = ChestDirectory { entries: Vec::new() };
                let ghost sub0 = sub;
                proof {
                    assert(dir_wf(sub0));
                    assert(entries_get(sub0.entries@, rest2[0]) is None);
                    assert(!write_conflict(sub0, rest2));
                }
                write_node(&mut sub, parts, i + 1, file);
                let ghost sub2 = sub;
                let e_new = ChestDirectoryEntry {
                    name: parts[i].clone(),
                    node: ChestNode::Directory(sub),
                };
                let ghost e2 = e_new;
                dir.entries.insert(pos, e_new);
                proof {
                    lemma_entries_get_insert(d1.entries@, pos as int, e2);
                    lemma_sorted_insert(d1.entries@, pos as int, e2);
                    d1.entries@.insert_ensures(pos as int, e2);
                    assert(dir_wf(*dir)) by {
                        assert(forall|k: int|
                            0 <= k < dir.entries@.len() ==> node_wf(
                                #[trigger] dir.entries@[k].node,
                            ));
                    }
                    assert forall|t: Seq<Seq<char>>|
                        t.len() > 0 && !is_path_prefix(t, rest2) && !is_path_prefix(
                            rest2,
                            t,
                        ) implies #[trigger] dir_lookup(sub2, t) is None by {
                        assert(dir_lookup(sub2, t) == dir_lookup(sub0, t));
                        assert(entries_get(sub0.entries@, t[0]) is None);
                    }
                    lemma_write_new_child_frame(d1, *dir, rest[0], rest2, sub2, file);
                    assert(rest =~= seq![rest[0]] + rest2);
                }
            }
        },
    }
}

/// Removing an index and inserting a replacement at the same place is an
/// update.
proof fn lemma_update_via_remove_insert(
    es: Seq<ChestDirectoryEntry>,
    j: int,
    e: ChestDirectoryEntry,
)
    requires
        0 <= j < es.len(),
    ensures
        es.remove(j).insert(j, e) == es.update(j, e),
{
    es.remove_ensures(j);
    es.remove(j).insert_ensures(j, e);
    assert(es.remove(j).insert(j, e) =~= es.update(j, e));
}

/// After removing the entry at index `j`, its name is no longer found
/// and other lookups are unchanged.
proof fn lemma_entries_get_remove(es: Seq<ChestDirectoryEntry>, j: int)
    requires
        0 <= j < es.len(),
        forall|a: int, b: int|
            0 <= a < b < es.len() ==> #[trigger] es[a].name@ != #[trigger] es[b].name@,
    ensures
        entries_get(es.remove(j), es[j].name@) is None,
        forall|x: Seq<char>|
            x != es[j].name@ ==> #[trigger] entries_get(es.remove(j), x) == entries_get(
                es,
                x,
            ),
    decreases es.len(),
{
    let es2 = es.remove(j);
    es.remove_ensures(j);
    assert(forall|i: int| 1 <= i < es.len() ==> es[i] == #[trigger] es.drop_first()[i - 1]);
    if j == 0 {
        assert(es2 =~= es.drop_first());
        lemma_entries_get_none(es.drop_first(), es[0].name@);
        assert forall|x: Seq<char>|
            x != es[j].name@ implies #[trigger] entries_get(es2, x) == entries_get(
                es,
                x,
            ) by {
            assert(entries_get(es, x) == entries_get(es.drop_first(), x));
        }
    } else {
        assert(es2[0] == es[0]);
        assert(es2.drop_first() =~= es.drop_first().remove(j - 1));
        assert(es[0].name@ != es[j].name@);
        lemma_entries_get_remove(es.drop_first(), j - 1);
        assert(entries_get(es2, es[j].name@) is None) by {
            assert(entries_get(es2, es[j].name@) == entries_get(
                es2.drop_first(),
                es[j].name@,
            ));
        }
        assert forall|x: Seq<char>|
            x != es[j].name@ implies #[trigger] entries_get(es2, x) == entries_get(
                es,
                x,
            ) by {
            if x == es[0].name@ {
                assert(entries_get(es2, x) == Some(es2[0].node));
                assert(entries_get(es, x) == Some(es[0].node));
            } else {
                assert(entries_get(es2, x) == entries_get(es2.drop_first(), x));
                assert(entries_get(es, x) == entries_get(es.drop_first(), x));
                assert(entries_get(es.drop_first().remove(j - 1), x) == entries_get(
                    es.drop_first(),
                    x,
                ));
            }
        }
    }
}

/// Removing an entry keeps the listing sorted.
proof fn lemma_sorted_remove(es: Seq<ChestDirectoryEntry>, j: int)
    requires
        dir_entries_sorted(es),
        0 <= j < es.len(),
    ensures
        dir_entries_sorted(es.remove(j)),
{
    es.remove_ensures(j);
    let es2 = es.remove(j);
    assert forall|a: int, b: int| 0 <= a < b < es2.len() implies lex_lt(
        #[trigger] es2[a].name@,
        #[trigger] es2[b].name@,
    ) by {
        if a < j && b < j {
        } else if a < j {
            assert(es2[b] == es[b + 1]);
        } else {
            assert(es2[a] == es[a + 1]);
            assert(es2[b] == es[b + 1]);
        }
    }
    assert(forall|i: int| 0 <= i < es2.len() ==> is_valid_name(#[trigger] es2[i].name@));
}

/// After a change that only removes what one name maps to, lookups along
/// other branches are unchanged and the whole removed subtree is gone.
proof fn lemma_remove_final_frame(d1: ChestDirectory, d2: ChestDirectory, name: Seq<char>)
    requires
        dir_get(d2, name) is None,
        forall|x: Seq<char>| x != name ==> #[trigger] dir_get(d2, x) == dir_get(d1, x),
    ensures
        forall|q: Seq<Seq<char>>|
            is_path_prefix(seq![name], q) ==> #[trigger] dir_lookup(d2, q) is None,
        forall|q: Seq<Seq<char>>|
            !is_path_prefix(q, seq![name]) && !is_path_prefix(seq![name], q)
                ==> #[trigger] dir_lookup(d2, q) == dir_lookup(d1, q),
{
    let rest = seq![name];
    assert(rest[0] == name);
    assert forall|q: Seq<Seq<char>>|
        is_path_prefix(rest, q) implies #[trigger] dir_lookup(d2, q) is None by {
        assert(q.len() >= 1);
        assert(q[0] == rest.take(1)[0]);
    }
    assert forall|q: Seq<Seq<char>>|
        !is_path_prefix(q, rest) && !is_path_prefix(rest, q) implies #[trigger] dir_lookup(
        d2,
        q,
    ) == dir_lookup(d1, q) by {
        if q.len() == 0 {
            assert(q =~= rest.take(0));
            assert(is_path_prefix(q, rest));
        } else if q[0] == name {
            assert(rest =~= q.take(1));
            assert(is_path_prefix(rest, q));
        } else {
            assert(dir_get(d2, q[0]) == dir_get(d1, q[0]));
        }
    }
}

/// After a removal inside the subdirectory under one name, lookups along
/// other branches are unchanged and the removed subtree is gone.
proof fn lemma_remove_child_frame(
    d1: ChestDirectory,
    d2: ChestDirectory,
    name: Seq<char>,
    tail: Seq<Seq<char>>,
    sub1: ChestDirectory,
    sub2: ChestDirectory,
)
    requires
        tail.len() >= 1,
        dir_get(d1, name) == Some(ChestNode::Directory(sub1)),
        dir_get(d2, name) == Some(ChestNode::Directory(sub2)),
        forall|x: Seq<char>| x != name ==> #[trigger] dir_get(d2, x) == dir_get(d1, x),
        forall|t: Seq<Seq<char>>|
            is_path_prefix(tail, t) ==> #[trigger] dir_lookup(sub2, t) is None,
        forall|t: Seq<Seq<char>>|
            !is_path_prefix(t, tail) && !is_path_prefix(tail, t)
                ==> #[trigger] dir_lookup(sub2, t) == dir_lookup(sub1, t),
    ensures
        forall|q: Seq<Seq<char>>|
            is_path_prefix(seq![name] + tail, q) ==> #[trigger] dir_lookup(d2, q) is None,
        forall|q: Seq<Seq<char>>|
            !is_path_prefix(q, seq![name] + tail) && !is_path_prefix(seq![name] + tail, q)
                ==> #[trigger] dir_lookup(d2, q) == dir_lookup(d1, q),
{
    let rest = seq![name] + tail;
    assert(rest[0] == name);
    assert(rest.drop_first() =~= tail);
    assert forall|q: Seq<Seq<char>>|
        is_path_prefix(rest, q) implies #[trigger] dir_lookup(d2, q) is None by {
        assert(q.len() >= rest.len() >= 2);
        assert(q[0] == rest.take(rest.len() as int)[0]);
        assert(q[0] == name);
        lemma_prefix_uncons(rest, q);
        assert(is_path_prefix(tail, q.drop_first()));
        assert(dir_lookup(sub2, q.drop_first()) is None);
    }
    assert forall|q: Seq<Seq<char>>|
        !is_path_prefix(q, rest) && !is_path_prefix(rest, q) implies #[trigger] dir_lookup(
        d2,
        q,
    ) == dir_lookup(d1, q) by {
        if q.len() == 0 {
            assert(q =~= rest.take(0));
            assert(is_path_prefix(q, rest));
        } else if q[0] != name {
            assert(dir_get(d2, q[0]) == dir_get(d1, q[0]));
        } else {
            let t = q.drop_first();
            lemma_prefix_uncons(q, rest);
            lemma_prefix_uncons(rest, q);
            assert(!is_path_prefix(t, tail) && !is_path_prefix(tail, t));
            assert(dir_lookup(sub2, t) == dir_lookup(sub1, t));
        }
    }
}

/// Removes the file or subtree at the remaining components. The target
/// must exist, so the removal always succeeds.
fn remove_node(dir: &mut ChestDirectory, parts: &Vec<String>, i: usize)
    requires
        dir_wf(*old(dir)),
        i < parts@.len(),
        dir_lookup(*old(dir), seq_views(parts@).skip(i as int)) is Some,
    ensures
        dir_wf(*final(dir)),
        forall|q: Seq<Seq<char>>|
            is_path_prefix(seq_views(parts@).skip(i as int), q) ==> #[trigger] dir_lookup(
                *final(dir),
                q,
            ) is None,
        forall|q: Seq<Seq<char>>|
            !is_path_prefix(q, seq_views(parts@).skip(i as int)) && !is_path_prefix(
                seq_views(parts@).skip(i as int),
                q,
            ) ==> #[trigger] dir_lookup(*final(dir), q) == dir_lookup(*old(dir), q),
    decreases parts@.len() - i,
{
    let n = parts.len();
    let ghost rest = seq_views(parts@).skip(i as int);
    let ghost d1 = *dir;
    proof {
        assert(rest[0] == parts@[i as int]@);
        assert forall|a: int, b: int| 0 <= a < b < d1.entries@.len() implies #[trigger] d1
            .entries@[a].name@ != #[trigger] d1.entries@[b].name@ by {
            lemma_sorted_distinct(d1.entries@, a, b);
        }
    }
    match dir_find_index(dir, parts[i].as_str()) {
        None => {
            proof {
                lemma_entries_get_none(d1.entries@, rest[0]);
                assert(false);
            }
        },
        Some(j) => {
            proof {
                lemma_dir_get_at(d1, j as int);
            }
            if i + 1 == n {
                let _ = dir.entries.remove(j);
                proof {
                    assert(rest.len() == 1);
                    lemma_entries_get_remove(d1.entries@, j as int);
                    lemma_sorted_remove(d1.entries@, j as int);
                    d1.entries@.remove_ensures(j as int);
                    assert(dir_wf(*dir)) by {
                        assert(forall|k: int|
                            0 <= k < dir.entries@.len() ==> node_wf(
                                #[trigger] dir.entries@[k].node,
                            ));
                    }
                    lemma_remove_final_frame(d1, *dir, rest[0]);
                    assert(rest =~= seq![rest[0]]);
                }
            } else {
                let ghost rest2 = seq_views(parts@).skip(i + 1);
                proof {
                    assert(rest.drop_first() =~= rest2);
                }
                let entry = dir.entries.remove(j);
                let name_string = entry.name;
                match entry.node {
                    ChestNode::Directory(mut sub) => {
                        let ghost sub1 = sub;
                        proof {
                            assert(node_wf(d1.entries@[j as int].node));
                            assert(dir_lookup(sub1, rest2) is Some);
                        }
                        remove_node(&mut sub, parts, i + 1);
                        let e_new = ChestDirectoryEntry {
                            name: name_string,
                            node: ChestNode::Directory(sub),
                        };
                        let ghost e2 = e_new;
                        dir.entries.insert(j, e_new);
                        proof {
                            lemma_update_via_remove_insert(d1.entries@, j as int, e2);
                            lemma_entries_get_update(d1.entries@, j as int, e2);
                            lemma_sorted_update(d1.entries@, j as int, e2);
                            assert(dir_wf(*dir)) by {
                                assert(forall|k: int|
                                    0 <= k < dir.entries@.len() ==> node_wf(
                                        #[trigger] dir.entries@[k].node,
                                    ));
                            }
                            lemma_remove_child_frame(
                                d1,
                                *dir,
                                rest[0],
                                rest2,
                                sub1,
                                e2.node->Directory_0,
                            );
                            assert(rest =~= seq![rest[0]] + rest2);
                        }
                    },
                    ChestNode::File(_) => {
                        proof {
                            assert(dir_lookup(d1, rest) is None);
                            assert(false);
                        }
                    },
                }
            }
        },
    }
}



/// What a replacement string yields when it replaces a whole path: a
/// leading `/` marks the replacement as absolute and is dropped.
pub open spec fn replacement_applied(replacement: Seq<char>) -> Seq<char> {
    if replacement.len() > 0 && replacement[0] == '/' {
        replacement.drop_first()
    } else {
        replacement
    }
}

/// The path transformation rule: an exact match replaces the whole path;
/// a pattern without a leading `/` may instead match whole trailing
/// components, keeping the prefix unless the replacement is absolute.
pub open spec fn transform_path_spec(
    path: Seq<char>,
    pattern: Seq<char>,
    replacement: Seq<char>,
) -> Option<Seq<char>> {
    if path == pattern || (pattern.len() > 0 && pattern[0] == '/' && pattern.drop_first()
        == path) {
        Some(replacement_applied(replacement))
    } else if !(pattern.len() > 0 && pattern[0] == '/') && path.len() > pattern.len()
        && path.skip(path.len() - pattern.len() - 1) == seq!['/'] + pattern {
        if replacement.len() > 0 && replacement[0] == '/' {
            Some(replacement.drop_first())
        } else {
            Some(path.take(path.len() - pattern.len() - 1) + seq!['/'] + replacement)
        }
    } else {
        None
    }
}


/// Below a file, every longer walk finds nothing.
proof fn lemma_lookup_past_file(d: ChestDirectory, p: Seq<Seq<char>>, q: Seq<Seq<char>>)
    requires
        dir_lookup(d, p) matches Some(ChestNode::File(_)),
        is_path_prefix(p, q),
        p != q,
        p.len() >= 1,
    ensures
        dir_lookup(d, q) is None,
    decreases p.len(),
{
    assert(p[0] == q[0]) by {
        assert(p[0] == q.take(p.len() as int)[0]);
    }
    assert(q.len() > p.len()) by {
        if q.len() == p.len() {
            assert(p =~= q);
        }
    }
    match dir_get(d, p[0]) {
        Some(ChestNode::Directory(sub)) => {
            assert(p.len() >= 2);
            lemma_prefix_uncons(p, q);
            assert(p.drop_first() != q.drop_first()) by {
                if p.drop_first() == q.drop_first() {
                    assert(p.len() == q.len());
                }
            }
            lemma_lookup_past_file(sub, p.drop_first(), q.drop_first());
        },
        Some(ChestNode::File(_)) => {
            assert(p.len() == 1);
            assert(q.len() >= 2);
        },
        None => {
            assert(false);
        },
    }
}

/// A conflicting write has a concrete obstacle: a file at a proper
/// prefix of the path, or a directory at the path itself.
proof fn lemma_conflict_witness(d: ChestDirectory, parts: Seq<Seq<char>>)
    requires
        dir_wf(d),
        parts.len() >= 1,
        write_conflict(d, parts),
    ensures
        (exists|m: int|
            1 <= m < parts.len() && (#[trigger] dir_lookup(d, parts.take(m))) matches Some(
                ChestNode::File(_),
            )) || (dir_lookup(d, parts) matches Some(ChestNode::Directory(_))),
    decreases parts.len(),
{
    lemma_entries_get_wf(d.entries@, parts[0]);
    match dir_get(d, parts[0]) {
        Some(ChestNode::File(_)) => {
            assert(write_conflict(d, parts) == (parts.len() > 1));
            assert(parts.len() > 1);
            assert(parts.take(1) =~= seq![parts[0]]);
            assert(dir_lookup(d, parts.take(1)) matches Some(ChestNode::File(_)));
        },
        Some(ChestNode::Directory(sub)) => {
            if parts.len() == 1 {
            } else {
                lemma_conflict_witness(sub, parts.drop_first());
                if exists|m: int|
                    1 <= m < parts.drop_first().len() && (#[trigger] dir_lookup(
                        sub,
                        parts.drop_first().take(m),
                    )) matches Some(ChestNode::File(_)) {
                    let m = choose|m: int|
                        1 <= m < parts.drop_first().len() && (#[trigger] dir_lookup(
                            sub,
                            parts.drop_first().take(m),
                        )) matches Some(ChestNode::File(_));
                    assert(parts.take(m + 1).drop_first() =~= parts.drop_first().take(m));
                    assert(parts.take(m + 1)[0] == parts[0]);
                    assert(dir_lookup(d, parts.take(m + 1)) == dir_lookup(
                        sub,
                        parts.drop_first().take(m),
                    ));
                    assert(dir_lookup(d, parts.take(m + 1)) matches Some(
                        ChestNode::File(_),
                    ));
                } else {
                    assert(dir_lookup(sub, parts.drop_first()) matches Some(
                        ChestNode::Directory(_),
                    ));
                    assert(dir_lookup(d, parts) == dir_lookup(sub, parts.drop_first()));
                }
            }
        },
        None => {
            assert(false);
        },
    }
}

/// The components of an archive entry name are all valid file names.
pub open spec fn entry_name_parts_valid(n: Seq<char>) -> bool {
    forall|j: int|
        0 <= j < file_lookup_parts(n).len() ==> is_valid_name(
            #[trigger] file_lookup_parts(n)[j],
        )
}

/// The file names of an archive can all be written into one virtual
/// tree: every non-marker name walks valid components, and no two
/// distinct walks are proper prefixes of one another (a file would then
/// stand where a directory is needed).
pub open spec fn archive_names_writable(m: Map<Seq<char>, Seq<u8>>) -> bool {
    &&& (forall|n: Seq<char>|
        #[trigger] m.dom().contains(n) && !is_directory_marker(n)
            ==> entry_name_parts_valid(n))
    &&& (forall|n1: Seq<char>, n2: Seq<char>|
        #[trigger] m.dom().contains(n1) && #[trigger] m.dom().contains(n2)
            && !is_directory_marker(n1) && !is_directory_marker(n2) && file_lookup_parts(
            n1,
        ) != file_lookup_parts(n2) ==> !is_path_prefix(
            file_lookup_parts(n1),
            file_lookup_parts(n2),
        ))
}

/// The name under which a path is looked up in the backing archive: one
/// leading `/` is stripped.
pub open spec fn archive_lookup_name(path: Seq<char>) -> Seq<char> {
    if path.len() > 0 && path[0] == '/' {
        path.drop_first()
    } else {
        path
    }
}

/// An archive entry name that only marks a directory: it ends with `/`.
pub open spec fn is_directory_marker(name: Seq<char>) -> bool {
    name.len() > 0 && name.last() == '/'
}

/// The paths of all files named `filename` in the subtree of `d`,
/// starting at entry `i`, each path prefixed by `prefix`. Listed in tree
/// order.
pub open spec fn find_in_dir_from(
    d: ChestDirectory,
    i: int,
    prefix: Seq<char>,
    filename: Seq<char>,
) -> Seq<Seq<char>>
    decreases d, d.entries@.len() - i,
{
    if i < 0 || i >= d.entries@.len() {
        Seq::<Seq<char>>::empty()
    } else {
        let e = d.entries@[i];
        let here = match e.node {
            ChestNode::File(_) => if e.name@ == filename {
                seq![prefix + e.name@]
            } else {
                Seq::<Seq<char>>::empty()
            },
            ChestNode::Directory(sub) => find_in_dir_from(
                sub,
                0,
                prefix + e.name@ + seq!['/'],
                filename,
            ),
        };
        here + find_in_dir_from(d, i + 1, prefix, filename)
    }
}

/// The uncompressed size that the backing archive records for a path.
pub open spec fn archive_size_of(backing: Option<Seq<u8>>, path: Seq<char>) -> int {
    match backing {
        None => 0,
        Some(b) => if crate::archive::archive_valid(b)
            && crate::archive::archive_contents(b).dom().contains(path) {
            crate::archive::archive_contents(b)[path].len() as int
        } else {
            0
        },
    }
}

/// The total uncompressed size of all files in the subtree of `d`,
/// starting at entry `i`.
pub open spec fn size_in_dir_from(
    d: ChestDirectory,
    i: int,
    prefix: Seq<char>,
    backing: Option<Seq<u8>>,
) -> int
    decreases d, d.entries@.len() - i,
{
    if i < 0 || i >= d.entries@.len() {
        0
    } else {
        let e = d.entries@[i];
        let here = match e.node {
            ChestNode::File(ChestFile::InMemory(v)) => v@.len() as int,
            ChestNode::File(ChestFile::ArchiveBacked) => archive_size_of(
                backing,
                prefix + e.name@,
            ),
            ChestNode::Directory(sub) => size_in_dir_from(
                sub,
                0,
                prefix + e.name@ + seq!['/'],
                backing,
            ),
        };
        here + size_in_dir_from(d, i + 1, prefix, backing)
    }
}

/// Sizes never sum to a negative number.
pub proof fn lemma_size_nonneg(
    d: ChestDirectory,
    i: int,
    prefix: Seq<char>,
    backing: Option<Seq<u8>>,
)
    ensures
        size_in_dir_from(d, i, prefix, backing) >= 0,
    decreases d, d.entries@.len() - i,
{
    if 0 <= i < d.entries@.len() {
        let e = d.entries@[i];
        match e.node {
            ChestNode::File(_) => {},
            ChestNode::Directory(sub) => {
                lemma_size_nonneg(sub, 0, prefix + e.name@ + seq!['/'], backing);
            },
        }
        lemma_size_nonneg(d, i + 1, prefix, backing);
    }
}

/// All files in the subtree of `d` from entry `i`, as pairs of full
/// path (prefixed by `prefix`) and file, in tree order.
pub open spec fn files_in_dir_from(d: ChestDirectory, i: int, prefix: Seq<char>) -> Seq<
    (Seq<char>, ChestFile),
>
    decreases d, d.entries@.len() - i,
{
    if i < 0 || i >= d.entries@.len() {
        Seq::<(Seq<char>, ChestFile)>::empty()
    } else {
        let e = d.entries@[i];
        let here = match e.node {
            ChestNode::File(f) => seq![(prefix + e.name@, f)],
            ChestNode::Directory(sub) => files_in_dir_from(
                sub,
                0,
                prefix + e.name@ + seq!['/'],
            ),
        };
        here + files_in_dir_from(d, i + 1, prefix)
    }
}

/// All directories in the subtree of `d` from entry `i`, as full paths.
pub open spec fn dirs_in_dir_from(d: ChestDirectory, i: int, prefix: Seq<char>) -> Seq<
    Seq<char>,
>
    decreases d, d.entries@.len() - i,
{
    if i < 0 || i >= d.entries@.len() {
        Seq::<Seq<char>>::empty()
    } else {
        let e = d.entries@[i];
        let here = match e.node {
            ChestNode::File(_) => Seq::<Seq<char>>::empty(),
            ChestNode::Directory(sub) => seq![prefix + e.name@] + dirs_in_dir_from(
                sub,
                0,
                prefix + e.name@ + seq!['/'],
            ),
        };
        here + dirs_in_dir_from(d, i + 1, prefix)
    }
}

/// The payload with which a file is stored into an archive: in-memory
/// bytes as they stand, archive backed payloads read from the backing
/// archive. `None` when the payload cannot be obtained.
pub open spec fn resolved_file(
    f: ChestFile,
    path: Seq<char>,
    backing: Option<Seq<u8>>,
) -> Option<Seq<u8>> {
    match f {
        ChestFile::InMemory(v) => Some(v@),
        ChestFile::ArchiveBacked => match backing {
            None => None,
            Some(b) => if crate::archive::archive_valid(b)
                && crate::archive::archive_contents(b).dom().contains(path) {
                Some(crate::archive::archive_contents(b)[path])
            } else {
                None
            },
        },
    }
}

/// A path consists of `prefix`, then `name`, then either nothing or a
/// `/`-led remainder.
pub open spec fn path_extends(p: Seq<char>, prefix: Seq<char>, name: Seq<char>) -> bool {
    &&& p.len() >= prefix.len() + name.len()
    &&& p.take(prefix.len() + name.len() as int) == prefix + name
    &&& (p.len() == prefix.len() + name.len() || p[prefix.len() + name.len() as int] == '/')
}

/// Two paths that extend the same prefix with different valid names
/// differ.
proof fn lemma_extends_distinct(
    prefix: Seq<char>,
    n1: Seq<char>,
    n2: Seq<char>,
    p: Seq<char>,
    q: Seq<char>,
)
    requires
        is_valid_name(n1),
        is_valid_name(n2),
        n1 != n2,
        path_extends(p, prefix, n1),
        path_extends(q, prefix, n2),
    ensures
        p != q,
{
    let a = prefix.len() as int;
    let l1 = n1.len() as int;
    let l2 = n2.len() as int;
    if p == q {
        if l1 == l2 {
            assert forall|x: int| 0 <= x < l1 implies n1[x] == n2[x] by {
                assert(p.take(a + l1)[a + x] == (prefix + n1)[a + x]);
                assert(q.take(a + l2)[a + x] == (prefix + n2)[a + x]);
                assert(p[a + x] == n1[x]);
                assert(q[a + x] == n2[x]);
            }
            assert(n1 =~= n2);
        } else if l1 < l2 {
            assert(q.take(a + l2)[a + l1] == (prefix + n2)[a + l1]);
            assert(q[a + l1] == n2[l1]);
            assert(valid_name_char(n2[l1]));
            assert(p.len() == a + l1);
            assert(q.len() >= a + l2);
            assert(false);
        } else {
            assert(p.take(a + l1)[a + l2] == (prefix + n1)[a + l2]);
            assert(p[a + l2] == n1[l2]);
            assert(valid_name_char(n1[l2]));
            assert(q.len() == a + l2);
            assert(p.len() >= a + l1);
            assert(false);
        }
    }
}

/// A path that extends a deeper prefix also extends the enclosing one.
proof fn lemma_extends_lift(
    p: Seq<char>,
    prefix: Seq<char>,
    name: Seq<char>,
    subname: Seq<char>,
)
    requires
        path_extends(p, prefix + name + seq!['/'], subname),
    ensures
        path_extends(p, prefix, name),
{
    let a = prefix.len() as int;
    let l = name.len() as int;
    let deep = prefix + name + seq!['/'];
    let k = deep.len() + subname.len();
    assert(p.len() >= a + l + 1);
    assert forall|x: int| 0 <= x < a + l implies p[x] == (prefix + name)[x] by {
        assert(p.take(k as int)[x] == (deep + subname)[x]);
    }
    assert(p.take(a + l) =~= prefix + name);
    assert(p.take(k as int)[a + l] == (deep + subname)[a + l]);
    assert(p[a + l] == '/');
}

/// Every file path in the subtree extends the prefix with the name of
/// one of the entries walked.
proof fn lemma_flat_shape(d: ChestDirectory, i: int, prefix: Seq<char>)
    requires
        dir_wf(d),
    ensures
        forall|k: int|
            #![trigger files_in_dir_from(d, i, prefix)[k]]
            0 <= k < files_in_dir_from(d, i, prefix).len() ==> exists|e_idx: int|
                i <= e_idx < d.entries@.len() && path_extends(
                    files_in_dir_from(d, i, prefix)[k].0,
                    prefix,
                    d.entries@[e_idx].name@,
                ),
    decreases d, d.entries@.len() - i,
{
    let flat = files_in_dir_from(d, i, prefix);
    if 0 <= i < d.entries@.len() {
        let e = d.entries@[i];
        lemma_flat_shape(d, i + 1, prefix);
        let rest = files_in_dir_from(d, i + 1, prefix);
        assert forall|k: int|
            #![trigger flat[k]]
            0 <= k < flat.len() implies exists|e_idx: int|
                i <= e_idx < d.entries@.len() && path_extends(
                    flat[k].0,
                    prefix,
                    d.entries@[e_idx].name@,
                ) by {
            match e.node {
                ChestNode::File(f) => {
                    if k == 0 {
                        let pn = prefix + e.name@;
                        assert(pn.take(prefix.len() + e.name@.len() as int) =~= pn);
                        assert(path_extends(flat[k].0, prefix, d.entries@[i].name@));
                    } else {
                        assert(flat[k] == rest[k - 1]);
                    }
                },
                ChestNode::Directory(sub) => {
                    assert(node_wf(d.entries@[i].node));
                    let deep = prefix + e.name@ + seq!['/'];
                    lemma_flat_shape(sub, 0, deep);
                    let here = files_in_dir_from(sub, 0, deep);
                    if k < here.len() {
                        assert(flat[k] == here[k]);
                        let s_idx = choose|s_idx: int|
                            0 <= s_idx < sub.entries@.len() && path_extends(
                                here[k].0,
                                deep,
                                sub.entries@[s_idx].name@,
                            );
                        lemma_extends_lift(
                            here[k].0,
                            prefix,
                            e.name@,
                            sub.entries@[s_idx].name@,
                        );
                        assert(path_extends(flat[k].0, prefix, d.entries@[i].name@));
                    } else {
                        assert(flat[k] == rest[k - here.len()]);
                    }
                },
            }
        }
    }
}

/// The file paths of a well-formed subtree are distinct.
proof fn lemma_flat_distinct(d: ChestDirectory, i: int, prefix: Seq<char>)
    requires
        dir_wf(d),
    ensures
        forall|a: int, b: int|
            0 <= a < b < files_in_dir_from(d, i, prefix).len()
                ==> #[trigger] files_in_dir_from(d, i, prefix)[a].0
                != #[trigger] files_in_dir_from(d, i, prefix)[b].0,
    decreases d, d.entries@.len() - i,
{
    let flat = files_in_dir_from(d, i, prefix);
    if 0 <= i < d.entries@.len() {
        let e = d.entries@[i];
        lemma_flat_distinct(d, i + 1, prefix);
        lemma_flat_shape(d, i + 1, prefix);
        let rest = files_in_dir_from(d, i + 1, prefix);
        let ghost deep = prefix + e.name@ + seq!['/'];
        match e.node {
            ChestNode::Directory(sub) => {
                assert(node_wf(d.entries@[i].node));
                lemma_flat_distinct(sub, 0, deep);
                lemma_flat_shape(sub, 0, deep);
            },
            ChestNode::File(_) => {},
        }
        assert forall|a: int, b: int|
            0 <= a < b < flat.len() implies #[trigger] flat[a].0 != #[trigger] flat[b].0
            by {
            let here_len = flat.len() - rest.len();
            if a >= here_len {
                assert(flat[a] == rest[a - here_len]);
                assert(flat[b] == rest[b - here_len]);
            } else if b >= here_len {
                // `a` stands in this entry's own files, `b` in a later
                // entry's: the component after `prefix` differs.
                assert(flat[b] == rest[b - here_len]);
                let e_idx = choose|e_idx: int|
                    i + 1 <= e_idx < d.entries@.len() && path_extends(
                        rest[b - here_len].0,
                        prefix,
                        d.entries@[e_idx].name@,
                    );
                lemma_sorted_distinct(d.entries@, i, e_idx);
                match e.node {
                    ChestNode::File(f) => {
                        let pn = prefix + e.name@;
                        assert(pn.take(prefix.len() + e.name@.len() as int) =~= pn);
                        assert(path_extends(flat[a].0, prefix, e.name@));
                        lemma_extends_distinct(
                            prefix,
                            e.name@,
                            d.entries@[e_idx].name@,
                            flat[a].0,
                            flat[b].0,
                        );
                    },
                    ChestNode::Directory(sub) => {
                        let here = files_in_dir_from(sub, 0, deep);
                        assert(flat[a] == here[a]);
                        let s_idx = choose|s_idx: int|
                            0 <= s_idx < sub.entries@.len() && path_extends(
                                here[a].0,
                                deep,
                                sub.entries@[s_idx].name@,
                            );
                        lemma_extends_lift(
                            here[a].0,
                            prefix,
                            e.name@,
                            sub.entries@[s_idx].name@,
                        );
                        lemma_extends_distinct(
                            prefix,
                            e.name@,
                            d.entries@[e_idx].name@,
                            flat[a].0,
                            flat[b].0,
                        );
                    },
                }
            } else {
                // both in this entry's own files
                match e.node {
                    ChestNode::File(_) => {
                        assert(false);
                    },
                    ChestNode::Directory(sub) => {
                        let here = files_in_dir_from(sub, 0, deep);
                        assert(flat[a] == here[a]);
                        assert(flat[b] == here[b]);
                    },
                }
            }
        }
    }
}

/// The view of optionally held backing bytes.
pub open spec fn backing_view(b: Option<Vec<u8>>) -> Option<Seq<u8>> {
    match b {
        Some(v) => Some(v@),
        None => None,
    }
}

/// The saturating sum of the sizes of the first `n` extracted entries.
pub open spec fn sat_size_prefix(fs: Seq<crate::archive::ArchiveEntry>, n: int) -> u64
    decreases n,
{
    if n <= 0 {
        0u64
    } else {
        let prev = sat_size_prefix(fs, n - 1);
        if prev + fs[n - 1].data@.len() > u64::MAX {
            u64::MAX
        } else {
            (prev + fs[n - 1].data@.len()) as u64
        }
    }
}

/// The saturating sum of the payload sizes of the first `n` resolved
/// entries.
pub open spec fn sat_model_size_prefix(ms: Seq<(Seq<char>, Seq<u8>)>, n: int) -> u64
    decreases n,
{
    if n <= 0 {
        0u64
    } else {
        let prev = sat_model_size_prefix(ms, n - 1);
        if prev + ms[n - 1].1.len() > u64::MAX {
            u64::MAX
        } else {
            (prev + ms[n - 1].1.len()) as u64
        }
    }
}

/// Saturating addition on `u64`.
fn sat_add_u64(a: u64, b: u64) -> (r: u64)
    ensures
        r as int == if a + b > u64::MAX as int {
            u64::MAX as int
        } else {
            a + b
        },
{
    if a > u64::MAX - b {
        u64::MAX
    } else {
        a + b
    }
}

/// Appends the paths of all files named `filename` under `d` to `out`.
fn find_all_from(
    d: &ChestDirectory,
    i: usize,
    prefix: &str,
    filename: &str,
    out: &mut Vec<String>,
)
    requires
        dir_wf(*d),
        i <= d.entries@.len(),
    ensures
        seq_views(final(out)@) == seq_views(old(out)@) + find_in_dir_from(
            *d,
            i as int,
            prefix@,
            filename@,
        ),
    decreases *d, d.entries@.len() - i,
{
    if i == d.entries.len() {
        proof {
            assert(seq_views(out@) =~= seq_views(out@) + find_in_dir_from(
                *d,
                i as int,
                prefix@,
                filename@,
            ));
        }
        return;
    }
    let ghost out0 = seq_views(out@);
    let e = &d.entries[i];
    match &e.node {
        ChestNode::File(_) => {
            if str_eq(e.name.as_str(), filename) {
                let p = str_concat(prefix, e.name.as_str());
                out.push(p);
            }
        },
        ChestNode::Directory(sub) => {
            let p1 = str_concat(prefix, e.name.as_str());
            proof {
                reveal_strlit("/");
            }
            let p2 = str_concat(p1.as_str(), "/");
            proof {
                assert("/"@ =~= seq!['/']);
                assert(p2@ == prefix@ + e.name@ + seq!['/']);
                assert(node_wf(d.entries@[i as int].node));
            }
            find_all_from(sub, 0, p2.as_str(), filename, out);
        },
    }
    proof {
        let found_here = match d.entries@[i as int].node {
            ChestNode::File(_) => if d.entries@[i as int].name@ == filename@ {
                seq![prefix@ + d.entries@[i as int].name@]
            } else {
                Seq::<Seq<char>>::empty()
            },
            ChestNode::Directory(sub) => find_in_dir_from(
                sub,
                0,
                prefix@ + d.entries@[i as int].name@ + seq!['/'],
                filename@,
            ),
        };
        assert(seq_views(out@) =~= out0 + found_here);
    }
    let ghost mid = seq_views(out@);
    find_all_from(d, i + 1, prefix, filename, out);
    proof {
        let rest = find_in_dir_from(*d, i + 1, prefix@, filename@);
        assert(seq_views(out@) == mid + rest);
        assert(seq_views(out@) =~= out0 + find_in_dir_from(
            *d,
            i as int,
            prefix@,
            filename@,
        ));
    }
}

/// The total uncompressed size of the subtree of `d` from entry `i`,
/// saturating at the largest `u64`.
fn total_size_from(d: &ChestDirectory, i: usize, prefix: &str, backing: &Option<Vec<u8>>)
    -> (r: u64)
    requires
        dir_wf(*d),
        i <= d.entries@.len(),
    ensures
        (match backing_view(*backing) {
            None => true,
            Some(b) => crate::archive::archive_valid(b),
        }) ==> r as int == ({
            let total = size_in_dir_from(*d, i as int, prefix@, backing_view(*backing));
            if total > u64::MAX as int {
                u64::MAX as int
            } else {
                total
            }
        }),
    decreases *d, d.entries@.len() - i,
{
    if i == d.entries.len() {
        return 0;
    }
    let e = &d.entries[i];
    let here: u64 = match &e.node {
        ChestNode::File(ChestFile::InMemory(v)) => v.len() as u64,
        ChestNode::File(ChestFile::ArchiveBacked) => {
            let full = str_concat(prefix, e.name.as_str());
            match backing {
                None => 0,
                Some(b) => crate::archive::archive_entry_size(b, full.as_str()),
            }
        },
        ChestNode::Directory(sub) => {
            let p1 = str_concat(prefix, e.name.as_str());
            proof {
                reveal_strlit("/");
            }
            let p2 = str_concat(p1.as_str(), "/");
            proof {
                assert("/"@ =~= seq!['/']);
                assert(p2@ == prefix@ + e.name@ + seq!['/']);
                assert(node_wf(d.entries@[i as int].node));
            }
            total_size_from(sub, 0, p2.as_str(), backing)
        },
    };
    let rest = total_size_from(d, i + 1, prefix, backing);
    proof {
        lemma_size_nonneg(*d, i + 1, prefix@, backing_view(*backing));
        match &e.node {
            ChestNode::Directory(sub) => {
                lemma_size_nonneg(*sub, 0, prefix@ + e.name@ + seq!['/'], backing_view(
                    *backing,
                ));
            },
            _ => {},
        }
    }
    sat_add_u64(here, rest)
}

/// Every file of the tree can have its payload resolved.
pub open spec fn all_payloads_resolvable(d: ChestDirectory, backing: Option<Seq<u8>>) -> bool {
    forall|k: int|
        0 <= k < files_in_dir_from(d, 0, Seq::<char>::empty()).len() ==> resolved_file(
            (#[trigger] files_in_dir_from(d, 0, Seq::<char>::empty())[k]).1,
            files_in_dir_from(d, 0, Seq::<char>::empty())[k].0,
            backing,
        ) is Some
}

/// The archive entries that serialising the tree produces: every file
/// path with its resolved payload, in tree order.
pub open spec fn resolved_entry_models(
    d: ChestDirectory,
    backing: Option<Seq<u8>>,
) -> Seq<(Seq<char>, Seq<u8>)> {
    Seq::new(
        files_in_dir_from(d, 0, Seq::<char>::empty()).len(),
        |k: int|
            (
                files_in_dir_from(d, 0, Seq::<char>::empty())[k].0,
                resolved_file(
                    files_in_dir_from(d, 0, Seq::<char>::empty())[k].1,
                    files_in_dir_from(d, 0, Seq::<char>::empty())[k].0,
                    backing,
                )->Some_0,
            ),
    )
}

/// Flattened directory paths are non-empty and end in a name character.
proof fn lemma_dirs_path_shape(d: ChestDirectory, i: int, prefix: Seq<char>)
    requires
        dir_wf(d),
    ensures
        forall|k: int|
            0 <= k < dirs_in_dir_from(d, i, prefix).len()
                ==> ((#[trigger] dirs_in_dir_from(d, i, prefix)[k]).len() > 0
                && valid_name_char(dirs_in_dir_from(d, i, prefix)[k].last())),
    decreases d, d.entries@.len() - i,
{
    let ds = dirs_in_dir_from(d, i, prefix);
    if 0 <= i < d.entries@.len() {
        let e = d.entries@[i];
        assert(is_valid_name(e.name@));
        lemma_dirs_path_shape(d, i + 1, prefix);
        let rest = dirs_in_dir_from(d, i + 1, prefix);
        match e.node {
            ChestNode::File(_) => {
                assert(forall|k: int| 0 <= k < ds.len() ==> ds[k] == rest[k]);
            },
            ChestNode::Directory(sub) => {
                assert(node_wf(d.entries@[i].node));
                lemma_dirs_path_shape(sub, 0, prefix + e.name@ + seq!['/']);
                let here = seq![prefix + e.name@] + dirs_in_dir_from(
                    sub,
                    0,
                    prefix + e.name@ + seq!['/'],
                );
                assert forall|k: int|
                    0 <= k < ds.len() implies ((#[trigger] ds[k]).len() > 0
                    && valid_name_char(ds[k].last())) by {
                    if k < here.len() {
                        assert(ds[k] == here[k]);
                        if k == 0 {
                            assert(ds[0] == prefix + e.name@);
                            assert(ds[0].last() == e.name@.last());
                        } else {
                            assert(here[k] == dirs_in_dir_from(
                                sub,
                                0,
                                prefix + e.name@ + seq!['/'],
                            )[k - 1]);
                        }
                    } else {
                        assert(ds[k] == rest[k - here.len()]);
                    }
                }
            },
        }
    }
}

/// The backing bytes, if any, decode as an archive.
pub open spec fn backing_ok(b: Option<Seq<u8>>) -> bool {
    match b {
        None => true,
        Some(bytes) => crate::archive::archive_valid(bytes),
    }
}

/// A found entry is well formed and its name is valid.
proof fn lemma_entries_get_wf(es: Seq<ChestDirectoryEntry>, name: Seq<char>)
    requires
        forall|i: int| 0 <= i < es.len() ==> is_valid_name(#[trigger] es[i].name@),
        forall|i: int| 0 <= i < es.len() ==> node_wf(#[trigger] es[i].node),
    ensures
        entries_get(es, name) matches Some(n) ==> (node_wf(n) && is_valid_name(name)),
    decreases es.len(),
{
    if es.len() > 0 {
        assert(forall|i: int| 1 <= i < es.len() ==> es[i] == #[trigger] es.drop_first()[
            i - 1
        ]);
        lemma_entries_get_wf(es.drop_first(), name);
    }
}

/// A path that names a file can be written over: its components are
/// valid names and the write cannot conflict.
proof fn lemma_file_write_ready(d: ChestDirectory, parts: Seq<Seq<char>>)
    requires
        dir_wf(d),
        parts.len() >= 1,
        dir_lookup(d, parts) matches Some(ChestNode::File(_)),
    ensures
        !write_conflict(d, parts),
        forall|j: int| 0 <= j < parts.len() ==> is_valid_name(#[trigger] parts[j]),
    decreases parts.len(),
{
    lemma_entries_get_wf(d.entries@, parts[0]);
    match dir_get(d, parts[0]) {
        Some(ChestNode::Directory(sub)) => {
            assert(parts.len() > 1) by {
                if parts.len() == 1 {
                    assert(dir_lookup(d, parts) == Some(ChestNode::Directory(sub)));
                }
            }
            lemma_file_write_ready(sub, parts.drop_first());
            assert forall|j: int| 0 <= j < parts.len() implies is_valid_name(
                #[trigger] parts[j],
            ) by {
                if j >= 1 {
                    assert(parts[j] == parts.drop_first()[j - 1]);
                    assert(is_valid_name(parts.drop_first()[j - 1]));
                }
            }
        },
        Some(ChestNode::File(_)) => {
            assert(parts.len() == 1);
        },
        None => {
            assert(false);
        },
    }
}

/// Collects all files of a subtree with their payloads resolved, and
/// all directory paths, appending to `files` and `dirs`.
fn collect_resolved_from(
    d: &ChestDirectory,
    i: usize,
    prefix: &str,
    backing: &Option<Vec<u8>>,
    files: &mut Vec<crate::archive::ArchiveEntry>,
    dirs: &mut Vec<String>,
) -> (r: Result<(), ChestError>)
    requires
        dir_wf(*d),
        i <= d.entries@.len(),
    ensures
        r is Ok ==> ({
            let flat = files_in_dir_from(*d, i as int, prefix@);
            &&& final(files)@.len() == old(files)@.len() + flat.len()
            &&& (forall|k: int|
                0 <= k < old(files)@.len() ==> #[trigger] final(files)@[k] == old(
                    files,
                )@[k])
            &&& (forall|k: int|
                0 <= k < flat.len() ==> (#[trigger] final(files)@[old(files)@.len()
                    + k].path@) == flat[k].0)
            &&& (backing_ok(backing_view(*backing)) ==> (forall|k: int|
                0 <= k < flat.len() ==> Some(
                    (#[trigger] final(files)@[old(files)@.len() + k].data@),
                ) == resolved_file(flat[k].1, flat[k].0, backing_view(*backing))))
            &&& seq_views(final(dirs)@) == seq_views(old(dirs)@) + dirs_in_dir_from(
                *d,
                i as int,
                prefix@,
            )
        }),
        r is Err ==> (exists|k: int|
            0 <= k < files_in_dir_from(*d, i as int, prefix@).len() && resolved_file(
                (#[trigger] files_in_dir_from(*d, i as int, prefix@)[k]).1,
                files_in_dir_from(*d, i as int, prefix@)[k].0,
                backing_view(*backing),
            ) is None),
    decreases *d, d.entries@.len() - i,
{
    if i == d.entries.len() {
        proof {
            assert(seq_views(dirs@) =~= seq_views(dirs@) + dirs_in_dir_from(
                *d,
                i as int,
                prefix@,
            ));
        }
        return Ok(());
    }
    let ghost files0 = files@;
    let ghost dirs0 = seq_views(dirs@);
    let ghost flat = files_in_dir_from(*d, i as int, prefix@);
    let ghost flat_here = match d.entries@[i as int].node {
        ChestNode::File(f) => seq![(prefix@ + d.entries@[i as int].name@, f)],
        ChestNode::Directory(sub) => files_in_dir_from(
            sub,
            0,
            prefix@ + d.entries@[i as int].name@ + seq!['/'],
        ),
    };
    let ghost flat_rest = files_in_dir_from(*d, i + 1, prefix@);
    proof {
        assert(flat == flat_here + flat_rest);
    }
    let e = &d.entries[i];
    match &e.node {
        ChestNode::File(f) => {
            let full = str_concat(prefix, e.name.as_str());
            let ghost full_v = full@;
            let data = match f {
                ChestFile::InMemory(v) => v.clone(),
                ChestFile::ArchiveBacked => match backing {
                    None => {
                        proof {
                            assert(flat[0] == flat_here[0]);
                            assert(resolved_file(flat[0].1, flat[0].0, backing_view(
                                *backing,
                            )) is None);
                        }
                        return Err(ChestError::MissingBackingArchive);
                    },
                    Some(b) => match crate::archive::archive_entry_payload(
                        b,
                        full.as_str(),
                    ) {
                        Ok(v) => v,
                        Err(err) => {
                            proof {
                                assert(flat[0] == flat_here[0]);
                                assert(resolved_file(flat[0].1, flat[0].0, backing_view(
                                    *backing,
                                )) is None);
                            }
                            return Err(err);
                        },
                    },
                },
            };
            let ghost data_v = data@;
            files.push(crate::archive::ArchiveEntry { path: full, data });
            proof {
                assert(files@.len() == files0.len() + 1);
                assert(files@[files0.len() as int].path@ == full_v);
                assert(files@[files0.len() as int].data@ == data_v);
                assert(flat_here.len() == 1);
                assert(flat_here[0].0 == full_v);
                if backing_ok(backing_view(*backing)) {
                    assert(Some(data_v) == resolved_file(
                        flat_here[0].1,
                        flat_here[0].0,
                        backing_view(*backing),
                    ));
                }
            }
        },
        ChestNode::Directory(sub) => {
            let p1 = str_concat(prefix, e.name.as_str());
            dirs.push(p1.clone());
            proof {
                reveal_strlit("/");
            }
            let p2 = str_concat(p1.as_str(), "/");
            proof {
                assert("/"@ =~= seq!['/']);
                assert(p2@ == prefix@ + e.name@ + seq!['/']);
                assert(node_wf(d.entries@[i as int].node));
            }
            let ghost files_pre = files@;
            match collect_resolved_from(sub, 0, p2.as_str(), backing, files, dirs) {
                Ok(()) => {},
                Err(err) => {
                    proof {
                        let child_flat = files_in_dir_from(*sub, 0, p2@);
                        let k = choose|k: int|
                            0 <= k < child_flat.len() && resolved_file(
                                (#[trigger] child_flat[k]).1,
                                child_flat[k].0,
                                backing_view(*backing),
                            ) is None;
                        assert(flat[k] == flat_here[k]);
                    }
                    return Err(err);
                },
            }
        },
    }
    let ghost files_mid = files@;
    let ghost dirs_mid = seq_views(dirs@);
    let ghost dirs_here = match d.entries@[i as int].node {
        ChestNode::File(_) => Seq::<Seq<char>>::empty(),
        ChestNode::Directory(sub) => seq![prefix@ + d.entries@[i as int].name@]
            + dirs_in_dir_from(sub, 0, prefix@ + d.entries@[i as int].name@ + seq!['/']),
    };
    proof {
        assert(files_mid.len() == files0.len() + flat_here.len());
        assert(dirs_mid =~= dirs0 + dirs_here);
        assert(forall|k: int| 0 <= k < files0.len() ==> #[trigger] files_mid[k]
            == files0[k]);
        assert(forall|k: int|
            0 <= k < flat_here.len() ==> (#[trigger] files_mid[files0.len() + k].path@)
                == flat_here[k].0);
        if backing_ok(backing_view(*backing)) {
            assert(forall|k: int|
                0 <= k < flat_here.len() ==> Some(
                    (#[trigger] files_mid[files0.len() + k].data@),
                ) == resolved_file(flat_here[k].1, flat_here[k].0, backing_view(
                    *backing,
                )));
        }
    }
    let result = collect_resolved_from(d, i + 1, prefix, backing, files, dirs);
    proof {
        match result {
            Ok(_) => {
                assert(files@.len() == files0.len() + flat.len());
                assert forall|k: int| 0 <= k < flat.len() implies (#[trigger] files@[
                    files0.len() + k
                ].path@) == flat[k].0 by {
                    if k < flat_here.len() {
                        assert(files@[files0.len() + k] == files_mid[files0.len() + k]);
                        assert(flat[k] == flat_here[k]);
                    } else {
                        assert(files@[files_mid.len() + (k - flat_here.len())].path@
                            == flat_rest[k - flat_here.len()].0);
                        assert(flat[k] == flat_rest[k - flat_here.len()]);
                    }
                }
                if backing_ok(backing_view(*backing)) {
                    assert forall|k: int| 0 <= k < flat.len() implies Some(
                        (#[trigger] files@[files0.len() + k].data@),
                    ) == resolved_file(flat[k].1, flat[k].0, backing_view(*backing)) by {
                        if k < flat_here.len() {
                            assert(files@[files0.len() + k] == files_mid[files0.len()
                                + k]);
                            assert(flat[k] == flat_here[k]);
                        } else {
                            assert(Some(files@[files_mid.len() + (k - flat_here.len())].data@)
                                == resolved_file(
                                flat_rest[k - flat_here.len()].1,
                                flat_rest[k - flat_here.len()].0,
                                backing_view(*backing),
                            ));
                            assert(flat[k] == flat_rest[k - flat_here.len()]);
                        }
                    }
                }
                assert(seq_views(dirs@) =~= dirs0 + dirs_in_dir_from(
                    *d,
                    i as int,
                    prefix@,
                ));
            },
            Err(_) => {
                let k = choose|k: int|
                    0 <= k < flat_rest.len() && resolved_file(
                        (#[trigger] flat_rest[k]).1,
                        flat_rest[k].0,
                        backing_view(*backing),
                    ) is None;
                assert(flat[flat_here.len() + k] == flat_rest[k]);
            },
        }
    }
    result
}

/// Tracks a bundle of files called a chest. The tree of directories and
/// files lives in memory; file payloads may remain in a backing archive
/// until read.
pub struct Chest {
    root: ChestDirectory,
    backing: Option<Vec<u8>>,
    path: Option<String>,
}

impl Chest {
    /// Well-formedness: the directory tree is sorted, with valid names,
    /// throughout. Constructors establish it and every operation
    /// preserves it.
    pub open spec fn wf(self) -> bool {
        dir_wf(self.root_dir())
    }

    /// The virtual directory tree.
    pub closed spec fn root_dir(self) -> ChestDirectory {
        self.root
    }

    /// The raw bytes of the backing archive, when one is attached.
    pub closed spec fn backing_model(self) -> Option<Seq<u8>> {
        match self.backing {
            Some(b) => Some(b@),
            None => None,
        }
    }

    /// The on-disk path that the chest was opened from or saved to.
    pub closed spec fn disk_path(self) -> Option<Seq<char>> {
        match self.path {
            Some(p) => Some(p@),
            None => None,
        }
    }

    /// The node reached by walking the given components from the root.
    pub open spec fn lookup(self, parts: Seq<Seq<char>>) -> Option<ChestNode> {
        dir_lookup(self.root_dir(), parts)
    }

    /// Whether a path names a file of the chest.
    pub open spec fn spec_contains(self, path: Seq<char>) -> bool {
        self.lookup(file_lookup_parts(path)) matches Some(ChestNode::File(_))
    }

    /// Create a new, empty chest.
    pub fn new() -> (r: Self)
        ensures
            r.wf(),
            r.root_dir().entries@.len() == 0,
            r.backing_model() is None,
            r.disk_path() is None,
    {
        Self { root: ChestDirectory { entries: Vec::new() }, backing: None, path: None }
    }

    /// Determines if a chest contains a path.
    pub fn contains(&self, path: &str) -> (r: bool)
        requires
            self.wf(),
        ensures
            r == self.spec_contains(path@),
    {
        let parts = file_parts(path);
        proof {
            assert(seq_views(parts@).skip(0) =~= file_lookup_parts(path@));
        }
        match lookup_node(&self.root, &parts, 0) {
            Some(n) => match n {
                ChestNode::File(_) => true,
                ChestNode::Directory(_) => false,
            },
            None => false,
        }
    }

    /// Get a directory listing for a directory, in name order.
    pub fn list_dir(&self, path: &str) -> (r: Result<Vec<ChestListEntry>, ChestError>)
        requires
            self.wf(),
        ensures
            match self.lookup(dir_lookup_parts(path@)) {
                Some(ChestNode::Directory(d)) => r is Ok && {
                    let es = r.unwrap()@;
                    &&& es.len() == d.entries@.len()
                    &&& forall|i: int|
                        0 <= i < es.len() ==> list_entry_name(#[trigger] es[i])
                            == d.entries@[i].name@
                    &&& forall|i: int|
                        0 <= i < es.len() ==> ((#[trigger] es[i]) is Directory
                            <==> d.entries@[i].node is Directory)
                },
                _ => r == Err::<Vec<ChestListEntry>, ChestError>(ChestError::NotFound),
            },
            r is Ok ==> forall|i: int, j: int|
                0 <= i < j < r.unwrap()@.len() ==> lex_lt(
                    list_entry_name(#[trigger] r.unwrap()@[i]),
                    list_entry_name(#[trigger] r.unwrap()@[j]),
                ),
    {
        let parts = dir_parts(path);
        proof {
            assert(seq_views(parts@).skip(0) =~= dir_lookup_parts(path@));
        }
        match lookup_dir(&self.root, &parts, 0) {
            None => Err(ChestError::NotFound),
            Some(d) => {
                let mut result: Vec<ChestListEntry> = Vec::new();
                let mut i: usize = 0;
                while i < d.entries.len()
                    invariant
                        i <= d.entries@.len(),
                        dir_wf(*d),
                        result@.len() == i,
                        forall|j: int|
                            0 <= j < i ==> list_entry_name(#[trigger] result@[j])
                                == d.entries@[j].name@,
                        forall|j: int|
                            0 <= j < i ==> ((#[trigger] result@[j]) is Directory
                                <==> d.entries@[j].node is Directory),
                    decreases d.entries@.len() - i,
                {
                    let name = d.entries[i].name.clone();
                    match &d.entries[i].node {
                        ChestNode::Directory(_) => result.push(
                            ChestListEntry::Directory(name),
                        ),
                        ChestNode::File(_) => result.push(ChestListEntry::File(name)),
                    }
                    i += 1;
                }
                Ok(result)
            },
        }
    }

    /// Gets the on disk path of the chest, if it is on disk.
    pub fn path(&self) -> (r: Option<&String>)
        ensures
            match r {
                Some(p) => self.disk_path() == Some(p@),
                None => self.disk_path() is None,
            },
    {
        self.path.as_ref()
    }

    /// Write a file to the chest. If the file already exists, it will be
    /// overwritten. Intermediate directories are created as needed. When
    /// the write is refused, the chest is left unchanged.
    pub fn write(&mut self, path: &str, data: &[u8]) -> (r: Result<(), ChestError>)
        requires
            old(self).wf(),
        ensures
            final(self).wf(),
            ({
                let parts = file_lookup_parts(path@);
                &&& (r is Ok <==> ((forall|j: int|
                    0 <= j < parts.len() ==> is_valid_name(#[trigger] parts[j]))
                    && !write_conflict(old(self).root_dir(), parts)))
                &&& (r == Err::<(), ChestError>(ChestError::InvalidName) <==> exists|
                    j: int,
                |
                    0 <= j < parts.len() && !is_valid_name(#[trigger] parts[j]))
                &&& (r == Err::<(), ChestError>(ChestError::TypeConflict) <==> ((forall|
                    j: int,
                |
                    0 <= j < parts.len() ==> is_valid_name(#[trigger] parts[j]))
                    && write_conflict(old(self).root_dir(), parts)))
                &&& (r is Err ==> *final(self) == *old(self))
                &&& (r is Ok ==> (final(self).lookup(parts) matches Some(
                    ChestNode::File(ChestFile::InMemory(v)),
                ) && v@ == data@))
                &&& (r is Ok ==> (forall|q: Seq<Seq<char>>|
                    !is_path_prefix(q, parts) && !is_path_prefix(parts, q)
                        ==> #[trigger] final(self).lookup(q) == old(self).lookup(q)))
                &&& (r is Ok ==> (forall|q: Seq<Seq<char>>|
                    #![trigger final(self).lookup(q)]
                    q != parts ==> (old(self).lookup(q) matches Some(
                        ChestNode::File(f),
                    ) ==> final(self).lookup(q) == Some(ChestNode::File(f)))))
                &&& (r is Ok ==> (forall|q: Seq<Seq<char>>|
                    #![trigger final(self).lookup(q)]
                    q.len() > 0 && is_path_prefix(q, parts) && q != parts
                        ==> final(self).lookup(q) matches Some(
                        ChestNode::Directory(_),
                    )))
            }),
            final(self).backing_model() == old(self).backing_model(),
            final(self).disk_path() == old(self).disk_path(),
    {
        let parts = file_parts(path);
        let ghost pv = file_lookup_parts(path@);
        proof {
            assert(seq_views(parts@).skip(0) =~= pv);
        }
        let mut i: usize = 0;
        while i < parts.len()
            invariant
                i <= parts@.len(),
                seq_views(parts@) == pv,
                pv == file_lookup_parts(path@),
                *self == *old(self),
                old(self).wf(),
                forall|j: int| 0 <= j < i ==> is_valid_name(#[trigger] pv[j]),
            decreases parts@.len() - i,
        {
            if !validate_name(parts[i].as_str()) {
                proof {
                    assert(pv[i as int] == parts@[i as int]@);
                }
                return Err(ChestError::InvalidName);
            }
            proof {
                assert(pv[i as int] == parts@[i as int]@);
            }
            i += 1;
        }
        if check_write_conflict(&self.root, &parts, 0) {
            return Err(ChestError::TypeConflict);
        }
        let contents = vstd::slice::slice_to_vec(data);
        write_node(&mut self.root, &parts, 0, ChestFile::InMemory(contents));
        Ok(())
    }

    /// Removes a file or directory at the given path. When deleting a
    /// directory, everything within it is also deleted.
    pub fn remove(&mut self, path: &str) -> (r: Result<(), ChestError>)
        requires
            old(self).wf(),
        ensures
            final(self).wf(),
            ({
                let parts = file_lookup_parts(path@);
                &&& (r is Ok <==> old(self).lookup(parts) is Some)
                &&& (r is Err ==> r == Err::<(), ChestError>(ChestError::NotFound)
                    && *final(self) == *old(self))
                &&& (r is Ok ==> (forall|q: Seq<Seq<char>>|
                    is_path_prefix(parts, q) ==> #[trigger] final(self).lookup(
                        q,
                    ) is None))
                &&& (r is Ok ==> (forall|q: Seq<Seq<char>>|
                    !is_path_prefix(q, parts) && !is_path_prefix(parts, q)
                        ==> #[trigger] final(self).lookup(q) == old(self).lookup(q)))
            }),
            final(self).backing_model() == old(self).backing_model(),
            final(self).disk_path() == old(self).disk_path(),
    {
        let parts = file_parts(path);
        proof {
            assert(seq_views(parts@).skip(0) =~= file_lookup_parts(path@));
        }
        match lookup_node(&self.root, &parts, 0) {
            None => Err(ChestError::NotFound),
            Some(_) => {
                remove_node(&mut self.root, &parts, 0);
                Ok(())
            },
        }
    }

    /// Opens a chest from the raw bytes of a compressed archive, read
    /// from the given on-disk path by the caller. Entries whose name
    /// ends with `/` only mark directories and are skipped; every other
    /// entry becomes an archive backed file at the same virtual path,
    /// and nothing else enters the tree. Payloads are not read until
    /// asked for. Opening succeeds whenever the archive decodes and its
    /// names can all be written into one tree.
    #[verifier::loop_isolation(false)]
    pub fn open(data: Vec<u8>, path: Option<String>) -> (r: Result<Self, ChestError>)
        ensures
            r is Ok ==> r.unwrap().wf(),
            r is Ok ==> r.unwrap().backing_model() == Some(data@),
            r is Ok ==> (match path {
                Some(p) => r.unwrap().disk_path() == Some(p@),
                None => r.unwrap().disk_path() is None,
            }),
            (r is Ok && crate::archive::archive_valid(data@)) ==> (forall|n: Seq<char>|
                (crate::archive::archive_contents(data@).dom().contains(n)
                    && !is_directory_marker(n)) ==> #[trigger] r.unwrap().lookup(
                    file_lookup_parts(n),
                ) == Some(ChestNode::File(ChestFile::ArchiveBacked))),
            (r is Ok && crate::archive::archive_valid(data@)) ==> (forall|
                q: Seq<Seq<char>>,
            |
                #![trigger r.unwrap().lookup(q)]
                q.len() > 0 ==> ((r.unwrap().lookup(q) matches Some(
                    ChestNode::File(_),
                )) ==> (exists|n: Seq<char>|
                    crate::archive::archive_contents(data@).dom().contains(n)
                        && !is_directory_marker(n) && q == #[trigger] file_lookup_parts(
                        n,
                    )))),
            (r is Ok && crate::archive::archive_valid(data@)) ==> (forall|
                q: Seq<Seq<char>>,
            |
                #![trigger r.unwrap().lookup(q)]
                q.len() > 0 ==> ((r.unwrap().lookup(q) matches Some(
                    ChestNode::Directory(_),
                )) ==> (exists|n: Seq<char>|
                    crate::archive::archive_contents(data@).dom().contains(n)
                        && !is_directory_marker(n) && is_path_prefix(
                        q,
                        #[trigger] file_lookup_parts(n),
                    ) && q != file_lookup_parts(n)))),
            r == Err::<Self, ChestError>(ChestError::CorruptArchive)
                ==> !crate::archive::archive_valid(data@),
            (crate::archive::archive_valid(data@) && archive_names_writable(
                crate::archive::archive_contents(data@),
            )) ==> r is Ok,
            (r is Err && r->Err_0 == ChestError::InvalidName
                && crate::archive::archive_valid(data@)) ==> (exists|n: Seq<char>|
                crate::archive::archive_contents(data@).dom().contains(n)
                    && !is_directory_marker(n) && !(#[trigger] entry_name_parts_valid(
                    n,
                ))),
            (r is Err && r->Err_0 == ChestError::TypeConflict
                && crate::archive::archive_valid(data@)) ==> (exists|
                n1: Seq<char>,
                n2: Seq<char>,
            |
                crate::archive::archive_contents(data@).dom().contains(n1)
                    && crate::archive::archive_contents(data@).dom().contains(n2)
                    && !is_directory_marker(n1) && !is_directory_marker(n2)
                    && file_lookup_parts(n1) != file_lookup_parts(n2)
                    && #[trigger] is_path_prefix(
                    file_lookup_parts(n1),
                    file_lookup_parts(n2),
                )),
    {
        let ghost m = crate::archive::archive_contents(data@);
        let names = match crate::archive::archive_entry_names(&data) {
            Ok(names) => names,
            Err(e) => {
                return Err(e);
            },
        };
        let mut root = ChestDirectory { entries: Vec::new() };
        proof {
            assert forall|q: Seq<Seq<char>>|
                #![trigger dir_lookup(root, q)]
                q.len() > 0 implies dir_lookup(root, q) is None by {
                assert(root.entries@.len() == 0);
            }
        }
        let mut k: usize = 0;
        while k < names.len()
            invariant
                k <= names@.len(),
                dir_wf(root),
                forall|j: int|
                    #![trigger names@[j]]
                    0 <= j < k ==> (!is_directory_marker(names@[j]@) ==> dir_lookup(
                        root,
                        file_lookup_parts(names@[j]@),
                    ) == Some(ChestNode::File(ChestFile::ArchiveBacked))),
                forall|q: Seq<Seq<char>>|
                    #![trigger dir_lookup(root, q)]
                    q.len() > 0 ==> ((dir_lookup(root, q) matches Some(
                        ChestNode::File(_),
                    )) ==> (exists|j: int|
                        0 <= j < k && !is_directory_marker((#[trigger] names@[j])@) && q
                            == file_lookup_parts(names@[j]@))),
                forall|q: Seq<Seq<char>>|
                    #![trigger dir_lookup(root, q)]
                    q.len() > 0 ==> ((dir_lookup(root, q) matches Some(
                        ChestNode::Directory(_),
                    )) ==> (exists|j: int|
                        0 <= j < k && !is_directory_marker((#[trigger] names@[j])@)
                            && is_path_prefix(q, file_lookup_parts(names@[j]@)) && q
                            != file_lookup_parts(names@[j]@))),
            decreases names@.len() - k,
        {
            let name = &names[k];
            let n_len = name.as_str().unicode_len();
            let is_dir = n_len > 0 && name.as_str().get_char(n_len - 1) == '/';
            proof {
                assert(is_dir == is_directory_marker(names@[k as int]@));
            }
            if !is_dir {
                let ghost root0 = root;
                let parts = file_parts(name.as_str());
                let ghost pv = file_lookup_parts(names@[k as int]@);
                proof {
                    assert(seq_views(parts@).skip(0) =~= pv);
                }
                let mut v: usize = 0;
                while v < parts.len()
                    invariant
                        v <= parts@.len(),
                        seq_views(parts@) == pv,
                        forall|j: int| 0 <= j < v ==> is_valid_name(#[trigger] pv[j]),
                    decreases parts@.len() - v,
                {
                    if !validate_name(parts[v].as_str()) {
                        proof {
                            if crate::archive::archive_valid(data@) {
                                let n = names@[k as int]@;
                                assert(m.dom().contains(n));
                                assert(pv[v as int] == parts@[v as int]@);
                                assert(!entry_name_parts_valid(n));
                                if archive_names_writable(m) {
                                    assert(entry_name_parts_valid(n));
                                }
                            }
                        }
                        return Err(ChestError::InvalidName);
                    }
                    proof {
                        assert(pv[v as int] == parts@[v as int]@);
                    }
                    v += 1;
                }
                if check_write_conflict(&root, &parts, 0) {
                    proof {
                        lemma_conflict_witness(root, pv);
                        let nk = names@[k as int]@;
                        if exists|mm: int|
                            1 <= mm < pv.len() && (#[trigger] dir_lookup(
                                root,
                                pv.take(mm),
                            )) matches Some(ChestNode::File(_)) {
                            // a file stands at a proper prefix of the
                            // new path
                            let mm = choose|mm: int|
                                1 <= mm < pv.len() && (#[trigger] dir_lookup(
                                    root,
                                    pv.take(mm),
                                )) matches Some(ChestNode::File(_));
                            let q = pv.take(mm);
                            let j = choose|j: int|
                                0 <= j < k && !is_directory_marker(
                                    (#[trigger] names@[j])@,
                                ) && q == file_lookup_parts(names@[j]@);
                            if crate::archive::archive_valid(data@) {
                                let n1 = names@[j]@;
                                assert(m.dom().contains(n1));
                                assert(m.dom().contains(nk));
                                assert(is_path_prefix(q, pv)) by {
                                    assert(q =~= pv.take(q.len() as int));
                                }
                                assert(file_lookup_parts(n1) != file_lookup_parts(nk));
                                assert(is_path_prefix(
                                    file_lookup_parts(n1),
                                    file_lookup_parts(nk),
                                ));
                                if archive_names_writable(m) {
                                    assert(false);
                                }
                            }
                        } else {
                            // the new path itself is an existing
                            // directory
                            assert(dir_lookup(root, pv) matches Some(
                                ChestNode::Directory(_),
                            ));
                            let j = choose|j: int|
                                0 <= j < k && !is_directory_marker(
                                    (#[trigger] names@[j])@,
                                ) && is_path_prefix(pv, file_lookup_parts(names@[j]@))
                                    && pv != file_lookup_parts(names@[j]@);
                            if crate::archive::archive_valid(data@) {
                                let n2 = names@[j]@;
                                assert(m.dom().contains(n2));
                                assert(m.dom().contains(nk));
                                assert(file_lookup_parts(nk) != file_lookup_parts(n2));
                                assert(is_path_prefix(
                                    file_lookup_parts(nk),
                                    file_lookup_parts(n2),
                                ));
                                if archive_names_writable(m) {
                                    assert(false);
                                }
                            }
                        }
                    }
                    return Err(ChestError::TypeConflict);
                }
                write_node(&mut root, &parts, 0, ChestFile::ArchiveBacked);
                proof {
                    assert(dir_lookup(root, pv) == Some(
                        ChestNode::File(ChestFile::ArchiveBacked),
                    ));
                    assert forall|j: int|
                        #![trigger names@[j]]
                        0 <= j < k + 1 implies (!is_directory_marker(names@[j]@)
                        ==> dir_lookup(root, file_lookup_parts(names@[j]@)) == Some(
                        ChestNode::File(ChestFile::ArchiveBacked),
                    )) by {
                        if j < k && !is_directory_marker(names@[j]@) {
                            let q = file_lookup_parts(names@[j]@);
                            if q != pv {
                                assert(dir_lookup(root0, q) == Some(
                                    ChestNode::File(ChestFile::ArchiveBacked),
                                ));
                                assert(dir_lookup(root, q) == Some(
                                    ChestNode::File(ChestFile::ArchiveBacked),
                                ));
                            }
                        }
                    }
                    assert forall|q: Seq<Seq<char>>|
                        #![trigger dir_lookup(root, q)]
                        q.len() > 0 && (dir_lookup(root, q) matches Some(
                            ChestNode::File(_),
                        )) implies (exists|j: int|
                        0 <= j < k + 1 && !is_directory_marker((#[trigger] names@[j])@)
                            && q == file_lookup_parts(names@[j]@)) by {
                        if q == pv {
                            assert(0 <= (k as int) < k + 1 && !is_directory_marker(
                                names@[k as int]@,
                            ) && q == file_lookup_parts(names@[k as int]@));
                        } else if is_path_prefix(q, pv) {
                            assert(dir_lookup(root, q) matches Some(
                                ChestNode::Directory(_),
                            ));
                            assert(false);
                        } else if is_path_prefix(pv, q) {
                            lemma_lookup_past_file(root, pv, q);
                            assert(false);
                        } else {
                            assert(dir_lookup(root, q) == dir_lookup(root0, q));
                            let j = choose|j: int|
                                0 <= j < k && !is_directory_marker(
                                    (#[trigger] names@[j])@,
                                ) && q == file_lookup_parts(names@[j]@);
                            assert(0 <= j < k + 1 && !is_directory_marker(names@[j]@)
                                && q == file_lookup_parts(names@[j]@));
                        }
                    }
                    assert forall|q: Seq<Seq<char>>|
                        #![trigger dir_lookup(root, q)]
                        q.len() > 0 && (dir_lookup(root, q) matches Some(
                            ChestNode::Directory(_),
                        )) implies (exists|j: int|
                        0 <= j < k + 1 && !is_directory_marker((#[trigger] names@[j])@)
                            && is_path_prefix(q, file_lookup_parts(names@[j]@)) && q
                            != file_lookup_parts(names@[j]@)) by {
                        if q == pv {
                            assert(false);
                        } else if is_path_prefix(q, pv) {
                            assert(0 <= (k as int) < k + 1 && !is_directory_marker(
                                names@[k as int]@,
                            ) && is_path_prefix(q, file_lookup_parts(names@[k as int]@))
                                && q != file_lookup_parts(names@[k as int]@));
                        } else if is_path_prefix(pv, q) {
                            lemma_lookup_past_file(root, pv, q);
                            assert(false);
                        } else {
                            assert(dir_lookup(root, q) == dir_lookup(root0, q));
                            let j = choose|j: int|
                                0 <= j < k && !is_directory_marker(
                                    (#[trigger] names@[j])@,
                                ) && is_path_prefix(q, file_lookup_parts(names@[j]@))
                                    && q != file_lookup_parts(names@[j]@);
                            assert(0 <= j < k + 1 && !is_directory_marker(names@[j]@)
                                && is_path_prefix(q, file_lookup_parts(names@[j]@)) && q
                                != file_lookup_parts(names@[j]@));
                        }
                    }
                }
            }
            k += 1;
        }
        let result = Chest { root, backing: Some(data), path };
        proof {
            if crate::archive::archive_valid(result.backing->Some_0@) {
                assert forall|n: Seq<char>|
                    (crate::archive::archive_contents(result.backing->Some_0@).dom()
                        .contains(n) && !is_directory_marker(n)) implies #[trigger] result
                    .lookup(file_lookup_parts(n)) == Some(
                    ChestNode::File(ChestFile::ArchiveBacked),
                ) by {
                    let i = choose|i: int|
                        0 <= i < names@.len() && #[trigger] names@[i]@ == n;
                    assert(names@[i]@ == n);
                }
                assert forall|q: Seq<Seq<char>>|
                    #![trigger result.lookup(q)]
                    q.len() > 0 && (result.lookup(q) matches Some(
                        ChestNode::File(_),
                    )) implies (exists|n: Seq<char>|
                    crate::archive::archive_contents(
                        result.backing->Some_0@,
                    ).dom().contains(n) && !is_directory_marker(n) && q
                        == #[trigger] file_lookup_parts(n)) by {
                    let j = choose|j: int|
                        0 <= j < names@.len() && !is_directory_marker(
                            (#[trigger] names@[j])@,
                        ) && q == file_lookup_parts(names@[j]@);
                    assert(crate::archive::archive_contents(
                        result.backing->Some_0@,
                    ).dom().contains(names@[j]@));
                    assert(q == file_lookup_parts(names@[j]@));
                }
                assert forall|q: Seq<Seq<char>>|
                    #![trigger result.lookup(q)]
                    q.len() > 0 && (result.lookup(q) matches Some(
                        ChestNode::Directory(_),
                    )) implies (exists|n: Seq<char>|
                    crate::archive::archive_contents(
                        result.backing->Some_0@,
                    ).dom().contains(n) && !is_directory_marker(n) && is_path_prefix(
                        q,
                        #[trigger] file_lookup_parts(n),
                    ) && q != file_lookup_parts(n)) by {
                    let j = choose|j: int|
                        0 <= j < names@.len() && !is_directory_marker(
                            (#[trigger] names@[j])@,
                        ) && is_path_prefix(q, file_lookup_parts(names@[j]@)) && q
                            != file_lookup_parts(names@[j]@);
                    assert(crate::archive::archive_contents(
                        result.backing->Some_0@,
                    ).dom().contains(names@[j]@));
                    assert(is_path_prefix(q, file_lookup_parts(names@[j]@)));
                }
            }
        }
        Ok(result)
    }

    /// Read a file from the chest. For archive backed files, the payload
    /// is fetched on demand from the backing archive, under the path
    /// with one leading `/` stripped.
    pub fn read(&self, path: &str) -> (r: Result<Vec<u8>, ChestError>)
        requires
            self.wf(),
        ensures
            ({
                let parts = file_lookup_parts(path@);
                let zname = archive_lookup_name(path@);
                &&& (!(self.lookup(parts) matches Some(ChestNode::File(_))) ==> r
                    == Err::<Vec<u8>, ChestError>(ChestError::NotFound))
                &&& (self.lookup(parts) matches Some(
                    ChestNode::File(ChestFile::InMemory(d)),
                ) ==> (r is Ok && r.unwrap()@ == d@))
                &&& ((self.lookup(parts) == Some(
                    ChestNode::File(ChestFile::ArchiveBacked),
                ) && self.backing_model() is None) ==> r == Err::<Vec<u8>, ChestError>(
                    ChestError::MissingBackingArchive,
                ))
                &&& (self.lookup(parts) == Some(ChestNode::File(ChestFile::ArchiveBacked))
                    ==> (self.backing_model() matches Some(b) ==> ((
                    crate::archive::archive_valid(b)
                        && crate::archive::archive_contents(b).dom().contains(zname))
                        ==> (r is Ok && r.unwrap()@ == crate::archive::archive_contents(
                        b,
                    )[zname]))))
                &&& (self.lookup(parts) == Some(ChestNode::File(ChestFile::ArchiveBacked))
                    ==> (self.backing_model() matches Some(b) ==> ((
                    crate::archive::archive_valid(b)
                        && !crate::archive::archive_contents(b).dom().contains(zname))
                        ==> r == Err::<Vec<u8>, ChestError>(ChestError::NotFound))))
                &&& (r is Err ==> (r->Err_0 == ChestError::NotFound || r->Err_0
                    == ChestError::MissingBackingArchive || r->Err_0
                    == ChestError::CorruptArchive))
            }),
    {
        let parts = file_parts(path);
        proof {
            assert(seq_views(parts@).skip(0) =~= file_lookup_parts(path@));
        }
        match lookup_node(&self.root, &parts, 0) {
            None => Err(ChestError::NotFound),
            Some(node) => match node {
                ChestNode::Directory(_) => Err(ChestError::NotFound),
                ChestNode::File(ChestFile::InMemory(contents)) => Ok(contents.clone()),
                ChestNode::File(ChestFile::ArchiveBacked) => {
                    let zname = if str_starts_with_char(path, '/') {
                        str_drop_first(path)
                    } else {
                        path.to_owned()
                    };
                    match &self.backing {
                        None => Err(ChestError::MissingBackingArchive),
                        Some(b) => crate::archive::archive_entry_payload(
                            b,
                            zname.as_str(),
                        ),
                    }
                },
            },
        }
    }

    /// Finds all occurrences of a filename in the chest and returns the
    /// paths of those files, in tree order.
    pub fn find_all(&self, filename: &str) -> (r: Vec<String>)
        requires
            self.wf(),
        ensures
            seq_views(r@) == find_in_dir_from(
                self.root_dir(),
                0,
                Seq::<char>::empty(),
                filename@,
            ),
    {
        let mut result: Vec<String> = Vec::new();
        let empty_prefix = String::new();
        find_all_from(&self.root, 0, empty_prefix.as_str(), filename, &mut result);
        proof {
            assert(seq_views(result@) =~= find_in_dir_from(
                self.root_dir(),
                0,
                Seq::<char>::empty(),
                filename@,
            ));
        }
        result
    }

    /// Gets the total size of all files in the chest, saturating at the
    /// largest `u64`. Archive backed sizes come from the archive index.
    pub fn total_size(&self) -> (r: u64)
        requires
            self.wf(),
        ensures
            (match self.backing_model() {
                None => true,
                Some(b) => crate::archive::archive_valid(b),
            }) ==> r as int == ({
                let total = size_in_dir_from(
                    self.root_dir(),
                    0,
                    Seq::<char>::empty(),
                    self.backing_model(),
                );
                if total > u64::MAX as int {
                    u64::MAX as int
                } else {
                    total
                }
            }),
    {
        let empty_prefix = String::new();
        total_size_from(&self.root, 0, empty_prefix.as_str(), &self.backing)
    }

    /// What reading a path yields, when it can be read.
    pub open spec fn spec_read(self, path: Seq<char>) -> Option<Seq<u8>> {
        match self.lookup(file_lookup_parts(path)) {
            Some(ChestNode::File(f)) => resolved_file(
                f,
                archive_lookup_name(path),
                self.backing_model(),
            ),
            _ => None,
        }
    }

    /// Serialises the chest to the bytes of a new compressed archive and
    /// remembers `path` as its on-disk location; the caller writes the
    /// bytes there. Also yields the compression progress events, one per
    /// file.
    pub fn save(&mut self, path: &str) -> (r: Result<
        (Vec<u8>, Vec<crate::progress::ProgressEvent>),
        ChestError,
    >)
        requires
            old(self).wf(),
        ensures
            final(self).wf(),
            final(self).root_dir() == old(self).root_dir(),
            final(self).backing_model() == old(self).backing_model(),
            r is Ok ==> final(self).disk_path() == Some(path@),
            r is Err ==> *final(self) == *old(self),
            (r is Ok && backing_ok(old(self).backing_model())) ==> ({
                let out = r.unwrap().0@;
                let flat = files_in_dir_from(old(self).root_dir(), 0, Seq::<char>::empty());
                &&& crate::archive::archive_valid(out)
                &&& (forall|k: int|
                    0 <= k < flat.len() ==> crate::archive::archive_contents(out).dom()
                        .contains((#[trigger] flat[k]).0) && Some(
                        crate::archive::archive_contents(out)[flat[k].0],
                    ) == resolved_file(flat[k].1, flat[k].0, old(self).backing_model()))
            }),
            backing_ok(old(self).backing_model()) ==> (r is Ok <==> (
            all_payloads_resolvable(old(self).root_dir(), old(self).backing_model())
                && crate::archive::built_archive(
                resolved_entry_models(old(self).root_dir(), old(self).backing_model()),
                dirs_in_dir_from(old(self).root_dir(), 0, Seq::<char>::empty()),
            ) is Some)),
            r is Ok ==> r.unwrap().1@.len() == files_in_dir_from(
                old(self).root_dir(),
                0,
                Seq::<char>::empty(),
            ).len(),
            r is Ok ==> (forall|k2: int|
                0 <= k2 < r.unwrap().1@.len() ==> (#[trigger] r.unwrap().1@[
                k2]) is CompressChest),
            (r is Ok && backing_ok(old(self).backing_model())) ==> (forall|k2: int|
                0 <= k2 < r.unwrap().1@.len() ==> ((#[trigger] r.unwrap().1@[
                k2]) matches crate::progress::ProgressEvent::CompressChest(d, t)
                    && d == sat_model_size_prefix(
                    resolved_entry_models(
                        old(self).root_dir(),
                        old(self).backing_model(),
                    ),
                    k2 + 1,
                ) && t as int == ({
                    let sz = size_in_dir_from(
                        old(self).root_dir(),
                        0,
                        Seq::<char>::empty(),
                        old(self).backing_model(),
                    );
                    if sz > u64::MAX as int {
                        u64::MAX as int
                    } else {
                        sz
                    }
                }))),
            r is Err ==> (r->Err_0 == ChestError::IoFailure || (exists|k: int|
                0 <= k < files_in_dir_from(
                    old(self).root_dir(),
                    0,
                    Seq::<char>::empty(),
                ).len() && resolved_file(
                    (#[trigger] files_in_dir_from(
                        old(self).root_dir(),
                        0,
                        Seq::<char>::empty(),
                    )[k]).1,
                    files_in_dir_from(old(self).root_dir(), 0, Seq::<char>::empty())[k].0,
                    old(self).backing_model(),
                ) is None)),
    {
        let total = self.total_size();
        let mut files: Vec<crate::archive::ArchiveEntry> = Vec::new();
        let mut dirs: Vec<String> = Vec::new();
        let empty_prefix = String::new();
        match collect_resolved_from(
            &self.root,
            0,
            empty_prefix.as_str(),
            &self.backing,
            &mut files,
            &mut dirs,
        ) {
            Ok(()) => {},
            Err(err) => {
                proof {
                    if backing_ok(backing_view(self.backing)) {
                        assert(!all_payloads_resolvable(
                            self.root,
                            backing_view(self.backing),
                        ));
                    }
                }
                return Err(err);
            },
        }
        proof {
            lemma_flat_distinct(self.root, 0, Seq::<char>::empty());
            let flat = files_in_dir_from(self.root, 0, Seq::<char>::empty());
            assert(files@.len() == 0 + flat.len());
            assert forall|a: int, b: int| 0 <= a < b < files@.len() implies files@[a].path@
                != files@[b].path@ by {
                assert(files@[0 + a].path@ == flat[a].0);
                assert(files@[0 + b].path@ == flat[b].0);
            }
            assert forall|k: int| 0 <= k < flat.len() implies (#[trigger] files@[k].path@)
                == flat[k].0 by {
                assert(files@[0 + k].path@ == flat[k].0);
            }
            lemma_dirs_path_shape(self.root, 0, Seq::<char>::empty());
            let dmodels = dirs_in_dir_from(self.root, 0, Seq::<char>::empty());
            assert(seq_views(dirs@) == dmodels);
            assert forall|i: int|
                0 <= i < dirs@.len() implies ((#[trigger] dirs@[i])@.len() > 0
                && dirs@[i]@.last() != '/' && dirs@[i]@.last() != '\\') by {
                assert(dirs@[i]@ == seq_views(dirs@)[i]);
                assert(valid_name_char(dmodels[i].last()));
            }
            if backing_ok(backing_view(self.backing)) {
                assert forall|k: int| 0 <= k < flat.len() implies Some(
                    (#[trigger] files@[k].data@),
                ) == resolved_file(flat[k].1, flat[k].0, backing_view(self.backing)) by {
                    assert(Some(files@[0 + k].data@) == resolved_file(
                        flat[k].1,
                        flat[k].0,
                        backing_view(self.backing),
                    ));
                }
                assert forall|k: int|
                    0 <= k < flat.len() implies resolved_file(
                    (#[trigger] flat[k]).1,
                    flat[k].0,
                    backing_view(self.backing),
                ) is Some by {
                    assert(Some(files@[k].data@) == resolved_file(
                        flat[k].1,
                        flat[k].0,
                        backing_view(self.backing),
                    ));
                }
                assert(all_payloads_resolvable(self.root, backing_view(self.backing)));
                assert(crate::archive::entry_models(files@) =~= resolved_entry_models(
                    self.root,
                    backing_view(self.backing),
                ));
            }
        }
        let out = match crate::archive::build_archive(&files, &dirs) {
            Ok(out) => out,
            Err(err) => {
                proof {
                    if backing_ok(backing_view(self.backing)) {
                        assert(crate::archive::built_archive(
                            resolved_entry_models(self.root, backing_view(self.backing)),
                            dirs_in_dir_from(self.root, 0, Seq::<char>::empty()),
                        ) is None);
                    }
                }
                return Err(err);
            },
        };
        proof {
            let flat = files_in_dir_from(self.root, 0, Seq::<char>::empty());
            if backing_ok(backing_view(self.backing)) {
                assert forall|k: int|
                    0 <= k < flat.len() implies crate::archive::archive_contents(out@)
                    .dom().contains((#[trigger] flat[k]).0) && Some(
                    crate::archive::archive_contents(out@)[flat[k].0],
                ) == resolved_file(flat[k].1, flat[k].0, backing_view(self.backing)) by {
                    assert(files@[k].path@ == flat[k].0);
                    assert(crate::archive::archive_contents(out@).dom().contains(
                        files@[k].path@,
                    ));
                    assert(crate::archive::archive_contents(out@)[files@[k].path@]
                        == files@[k].data@);
                    assert(Some(files@[k].data@) == resolved_file(
                        flat[k].1,
                        flat[k].0,
                        backing_view(self.backing),
                    ));
                }
            }
        }
        let ghost msg = resolved_entry_models(self.root, backing_view(self.backing));
        proof {
            if backing_ok(backing_view(self.backing)) {
                assert forall|j: int| 0 <= j < files@.len() implies (#[trigger] files@[
                    j
                ].data@).len() == msg[j].1.len() by {
                    let flat = files_in_dir_from(self.root, 0, Seq::<char>::empty());
                    assert(Some(files@[j].data@) == resolved_file(
                        flat[j].1,
                        flat[j].0,
                        backing_view(self.backing),
                    ));
                }
            }
        }
        let mut events: Vec<crate::progress::ProgressEvent> = Vec::new();
        let mut done: u64 = 0;
        let mut k: usize = 0;
        while k < files.len()
            invariant
                events@.len() == k,
                k <= files@.len(),
                backing_ok(backing_view(self.backing)) ==> (files@.len() == msg.len()
                    && (forall|j: int|
                    0 <= j < files@.len() ==> (#[trigger] files@[j].data@).len() == msg[
                        j
                    ].1.len())),
                backing_ok(backing_view(self.backing)) ==> done == sat_model_size_prefix(
                    msg,
                    k as int,
                ),
                forall|k2: int|
                    0 <= k2 < events@.len() ==> (#[trigger] events@[k2]) is CompressChest,
                backing_ok(backing_view(self.backing)) ==> (forall|k2: int|
                    0 <= k2 < events@.len() ==> (#[trigger] events@[k2])
                        == crate::progress::ProgressEvent::CompressChest(
                        sat_model_size_prefix(msg, k2 + 1),
                        total,
                    )),
            decreases files@.len() - k,
        {
            done = sat_add_u64(done, files[k].data.len() as u64);
            events.push(crate::progress::ProgressEvent::CompressChest(done, total));
            k += 1;
        }
        self.path = Some(path.to_owned());
        Ok((out, events))
    }

    /// Yields every file of the chest with its payload, together with
    /// the directory paths and extraction progress events, so that the
    /// caller can materialise the tree under a target directory.
    pub fn extract(&self) -> (r: Result<
        (Vec<crate::archive::ArchiveEntry>, Vec<String>, Vec<crate::progress::ProgressEvent>),
        ChestError,
    >)
        requires
            self.wf(),
        ensures
            r is Ok ==> ({
                let flat = files_in_dir_from(self.root_dir(), 0, Seq::<char>::empty());
                let fs = r.unwrap().0@;
                &&& fs.len() == flat.len()
                &&& (forall|k: int|
                    0 <= k < flat.len() ==> (#[trigger] fs[k].path@) == flat[k].0)
                &&& (backing_ok(self.backing_model()) ==> (forall|k: int|
                    0 <= k < flat.len() ==> Some((#[trigger] fs[k].data@))
                        == resolved_file(flat[k].1, flat[k].0, self.backing_model())))
                &&& seq_views(r.unwrap().1@) == dirs_in_dir_from(
                    self.root_dir(),
                    0,
                    Seq::<char>::empty(),
                )
                &&& r.unwrap().2@.len() == flat.len()
                &&& (forall|k: int|
                    0 <= k < r.unwrap().2@.len() ==> ((#[trigger] r.unwrap().2@[
                    k]) matches crate::progress::ProgressEvent::ExtractChest(d, t)
                        && d == sat_size_prefix(fs, k + 1) && (backing_ok(
                        self.backing_model(),
                    ) ==> t as int == ({
                        let sz = size_in_dir_from(
                            self.root_dir(),
                            0,
                            Seq::<char>::empty(),
                            self.backing_model(),
                        );
                        if sz > u64::MAX as int {
                            u64::MAX as int
                        } else {
                            sz
                        }
                    }))))
            }),
            r is Err ==> (exists|k: int|
                0 <= k < files_in_dir_from(
                    self.root_dir(),
                    0,
                    Seq::<char>::empty(),
                ).len() && resolved_file(
                    (#[trigger] files_in_dir_from(
                        self.root_dir(),
                        0,
                        Seq::<char>::empty(),
                    )[k]).1,
                    files_in_dir_from(self.root_dir(), 0, Seq::<char>::empty())[k].0,
                    self.backing_model(),
                ) is None),
    {
        let total = self.total_size();
        let mut files: Vec<crate::archive::ArchiveEntry> = Vec::new();
        let mut dirs: Vec<String> = Vec::new();
        let empty_prefix = String::new();
        match collect_resolved_from(
            &self.root,
            0,
            empty_prefix.as_str(),
            &self.backing,
            &mut files,
            &mut dirs,
        ) {
            Ok(()) => {},
            Err(err) => {
                return Err(err);
            },
        }
        proof {
            let flat = files_in_dir_from(self.root_dir(), 0, Seq::<char>::empty());
            assert(files@.len() == 0 + flat.len());
            assert forall|j: int| 0 <= j < files@.len() implies (#[trigger] files@[
                j
            ].path@) == flat[j].0 by {
                assert(files@[0 + j].path@ == flat[j].0);
            }
            if backing_ok(self.backing_model()) {
                assert forall|j: int| 0 <= j < files@.len() implies Some(
                    (#[trigger] files@[j].data@),
                ) == resolved_file(flat[j].1, flat[j].0, self.backing_model()) by {
                    assert(Some(files@[0 + j].data@) == resolved_file(
                        flat[j].1,
                        flat[j].0,
                        backing_view(self.backing),
                    ));
                }
            }
        }
        let mut events: Vec<crate::progress::ProgressEvent> = Vec::new();
        let mut done: u64 = 0;
        let mut k: usize = 0;
        while k < files.len()
            invariant
                k <= files@.len(),
                done == sat_size_prefix(files@, k as int),
                events@.len() == k,
                forall|j: int|
                    0 <= j < k ==> (#[trigger] events@[j])
                        == crate::progress::ProgressEvent::ExtractChest(
                        sat_size_prefix(files@, j + 1),
                        total,
                    ),
                files@.len() == files_in_dir_from(
                    self.root_dir(),
                    0,
                    Seq::<char>::empty(),
                ).len(),
                forall|j: int|
                    0 <= j < files@.len() ==> (#[trigger] files@[j].path@)
                        == files_in_dir_from(self.root_dir(), 0, Seq::<char>::empty())[
                        j
                    ].0,
                backing_ok(self.backing_model()) ==> (forall|j: int|
                    0 <= j < files@.len() ==> Some((#[trigger] files@[j].data@))
                        == resolved_file(
                        files_in_dir_from(self.root_dir(), 0, Seq::<char>::empty())[j].1,
                        files_in_dir_from(self.root_dir(), 0, Seq::<char>::empty())[j].0,
                        self.backing_model(),
                    )),
            decreases files@.len() - k,
        {
            done = sat_add_u64(done, files[k].data.len() as u64);
            events.push(crate::progress::ProgressEvent::ExtractChest(done, total));
            k += 1;
        }
        Ok((files, dirs, events))
    }

    /// Applies a unified diff to a text file within the chest, replacing
    /// its contents with the patched text.
    pub fn patch(&mut self, path: &str, diff: &str) -> (r: Result<(), ChestError>)
        requires
            old(self).wf(),
        ensures
            final(self).wf(),
            final(self).backing_model() == old(self).backing_model(),
            final(self).disk_path() == old(self).disk_path(),
            r is Err ==> *final(self) == *old(self),
            backing_ok(old(self).backing_model()) ==> ({
                let parts = file_lookup_parts(path@);
                let content = old(self).spec_read(path@);
                &&& (content is None ==> (r is Err && (match old(self).lookup(parts) {
                    Some(ChestNode::File(ChestFile::ArchiveBacked)) => (match old(
                        self,
                    ).backing_model() {
                        None => r->Err_0 == ChestError::MissingBackingArchive,
                        Some(_) => r->Err_0 == ChestError::NotFound,
                    }),
                    _ => r->Err_0 == ChestError::NotFound,
                })))
                &&& (content matches Some(bytes) ==> ((!vstd::utf8::valid_utf8(bytes)
                    ==> (r is Err && r->Err_0 == ChestError::NotText))
                    && (vstd::utf8::valid_utf8(bytes) ==> ({
                    let base = vstd::utf8::decode_utf8(bytes);
                    &&& (crate::text::patched_text(base, diff@) is None ==> (r is Err
                        && r->Err_0 == ChestError::PatchConflict))
                    &&& (crate::text::patched_text(base, diff@) matches Some(newt) ==> (
                    r is Ok && (final(self).lookup(parts) matches Some(
                        ChestNode::File(ChestFile::InMemory(v)),
                    ) && v@ == vstd::utf8::encode_utf8(newt)) && (forall|
                        q: Seq<Seq<char>>,
                    |
                        !is_path_prefix(q, parts) && !is_path_prefix(parts, q)
                            ==> #[trigger] final(self).lookup(q) == old(self).lookup(
                            q,
                        ))))
                }))))
            }),
    {
        let bytes = match self.read(path) {
            Ok(bytes) => bytes,
            Err(err) => {
                return Err(err);
            },
        };
        let text = match crate::text::bytes_to_string(bytes) {
            Ok(text) => text,
            Err(err) => {
                return Err(err);
            },
        };
        let patched = match crate::text::apply_patch(text.as_str(), diff) {
            Ok(patched) => patched,
            Err(err) => {
                return Err(err);
            },
        };
        let new_bytes = crate::text::string_to_bytes(patched.as_str());
        proof {
            lemma_file_write_ready(self.root, file_lookup_parts(path@));
        }
        let result = self.write(path, new_bytes.as_slice());
        proof {
            assert(result is Ok);
        }
        result
    }

    /// Consumes the chest and yields its on-disk path, whose file the
    /// caller then removes. Dropping the in-memory tree first lets the
    /// backing handle be released on platforms that refuse to delete
    /// open files.
    pub fn delete(self) -> (r: Result<String, ChestError>)
        ensures
            match self.disk_path() {
                Some(p) => r is Ok && r.unwrap()@ == p,
                None => r is Err && r->Err_0 == ChestError::NotFound,
            },
    {
        match self.path {
            Some(p) => Ok(p),
            None => Err(ChestError::NotFound),
        }
    }

    /// Transforms a chest path. A `pattern` starting with a slash marks
    /// an absolute pattern and must match the entire path; otherwise it
    /// may match the entire path or whole trailing components. A
    /// replacement starting with a slash replaces the whole path;
    /// otherwise only the matched components are replaced.
    pub fn transform_path(path: &str, pattern: &str, replacement: &str) -> (r: Option<
        String,
    >)
        ensures
            match r {
                Some(s) => transform_path_spec(path@, pattern@, replacement@) == Some(
                    s@,
                ),
                None => transform_path_spec(path@, pattern@, replacement@) is None,
            },
    {
        let absolute_match = str_starts_with_char(pattern, '/') && str_eq(
            str_drop_first(pattern).as_str(),
            path,
        );
        if str_eq(path, pattern) || absolute_match {
            if str_starts_with_char(replacement, '/') {
                Some(str_drop_first(replacement))
            } else {
                Some(replacement.to_owned())
            }
        } else if !str_starts_with_char(pattern, '/') {
            proof {
                reveal_strlit("/");
            }
            let slash_pattern = str_concat("/", pattern);
            proof {
                assert(slash_pattern@ =~= seq!['/'] + pattern@);
            }
            if str_ends_with(path, slash_pattern.as_str()) {
                let n = path.unicode_len();
                let m = slash_pattern.as_str().unicode_len();
                proof {
                    assert(path@.skip(n - m) =~= path@.subrange(
                        path@.len() - slash_pattern@.len(),
                        path@.len() as int,
                    ));
                }
                if str_starts_with_char(replacement, '/') {
                    Some(str_drop_first(replacement))
                } else {
                    let prefix = path.substring_char(0, n - m);
                    let joined = str_concat(str_concat(prefix, "/").as_str(), replacement);
                    proof {
                        assert(prefix@ =~= path@.take(path@.len() - pattern@.len() - 1));
                        assert(joined@ =~= path@.take(path@.len() - pattern@.len() - 1)
                            + seq!['/'] + replacement@);
                    }
                    Some(joined)
                }
            } else {
                None
            }
        } else {
            None
        }
    }
}


/// Prepending a slash adds one empty leading component to a split.
proof fn lemma_split_prepend_slash(p: Seq<char>)
    ensures
        split_on_slash(seq!['/'] + p) == seq![Seq::<char>::empty()] + split_on_slash(p),
{
    crate::pathutil::lemma_split_concat(Seq::<char>::empty(), p);
    assert(Seq::<char>::empty() + seq!['/'] + p =~= seq!['/'] + p);
    assert(split_on_slash(Seq::<char>::empty()) =~= seq![Seq::<char>::empty()]);
}

/// A path that does not start with a slash splits into a non-empty
/// first component.
proof fn lemma_split_first_nonempty(p: Seq<char>)
    requires
        p.len() > 0,
        p[0] != '/',
    ensures
        split_on_slash(p)[0].len() > 0,
        split_on_slash(p).len() >= 1,
    decreases p.len(),
{
    crate::pathutil::lemma_split_nonempty(p);
    if p.len() == 1 {
        assert(p.drop_last().len() == 0);
        assert(split_on_slash(p.drop_last()) =~= seq![Seq::<char>::empty()]);
    } else {
        assert(p.drop_last()[0] == p[0]);
        lemma_split_first_nonempty(p.drop_last());
        crate::pathutil::lemma_split_nonempty(p.drop_last());
        let rest = split_on_slash(p.drop_last());
        if p.last() == '/' {
            assert(split_on_slash(p)[0] == rest[0]);
        } else {
            if rest.len() == 1 {
                assert(split_on_slash(p)[0] == rest[0].push(p.last()));
            } else {
                assert(split_on_slash(p)[0] == rest[0]);
            }
        }
    }
}

/// For a path that does not start with a slash, the file walk follows
/// exactly its components.
proof fn lemma_file_parts_plain(p: Seq<char>)
    requires
        p.len() == 0 || p[0] != '/',
    ensures
        file_lookup_parts(p) == split_on_slash(p),
{
    let parts = split_on_slash(p);
    crate::pathutil::lemma_split_nonempty(p);
    if p.len() == 0 {
        assert(parts =~= seq![Seq::<char>::empty()]);
        assert(file_lookup_parts(p) =~= parts);
    } else {
        lemma_split_first_nonempty(p);
        let dirs = parts.drop_last();
        if dirs.len() > 0 {
            assert(dirs[0] == parts[0]);
            assert(dirs[0].len() > 0);
        }
        assert(file_lookup_parts(p) =~= parts);
    }
}

/// Leading slashes are tolerated: `/p` names the same file as `p` when
/// `p` does not itself start with a slash.
pub proof fn lemma_contains_leading_slash(c: Chest, p: Seq<char>)
    requires
        p.len() == 0 || p[0] != '/',
    ensures
        c.spec_contains(seq!['/'] + p) == c.spec_contains(p),
{
    lemma_split_prepend_slash(p);
    let sp = split_on_slash(p);
    crate::pathutil::lemma_split_nonempty(p);
    let parts2 = seq![Seq::<char>::empty()] + sp;
    assert(split_on_slash(seq!['/'] + p) == parts2);
    if p.len() == 0 {
        assert(sp =~= seq![Seq::<char>::empty()]);
        assert(parts2.drop_last() =~= seq![Seq::<char>::empty()]);
        assert(file_lookup_parts(seq!['/'] + p) =~= seq![Seq::<char>::empty()]);
        assert(file_lookup_parts(p) =~= seq![Seq::<char>::empty()]);
    } else {
        lemma_split_first_nonempty(p);
        lemma_file_parts_plain(p);
        let dirs2 = parts2.drop_last();
        assert(dirs2.len() > 0 && dirs2[0].len() == 0);
        assert(dirs2.drop_first() =~= sp.drop_last());
        assert(parts2.last() == sp.last());
        assert(file_lookup_parts(seq!['/'] + p) =~= sp.drop_last().push(sp.last()));
        assert(sp.drop_last().push(sp.last()) =~= sp);
    }
}

/// A walk whose final component is empty never names a file of a
/// well-formed tree.
proof fn lemma_lookup_empty_last(d: ChestDirectory, parts: Seq<Seq<char>>)
    requires
        dir_wf(d),
        parts.len() >= 1,
        parts.last().len() == 0,
    ensures
        !(dir_lookup(d, parts) matches Some(ChestNode::File(_))),
    decreases parts.len(),
{
    lemma_entries_get_none(d.entries@, parts[0]);
    if parts.len() == 1 {
        assert forall|i: int|
            0 <= i < d.entries@.len() implies (#[trigger] d.entries@[i]).name@ != parts[0]
            by {
            assert(is_valid_name(d.entries@[i].name@));
        }
        assert(dir_get(d, parts[0]) is None);
    } else {
        lemma_entries_get_wf(d.entries@, parts[0]);
        match dir_get(d, parts[0]) {
            Some(ChestNode::Directory(sub)) => {
                assert(node_wf(ChestNode::Directory(sub)));
                assert(parts.drop_first().last() == parts.last());
                lemma_lookup_empty_last(sub, parts.drop_first());
            },
            _ => {},
        }
    }
}

/// A path with a trailing slash has an empty final component, which
/// validation rejects, so it never names a file.
pub proof fn lemma_contains_trailing_slash(c: Chest, p: Seq<char>)
    requires
        c.wf(),
    ensures
        !c.spec_contains(p + seq!['/']),
{
    assert(p + seq!['/'] =~= p.push('/'));
    crate::pathutil::lemma_split_append_slash(p);
    crate::pathutil::lemma_split_nonempty(p);
    let parts = file_lookup_parts(p.push('/'));
    assert(parts.last().len() == 0);
    assert(parts.len() >= 1);
    lemma_lookup_empty_last(c.root_dir(), parts);
}

/// A name with a character that file names refuse, placed as the final
/// component of a path, makes a write fail with the invalid name error:
/// some walked component is invalid.
pub proof fn lemma_write_rejects_invalid_name(path: Seq<char>, name: Seq<char>)
    requires
        path == seq!['a', '/'] + name,
        forall|i: int| 0 <= i < name.len() ==> name[i] != '/',
        !is_valid_name(name),
    ensures
        exists|j: int|
            0 <= j < file_lookup_parts(path).len() && !is_valid_name(
                #[trigger] file_lookup_parts(path)[j],
            ),
{
    crate::pathutil::lemma_split_concat(seq!['a'], name);
    crate::pathutil::lemma_split_no_slash(seq!['a']);
    crate::pathutil::lemma_split_no_slash(name);
    assert(seq!['a'] + seq!['/'] + name =~= seq!['a', '/'] + name);
    let parts = split_on_slash(path);
    assert(parts =~= seq![seq!['a'], name]);
    let fl = file_lookup_parts(path);
    assert(parts.drop_last() =~= seq![seq!['a']]);
    assert(fl =~= seq![seq!['a'], name]);
    assert(!is_valid_name(fl[1]));
}

/// Flattening with a prefix yields the same files as flattening bare,
/// with the prefix on the front of every path.
proof fn lemma_flat_prefix(d: ChestDirectory, i: int, prefix: Seq<char>)
    ensures
        files_in_dir_from(d, i, prefix).len() == files_in_dir_from(
            d,
            i,
            Seq::<char>::empty(),
        ).len(),
        forall|k: int|
            0 <= k < files_in_dir_from(d, i, prefix).len()
                ==> (#[trigger] files_in_dir_from(d, i, prefix)[k]) == (
                prefix + files_in_dir_from(d, i, Seq::<char>::empty())[k].0,
                files_in_dir_from(d, i, Seq::<char>::empty())[k].1,
            ),
    decreases d, d.entries@.len() - i,
{
    let fp = files_in_dir_from(d, i, prefix);
    let fe = files_in_dir_from(d, i, Seq::<char>::empty());
    if 0 <= i < d.entries@.len() {
        let e = d.entries@[i];
        lemma_flat_prefix(d, i + 1, prefix);
        lemma_flat_prefix(d, i + 1, Seq::<char>::empty());
        match e.node {
            ChestNode::File(f) => {
                assert(Seq::<char>::empty() + e.name@ =~= e.name@);
                assert(prefix + (Seq::<char>::empty() + e.name@) =~= prefix + e.name@);
                assert forall|k: int| 0 <= k < fp.len() implies (#[trigger] fp[k]) == (
                    prefix + fe[k].0,
                    fe[k].1,
                ) by {
                    if k > 0 {
                        assert(fp[k] == files_in_dir_from(d, i + 1, prefix)[k - 1]);
                        assert(fe[k] == files_in_dir_from(
                            d,
                            i + 1,
                            Seq::<char>::empty(),
                        )[k - 1]);
                    }
                }
            },
            ChestNode::Directory(sub) => {
                lemma_flat_prefix(sub, 0, prefix + e.name@ + seq!['/']);
                lemma_flat_prefix(sub, 0, Seq::<char>::empty() + e.name@ + seq!['/']);
                let sub_bare = files_in_dir_from(sub, 0, Seq::<char>::empty());
                let hp = files_in_dir_from(sub, 0, prefix + e.name@ + seq!['/']);
                let he = files_in_dir_from(
                    sub,
                    0,
                    Seq::<char>::empty() + e.name@ + seq!['/'],
                );
                assert forall|k: int| 0 <= k < fp.len() implies (#[trigger] fp[k]) == (
                    prefix + fe[k].0,
                    fe[k].1,
                ) by {
                    if k < hp.len() {
                        assert(fp[k] == hp[k]);
                        assert(fe[k] == he[k]);
                        assert(hp[k] == (
                            (prefix + e.name@ + seq!['/']) + sub_bare[k].0,
                            sub_bare[k].1,
                        ));
                        assert(he[k] == (
                            (Seq::<char>::empty() + e.name@ + seq!['/']) + sub_bare[k].0,
                            sub_bare[k].1,
                        ));
                        assert(prefix + ((Seq::<char>::empty() + e.name@ + seq!['/'])
                            + sub_bare[k].0) =~= (prefix + e.name@ + seq!['/'])
                            + sub_bare[k].0);
                    } else {
                        assert(fp[k] == files_in_dir_from(d, i + 1, prefix)[k - hp.len()]);
                        assert(fe[k] == files_in_dir_from(
                            d,
                            i + 1,
                            Seq::<char>::empty(),
                        )[k - hp.len()]);
                    }
                }
            },
        }
    }
}

/// Every flattened file is found by walking the split of its path.
proof fn lemma_flat_lookup(d: ChestDirectory, i: int, k: int)
    requires
        dir_wf(d),
        0 <= i,
        0 <= k < files_in_dir_from(d, i, Seq::<char>::empty()).len(),
    ensures
        dir_lookup(
            d,
            split_on_slash(files_in_dir_from(d, i, Seq::<char>::empty())[k].0),
        ) == Some(ChestNode::File(files_in_dir_from(d, i, Seq::<char>::empty())[k].1)),
    decreases d, d.entries@.len() - i,
{
    let fe = files_in_dir_from(d, i, Seq::<char>::empty());
    if i < d.entries@.len() {
        let e = d.entries@[i];
        assert(is_valid_name(e.name@));
        match e.node {
            ChestNode::File(f) => {
                if k == 0 {
                    assert(fe[0] == (Seq::<char>::empty() + e.name@, f));
                    assert(Seq::<char>::empty() + e.name@ =~= e.name@);
                    assert(forall|x: int|
                        0 <= x < e.name@.len() ==> (#[trigger] e.name@[x]) != '/');
                    crate::pathutil::lemma_split_no_slash(e.name@);
                    lemma_dir_get_at(d, i);
                    assert(dir_lookup(d, seq![e.name@]) == Some(ChestNode::File(f)));
                } else {
                    assert(fe[k] == files_in_dir_from(
                        d,
                        i + 1,
                        Seq::<char>::empty(),
                    )[k - 1]);
                    lemma_flat_lookup(d, i + 1, k - 1);
                }
            },
            ChestNode::Directory(sub) => {
                let he = files_in_dir_from(
                    sub,
                    0,
                    Seq::<char>::empty() + e.name@ + seq!['/'],
                );
                if k < he.len() {
                    assert(fe[k] == he[k]);
                    lemma_flat_prefix(sub, 0, Seq::<char>::empty() + e.name@ + seq!['/']);
                    let sub_bare = files_in_dir_from(sub, 0, Seq::<char>::empty());
                    assert(he[k] == (
                        (Seq::<char>::empty() + e.name@ + seq!['/']) + sub_bare[k].0,
                        sub_bare[k].1,
                    ));
                    assert((Seq::<char>::empty() + e.name@ + seq!['/']) + sub_bare[k].0
                        =~= e.name@ + seq!['/'] + sub_bare[k].0);
                    crate::pathutil::lemma_split_concat(e.name@, sub_bare[k].0);
                    assert(forall|x: int|
                        0 <= x < e.name@.len() ==> (#[trigger] e.name@[x]) != '/');
                    crate::pathutil::lemma_split_no_slash(e.name@);
                    let parts = split_on_slash(fe[k].0);
                    assert(parts == seq![e.name@] + split_on_slash(sub_bare[k].0));
                    crate::pathutil::lemma_split_nonempty(sub_bare[k].0);
                    assert(parts.len() >= 2);
                    assert(parts[0] == e.name@);
                    lemma_dir_get_at(d, i);
                    assert(node_wf(d.entries@[i].node));
                    lemma_flat_lookup(sub, 0, k);
                    assert(parts.drop_first() =~= split_on_slash(sub_bare[k].0));
                } else {
                    assert(fe[k] == files_in_dir_from(
                        d,
                        i + 1,
                        Seq::<char>::empty(),
                    )[k - he.len()]);
                    lemma_flat_lookup(d, i + 1, k - he.len());
                }
            },
        }
    }
}

/// Flattened file paths never start with a slash and never end with
/// one.
proof fn lemma_flat_path_shape(d: ChestDirectory, i: int, k: int)
    requires
        dir_wf(d),
        0 <= i,
        0 <= k < files_in_dir_from(d, i, Seq::<char>::empty()).len(),
    ensures
        ({
            let p = files_in_dir_from(d, i, Seq::<char>::empty())[k].0;
            &&& p.len() > 0
            &&& p[0] != '/'
            &&& p.last() != '/'
        }),
    decreases d, d.entries@.len() - i,
{
    let fe = files_in_dir_from(d, i, Seq::<char>::empty());
    if i < d.entries@.len() {
        let e = d.entries@[i];
        assert(is_valid_name(e.name@));
        match e.node {
            ChestNode::File(f) => {
                if k == 0 {
                    assert(fe[0] == (Seq::<char>::empty() + e.name@, f));
                    assert(Seq::<char>::empty() + e.name@ =~= e.name@);
                } else {
                    assert(fe[k] == files_in_dir_from(
                        d,
                        i + 1,
                        Seq::<char>::empty(),
                    )[k - 1]);
                    lemma_flat_path_shape(d, i + 1, k - 1);
                }
            },
            ChestNode::Directory(sub) => {
                let he = files_in_dir_from(
                    sub,
                    0,
                    Seq::<char>::empty() + e.name@ + seq!['/'],
                );
                if k < he.len() {
                    assert(fe[k] == he[k]);
                    lemma_flat_prefix(sub, 0, Seq::<char>::empty() + e.name@ + seq!['/']);
                    let sub_bare = files_in_dir_from(sub, 0, Seq::<char>::empty());
                    assert(node_wf(d.entries@[i].node));
                    lemma_flat_path_shape(sub, 0, k);
                    assert(he[k] == (
                        (Seq::<char>::empty() + e.name@ + seq!['/']) + sub_bare[k].0,
                        sub_bare[k].1,
                    ));
                    let p = fe[k].0;
                    assert(p[0] == e.name@[0]);
                    assert(p.last() == sub_bare[k].0.last());
                } else {
                    assert(fe[k] == files_in_dir_from(
                        d,
                        i + 1,
                        Seq::<char>::empty(),
                    )[k - he.len()]);
                    lemma_flat_path_shape(d, i + 1, k - he.len());
                }
            },
        }
    }
}

/// Opening a saved chest reads back exactly the files that were saved:
/// for every file path of the saved chest, the reopened chest reads the
/// same bytes that the saved chest resolves for it.
pub proof fn lemma_save_open_round_trip(x: Chest, out: Seq<u8>, y: Chest, k: int)
    requires
        x.wf(),
        backing_ok(x.backing_model()),
        crate::archive::archive_valid(out),
        forall|k2: int|
            0 <= k2 < files_in_dir_from(x.root_dir(), 0, Seq::<char>::empty()).len()
                ==> crate::archive::archive_contents(out).dom().contains(
                (#[trigger] files_in_dir_from(x.root_dir(), 0, Seq::<char>::empty())[
                k2]).0,
            ) && Some(
                crate::archive::archive_contents(out)[files_in_dir_from(
                    x.root_dir(),
                    0,
                    Seq::<char>::empty(),
                )[k2].0],
            ) == resolved_file(
                files_in_dir_from(x.root_dir(), 0, Seq::<char>::empty())[k2].1,
                files_in_dir_from(x.root_dir(), 0, Seq::<char>::empty())[k2].0,
                x.backing_model(),
            ),
        y.wf(),
        y.backing_model() == Some(out),
        forall|n: Seq<char>|
            (crate::archive::archive_contents(out).dom().contains(n)
                && !is_directory_marker(n)) ==> #[trigger] y.lookup(file_lookup_parts(n))
                == Some(ChestNode::File(ChestFile::ArchiveBacked)),
        0 <= k < files_in_dir_from(x.root_dir(), 0, Seq::<char>::empty()).len(),
    ensures
        ({
            let p = files_in_dir_from(x.root_dir(), 0, Seq::<char>::empty())[k].0;
            &&& y.spec_read(p) is Some
            &&& y.spec_read(p) == x.spec_read(p)
        }),
{
    let flat = files_in_dir_from(x.root_dir(), 0, Seq::<char>::empty());
    let p = flat[k].0;
    lemma_flat_path_shape(x.root_dir(), 0, k);
    lemma_flat_lookup(x.root_dir(), 0, k);
    lemma_file_parts_plain(p);
    assert(x.lookup(file_lookup_parts(p)) == Some(ChestNode::File(flat[k].1)));
    assert(archive_lookup_name(p) == p);
    assert(x.spec_read(p) == resolved_file(flat[k].1, p, x.backing_model()));
    assert(crate::archive::archive_contents(out).dom().contains(p));
    assert(!is_directory_marker(p));
    assert(y.lookup(file_lookup_parts(p)) == Some(ChestNode::File(ChestFile::ArchiveBacked)));
    assert(y.spec_read(p) == resolved_file(
        ChestFile::ArchiveBacked,
        p,
        Some(out),
    ));
    assert(y.spec_read(p) == Some(crate::archive::archive_contents(out)[p]));
}

} // verus!
