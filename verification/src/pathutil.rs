use vstd::prelude::*;
use crate::strutil::string_push_char;

verus! {

/// The views of a sequence of strings.
pub open spec fn seq_views(v: Seq<String>) -> Seq<Seq<char>> {
    Seq::new(v.len(), |i: int| v[i]@)
}

/// True for characters that may appear in a path component: no ASCII
/// control characters and none of `/ \ < > " : | ? *`.
pub open spec fn valid_name_char(c: char) -> bool {
    &&& (c as u32) >= 32
    &&& (c as u32) != 127
    &&& c != '/'
    &&& c != '\\'
    &&& c != '<'
    &&& c != '>'
    &&& c != '"'
    &&& c != ':'
    &&& c != '|'
    &&& c != '?'
    &&& c != '*'
}

/// A path component is valid when it is non-empty and every character is
/// acceptable in a file name.
pub open spec fn is_valid_name(s: Seq<char>) -> bool {
    s.len() > 0 && forall|i: int| 0 <= i < s.len() ==> valid_name_char(#[trigger] s[i])
}

/// Checks a component of a path for validity.
pub fn validate_name(name: &str) -> (r: bool)
    ensures
        r == is_valid_name(name@),
{
    let n = name.unicode_len();
    if n == 0 {
        return false;
    }
    let mut i: usize = 0;
    while i < n
        invariant
            i <= n,
            n == name@.len(),
            forall|j: int| 0 <= j < i ==> valid_name_char(#[trigger] name@[j]),
        decreases n - i,
    {
        let c = name.get_char(i);
        let u = c as u32;
        if u < 32 || u == 127 || c == '/' || c == '\\' || c == '<' || c == '>' || c == '"'
            || c == ':' || c == '|' || c == '?' || c == '*' {
            return false;
        }
        i += 1;
    }
    true
}

/// Splitting a character sequence on `/`. The empty sequence splits into
/// one empty component, matching how `split` behaves on strings.
pub open spec fn split_on_slash(s: Seq<char>) -> Seq<Seq<char>>
    decreases s.len(),
{
    if s.len() == 0 {
        seq![Seq::<char>::empty()]
    } else {
        let rest = split_on_slash(s.drop_last());
        if s.last() == '/' {
            rest.push(Seq::<char>::empty())
        } else {
            rest.update(rest.len() - 1, rest.last().push(s.last()))
        }
    }
}

pub proof fn lemma_split_nonempty(s: Seq<char>)
    ensures
        split_on_slash(s).len() >= 1,
    decreases s.len(),
{
    if s.len() > 0 {
        lemma_split_nonempty(s.drop_last());
    }
}

/// Appending a slash-free suffix extends the last component of a split.
pub proof fn lemma_split_append_no_slash(s: Seq<char>, w: Seq<char>)
    requires
        forall|i: int| 0 <= i < w.len() ==> w[i] != '/',
    ensures
        split_on_slash(s + w) == split_on_slash(s).update(
            split_on_slash(s).len() - 1,
            split_on_slash(s).last() + w,
        ),
    decreases w.len(),
{
    lemma_split_nonempty(s);
    if w.len() == 0 {
        assert(s + w =~= s);
        assert(split_on_slash(s).last() + w =~= split_on_slash(s).last());
        assert(split_on_slash(s).update(
            split_on_slash(s).len() - 1,
            split_on_slash(s).last() + w,
        ) =~= split_on_slash(s));
    } else {
        lemma_split_append_no_slash(s, w.drop_last());
        let sw = s + w;
        assert(sw.drop_last() =~= s + w.drop_last());
        assert(sw.last() == w.last());
        assert(sw.last() != '/');
        let prev = split_on_slash(s + w.drop_last());
        assert(split_on_slash(sw) == prev.update(prev.len() - 1, prev.last().push(w.last())));
        assert(prev.last() == split_on_slash(s).last() + w.drop_last());
        assert(prev.last().push(w.last()) =~= split_on_slash(s).last() + w);
        assert(split_on_slash(sw) =~= split_on_slash(s).update(
            split_on_slash(s).len() - 1,
            split_on_slash(s).last() + w,
        ));
    }
}

/// Appending a slash starts a fresh empty component.
pub proof fn lemma_split_append_slash(s: Seq<char>)
    ensures
        split_on_slash(s.push('/')) == split_on_slash(s).push(Seq::<char>::empty()),
{
    assert(s.push('/').drop_last() =~= s);
}

/// Splits a path string into its components.
pub fn split_path(s: &str) -> (r: Vec<String>)
    ensures
        seq_views(r@) == split_on_slash(s@),
        r@.len() >= 1,
{
    let n = s.unicode_len();
    let mut r: Vec<String> = Vec::new();
    r.push(String::new());
    proof {
        assert(s@.take(0) =~= Seq::<char>::empty());
        assert(seq_views(r@) =~= split_on_slash(s@.take(0)));
    }
    let mut i: usize = 0;
    while i < n
        invariant
            i <= n,
            n == s@.len(),
            r@.len() >= 1,
            seq_views(r@) == split_on_slash(s@.take(i as int)),
        decreases n - i,
    {
        let c = s.get_char(i);
        proof {
            assert(s@.take(i + 1).drop_last() =~= s@.take(i as int));
            assert(s@.take(i + 1).last() == s@[i as int]);
            lemma_split_nonempty(s@.take(i as int));
        }
        if c == '/' {
            r.push(String::new());
            proof {
                assert(seq_views(r@) =~= split_on_slash(s@.take(i + 1)));
            }
        } else {
            let li = r.len() - 1;
            string_push_char(&mut r[li], c);
            proof {
                let prev = split_on_slash(s@.take(i as int));
                assert(split_on_slash(s@.take(i + 1)) == prev.update(
                    prev.len() - 1,
                    prev.last().push(s@[i as int]),
                ));
                assert(seq_views(r@) =~= split_on_slash(s@.take(i + 1)));
            }
        }
        i += 1;
    }
    proof {
        assert(s@.take(n as int) =~= s@);
    }
    r
}

/// The components that a file operation walks for a path: everything up
/// to the final component names directories, the final component names the
/// file, and one leading empty component (a leading `/`) is dropped.
pub open spec fn file_lookup_parts(path: Seq<char>) -> Seq<Seq<char>> {
    let parts = split_on_slash(path);
    let dirs = parts.drop_last();
    let dirs2 = if dirs.len() > 0 && dirs[0].len() == 0 {
        dirs.drop_first()
    } else {
        dirs
    };
    dirs2.push(parts.last())
}

/// The components that a directory listing walks for a path: a leading
/// empty component (leading `/`) and a trailing empty component (trailing
/// `/`) are dropped.
pub open spec fn dir_lookup_parts(path: Seq<char>) -> Seq<Seq<char>> {
    let parts = split_on_slash(path);
    let p1 = if parts.len() > 0 && parts[0].len() == 0 {
        parts.drop_first()
    } else {
        parts
    };
    if p1.len() > 0 && p1.last().len() == 0 {
        p1.drop_last()
    } else {
        p1
    }
}

/// Splits a path for a file operation.
pub fn file_parts(path: &str) -> (r: Vec<String>)
    ensures
        seq_views(r@) == file_lookup_parts(path@),
        r@.len() >= 1,
{
    let mut parts = split_path(path);
    if parts.len() >= 2 && parts[0].as_str().is_empty() {
        parts.remove(0);
    }
    proof {
        assert(seq_views(parts@) =~= file_lookup_parts(path@));
    }
    parts
}

/// Splits a path for a directory listing.
pub fn dir_parts(path: &str) -> (r: Vec<String>)
    ensures
        seq_views(r@) == dir_lookup_parts(path@),
{
    let mut parts = split_path(path);
    if parts.len() >= 1 && parts[0].as_str().is_empty() {
        parts.remove(0);
    }
    if parts.len() >= 1 && parts[parts.len() - 1].as_str().is_empty() {
        parts.pop();
    }
    proof {
        assert(seq_views(parts@) =~= dir_lookup_parts(path@));
    }
    parts
}


/// Splitting distributes over concatenation at a separator.
pub proof fn lemma_split_concat(s: Seq<char>, t: Seq<char>)
    ensures
        split_on_slash(s + seq!['/'] + t) == split_on_slash(s) + split_on_slash(t),
    decreases t.len(),
{
    if t.len() == 0 {
        assert(s + seq!['/'] + t =~= s.push('/'));
        lemma_split_append_slash(s);
        assert(split_on_slash(t) =~= seq![Seq::<char>::empty()]);
        assert(split_on_slash(s).push(Seq::<char>::empty()) =~= split_on_slash(s)
            + split_on_slash(t));
    } else {
        lemma_split_concat(s, t.drop_last());
        let whole = s + seq!['/'] + t;
        assert(whole.drop_last() =~= s + seq!['/'] + t.drop_last());
        assert(whole.last() == t.last());
        lemma_split_nonempty(t.drop_last());
        lemma_split_nonempty(s);
        let left = split_on_slash(s);
        let prev = split_on_slash(s + seq!['/'] + t.drop_last());
        if t.last() == '/' {
            assert(split_on_slash(whole) == prev.push(Seq::<char>::empty()));
            assert(split_on_slash(t) == split_on_slash(t.drop_last()).push(
                Seq::<char>::empty(),
            ));
            assert(split_on_slash(whole) =~= left + split_on_slash(t));
        } else {
            assert(split_on_slash(whole) == prev.update(
                prev.len() - 1,
                prev.last().push(t.last()),
            ));
            let tsplit = split_on_slash(t.drop_last());
            assert(split_on_slash(t) == tsplit.update(
                tsplit.len() - 1,
                tsplit.last().push(t.last()),
            ));
            assert(prev.last() == tsplit.last());
            assert(split_on_slash(whole) =~= left + split_on_slash(t));
        }
    }
}

/// A sequence without separators splits into itself alone.
pub proof fn lemma_split_no_slash(s: Seq<char>)
    requires
        forall|i: int| 0 <= i < s.len() ==> s[i] != '/',
    ensures
        split_on_slash(s) == seq![s],
    decreases s.len(),
{
    if s.len() == 0 {
        assert(split_on_slash(s) =~~= seq![s]);
    } else {
        assert(forall|i: int| 0 <= i < s.len() - 1 ==> s.drop_last()[i] == s[i]);
        lemma_split_no_slash(s.drop_last());
        assert(s.drop_last().push(s.last()) =~= s);
        assert(split_on_slash(s) =~~= seq![s]);
    }
}

} // verus!
