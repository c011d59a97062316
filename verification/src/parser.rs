//! SSH configuration parsing: extracting host aliases from the lines of a
//! configuration file, and ordering configuration files by name.
//!
//! A host alias comes from a line whose trimmed text starts with the
//! case-insensitive keyword `Host` followed by whitespace; the first
//! whitespace-delimited token after the keyword is the alias, kept only
//! when it is non-empty and free of the wildcard characters `*` and `?`.
//! Reading the file itself is the caller's concern: this module works on
//! lines already in memory.

use vstd::prelude::*;
use vstd::string::StrSliceExecFns;
use crate::text::contains_char;
use crate::text::first_token;
use crate::text::first_token_bounds;
use crate::text::is_space;
use crate::text::is_space_char;
use crate::text::spec_trim;
use crate::text::trim;

verus! {

/// A selectable configuration file: the name shown in the list and the
/// path used to open it.
#[derive(Debug)]
pub struct FileEntry {
    pub name: String,
    pub path: String,
}

impl FileEntry {
    /// Pairs a display name with the path it stands for.
    pub fn new(name: String, path: String) -> (r: Self)
        ensures
            r.name == name,
            r.path == path,
    {
        Self { name, path }
    }
}

impl Clone for FileEntry {
    fn clone(&self) -> (r: Self)
        ensures
            r == *self,
    {
        FileEntry { name: self.name.clone(), path: self.path.clone() }
    }
}

/// The host alias declared by `line`, if any: the trimmed line must start
/// with the keyword `Host` (any case) followed by whitespace, and the
/// first whitespace-delimited token after the keyword must be non-empty
/// and without wildcard characters.
pub open spec fn host_token_of_line(line: Seq<char>) -> Option<Seq<char>> {
    let t = spec_trim(line);
    if t.len() >= 5 && (t[0] == 'h' || t[0] == 'H') && (t[1] == 'o' || t[1] == 'O') && (t[2] == 's'
        || t[2] == 'S') && (t[3] == 't' || t[3] == 'T') && is_space(t[4]) {
        let h = first_token(t.subrange(5, t.len() as int));
        if h.len() > 0 && !h.contains('*') && !h.contains('?') {
            Some(h)
        } else {
            None
        }
    } else {
        None
    }
}

/// The host aliases declared by `lines`, in order of appearance.
pub open spec fn hosts_of_lines(lines: Seq<String>) -> Seq<Seq<char>>
    decreases lines.len(),
{
    if lines.len() == 0 {
        Seq::empty()
    } else {
        let rest = hosts_of_lines(lines.drop_last());
        match host_token_of_line(lines.last()@) {
            Some(h) => rest.push(h),
            None => rest,
        }
    }
}

/// The alias on one line, if the line declares one.
fn host_of_line(line: &str) -> (r: Option<String>)
    ensures
        match r {
            Some(h) => host_token_of_line(line@) == Some(h@),
            None => host_token_of_line(line@) is None,
        },
{
    let t = trim(line);
    let ts = t.as_str();
    let tn = ts.unicode_len();
    if tn < 5 {
        return None;
    }
    let c0 = ts.get_char(0);
    let c1 = ts.get_char(1);
    let c2 = ts.get_char(2);
    let c3 = ts.get_char(3);
    let c4 = ts.get_char(4);
    if !((c0 == 'h' || c0 == 'H') && (c1 == 'o' || c1 == 'O') && (c2 == 's' || c2 == 'S') && (c3
        == 't' || c3 == 'T') && is_space_char(c4)) {
        return None;
    }
    let rest = ts.substring_char(5, tn);
    let (a, b) = first_token_bounds(rest);
    if a == b {
        return None;
    }
    let h = rest.substring_char(a, b).to_owned();
    proof {
        assert(rest@ == t@.subrange(5, tn as int));
        assert(h@ =~= first_token(t@.subrange(5, tn as int)));
    }
    let hs = h.as_str();
    if contains_char(hs, '*') || contains_char(hs, '?') {
        return None;
    }
    Some(h)
}

/// Extracts the host aliases declared by `lines`, in order of appearance.
pub fn parse_ssh_hosts(lines: &Vec<String>) -> (r: Vec<String>)
    ensures
        r@.len() == hosts_of_lines(lines@).len(),
        forall|k: int| 0 <= k < r@.len() ==> (#[trigger] r@[k])@ == hosts_of_lines(lines@)[k],
{
    let mut r: Vec<String> = Vec::new();
    let mut idx: usize = 0;
    while idx < lines.len()
        invariant
            0 <= idx <= lines@.len(),
            r@.len() == hosts_of_lines(lines@.subrange(0, idx as int)).len(),
            forall|k: int|
                0 <= k < r@.len() ==> (#[trigger] r@[k])@ == hosts_of_lines(
                    lines@.subrange(0, idx as int),
                )[k],
        decreases lines@.len() - idx,
    {
        let ghost pre = lines@.subrange(0, idx as int);
        let ghost post = lines@.subrange(0, idx as int + 1);
        proof {
            assert(post.drop_last() =~= pre);
            assert(post.last() == lines@[idx as int]);
        }
        match host_of_line(lines[idx].as_str()) {
            Some(h) => {
                r.push(h);
            },
            None => {},
        }
        idx = idx + 1;
    }
    proof {
        assert(lines@.subrange(0, lines@.len() as int) =~= lines@);
    }
    r
}

/// Lexicographic order on character sequences, by code point; a proper
/// prefix comes first. Matches the standard byte order on UTF-8 strings.
pub open spec fn lex_le(a: Seq<char>, b: Seq<char>) -> bool
    decreases a.len(),
{
    if a.len() == 0 {
        true
    } else if b.len() == 0 {
        false
    } else if a[0] == b[0] {
        lex_le(a.drop_first(), b.drop_first())
    } else {
        (a[0] as int) < (b[0] as int)
    }
}

proof fn lemma_lex_le_total(a: Seq<char>, b: Seq<char>)
    ensures
        lex_le(a, b) || lex_le(b, a),
    decreases a.len(),
{
    if a.len() > 0 && b.len() > 0 {
        if a[0] == b[0] {
            lemma_lex_le_total(a.drop_first(), b.drop_first());
        } else {
            assert(a[0] as int != b[0] as int);
        }
    }
}

proof fn lemma_lex_le_trans(a: Seq<char>, b: Seq<char>, c: Seq<char>)
    requires
        lex_le(a, b),
        lex_le(b, c),
    ensures
        lex_le(a, c),
    decreases a.len(),
{
    if a.len() > 0 && b.len() > 0 && c.len() > 0 {
        if a[0] == b[0] && b[0] == c[0] {
            lemma_lex_le_trans(a.drop_first(), b.drop_first(), c.drop_first());
        }
    }
}

/// Whether `a@ <= b@` in the order of [`lex_le`].
fn lex_le_exec(a: &str, b: &str) -> (r: bool)
    ensures
        r == lex_le(a@, b@),
{
    let an = a.unicode_len();
    let bn = b.unicode_len();
    let mut i: usize = 0;
    proof {
        assert(a@.skip(0) =~= a@);
        assert(b@.skip(0) =~= b@);
    }
    loop
        invariant
            an == a@.len(),
            bn == b@.len(),
            0 <= i <= an,
            0 <= i <= bn,
            forall|k: int| 0 <= k < i ==> a@[k] == b@[k],
            lex_le(a@, b@) == lex_le(a@.skip(i as int), b@.skip(i as int)),
        decreases an - i,
    {
        if i >= an {
            proof {
                assert(a@.skip(i as int).len() == 0);
            }
            return true;
        }
        if i >= bn {
            proof {
                assert(b@.skip(i as int).len() == 0);
                assert(a@.skip(i as int).len() > 0);
            }
            return false;
        }
        let ca = a.get_char(i);
        let cb = b.get_char(i);
        proof {
            let sa = a@.skip(i as int);
            let sb = b@.skip(i as int);
            assert(sa[0] == a@[i as int] && sb[0] == b@[i as int]);
            assert(sa.drop_first() =~= a@.skip(i as int + 1));
            assert(sb.drop_first() =~= b@.skip(i as int + 1));
        }
        if ca != cb {
            return (ca as u32) < (cb as u32);
        }

        i = i + 1;
    }
}

/// Sorts configuration files by display name, reordering the given entries
/// and nothing more.
pub fn sort_file_entries(files: Vec<FileEntry>) -> (r: Vec<FileEntry>)
    ensures
        r@.to_multiset() == files@.to_multiset(),
        forall|k: int, l: int|
            0 <= k < l < r@.len() ==> lex_le((#[trigger] r@[k]).name@, (#[trigger] r@[l]).name@),
{
    let mut rest = files;
    let mut out: Vec<FileEntry> = Vec::new();
    proof {
        out@.to_multiset_ensures();
        rest@.to_multiset_ensures();
        assert(out@.to_multiset().add(rest@.to_multiset()) =~= rest@.to_multiset());
    }
    while rest.len() > 0
        invariant
            out@.to_multiset().add(rest@.to_multiset()) =~= files@.to_multiset(),
            forall|k: int, l: int|
                0 <= k < l < out@.len() ==> lex_le(
                    (#[trigger] out@[k]).name@,
                    (#[trigger] out@[l]).name@,
                ),
            forall|a: int, b: int|
                0 <= a < out@.len() && 0 <= b < rest@.len() ==> lex_le(
                    (#[trigger] out@[a]).name@,
                    (#[trigger] rest@[b]).name@,
                ),
        decreases rest.len(),
    {
        let mut m: usize = 0;
        let mut j: usize = 1;
        proof {
            lemma_lex_le_total(rest@[0].name@, rest@[0].name@);
        }
        while j < rest.len()
            invariant
                0 <= m < j <= rest@.len(),
                forall|k: int|
                    0 <= k < j ==> lex_le(rest@[m as int].name@, (#[trigger] rest@[k]).name@),
            decreases rest.len() - j,
        {
            if !lex_le_exec(rest[m].name.as_str(), rest[j].name.as_str()) {
                proof {
                    lemma_lex_le_total(rest@[m as int].name@, rest@[j as int].name@);
                    assert forall|k: int| 0 <= k < j + 1 implies lex_le(
                        rest@[j as int].name@,
                        (#[trigger] rest@[k]).name@,
                    ) by {
                        if k < j {
                            lemma_lex_le_trans(
                                rest@[j as int].name@,
                                rest@[m as int].name@,
                                rest@[k].name@,
                            );
                        } else {
                            lemma_lex_le_total(rest@[j as int].name@, rest@[j as int].name@);
                        }
                    }
                }
                m = j;
            } else {
                proof {
                    assert(lex_le(rest@[m as int].name@, rest@[j as int].name@));
                }
            }
            j = j + 1;
        }
        let ghost old_rest = rest@;
        let ghost old_out = out@;
        let x = rest.remove(m);
        out.push(x);
        proof {
            old_rest.remove_ensures(m as int);
            old_rest.to_multiset_ensures();
            old_out.to_multiset_ensures();
            assert(out@.to_multiset() =~= old_out.to_multiset().insert(out@[out@.len() - 1]));
            assert(rest@.to_multiset() =~= old_rest.to_multiset().remove(old_rest[m as int]));
            assert(old_rest.contains(old_rest[m as int])) by {
                assert(old_rest[m as int] == old_rest[m as int]);
            }
            assert(old_rest.to_multiset().count(old_rest[m as int]) > 0);
            assert(out@.to_multiset().add(rest@.to_multiset()) =~= files@.to_multiset());
            assert forall|a: int, b: int|
                0 <= a < out@.len() && 0 <= b < rest@.len() implies lex_le(
                (#[trigger] out@[a]).name@,
                (#[trigger] rest@[b]).name@,
            ) by {
                let bb = if b < m as int {
                    b
                } else {
                    b + 1
                };
                assert(rest@[b] == old_rest[bb]);
                if a < out@.len() - 1 {
                    assert(out@[a] == old_out[a]);
                } else {
                    assert(out@[a] == old_rest[m as int]);
                }
            }
            assert forall|k: int, l: int| 0 <= k < l < out@.len() implies lex_le(
                (#[trigger] out@[k]).name@,
                (#[trigger] out@[l]).name@,
            ) by {
                if l == out@.len() - 1 {
                    assert(out@[k] == old_out[k]);
                }
            }
        }
    }
    proof {
        assert(rest@.to_multiset() =~= vstd::multiset::Multiset::<FileEntry>::empty()) by {
            rest@.to_multiset_ensures();
        }
        assert(out@.to_multiset().add(rest@.to_multiset()) =~= out@.to_multiset());
    }
    out
}

} // verus!
