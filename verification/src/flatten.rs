//! The traversal: an in-memory directory tree is walked in entry order,
//! filtered by the policy, and rendered as one record per kept file.

use vstd::prelude::*;

verus! {

/// One entry of a directory tree: a file with its text content, or a
/// directory with its entries in enumeration order.
pub enum Entry {
    File { name: String, content: String },
    Dir { name: String, entries: Vec<Entry> },
}

/// The name of an entry, file or directory.
pub open spec fn entry_name(e: Entry) -> Seq<char> {
    match e {
        Entry::File { name, .. } => name@,
        Entry::Dir { name, .. } => name@,
    }
}

/// One kept file: its path below the root, segment by segment, and its
/// content. The rendered record shows only the last segment and the content;
/// the full path states which file the record came from.
pub struct FileRec {
    pub path: Seq<Seq<char>>,
    pub content: Seq<char>,
}

/// The destination's path below the root, segment by segment, when the
/// destination lies below the root at all: the walk excludes that one path.
pub type Exclude = Option<Seq<Seq<char>>>;

/// True exactly when the exclusion names this very entry: one segment is
/// left and it is the entry's name.
pub open spec fn excluded_here(name: Seq<char>, ex: Exclude) -> bool {
    match ex {
        Some(p) => p.len() == 1 && p[0] == name,
        None => false,
    }
}

/// The exclusion as seen from inside a directory of name `name`: the
/// remaining segments when the directory is on the excluded path, and
/// nothing otherwise.
pub open spec fn sub_exclude(name: Seq<char>, ex: Exclude) -> Exclude {
    match ex {
        Some(p) => if p.len() >= 2 && p[0] == name {
            Some(p.drop_first())
        } else {
            None
        },
        None => None,
    }
}

/// The records of a directory's entries, each path led by the directory's
/// name.
pub open spec fn prepend_all(name: Seq<char>, rs: Seq<FileRec>) -> Seq<FileRec> {
    rs.map_values(|r: FileRec| FileRec { path: seq![name] + r.path, content: r.content })
}

/// The kept files of one entry, in walk order: nothing when the entry is the
/// excluded path or the policy skips it; the file itself for a kept file; and
/// the kept files of a kept directory, their paths led by its name.
pub open spec fn entry_records(e: Entry, ex: Exclude) -> Seq<FileRec>
    decreases e,
{
    if excluded_here(entry_name(e), ex) {
        Seq::empty()
    } else {
        match e {
            Entry::File { name, content } => {
                if crate::policy::spec_skip_file(name@) {
                    Seq::empty()
                } else {
                    seq![FileRec { path: seq![name@], content: content@ }]
                }
            },
            Entry::Dir { name, entries } => {
                if crate::policy::spec_skip_dir(name@) {
                    Seq::empty()
                } else {
                    prepend_all(name@, list_records(entries@, sub_exclude(name@, ex)))
                }
            },
        }
    }
}

/// The kept files of a list of entries, in order.
pub open spec fn list_records(s: Seq<Entry>, ex: Exclude) -> Seq<FileRec>
    decreases s,
{
    if s.len() == 0 {
        Seq::empty()
    } else {
        entry_records(s[0], ex) + list_records(s.drop_first(), ex)
    }
}

/// One record's text: the file's name, its content, and the delimiter line,
/// each closed by a newline.
pub open spec fn record_text(name: Seq<char>, content: Seq<char>) -> Seq<char> {
    name + "\n"@ + content + "\n"@ + "--------\n"@
}

/// The whole dump: the records' texts, concatenated in walk order.
pub open spec fn render(rs: Seq<FileRec>) -> Seq<char>
    decreases rs,
{
    if rs.len() == 0 {
        Seq::empty()
    } else {
        record_text(rs[0].path.last(), rs[0].content) + render(rs.drop_first())
    }
}

/// Walking one entry more appends that entry's records.
proof fn lemma_list_records_push(s: Seq<Entry>, e: Entry, ex: Exclude)
    ensures
        list_records(s.push(e), ex) == list_records(s, ex) + entry_records(e, ex),
    decreases s,
{
    if s.len() == 0 {
        assert(s.push(e).drop_first() =~= s);
        assert(list_records(s.push(e), ex) =~= list_records(s, ex) + entry_records(e, ex));
    } else {
        assert(s.push(e).drop_first() =~= s.drop_first().push(e));
        lemma_list_records_push(s.drop_first(), e, ex);
        assert(list_records(s.push(e), ex) =~= list_records(s, ex) + entry_records(e, ex));
    }
}

/// Rendering distributes over concatenation of record lists.
proof fn lemma_render_add(a: Seq<FileRec>, b: Seq<FileRec>)
    ensures
        render(a + b) == render(a) + render(b),
    decreases a,
{
    if a.len() == 0 {
        assert(a + b =~= b);
        assert(render(a) + render(b) =~= render(b));
    } else {
        assert((a + b).drop_first() =~= a.drop_first() + b);
        lemma_render_add(a.drop_first(), b);
        assert(render(a + b) =~= render(a) + render(b));
    }
}

/// Every record of one entry carries a path of at least one segment.
proof fn lemma_entry_paths_nonempty(e: Entry, ex: Exclude)
    ensures
        forall|i: int| 0 <= i < entry_records(e, ex).len()
            ==> #[trigger] entry_records(e, ex)[i].path.len() >= 1,
    decreases e,
{
    match e {
        Entry::File { .. } => {},
        Entry::Dir { name, entries } => {
            lemma_list_paths_nonempty(entries@, sub_exclude(name@, ex));
        },
    }
}

/// Every record of a list of entries carries a path of at least one segment.
proof fn lemma_list_paths_nonempty(s: Seq<Entry>, ex: Exclude)
    ensures
        forall|i: int| 0 <= i < list_records(s, ex).len()
            ==> #[trigger] list_records(s, ex)[i].path.len() >= 1,
    decreases s,
{
    if s.len() == 0 {
    } else {
        lemma_entry_paths_nonempty(s[0], ex);
        lemma_list_paths_nonempty(s.drop_first(), ex);
        let er = entry_records(s[0], ex);
        let rest = list_records(s.drop_first(), ex);
        assert forall|i: int| 0 <= i < list_records(s, ex).len()
            implies #[trigger] list_records(s, ex)[i].path.len() >= 1 by {
            if i < er.len() {
                assert(list_records(s, ex)[i] == er[i]);
            } else {
                assert(list_records(s, ex)[i] == rest[i - er.len()]);
            }
        }
    }
}

/// Leading a record's path with one more segment leaves its rendering as it
/// was: the rendering shows only the last segment.
proof fn lemma_render_prepend(name: Seq<char>, rs: Seq<FileRec>)
    requires
        forall|i: int| 0 <= i < rs.len() ==> #[trigger] rs[i].path.len() >= 1,
    ensures
        render(prepend_all(name, rs)) == render(rs),
    decreases rs,
{
    let mapped = prepend_all(name, rs);
    if rs.len() == 0 {
        assert(mapped =~= Seq::<FileRec>::empty());
    } else {
        assert(mapped[0].path.last() == rs[0].path.last());
        assert(mapped.drop_first() =~= prepend_all(name, rs.drop_first()));
        lemma_render_prepend(name, rs.drop_first());
        assert(render(mapped) =~= render(rs));
    }
}

/// The views of a list of path segments.
pub open spec fn views_of(v: Seq<String>) -> Seq<Seq<char>> {
    v.map_values(|s: String| s@)
}

/// The exclusion as handed to the walk: the destination's segments below the
/// root, or nothing when the destination lies elsewhere. An empty segment
/// list names no entry, so it excludes nothing.
pub open spec fn exclude_view(ex: Option<Vec<String>>) -> Exclude {
    match ex {
        Some(v) => if v@.len() == 0 {
            None
        } else {
            Some(views_of(v@))
        },
        None => None,
    }
}

/// The exclusion as seen part-way down the walk: the segments of `v` from
/// `from` on, while the walk is still on the excluded path.
pub open spec fn rem_view(v: Seq<String>, from: int, active: bool) -> Exclude {
    if active {
        Some(views_of(v).skip(from))
    } else {
        None
    }
}

/// Equality of two strings, stated over their character sequences.
fn string_eq(a: &String, b: &String) -> (r: bool)
    ensures
        r == (a@ == b@),
{
    a.eq(b)
}

/// Renders the kept files of `entries`, in order, excluding the path
/// `ex[from..]` when `active`.
fn flatten_list(entries: &Vec<Entry>, ex: &Vec<String>, from: usize, active: bool) -> (out: String)
    requires
        active ==> from < ex@.len(),
    ensures
        out@ == render(list_records(entries@, rem_view(ex@, from as int, active))),
    decreases entries@,
{
    let ghost rem = rem_view(ex@, from as int, active);
    let mut out = String::new();
    let n = entries.len();
    let exl = ex.len();
    let mut k: usize = 0;
    while k < n
        invariant
            n == entries@.len(),
            exl == ex@.len(),
            k <= n,
            active ==> from < ex@.len(),
            rem == rem_view(ex@, from as int, active),
            out@ == render(list_records(entries@.take(k as int), rem)),
        decreases n - k,
    {
        proof {
            assert(entries@.take(k + 1 as int) =~= entries@.take(k as int).push(entries@[k as int]));
            lemma_list_records_push(entries@.take(k as int), entries@[k as int], rem);
            lemma_render_add(
                list_records(entries@.take(k as int), rem),
                entry_records(entries@[k as int], rem),
            );
        }
        let e = &entries[k];
        match e {
            Entry::File { name, content } => {
                let excl = active && from + 1 == exl && string_eq(name, &ex[from]);
                proof {
                    assert(excl == excluded_here(name@, rem));
                }
                if !excl && !crate::policy::should_skip_file(name.as_str()) {
                    let ghost before = out@;
                    out.append(name.as_str());
                    out.append("\n");
                    out.append(content.as_str());
                    out.append("\n");
                    out.append("--------\n");
                    proof {
                        let er = entry_records(entries@[k as int], rem);
                        assert(er =~= seq![FileRec { path: seq![name@], content: content@ }]);
                        assert(er[0].path.last() == name@);
                        assert(er.drop_first() =~= Seq::<FileRec>::empty());
                        assert(render(Seq::<FileRec>::empty()) == Seq::<char>::empty());
                        assert(render(er) == record_text(er[0].path.last(), er[0].content)
                            + render(er.drop_first()));
                        assert(render(er) =~= record_text(name@, content@));
                        assert(out@ =~= before + render(er));
                    }
                } else {
                    proof {
                        assert(entry_records(entries@[k as int], rem) =~= Seq::<FileRec>::empty());
                        assert(out@ =~= out@ + render(Seq::<FileRec>::empty()));
                    }
                }
            },
            Entry::Dir { name, entries: sub } => {
                let excl = active && from + 1 == exl && string_eq(name, &ex[from]);
                proof {
                    assert(excl == excluded_here(name@, rem));
                }
                if !excl && !crate::policy::should_skip_directory(name.as_str()) {
                    let descend = active && from + 1 < exl && string_eq(name, &ex[from]);
                    proof {
                        if descend {
                            assert(views_of(ex@).skip(from as int).drop_first()
                                =~= views_of(ex@).skip(from + 1 as int));
                            assert(sub_exclude(name@, rem) == rem_view(ex@, from + 1 as int, true));
                        } else {
                            assert(sub_exclude(name@, rem) == rem_view(ex@, 0, false));
                        }
                    }
                    let sub_out = if descend {
                        flatten_list(sub, ex, from + 1, true)
                    } else {
                        flatten_list(sub, ex, 0, false)
                    };
                    proof {
                        let inner = list_records(sub@, sub_exclude(name@, rem));
                        lemma_list_paths_nonempty(sub@, sub_exclude(name@, rem));
                        lemma_render_prepend(name@, inner);
                    }
                    let ghost before = out@;
                    out.append(sub_out.as_str());
                    proof {
                        assert(out@ =~= before + render(entry_records(entries@[k as int], rem)));
                    }
                } else {
                    proof {
                        assert(entry_records(entries@[k as int], rem) =~= Seq::<FileRec>::empty());
                        assert(out@ =~= out@ + render(Seq::<FileRec>::empty()));
                    }
                }
            },
        }
        k = k + 1;
    }
    proof {
        assert(entries@.take(n as int) =~= entries@);
    }
    out
}

/// Renders the whole tree below the root: every kept file, in walk order, as
/// one record of name, content and delimiter line; the excluded destination,
/// when given, contributes nothing.
pub fn flatten_tree(entries: &Vec<Entry>, exclude: &Option<Vec<String>>) -> (out: String)
    ensures
        out@ == render(list_records(entries@, exclude_view(*exclude))),
{
    match exclude {
        None => {
            let none: Vec<String> = Vec::new();
            flatten_list(entries, &none, 0, false)
        },
        Some(v) => {
            if v.len() == 0 {
                flatten_list(entries, v, 0, false)
            } else {
                proof {
                    assert(views_of(v@).skip(0) =~= views_of(v@));
                }
                flatten_list(entries, v, 0, true)
            }
        },
    }
}

} // verus!
