//! What the walk guarantees, proved of the record list it is specified by:
//! the excluded destination never appears; pruning a directory removes its
//! whole subtree; and every reachable, kept file appears exactly once.

use vstd::prelude::*;

use crate::flatten::{
    entry_name, entry_records, excluded_here, list_records, sub_exclude, Entry, Exclude, FileRec,
};
use crate::policy::{spec_skip_dir, spec_skip_file};

verus! {

/// A tree as a filesystem yields it: no two siblings share a name.
pub open spec fn wf_entries(s: Seq<Entry>) -> bool
    decreases s,
{
    if s.len() == 0 {
        true
    } else {
        &&& wf_entry(s[0])
        &&& forall|j: int| 1 <= j < s.len() ==> entry_name(s[0]) != entry_name(#[trigger] s[j])
        &&& wf_entries(s.drop_first())
    }
}

/// A well-formed entry: a file, or a directory of well-formed entries.
pub open spec fn wf_entry(e: Entry) -> bool
    decreases e,
{
    match e {
        Entry::File { .. } => true,
        Entry::Dir { entries, .. } => wf_entries(entries@),
    }
}

/// The tree holds a regular file at path `p` with content `c`.
pub open spec fn list_has_file(s: Seq<Entry>, p: Seq<Seq<char>>, c: Seq<char>) -> bool
    decreases s,
{
    if s.len() == 0 {
        false
    } else {
        entry_has_file(s[0], p, c) || list_has_file(s.drop_first(), p, c)
    }
}

/// The entry holds a regular file at path `p` with content `c`: the entry is
/// that file, or a directory on the way to it.
pub open spec fn entry_has_file(e: Entry, p: Seq<Seq<char>>, c: Seq<char>) -> bool
    decreases e,
{
    match e {
        Entry::File { name, content } => p.len() == 1 && p[0] == name@ && c == content@,
        Entry::Dir { name, entries } => p.len() >= 2 && p[0] == name@ && list_has_file(
            entries@,
            p.drop_first(),
            c,
        ),
    }
}

/// A path the policy lets through: no directory on the way is pruned, and the
/// file itself is not skipped.
pub open spec fn eligible_path(p: Seq<Seq<char>>) -> bool {
    &&& p.len() >= 1
    &&& forall|i: int| 0 <= i < p.len() - 1 ==> !spec_skip_dir(#[trigger] p[i])
    &&& !spec_skip_file(p.last())
}

/// The path is not the excluded destination, nor below it.
pub open spec fn not_excluded(p: Seq<Seq<char>>, ex: Exclude) -> bool {
    match ex {
        Some(q) => !q.is_prefix_of(p),
        None => true,
    }
}

/// Every record of one entry starts with that entry's name and has at least
/// one segment.
proof fn lemma_entry_first_segment(e: Entry, ex: Exclude)
    ensures
        forall|i: int| 0 <= i < entry_records(e, ex).len() ==> {
            &&& #[trigger] entry_records(e, ex)[i].path.len() >= 1
            &&& entry_records(e, ex)[i].path[0] == entry_name(e)
        },
{
    let er = entry_records(e, ex);
    assert forall|i: int| 0 <= i < er.len() implies #[trigger] er[i].path.len() >= 1
        && er[i].path[0] == entry_name(e) by {
        match e {
            Entry::File { .. } => {},
            Entry::Dir { name, entries } => {
                let inner = list_records(entries@, sub_exclude(name@, ex));
                assert(er[i] == FileRec {
                    path: seq![name@] + inner[i].path,
                    content: inner[i].content,
                });
            },
        }
    }
}

/// No record of one entry carries the excluded path.
proof fn lemma_entry_self_exclusion(e: Entry, q: Seq<Seq<char>>)
    ensures
        forall|i: int| 0 <= i < entry_records(e, Some(q)).len()
            ==> #[trigger] entry_records(e, Some(q))[i].path != q,
    decreases e,
{
    let er = entry_records(e, Some(q));
    assert forall|i: int| 0 <= i < er.len() implies #[trigger] er[i].path != q by {
        match e {
            Entry::File { name, .. } => {
                assert(er[i].path == seq![name@]);
                if er[i].path == q {
                    assert(q.len() == 1 && q[0] == name@);
                }
            },
            Entry::Dir { name, entries } => {
                let sub = sub_exclude(name@, Some(q));
                let inner = list_records(entries@, sub);
                assert(er[i] == FileRec {
                    path: seq![name@] + inner[i].path,
                    content: inner[i].content,
                });
                if q.len() >= 2 && q[0] == name@ {
                    lemma_list_self_exclusion(entries@, q.drop_first());
                    if er[i].path == q {
                        assert(inner[i].path =~= q.drop_first());
                    }
                } else {
                    if er[i].path == q {
                        assert(q[0] == name@);
                        assert(q.len() >= 2 || (q.len() == 1 && q[0] == name@));
                    }
                }
            },
        }
    }
}

/// Self-exclusion: however deep the destination lies below the root, the walk
/// yields no record for it.
pub proof fn lemma_list_self_exclusion(s: Seq<Entry>, q: Seq<Seq<char>>)
    ensures
        forall|i: int| 0 <= i < list_records(s, Some(q)).len()
            ==> #[trigger] list_records(s, Some(q))[i].path != q,
    decreases s,
{
    if s.len() == 0 {
    } else {
        lemma_entry_self_exclusion(s[0], q);
        lemma_list_self_exclusion(s.drop_first(), q);
        let er = entry_records(s[0], Some(q));
        let rest = list_records(s.drop_first(), Some(q));
        assert forall|i: int| 0 <= i < list_records(s, Some(q)).len()
            implies #[trigger] list_records(s, Some(q))[i].path != q by {
            if i < er.len() {
                assert(list_records(s, Some(q))[i] == er[i]);
            } else {
                assert(list_records(s, Some(q))[i] == rest[i - er.len()]);
            }
        }
    }
}

/// Every record of one entry carries an eligible path: no pruned directory
/// on the way, and a file name the policy keeps.
proof fn lemma_entry_records_eligible(e: Entry, ex: Exclude)
    ensures
        forall|i: int| 0 <= i < entry_records(e, ex).len()
            ==> eligible_path(#[trigger] entry_records(e, ex)[i].path),
    decreases e,
{
    let er = entry_records(e, ex);
    assert forall|i: int| 0 <= i < er.len() implies eligible_path(#[trigger] er[i].path) by {
        match e {
            Entry::File { name, .. } => {
                assert(er[i].path == seq![name@]);
                assert(er[i].path.last() == name@);
            },
            Entry::Dir { name, entries } => {
                let sub = sub_exclude(name@, ex);
                let inner = list_records(entries@, sub);
                lemma_list_records_eligible(entries@, sub);
                assert(er[i] == FileRec {
                    path: seq![name@] + inner[i].path,
                    content: inner[i].content,
                });
                let p = er[i].path;
                let ip = inner[i].path;
                assert(eligible_path(ip));
                assert(p.len() == 1 + ip.len());
                assert forall|j: int| 0 <= j < p.len() - 1 implies !spec_skip_dir(
                    #[trigger] p[j],
                ) by {
                    if j >= 1 {
                        assert(p[j] == ip[j - 1]);
                    }
                }
                assert(p.last() == ip.last());
            },
        }
    }
}

/// Pruning is subtree-wide: every record the walk yields has an eligible
/// path, so nothing below a pruned directory, and no skipped file, ever
/// appears.
pub proof fn lemma_list_records_eligible(s: Seq<Entry>, ex: Exclude)
    ensures
        forall|i: int| 0 <= i < list_records(s, ex).len()
            ==> eligible_path(#[trigger] list_records(s, ex)[i].path),
    decreases s,
{
    if s.len() == 0 {
    } else {
        lemma_entry_records_eligible(s[0], ex);
        lemma_list_records_eligible(s.drop_first(), ex);
        let er = entry_records(s[0], ex);
        let rest = list_records(s.drop_first(), ex);
        assert forall|i: int| 0 <= i < list_records(s, ex).len() implies eligible_path(
            #[trigger] list_records(s, ex)[i].path,
        ) by {
            if i < er.len() {
                assert(list_records(s, ex)[i] == er[i]);
            } else {
                assert(list_records(s, ex)[i] == rest[i - er.len()]);
            }
        }
    }
}

/// The names of a list of entries, in order.
pub open spec fn names_of(s: Seq<Entry>) -> Seq<Seq<char>> {
    s.map_values(|e: Entry| entry_name(e))
}

/// Every record of a list of entries starts with the name of one of them.
proof fn lemma_list_first_segments(s: Seq<Entry>, ex: Exclude)
    ensures
        forall|i: int| 0 <= i < list_records(s, ex).len() ==> names_of(s).contains(
            #[trigger] list_records(s, ex)[i].path[0],
        ),
    decreases s,
{
    if s.len() == 0 {
    } else {
        lemma_entry_first_segment(s[0], ex);
        lemma_list_first_segments(s.drop_first(), ex);
        let er = entry_records(s[0], ex);
        let rest = list_records(s.drop_first(), ex);
        assert forall|i: int| 0 <= i < list_records(s, ex).len() implies names_of(s).contains(
            #[trigger] list_records(s, ex)[i].path[0],
        ) by {
            if i < er.len() {
                assert(list_records(s, ex)[i] == er[i]);
                assert(names_of(s)[0] == entry_name(s[0]));
            } else {
                assert(list_records(s, ex)[i] == rest[i - er.len()]);
                let p0 = rest[i - er.len()].path[0];
                let k = choose|k: int| 0 <= k < s.drop_first().len() && names_of(
                    s.drop_first(),
                )[k] == p0;
                assert(names_of(s)[k + 1] == entry_name(s[k + 1]));
                assert(s.drop_first()[k] == s[k + 1]);
            }
        }
    }
}

/// Distinct records of one entry carry distinct paths.
proof fn lemma_entry_records_unique(e: Entry, ex: Exclude)
    requires
        wf_entry(e),
    ensures
        forall|i: int, j: int|
            0 <= i < j < entry_records(e, ex).len() ==> #[trigger] entry_records(e, ex)[i].path
                != #[trigger] entry_records(e, ex)[j].path,
    decreases e,
{
    let er = entry_records(e, ex);
    assert forall|i: int, j: int| 0 <= i < j < er.len() implies #[trigger] er[i].path
        != #[trigger] er[j].path by {
        match e {
            Entry::File { .. } => {},
            Entry::Dir { name, entries } => {
                let sub = sub_exclude(name@, ex);
                let inner = list_records(entries@, sub);
                lemma_list_records_unique(entries@, sub);
                assert(er[i] == FileRec {
                    path: seq![name@] + inner[i].path,
                    content: inner[i].content,
                });
                assert(er[j] == FileRec {
                    path: seq![name@] + inner[j].path,
                    content: inner[j].content,
                });
                if er[i].path == er[j].path {
                    assert(inner[i].path =~= er[i].path.drop_first());
                    assert(inner[j].path =~= er[j].path.drop_first());
                }
            },
        }
    }
}

/// Distinct records of a well-formed tree carry distinct paths: no file
/// appears twice in the walk.
pub proof fn lemma_list_records_unique(s: Seq<Entry>, ex: Exclude)
    requires
        wf_entries(s),
    ensures
        forall|i: int, j: int|
            0 <= i < j < list_records(s, ex).len() ==> #[trigger] list_records(s, ex)[i].path
                != #[trigger] list_records(s, ex)[j].path,
    decreases s,
{
    if s.len() == 0 {
    } else {
        lemma_entry_records_unique(s[0], ex);
        lemma_list_records_unique(s.drop_first(), ex);
        lemma_entry_first_segment(s[0], ex);
        lemma_list_first_segments(s.drop_first(), ex);
        let er = entry_records(s[0], ex);
        let rest = list_records(s.drop_first(), ex);
        let all = list_records(s, ex);
        assert forall|i: int, j: int| 0 <= i < j < all.len() implies #[trigger] all[i].path
            != #[trigger] all[j].path by {
            if j < er.len() {
                assert(all[i] == er[i]);
                assert(all[j] == er[j]);
            } else if i >= er.len() {
                assert(all[i] == rest[i - er.len()]);
                assert(all[j] == rest[j - er.len()]);
            } else {
                assert(all[i] == er[i]);
                assert(all[j] == rest[j - er.len()]);
                assert(all[i].path[0] == entry_name(s[0]));
                let p0 = rest[j - er.len()].path[0];
                assert(names_of(s.drop_first()).contains(p0));
                let k = choose|k: int| 0 <= k < s.drop_first().len() && names_of(
                    s.drop_first(),
                )[k] == p0;
                assert(s.drop_first()[k] == s[k + 1]);
                assert(entry_name(s[0]) != entry_name(s[k + 1]));
            }
        }
    }
}

/// A record for the file at `p` stands among one entry's records when the
/// entry holds that file, the policy keeps the whole path, and the path is
/// not the excluded one nor below it.
proof fn lemma_entry_completeness(e: Entry, ex: Exclude, p: Seq<Seq<char>>, c: Seq<char>)
    requires
        entry_has_file(e, p, c),
        eligible_path(p),
        not_excluded(p, ex),
    ensures
        exists|i: int|
            0 <= i < entry_records(e, ex).len() && #[trigger] entry_records(e, ex)[i] == (FileRec {
                path: p,
                content: c,
            }),
    decreases e,
{
    let er = entry_records(e, ex);
    match e {
        Entry::File { name, content } => {
            if excluded_here(name@, ex) {
                let q = ex.unwrap();
                assert(q =~= p);
                assert(q.is_prefix_of(p));
            }
            assert(p.last() == name@);
            assert(er[0].path =~= p);
            assert(er[0] == (FileRec { path: p, content: c }));
        },
        Entry::Dir { name, entries } => {
            if excluded_here(name@, ex) {
                let q = ex.unwrap();
                assert(q =~= p.subrange(0, 1));
                assert(q.is_prefix_of(p));
            }
            assert(!spec_skip_dir(p[0]));
            let sub = sub_exclude(name@, ex);
            let inner = list_records(entries@, sub);
            let p1 = p.drop_first();
            assert(eligible_path(p1)) by {
                assert(p1.len() >= 1);
                assert forall|i: int| 0 <= i < p1.len() - 1 implies !spec_skip_dir(
                    #[trigger] p1[i],
                ) by {
                    assert(p1[i] == p[i + 1]);
                }
                assert(p1.last() == p.last());
            }
            assert(not_excluded(p1, sub)) by {
                if sub is Some {
                    let q = ex.unwrap();
                    let q1 = q.drop_first();
                    if q1.is_prefix_of(p1) {
                        assert(q =~= p.subrange(0, q.len() as int)) by {
                            assert forall|i: int| 0 <= i < q.len() implies q[i] == p[i] by {
                                if i >= 1 {
                                    assert(q1[i - 1] == p1.subrange(0, q1.len() as int)[i - 1]);
                                }
                            }
                        }
                        assert(q.is_prefix_of(p));
                    }
                }
            }
            lemma_list_completeness(entries@, sub, p1, c);
            let i = choose|i: int|
                0 <= i < inner.len() && #[trigger] inner[i] == (FileRec {
                    path: p1,
                    content: c,
                });
            assert(er[i] == FileRec { path: seq![name@] + inner[i].path, content: inner[i].content });
            assert(er[i].path =~= p);
            assert(er[i] == (FileRec { path: p, content: c }));
        },
    }
}

/// Completeness, the existence half: a record for the file at `p` stands in
/// the walk's records when the tree holds that file, the policy keeps the
/// whole path, and the path is not the excluded one nor below it.
pub proof fn lemma_list_completeness(s: Seq<Entry>, ex: Exclude, p: Seq<Seq<char>>, c: Seq<char>)
    requires
        list_has_file(s, p, c),
        eligible_path(p),
        not_excluded(p, ex),
    ensures
        exists|i: int|
            0 <= i < list_records(s, ex).len() && #[trigger] list_records(s, ex)[i] == (FileRec {
                path: p,
                content: c,
            }),
    decreases s,
{
    let all = list_records(s, ex);
    let er = entry_records(s[0], ex);
    let rest = list_records(s.drop_first(), ex);
    if entry_has_file(s[0], p, c) {
        lemma_entry_completeness(s[0], ex, p, c);
        let i = choose|i: int|
            0 <= i < er.len() && #[trigger] er[i] == (FileRec { path: p, content: c });
        assert(all[i] == er[i]);
    } else {
        lemma_list_completeness(s.drop_first(), ex, p, c);
        let i = choose|i: int|
            0 <= i < rest.len() && #[trigger] rest[i] == (FileRec { path: p, content: c });
        assert(all[er.len() + i] == rest[i]);
    }
}

/// Completeness: a well-formed tree's walk yields, for a file the tree holds
/// whose path the policy keeps and which is not the excluded destination nor
/// below it, exactly one record, and that record carries the file's content.
pub proof fn lemma_completeness(s: Seq<Entry>, ex: Exclude, p: Seq<Seq<char>>, c: Seq<char>)
    requires
        wf_entries(s),
        list_has_file(s, p, c),
        eligible_path(p),
        not_excluded(p, ex),
    ensures
        exists|i: int|
            0 <= i < list_records(s, ex).len() && #[trigger] list_records(s, ex)[i] == (FileRec {
                path: p,
                content: c,
            }),
        forall|i: int, j: int|
            (0 <= i < list_records(s, ex).len() && 0 <= j < list_records(s, ex).len()
                && #[trigger] list_records(s, ex)[i].path == p
                && #[trigger] list_records(s, ex)[j].path == p) ==> i == j,
{
    lemma_list_completeness(s, ex, p, c);
    lemma_list_records_unique(s, ex);
}

} // verus!
