//! The folder tree a list of bookmarks is written as: its shape, and the
//! order in which it lists the bookmarks.
use vstd::prelude::*;

use crate::netscape::{
    build_tree, build_tree_prefix, children, folder_position, insert_at, lemma_folder_position,
    netscape_text, parse_netscape_spec, EntryModel,
};
use crate::netscape_laws::{
    distinct_folders, entry_distinct, entry_placed, flat, flat_entry, folder_name, insert_pos,
    is_prefix, lemma_build_distinct, lemma_build_placed, lemma_flat_around,
    lemma_flat_entry_prefix, lemma_insert_at_pos, lemma_netscape_round_trip,
    lemma_tree_order_permutes, placed, tree_order, writable,
};
use crate::BookmarkView;

verus! {

// ---------------------------------------------------------------------
// No folder is empty
// ---------------------------------------------------------------------

/// Every folder of a level, and of the levels below it, holds an entry.
pub open spec fn nonempty_folders(es: Seq<EntryModel>) -> bool
    decreases es,
{
    forall|k: int| 0 <= k < es.len() ==> entry_nonempty(#[trigger] es[k])
}

pub open spec fn entry_nonempty(e: EntryModel) -> bool
    decreases e,
{
    match e {
        EntryModel::Mark(_) => true,
        EntryModel::Folder(_, cs) => cs.len() > 0 && nonempty_folders(cs),
    }
}

proof fn lemma_insert_nonempty(es: Seq<EntryModel>, path: Seq<Seq<char>>, idx: int)
    requires
        nonempty_folders(es),
    ensures
        nonempty_folders(insert_at(es, path, idx)),
        insert_at(es, path, idx).len() > 0,
    decreases path.len(),
{
    let res = insert_at(es, path, idx);
    if path.len() == 0 {
        assert forall|k: int| 0 <= k < res.len() implies entry_nonempty(#[trigger] res[k]) by {
            if k < es.len() {
                assert(res[k] == es[k]);
            }
        }
    } else {
        let name = path[0];
        lemma_folder_position(es, name);
        match folder_position(es, name) {
            Some(k) => {
                assert(entry_nonempty(es[k]));
                lemma_insert_nonempty(children(es[k]), path.drop_first(), idx);
                assert forall|q: int| 0 <= q < res.len() implies entry_nonempty(#[trigger] res[q]) by {
                    if q != k {
                        assert(res[q] == es[q]);
                    }
                }
            },
            None => {
                lemma_insert_nonempty(Seq::empty(), path.drop_first(), idx);
                assert forall|q: int| 0 <= q < res.len() implies entry_nonempty(#[trigger] res[q]) by {
                    if q < es.len() {
                        assert(res[q] == es[q]);
                    }
                }
            },
        }
    }
}

/// The tree of the first `n` bookmarks has no empty folder.
pub proof fn lemma_build_nonempty(bs: Seq<BookmarkView>, n: int)
    requires
        0 <= n <= bs.len(),
    ensures
        nonempty_folders(build_tree_prefix(bs, n)),
    decreases n,
{
    if n > 0 {
        lemma_build_nonempty(bs, n - 1);
        lemma_insert_nonempty(build_tree_prefix(bs, n - 1), bs[n - 1].folder, n - 1);
    }
}

/// The folder tree of `bs` holds each bookmark once, at the level reached
/// from the top through the names of its folder path; no level holds two
/// folders of one name, and no folder is empty.
pub proof fn lemma_tree_shape(bs: Seq<BookmarkView>)
    ensures
        placed(build_tree(bs), bs, Seq::empty()),
        flat(build_tree(bs)).to_multiset() == Seq::new(bs.len(), |i: int| i).to_multiset(),
        distinct_folders(build_tree(bs)),
        nonempty_folders(build_tree(bs)),
{
    lemma_build_placed(bs, bs.len() as int);
    lemma_tree_order_permutes(bs);
    lemma_build_distinct(bs, bs.len() as int);
    lemma_build_nonempty(bs, bs.len() as int);
}

// ---------------------------------------------------------------------
// Grouped input is written in input order
// ---------------------------------------------------------------------

/// The bookmarks under any folder path stand together: between two
/// bookmarks under a non-empty path `p`, every bookmark is under `p` too.
pub open spec fn grouped(bs: Seq<BookmarkView>) -> bool {
    forall|i: int, j: int, k: int, p: Seq<Seq<char>>|
        #![trigger is_prefix(p, bs[i].folder), is_prefix(p, bs[j].folder), is_prefix(p, bs[k].folder)]
        0 <= i < j < k < bs.len() && p.len() > 0 && is_prefix(p, bs[i].folder) && is_prefix(
            p,
            bs[k].folder,
        ) ==> is_prefix(p, bs[j].folder)
}

/// The last entry of each level down `q` is the folder named by `q`, and
/// below that the last entry is a bookmark: the path of the bookmark filed
/// last.
pub open spec fn spine(es: Seq<EntryModel>, q: Seq<Seq<char>>) -> bool
    decreases q.len(),
{
    es.len() > 0 && if q.len() == 0 {
        es.last() is Mark
    } else {
        match es.last() {
            EntryModel::Folder(n, cs) => n == q[0] && spine(cs, q.drop_first()),
            EntryModel::Mark(_) => false,
        }
    }
}

proof fn lemma_spine_fresh(r: Seq<Seq<char>>, x: int)
    ensures
        spine(insert_at(Seq::empty(), r, x), r),
    decreases r.len(),
{
    if r.len() > 0 {
        lemma_spine_fresh(r.drop_first(), x);
        assert(folder_position(Seq::<EntryModel>::empty(), r[0]) is None);
    }
}

proof fn lemma_prefix_push(prefix: Seq<Seq<char>>, path: Seq<Seq<char>>)
    requires
        path.len() > 0,
    ensures
        is_prefix(prefix.push(path[0]), prefix + path),
        prefix + path == prefix.push(path[0]) + path.drop_first(),
{
    assert((prefix + path).take(prefix.len() as int + 1) =~= prefix.push(path[0]));
    assert(prefix + path =~= prefix.push(path[0]) + path.drop_first());
}

/// Filing the next bookmark of grouped input under `path` puts it after
/// every bookmark already written, when the tree's last path is `q`.
proof fn lemma_grouped_insert(
    es: Seq<EntryModel>,
    path: Seq<Seq<char>>,
    q: Seq<Seq<char>>,
    bs: Seq<BookmarkView>,
    prefix: Seq<Seq<char>>,
    last: int,
    next: int,
)
    requires
        spine(es, q),
        placed(es, bs, prefix),
        distinct_folders(es),
        nonempty_folders(es),
        0 <= last < next < bs.len(),
        bs[last].folder == prefix + q,
        bs[next].folder == prefix + path,
        forall|t: int| 0 <= t < flat(es).len() ==> #[trigger] flat(es)[t] <= last,
        forall|i: int, p: Seq<Seq<char>>|
            #![trigger is_prefix(p, bs[i].folder)]
            0 <= i < last && p.len() > 0 && is_prefix(p, bs[i].folder) && is_prefix(
                p,
                bs[next].folder,
            ) ==> is_prefix(p, bs[last].folder),
    ensures
        insert_pos(es, path) == flat(es).len(),
        spine(insert_at(es, path, next), path),
    decreases path.len(),
{
    let res = insert_at(es, path, next);
    if path.len() > 0 {
        let name = path[0];
        let deeper = prefix.push(name);
        lemma_prefix_push(prefix, path);
        lemma_folder_position(es, name);
        let n1 = es.len() - 1;
        if q.len() > 0 && q[0] == name {
            let cs = children(es[n1]);
            assert(es[n1] == EntryModel::Folder(name, cs));
            assert(folder_position(es, name) == Some(n1)) by {
                match folder_position(es, name) {
                    Some(k) => {
                        assert(folder_name(es[k]) == folder_name(es[n1]));
                    },
                    None => {
                        crate::netscape_laws::lemma_folder_position_none(es, name, 0);
                        assert(folder_name(es[n1]) == Some(name));
                    },
                }
            }
            assert(entry_placed(es[n1], bs, prefix));
            assert(entry_distinct(es[n1]));
            assert(entry_nonempty(es[n1]));
            lemma_flat_around(es, n1);
            assert(es.skip(n1 + 1) =~= Seq::<EntryModel>::empty());
            assert(flat(es.skip(n1 + 1)) =~= Seq::<int>::empty());
            let a = flat(es.take(n1));
            assert forall|t: int| 0 <= t < flat(cs).len() implies #[trigger] flat(cs)[t] <= last by {
                assert(flat(es)[a.len() + t] == flat(cs)[t]);
            }
            lemma_prefix_push(prefix, q);
            lemma_grouped_insert(
                cs,
                path.drop_first(),
                q.drop_first(),
                bs,
                deeper,
                last,
                next,
            );
            assert(res.last() == EntryModel::Folder(name, insert_at(cs, path.drop_first(), next)));
        } else {
            assert(folder_position(es, name) is None) by {
                match folder_position(es, name) {
                    Some(k) => {
                        let cs = children(es[k]);
                        assert(entry_nonempty(es[k]));
                        assert(entry_placed(es[k], bs, prefix));
                        lemma_flat_entry_prefix(es[k], bs, prefix);
                        assert(flat_entry(es[k]) == flat(cs));
                        assert(flat(cs).len() > 0) by {
                            assert(flat(cs) == flat_entry(cs[0]) + flat(cs.drop_first()));
                            assert(entry_nonempty(cs[0]));
                            lemma_entry_flat_nonempty(cs[0]);
                        }
                        let i = flat(cs)[0];
                        assert(is_prefix(deeper, bs[i].folder));
                        lemma_flat_around(es, k);
                        let a = flat(es.take(k));
                        assert(flat(es)[a.len() as int] == i);
                        assert(i <= last);
                        assert(!is_prefix(deeper, bs[last].folder)) by {
                            if is_prefix(deeper, bs[last].folder) {
                                assert((prefix + q).take(prefix.len() as int + 1)[prefix.len() as int]
                                    == deeper[prefix.len() as int]);
                            }
                        }
                        assert(i != last);
                        assert(is_prefix(deeper, bs[next].folder));
                        assert(false);
                    },
                    None => {},
                }
            }
            lemma_spine_fresh(path.drop_first(), next);
            assert(res.last() == EntryModel::Folder(
                name,
                insert_at(Seq::empty(), path.drop_first(), next),
            ));
        }
    }
}

proof fn lemma_entry_flat_nonempty(e: EntryModel)
    requires
        entry_nonempty(e),
    ensures
        flat_entry(e).len() > 0,
    decreases e,
{
    match e {
        EntryModel::Mark(_) => {},
        EntryModel::Folder(_, cs) => {
            assert(entry_nonempty(cs[0]));
            lemma_entry_flat_nonempty(cs[0]);
            assert(flat(cs) == flat_entry(cs[0]) + flat(cs.drop_first()));
        },
    }
}

proof fn lemma_grouped_prefix(bs: Seq<BookmarkView>, n: int)
    requires
        0 <= n <= bs.len(),
        grouped(bs),
    ensures
        flat(build_tree_prefix(bs, n)) == Seq::new(n as nat, |i: int| i),
        n > 0 ==> spine(build_tree_prefix(bs, n), bs[n - 1].folder),
    decreases n,
{
    if n == 0 {
        assert(flat(Seq::<EntryModel>::empty()) =~= Seq::<int>::empty());
        assert(Seq::new(0, |i: int| i) =~= Seq::<int>::empty());
    } else {
        let m = n - 1;
        let t = build_tree_prefix(bs, m);
        let path = bs[m].folder;
        let e = Seq::<Seq<char>>::empty();
        assert(e + path =~= path);
        lemma_grouped_prefix(bs, m);
        lemma_build_placed(bs, m);
        lemma_build_distinct(bs, m);
        lemma_build_nonempty(bs, m);
        lemma_insert_at_pos(t, path, m, bs, e);
        if m == 0 {
            assert(insert_pos(t, path) == 0) by {
                if path.len() > 0 {
                    assert(folder_position(t, path[0]) is None);
                }
            }
            lemma_spine_fresh(path, m);
            assert(t =~= Seq::<EntryModel>::empty());
        } else {
            let last = m - 1;
            assert(e + bs[last].folder =~= bs[last].folder);
            assert forall|i: int, p: Seq<Seq<char>>|
                #![trigger is_prefix(p, bs[i].folder)]
                0 <= i < last && p.len() > 0 && is_prefix(p, bs[i].folder) && is_prefix(
                    p,
                    bs[m].folder,
                ) implies is_prefix(p, bs[last].folder) by {
                assert(is_prefix(p, bs[i].folder) && is_prefix(p, bs[last].folder) && is_prefix(
                    p,
                    bs[m].folder,
                ) || !is_prefix(p, bs[last].folder));
            }
            lemma_grouped_insert(t, path, bs[last].folder, bs, e, last, m);
        }
        assert(flat(t).insert(flat(t).len() as int, m) =~= Seq::new(n as nat, |i: int| i));
    }
}

/// Grouped bookmarks are written in their input order: the folder tree
/// lists them as `0..n`.
pub proof fn lemma_grouped_tree_order(bs: Seq<BookmarkView>)
    requires
        grouped(bs),
    ensures
        flat(build_tree(bs)) == Seq::new(bs.len(), |i: int| i),
        tree_order(bs) == bs,
{
    lemma_grouped_prefix(bs, bs.len() as int);
    assert(tree_order(bs) =~= bs);
}

/// Reading back a written Netscape file gives grouped bookmarks back
/// exactly, in input order: `parse_netscape(&write_netscape(bs)) == bs`,
/// for bookmarks whose texts hold no line feed and whose urls hold nothing
/// that is escaped on writing and, for a dated bookmark, do not end in
/// `add_date=`.
pub proof fn lemma_grouped_round_trip(bs: Seq<BookmarkView>)
    requires
        grouped(bs),
        forall|i: int| 0 <= i < bs.len() ==> writable(#[trigger] bs[i]),
    ensures
        parse_netscape_spec(netscape_text(bs)) == bs,
{
    lemma_netscape_round_trip(bs);
    lemma_grouped_tree_order(bs);
}

// ---------------------------------------------------------------------
// Each level lists its entries in order of first use
// ---------------------------------------------------------------------

/// The first bookmark of `x` comes before every bookmark of `y` in the
/// input.
pub open spec fn first_before(x: EntryModel, y: EntryModel) -> bool {
    flat_entry(x).len() > 0 && forall|t: int|
        0 <= t < flat_entry(y).len() ==> flat_entry(x)[0] < #[trigger] flat_entry(y)[t]
}

/// At every level, an entry that stands before another was used first: its
/// first bookmark comes before all of the other's in the input.
pub open spec fn first_use_ordered(es: Seq<EntryModel>) -> bool
    decreases es,
{
    &&& forall|a: int, b: int|
        0 <= a < b < es.len() ==> first_before(#[trigger] es[a], #[trigger] es[b])
    &&& forall|k: int| 0 <= k < es.len() ==> entry_first_ordered(#[trigger] es[k])
}

pub open spec fn entry_first_ordered(e: EntryModel) -> bool
    decreases e,
{
    match e {
        EntryModel::Mark(_) => true,
        EntryModel::Folder(_, cs) => first_use_ordered(cs),
    }
}

proof fn lemma_fresh_chain(r: Seq<Seq<char>>, x: int)
    ensures
        flat(insert_at(Seq::empty(), r, x)) == seq![x],
        first_use_ordered(insert_at(Seq::empty(), r, x)),
        insert_at(Seq::empty(), r, x).len() == 1,
    decreases r.len(),
{
    let res = insert_at(Seq::<EntryModel>::empty(), r, x);
    if r.len() > 0 {
        lemma_fresh_chain(r.drop_first(), x);
        assert(folder_position(Seq::<EntryModel>::empty(), r[0]) is None);
    }
    assert(res.drop_first() =~= Seq::<EntryModel>::empty());
    assert(flat(res.drop_first()) =~= Seq::<int>::empty());
    assert(flat(res) =~= flat_entry(res[0]));
    assert(flat_entry(res[0]) =~= seq![x]);
}

proof fn lemma_insert_pos_positive(es: Seq<EntryModel>, path: Seq<Seq<char>>)
    requires
        es.len() > 0,
        nonempty_folders(es),
    ensures
        insert_pos(es, path) > 0,
    decreases path.len(),
{
    assert(entry_nonempty(es[0]));
    lemma_entry_flat_nonempty(es[0]);
    assert(flat(es) == flat_entry(es[0]) + flat(es.drop_first()));
    if path.len() > 0 {
        lemma_folder_position(es, path[0]);
        match folder_position(es, path[0]) {
            Some(k) => {
                assert(entry_nonempty(es[k]));
                lemma_insert_pos_positive(children(es[k]), path.drop_first());
            },
            None => {},
        }
    }
}

proof fn lemma_insert_first_ordered(
    es: Seq<EntryModel>,
    path: Seq<Seq<char>>,
    idx: int,
    bs: Seq<BookmarkView>,
    prefix: Seq<Seq<char>>,
)
    requires
        first_use_ordered(es),
        nonempty_folders(es),
        placed(es, bs, prefix),
        distinct_folders(es),
        forall|t: int| 0 <= t < flat(es).len() ==> #[trigger] flat(es)[t] < idx,
    ensures
        first_use_ordered(insert_at(es, path, idx)),
    decreases path.len(),
{
    let res = insert_at(es, path, idx);
    assert forall|a: int| 0 <= a < es.len() implies flat_entry(#[trigger] es[a]).len() > 0
        && flat_entry(es[a])[0] < idx by {
        assert(entry_nonempty(es[a]));
        lemma_entry_flat_nonempty(es[a]);
        lemma_flat_around(es, a);
        assert(flat(es)[flat(es.take(a)).len() as int] == flat_entry(es[a])[0]);
    }
    if path.len() == 0 {
        assert forall|a: int, b: int| 0 <= a < b < res.len() implies first_before(
            #[trigger] res[a],
            #[trigger] res[b],
        ) by {
            assert(res[a] == es[a]);
            if b < es.len() {
                assert(res[b] == es[b]);
            } else {
                assert(flat_entry(res[b]) =~= seq![idx]);
            }
        }
        assert forall|k: int| 0 <= k < res.len() implies entry_first_ordered(#[trigger] res[k]) by {
            if k < es.len() {
                assert(res[k] == es[k]);
            }
        }
    } else {
        let name = path[0];
        lemma_folder_position(es, name);
        match folder_position(es, name) {
            Some(k) => {
                let cs = children(es[k]);
                let deeper = prefix.push(name);
                let cs2 = insert_at(cs, path.drop_first(), idx);
                assert(es[k] == EntryModel::Folder(name, cs));
                assert(entry_placed(es[k], bs, prefix));
                assert(entry_distinct(es[k]));
                assert(entry_nonempty(es[k]));
                assert(entry_first_ordered(es[k]));
                lemma_flat_around(es, k);
                let a0 = flat(es.take(k));
                assert forall|t: int| 0 <= t < flat(cs).len() implies #[trigger] flat(cs)[t]
                    < idx by {
                    assert(flat(es)[a0.len() + t] == flat(cs)[t]);
                }
                lemma_insert_first_ordered(cs, path.drop_first(), idx, bs, deeper);
                lemma_insert_at_pos(cs, path.drop_first(), idx, bs, deeper);
                lemma_insert_pos_positive(cs, path.drop_first());
                let pos = insert_pos(cs, path.drop_first());
                assert(flat(cs2) == flat(cs).insert(pos, idx));
                assert(flat(cs2)[0] == flat(cs)[0]);
                let nk = EntryModel::Folder(name, cs2);
                assert(res[k] == nk);
                assert(flat_entry(nk) == flat(cs2));
                assert forall|t: int| 0 <= t < flat(cs2).len() implies flat(cs2)[t] == idx || exists|
                    u: int,
                | 0 <= u < flat(cs).len() && flat(cs)[u] == #[trigger] flat(cs2)[t] by {
                    if t < pos {
                        assert(flat(cs2)[t] == flat(cs)[t]);
                    } else if t > pos {
                        assert(flat(cs2)[t] == flat(cs)[t - 1]);
                    }
                }
                assert forall|a: int, b: int| 0 <= a < b < res.len() implies first_before(
                    #[trigger] res[a],
                    #[trigger] res[b],
                ) by {
                    if a != k && b != k {
                        assert(res[a] == es[a] && res[b] == es[b]);
                    } else if b == k {
                        assert(res[a] == es[a]);
                        assert(first_before(es[a], es[k]));
                        assert forall|t: int| 0 <= t < flat_entry(res[b]).len() implies flat_entry(
                            res[a],
                        )[0] < #[trigger] flat_entry(res[b])[t] by {
                            if flat(cs2)[t] != idx {
                                let u = choose|u: int|
                                    0 <= u < flat(cs).len() && flat(cs)[u] == flat(cs2)[t];
                                assert(flat_entry(es[k])[u] == flat(cs)[u]);
                            }
                        }
                    } else {
                        assert(res[b] == es[b]);
                        assert(first_before(es[k], es[b]));
                        assert(flat_entry(res[a])[0] == flat_entry(es[k])[0]);
                    }
                }
                assert forall|q: int| 0 <= q < res.len() implies entry_first_ordered(
                    #[trigger] res[q],
                ) by {
                    if q != k {
                        assert(res[q] == es[q]);
                    }
                }
            },
            None => {
                lemma_fresh_chain(path.drop_first(), idx);
                let nk = EntryModel::Folder(name, insert_at(Seq::empty(), path.drop_first(), idx));
                assert(res == es.push(nk));
                assert(flat_entry(nk) == seq![idx]);
                assert forall|a: int, b: int| 0 <= a < b < res.len() implies first_before(
                    #[trigger] res[a],
                    #[trigger] res[b],
                ) by {
                    assert(res[a] == es[a]);
                    if b < es.len() {
                        assert(res[b] == es[b]);
                    }
                }
                assert forall|q: int| 0 <= q < res.len() implies entry_first_ordered(
                    #[trigger] res[q],
                ) by {
                    if q < es.len() {
                        assert(res[q] == es[q]);
                    }
                }
            },
        }
    }
}

/// Every bookmark the tree of the first `n` holds is one of them.
pub proof fn lemma_build_below(bs: Seq<BookmarkView>, n: int)
    requires
        0 <= n <= bs.len(),
    ensures
        forall|t: int|
            0 <= t < flat(build_tree_prefix(bs, n)).len() ==> 0 <= #[trigger] flat(
                build_tree_prefix(bs, n),
            )[t] < n,
{
    broadcast use vstd::seq_lib::group_to_multiset_ensures;

    let s = flat(build_tree_prefix(bs, n));
    let ids = Seq::new(n as nat, |i: int| i);
    crate::netscape_laws::lemma_build_flat(bs, n);
    assert forall|t: int| 0 <= t < s.len() implies 0 <= #[trigger] s[t] < n by {
        assert(s.contains(s[t]));
        assert(s.to_multiset().count(s[t]) > 0);
        assert(ids.to_multiset().count(s[t]) > 0);
        assert(ids.contains(s[t]));
    }
}

proof fn lemma_build_first_ordered(bs: Seq<BookmarkView>, n: int)
    requires
        0 <= n <= bs.len(),
    ensures
        first_use_ordered(build_tree_prefix(bs, n)),
    decreases n,
{
    if n > 0 {
        let m = n - 1;
        lemma_build_first_ordered(bs, m);
        lemma_build_nonempty(bs, m);
        lemma_build_placed(bs, m);
        lemma_build_distinct(bs, m);
        lemma_build_below(bs, m);
        lemma_insert_first_ordered(build_tree_prefix(bs, m), bs[m].folder, m, bs, Seq::empty());
    }
}

/// Every level of the folder tree lists its entries, bookmarks and
/// folders alike, in the order of their first use in the input: an entry
/// that stands before another has a bookmark earlier than all of the
/// other's.
pub proof fn lemma_first_use_order(bs: Seq<BookmarkView>)
    ensures
        first_use_ordered(build_tree(bs)),
{
    lemma_build_first_ordered(bs, bs.len() as int);
}

// ---------------------------------------------------------------------
// The bookmarks under a folder stand together
// ---------------------------------------------------------------------

/// No bookmark of `s` is filed under `p`.
pub open spec fn none_under(s: Seq<int>, bs: Seq<BookmarkView>, p: Seq<Seq<char>>) -> bool {
    forall|t: int| 0 <= t < s.len() ==> !is_prefix(p, #[trigger] bs[s[t]].folder)
}

/// Between two bookmarks of `s` filed under `p`, every bookmark of `s` is
/// filed under `p` too.
pub open spec fn contiguous_under(s: Seq<int>, bs: Seq<BookmarkView>, p: Seq<Seq<char>>) -> bool {
    forall|x: int, y: int, z: int|
        #![trigger s[x], s[y], s[z]]
        0 <= x < y < z < s.len() && is_prefix(p, bs[s[x]].folder) && is_prefix(p, bs[s[z]].folder)
            ==> is_prefix(p, bs[s[y]].folder)
}

/// An entry at level `pre` that is not the folder `p` goes through holds
/// no bookmark under `p`.
proof fn lemma_entry_none_under(
    e: EntryModel,
    bs: Seq<BookmarkView>,
    pre: Seq<Seq<char>>,
    p: Seq<Seq<char>>,
)
    requires
        entry_placed(e, bs, pre),
        p.len() > pre.len(),
        p.take(pre.len() as int) == pre,
        folder_name(e) != Some(p[pre.len() as int]),
    ensures
        none_under(flat_entry(e), bs, p),
{
    lemma_flat_entry_prefix(e, bs, pre);
    let f = flat_entry(e);
    assert forall|t: int| 0 <= t < f.len() implies !is_prefix(p, #[trigger] bs[f[t]].folder) by {
        let g = bs[f[t]].folder;
        match e {
            EntryModel::Mark(i) => {
                assert(f[t] == i);
            },
            EntryModel::Folder(n2, cs) => {
                assert(is_prefix(pre.push(n2), g));
                if is_prefix(p, g) {
                    assert(g.take(pre.len() as int + 1)[pre.len() as int] == n2);
                    assert(g.take(p.len() as int)[pre.len() as int] == p[pre.len() as int]);
                }
            },
        }
    }
}

proof fn lemma_level_none_under(
    es: Seq<EntryModel>,
    bs: Seq<BookmarkView>,
    pre: Seq<Seq<char>>,
    p: Seq<Seq<char>>,
)
    requires
        placed(es, bs, pre),
        p.len() > pre.len(),
        p.take(pre.len() as int) == pre,
        forall|k: int| 0 <= k < es.len() ==> folder_name(#[trigger] es[k]) != Some(
            p[pre.len() as int],
        ),
    ensures
        none_under(flat(es), bs, p),
    decreases es.len(),
{
    if es.len() > 0 {
        let tail = es.drop_first();
        assert(entry_placed(es[0], bs, pre));
        assert(placed(tail, bs, pre)) by {
            assert forall|k: int| 0 <= k < tail.len() implies entry_placed(#[trigger] tail[k], bs, pre) by {
                assert(tail[k] == es[k + 1]);
            }
        }
        assert forall|k: int| 0 <= k < tail.len() implies folder_name(#[trigger] tail[k]) != Some(
            p[pre.len() as int],
        ) by {
            assert(tail[k] == es[k + 1]);
        }
        lemma_entry_none_under(es[0], bs, pre, p);
        lemma_level_none_under(tail, bs, pre, p);
        let a = flat_entry(es[0]);
        assert(flat(es) == a + flat(tail));
        assert forall|t: int| 0 <= t < flat(es).len() implies !is_prefix(
            p,
            #[trigger] bs[flat(es)[t]].folder,
        ) by {
            if t < a.len() {
                assert(flat(es)[t] == a[t]);
            } else {
                assert(flat(es)[t] == flat(tail)[t - a.len()]);
            }
        }
    }
}

proof fn lemma_level_contiguous(
    es: Seq<EntryModel>,
    bs: Seq<BookmarkView>,
    pre: Seq<Seq<char>>,
    p: Seq<Seq<char>>,
)
    requires
        placed(es, bs, pre),
        distinct_folders(es),
        p.len() > pre.len(),
        p.take(pre.len() as int) == pre,
    ensures
        contiguous_under(flat(es), bs, p),
    decreases p.len() - pre.len(), es.len(),
{
    if es.len() > 0 {
        let name = p[pre.len() as int];
        let tail = es.drop_first();
        let a = flat_entry(es[0]);
        let b = flat(tail);
        let s = flat(es);
        assert(s == a + b);
        assert(entry_placed(es[0], bs, pre));
        assert(placed(tail, bs, pre)) by {
            assert forall|k: int| 0 <= k < tail.len() implies entry_placed(#[trigger] tail[k], bs, pre) by {
                assert(tail[k] == es[k + 1]);
            }
        }
        assert(distinct_folders(tail)) by {
            assert forall|x: int, y: int|
                0 <= x < tail.len() && 0 <= y < tail.len() && #[trigger] folder_name(tail[x]) is Some
                    && #[trigger] folder_name(tail[y]) == folder_name(tail[x]) implies x == y by {
                assert(tail[x] == es[x + 1] && tail[y] == es[y + 1]);
            }
            assert forall|k: int| 0 <= k < tail.len() implies entry_distinct(#[trigger] tail[k]) by {
                assert(tail[k] == es[k + 1]);
            }
        }
        if folder_name(es[0]) == Some(name) {
            // every bookmark under `p` is in the first entry
            let cs = children(es[0]);
            assert(es[0] == EntryModel::Folder(name, cs));
            assert forall|k: int| 0 <= k < tail.len() implies folder_name(#[trigger] tail[k]) != Some(
                name,
            ) by {
                assert(tail[k] == es[k + 1]);
                assert(folder_name(es[k + 1]) != folder_name(es[0]));
            }
            lemma_level_none_under(tail, bs, pre, p);
            let deeper = pre.push(name);
            assert(a == flat(cs));
            if p.len() == deeper.len() {
                assert(p =~= deeper) by {
                    assert forall|t: int| 0 <= t < p.len() implies p[t] == deeper[t] by {
                        if t < pre.len() {
                            assert(p.take(pre.len() as int)[t] == p[t]);
                        }
                    }
                }
                lemma_flat_entry_prefix(es[0], bs, pre);
            } else {
                assert(entry_distinct(es[0]));
                assert(p.take(deeper.len() as int) =~= deeper) by {
                    assert forall|t: int| 0 <= t < deeper.len() implies p.take(
                        deeper.len() as int,
                    )[t] == deeper[t] by {
                        if t < pre.len() {
                            assert(p.take(pre.len() as int)[t] == p[t]);
                        }
                    }
                }
                lemma_level_contiguous(cs, bs, deeper, p);
            }
            assert forall|x: int, y: int, z: int|
                #![trigger s[x], s[y], s[z]]
                0 <= x < y < z < s.len() && is_prefix(p, bs[s[x]].folder) && is_prefix(
                    p,
                    bs[s[z]].folder,
                ) implies is_prefix(p, bs[s[y]].folder) by {
                if z >= a.len() {
                    assert(s[z] == b[z - a.len()]);
                }
                assert(s[x] == a[x] && s[y] == a[y] && s[z] == a[z]);
            }
        } else {
            lemma_entry_none_under(es[0], bs, pre, p);
            lemma_level_contiguous(tail, bs, pre, p);
            assert forall|x: int, y: int, z: int|
                #![trigger s[x], s[y], s[z]]
                0 <= x < y < z < s.len() && is_prefix(p, bs[s[x]].folder) && is_prefix(
                    p,
                    bs[s[z]].folder,
                ) implies is_prefix(p, bs[s[y]].folder) by {
                if x < a.len() {
                    assert(s[x] == a[x]);
                }
                assert(s[x] == b[x - a.len()] && s[y] == b[y - a.len()] && s[z] == b[z
                    - a.len()]);
            }
        }
    }
}

/// In the order a written file lists them, the bookmarks under any
/// non-empty folder path stand together: between two bookmarks under `p`,
/// every bookmark is under `p` too.
pub proof fn lemma_folders_contiguous(bs: Seq<BookmarkView>)
    ensures
        forall|p: Seq<Seq<char>>, x: int, y: int, z: int|
            #![trigger is_prefix(p, tree_order(bs)[x].folder), is_prefix(p, tree_order(bs)[y].folder), is_prefix(p, tree_order(bs)[z].folder)]
            p.len() > 0 && 0 <= x < y < z < tree_order(bs).len() && is_prefix(
                p,
                tree_order(bs)[x].folder,
            ) && is_prefix(p, tree_order(bs)[z].folder) ==> is_prefix(
                p,
                tree_order(bs)[y].folder,
            ),
{
    let t = build_tree(bs);
    let s = flat(t);
    lemma_build_placed(bs, bs.len() as int);
    lemma_build_distinct(bs, bs.len() as int);
    assert forall|p: Seq<Seq<char>>, x: int, y: int, z: int|
        #![trigger is_prefix(p, tree_order(bs)[x].folder), is_prefix(p, tree_order(bs)[y].folder), is_prefix(p, tree_order(bs)[z].folder)]
        p.len() > 0 && 0 <= x < y < z < tree_order(bs).len() && is_prefix(
            p,
            tree_order(bs)[x].folder,
        ) && is_prefix(p, tree_order(bs)[z].folder) implies is_prefix(
        p,
        tree_order(bs)[y].folder,
    ) by {
        let e = Seq::<Seq<char>>::empty();
        assert(p.take(0) =~= e);
        lemma_level_contiguous(t, bs, e, p);
        assert(tree_order(bs)[x] == bs[s[x]]);
        assert(tree_order(bs)[y] == bs[s[y]]);
        assert(tree_order(bs)[z] == bs[s[z]]);
    }
}

// ---------------------------------------------------------------------
// One folder per non-empty folder path prefix
// ---------------------------------------------------------------------

/// The full paths of the folders of a level at `pre`, and of the levels
/// below it.
pub open spec fn folder_paths(es: Seq<EntryModel>, pre: Seq<Seq<char>>) -> Set<Seq<Seq<char>>>
    decreases es,
{
    if es.len() == 0 {
        Set::empty()
    } else {
        entry_folder_paths(es[0], pre).union(folder_paths(es.drop_first(), pre))
    }
}

pub open spec fn entry_folder_paths(e: EntryModel, pre: Seq<Seq<char>>) -> Set<Seq<Seq<char>>>
    decreases e,
{
    match e {
        EntryModel::Mark(_) => Set::empty(),
        EntryModel::Folder(name, cs) => folder_paths(cs, pre.push(name)).insert(pre.push(name)),
    }
}

/// The non-empty prefixes of the bookmarks' folder paths.
pub open spec fn path_prefixes(bs: Seq<BookmarkView>) -> Set<Seq<Seq<char>>> {
    Set::new(
        |p: Seq<Seq<char>>|
            p.len() > 0 && exists|i: int| 0 <= i < bs.len() && #[trigger] is_prefix(p, bs[i].folder),
    )
}

/// A path below `pre` that goes through a folder of `es`.
pub open spec fn below_level(es: Seq<EntryModel>, pre: Seq<Seq<char>>, q: Seq<Seq<char>>) -> bool {
    &&& q.len() > pre.len()
    &&& q.take(pre.len() as int) == pre
    &&& exists|k: int| 0 <= k < es.len() && #[trigger] folder_name(es[k]) == Some(q[pre.len() as int])
}

proof fn lemma_folder_paths_count(es: Seq<EntryModel>, pre: Seq<Seq<char>>)
    requires
        distinct_folders(es),
    ensures
        folder_paths(es, pre).finite(),
        folder_paths(es, pre).len() == crate::netscape_lines::folder_count(es),
        forall|q: Seq<Seq<char>>| #[trigger] folder_paths(es, pre).contains(q) ==> below_level(es, pre, q),
    decreases es,
{
    broadcast use vstd::set_lib::lemma_set_disjoint_lens;
    broadcast use vstd::set::axiom_set_union_finite;

    if es.len() > 0 {
        let tail = es.drop_first();
        assert(distinct_folders(tail)) by {
            assert forall|x: int, y: int|
                0 <= x < tail.len() && 0 <= y < tail.len() && #[trigger] folder_name(tail[x]) is Some
                    && #[trigger] folder_name(tail[y]) == folder_name(tail[x]) implies x == y by {
                assert(tail[x] == es[x + 1] && tail[y] == es[y + 1]);
            }
            assert forall|k: int| 0 <= k < tail.len() implies entry_distinct(#[trigger] tail[k]) by {
                assert(tail[k] == es[k + 1]);
            }
        }
        lemma_folder_paths_count(tail, pre);
        let a = entry_folder_paths(es[0], pre);
        let b = folder_paths(tail, pre);
        assert(entry_distinct(es[0]));
        match es[0] {
            EntryModel::Mark(_) => {
                assert(a =~= Set::<Seq<Seq<char>>>::empty());
                assert(a.union(b) =~= b);
                assert(crate::netscape_lines::entry_folder_count(es[0]) == 0);
            },
            EntryModel::Folder(name, cs) => {
                let d = pre.push(name);
                lemma_folder_paths_count(cs, d);
                let inner = folder_paths(cs, d);
                assert(!inner.contains(d));
                assert(a.len() == inner.len() + 1);
                assert forall|q: Seq<Seq<char>>| #[trigger] a.contains(q) implies q.len() > pre.len()
                    && q.take(pre.len() as int) == pre && q[pre.len() as int] == name by {
                    if q == d {
                        assert(q.take(pre.len() as int) =~= pre);
                    } else {
                        assert(inner.contains(q));
                        assert(q.take(d.len() as int) == d);
                        assert(q.take(pre.len() as int) =~= q.take(d.len() as int).take(
                            pre.len() as int,
                        ));
                        assert(d.take(pre.len() as int) =~= pre);
                        assert(q.take(d.len() as int)[pre.len() as int] == q[pre.len() as int]);
                    }
                }
                assert(a.disjoint(b)) by {
                    assert forall|q: Seq<Seq<char>>| a.contains(q) implies !b.contains(q) by {
                        if b.contains(q) {
                            let k = choose|k: int|
                                0 <= k < tail.len() && #[trigger] folder_name(tail[k]) == Some(
                                    q[pre.len() as int],
                                );
                            assert(tail[k] == es[k + 1]);
                            assert(folder_name(es[0]) == folder_name(es[k + 1]));
                        }
                    }
                }
                assert(a + b =~= a.union(b));
                assert((a + b).len() == a.len() + b.len());
                assert(crate::netscape_lines::entry_folder_count(es[0]) == 1 + crate::netscape_lines::folder_count(cs));
            },
        }
        assert(folder_paths(es, pre) == a.union(b));
        assert(crate::netscape_lines::folder_count(es) == crate::netscape_lines::entry_folder_count(
            es[0],
        ) + crate::netscape_lines::folder_count(tail));
        assert forall|q: Seq<Seq<char>>| #[trigger] folder_paths(es, pre).contains(q) implies below_level(
            es,
            pre,
            q,
        ) by {
            if b.contains(q) {
                let k = choose|k: int|
                    0 <= k < tail.len() && #[trigger] folder_name(tail[k]) == Some(
                        q[pre.len() as int],
                    );
                assert(tail[k] == es[k + 1]);
            } else {
                assert(a.contains(q));
                assert(folder_name(es[0]) == Some(q[pre.len() as int]));
            }
        }
    }
}

proof fn lemma_entry_paths_within(es: Seq<EntryModel>, pre: Seq<Seq<char>>, k: int)
    requires
        0 <= k < es.len(),
    ensures
        entry_folder_paths(es[k], pre).subset_of(folder_paths(es, pre)),
    decreases es.len(),
{
    if k > 0 {
        lemma_entry_paths_within(es.drop_first(), pre, k - 1);
        assert(es.drop_first()[k - 1] == es[k]);
    }
}

/// Every folder path of a level is a prefix of a bookmark's path.
proof fn lemma_folder_paths_used(es: Seq<EntryModel>, bs: Seq<BookmarkView>, pre: Seq<Seq<char>>)
    requires
        placed(es, bs, pre),
        nonempty_folders(es),
    ensures
        forall|q: Seq<Seq<char>>|
            #[trigger] folder_paths(es, pre).contains(q) ==> exists|i: int|
                0 <= i < bs.len() && #[trigger] is_prefix(q, bs[i].folder),
    decreases es,
{
    if es.len() > 0 {
        let tail = es.drop_first();
        assert(placed(tail, bs, pre)) by {
            assert forall|k: int| 0 <= k < tail.len() implies entry_placed(#[trigger] tail[k], bs, pre) by {
                assert(tail[k] == es[k + 1]);
            }
        }
        assert(nonempty_folders(tail)) by {
            assert forall|k: int| 0 <= k < tail.len() implies entry_nonempty(#[trigger] tail[k]) by {
                assert(tail[k] == es[k + 1]);
            }
        }
        lemma_folder_paths_used(tail, bs, pre);
        assert(entry_placed(es[0], bs, pre));
        assert(entry_nonempty(es[0]));
        match es[0] {
            EntryModel::Mark(_) => {},
            EntryModel::Folder(name, cs) => {
                let d = pre.push(name);
                lemma_folder_paths_used(cs, bs, d);
                lemma_entry_flat_nonempty(es[0]);
                lemma_flat_entry_prefix(es[0], bs, pre);
                let x = flat_entry(es[0])[0];
                assert(is_prefix(d, bs[x].folder));
                assert(0 <= x < bs.len());
            },
        }
        let a = entry_folder_paths(es[0], pre);
        let b = folder_paths(tail, pre);
        assert forall|q: Seq<Seq<char>>| #[trigger] folder_paths(es, pre).contains(q) implies exists|
            i: int,
        | 0 <= i < bs.len() && #[trigger] is_prefix(q, bs[i].folder) by {
            if !b.contains(q) {
                assert(a.contains(q));
                match es[0] {
                    EntryModel::Mark(_) => {},
                    EntryModel::Folder(name, cs) => {
                        let d = pre.push(name);
                        if q == d {
                            let x = flat_entry(es[0])[0];
                            assert(is_prefix(q, bs[x].folder));
                        } else {
                            assert(folder_paths(cs, d).contains(q));
                        }
                    },
                }
            }
        }
    }
}

/// Every non-empty prefix, longer than `pre`, of the path of a bookmark of
/// a level is the path of one of its folders.
proof fn lemma_folder_paths_cover(
    es: Seq<EntryModel>,
    bs: Seq<BookmarkView>,
    pre: Seq<Seq<char>>,
    t: int,
    q: Seq<Seq<char>>,
)
    requires
        placed(es, bs, pre),
        0 <= t < flat(es).len(),
        q.len() > pre.len(),
        is_prefix(q, bs[flat(es)[t]].folder),
    ensures
        folder_paths(es, pre).contains(q),
    decreases es,
{
    let tail = es.drop_first();
    let a = flat_entry(es[0]);
    assert(flat(es) == a + flat(tail));
    assert(entry_placed(es[0], bs, pre));
    if t < a.len() {
        let x = a[t];
        assert(flat(es)[t] == x);
        lemma_entry_paths_within(es, pre, 0);
        match es[0] {
            EntryModel::Mark(i) => {
                assert(x == i);
            },
            EntryModel::Folder(name, cs) => {
                let d = pre.push(name);
                lemma_flat_entry_prefix(es[0], bs, pre);
                let f = bs[x].folder;
                assert(is_prefix(d, f));
                if q.len() == d.len() {
                    assert(q =~= d) by {
                        assert(q == f.take(q.len() as int));
                        assert(d == f.take(d.len() as int));
                    }
                } else {
                    assert(a[t] == flat(cs)[t]);
                    lemma_folder_paths_cover(cs, bs, d, t, q);
                }
            },
        }
    } else {
        assert(placed(tail, bs, pre)) by {
            assert forall|k: int| 0 <= k < tail.len() implies entry_placed(#[trigger] tail[k], bs, pre) by {
                assert(tail[k] == es[k + 1]);
            }
        }
        assert(flat(es)[t] == flat(tail)[t - a.len()]);
        lemma_folder_paths_cover(tail, bs, pre, t - a.len(), q);
    }
}

/// A written file has one folder for each non-empty prefix of the
/// bookmarks' folder paths, and no other: the folders of the tree are as
/// many as those prefixes.
pub proof fn lemma_folder_count_is_prefixes(bs: Seq<BookmarkView>)
    ensures
        folder_paths(build_tree(bs), Seq::empty()) == path_prefixes(bs),
        crate::netscape_lines::folder_count(build_tree(bs)) == path_prefixes(bs).len(),
{
    broadcast use vstd::seq_lib::group_to_multiset_ensures;

    let t = build_tree(bs);
    let e = Seq::<Seq<char>>::empty();
    lemma_build_placed(bs, bs.len() as int);
    lemma_build_distinct(bs, bs.len() as int);
    lemma_build_nonempty(bs, bs.len() as int);
    lemma_tree_order_permutes(bs);
    lemma_folder_paths_count(t, e);
    lemma_folder_paths_used(t, bs, e);
    let s = flat(t);
    assert forall|q: Seq<Seq<char>>| #[trigger] folder_paths(t, e).contains(q) <==> path_prefixes(
        bs,
    ).contains(q) by {
        if folder_paths(t, e).contains(q) {
            assert(below_level(t, e, q));
        }
        if path_prefixes(bs).contains(q) {
            let i = choose|i: int| 0 <= i < bs.len() && #[trigger] is_prefix(q, bs[i].folder);
            let ids = Seq::new(bs.len(), |k: int| k);
            assert(ids[i] == i);
            assert(ids.contains(i));
            assert(ids.to_multiset().count(i) > 0);
            assert(s.to_multiset().count(i) > 0);
            assert(s.contains(i));
            let w = choose|w: int| 0 <= w < s.len() && s[w] == i;
            lemma_folder_paths_cover(t, bs, e, w, q);
        }
    }
    assert(folder_paths(t, e) =~= path_prefixes(bs));
}

} // verus!
