//! The library's general guarantees, stated and proved over the same
//! tree model that the operations' contracts use.
use vstd::prelude::*;
use crate::strings::{
    seq_le, sorted_le, lemma_seq_le_total, lemma_seq_le_trans, lemma_seq_le_antisym, spec_contains,
    lower_of, split_ch, lemma_split_ch_whole, lemma_split_ch_step, lemma_split_ch_no_sep,
};
use crate::fstree::{
    NodeV, EntryV, lookup, find_e, valid_name, all_valid, wf, lemma_wf_entries,
    lemma_find_e, put_file_model, remove_plain_model, remove_md_model, remove_tree_model, copy_go,
    copy_entries_go, is_empty_dir, FileV, lemma_put_creates, lemma_put_preserves,
    lemma_remove_plain_some, lemma_remove_plain_preserves_head, found_node,
    lemma_found_push, lemma_lookup_step,
};
use crate::storage::{note_segs, file_result, search_files, SearchResultV};

verus! {

/// Writing a note and then reading it back yields exactly the text that
/// was written: at the note's path stands a file with that content.
pub proof fn lemma_write_then_read(v: NodeV, title: Seq<char>, c: Seq<char>)
    requires
        put_file_model(v, note_segs(title), Option::Some(c)) is Some,
    ensures
        lookup(put_file_model(v, note_segs(title), Option::Some(c)).unwrap(), note_segs(title))
            == Option::Some(NodeV::File(Option::Some(c))),
{
    lemma_put_creates(v, note_segs(title), Option::Some(c));
}

/// On an empty base, the write itself succeeds for every title whose
/// segments are legal names (nonempty, free of separators).
pub proof fn lemma_write_fresh_base(title: Seq<char>, c: Seq<char>)
    requires
        all_valid(note_segs(title)),
    ensures
        put_file_model(NodeV::Dir(Seq::empty()), note_segs(title), Option::Some(c)) is Some,
{
    lemma_split_ch_no_sep(title, '/');
    assert(note_segs(title).len() >= 1);
    assert(find_e(Seq::<EntryV>::empty(), note_segs(title)[0]) is None);
}

/// Two sorted listings that hold the same titles agree entirely: the
/// sorted output is determined by which notes exist, not by the order
/// any directory was enumerated in.
pub proof fn lemma_list_deterministic(a: Seq<Seq<char>>, b: Seq<Seq<char>>)
    requires
        sorted_le(a),
        sorted_le(b),
        a.to_multiset() == b.to_multiset(),
    ensures
        a == b,
{
    let leq = |x: Seq<char>, y: Seq<char>| seq_le(x, y);
    assert forall|x: Seq<char>| #[trigger] leq(x, x) by {
        lemma_seq_le_total(x, x);
    }
    assert forall|x: Seq<char>, y: Seq<char>| #[trigger] leq(x, y) && #[trigger] leq(y, x)
        implies x == y by {
        lemma_seq_le_antisym(x, y);
    }
    assert forall|x: Seq<char>, y: Seq<char>, z: Seq<char>|
        #[trigger] leq(x, y) && #[trigger] leq(y, z) implies leq(x, z) by {
        lemma_seq_le_trans(x, y, z);
    }
    assert forall|x: Seq<char>, y: Seq<char>| #[trigger] leq(x, y) || #[trigger] leq(y, x) by {
        lemma_seq_le_total(x, y);
    }
    vstd::seq_lib::lemma_sorted_unique(a, b, leq);
    assert(a =~= b);
}

/// A keyword found in a title is answered from the title alone: the
/// note's content plays no part in the result, which is a title match
/// without a preview.
pub proof fn lemma_title_match_reads_no_content(
    title: Seq<char>,
    c1: Option<Seq<char>>,
    c2: Option<Seq<char>>,
    kw: Seq<char>,
)
    requires
        spec_contains(lower_of(title), kw),
    ensures
        file_result(title, c1, kw) == file_result(title, c2, kw),
        file_result(title, c1, kw) == Option::Some(
            SearchResultV { title, is_title_match: true, preview: Option::None },
        ),
{
}

/// A keyword that matches no note — neither a title nor any content
/// line — yields an empty result sequence.
pub proof fn lemma_search_all_miss(fsq: Seq<FileV>, kw: Seq<char>)
    requires
        forall|i: int|
            0 <= i < fsq.len() ==> #[trigger] file_result(fsq[i].title, fsq[i].content, kw)
                is None,
    ensures
        search_files(fsq, kw) == Seq::<SearchResultV>::empty(),
    decreases fsq.len(),
{
    if fsq.len() > 0 {
        assert forall|i: int|
            0 <= i < fsq.drop_first().len() implies #[trigger] file_result(
            fsq.drop_first()[i].title,
            fsq.drop_first()[i].content,
            kw,
        ) is None by {
            assert(fsq.drop_first()[i] == fsq[i + 1]);
        }
        lemma_search_all_miss(fsq.drop_first(), kw);
        assert(file_result(fsq[0].title, fsq[0].content, kw) is None);
        assert(search_files(fsq, kw) =~= Seq::empty());
    }
}

/// No removal ever deletes the base directory itself: whatever succeeds
/// leaves a directory at the root.
pub proof fn lemma_remove_keeps_base(v: NodeV, p: Seq<Seq<char>>)
    ensures
        remove_md_model(v, p) is Some ==> remove_md_model(v, p).unwrap() matches NodeV::Dir(_),
        remove_tree_model(v, p) is Some ==> remove_tree_model(v, p).unwrap() matches NodeV::Dir(
            _,
        ),
{
}

/// Deleting a note whose folder holds nothing else removes that folder
/// from its parent.
pub proof fn lemma_remove_prunes_parent(v: NodeV, p: Seq<Seq<char>>)
    requires
        wf(v),
        p.len() >= 2,
        remove_md_model(v, p) is Some,
        lookup(v, p.drop_last()) matches Option::Some(NodeV::Dir(inner)) && inner.len() == 1,
    ensures
        lookup(remove_md_model(v, p).unwrap(), p.drop_last()) is None,
    decreases p.len(),
{
    let w = remove_md_model(v, p).unwrap();
    match v {
        NodeV::File(_) => {},
        NodeV::Dir(es) => {
            let i = find_e(es, p[0]).unwrap();
            lemma_find_e(es, p[0]);
            lemma_wf_entries(es);
            lemma_lookup_step(es, p.drop_last());
            assert(p.drop_last()[0] == p[0]);
            let child = es[i].node;
            let child2 = remove_md_model(child, p.drop_first());
            if p.len() == 2 {
                assert(p.drop_last() =~= seq![p[0]]);
                assert(lookup(v, p.drop_last()) == Option::Some(child));
                match child {
                    NodeV::Dir(ces) => {
                        assert(ces.len() == 1);
                        let k = find_e(ces, p.drop_first()[0]).unwrap();
                        lemma_find_e(ces, p.drop_first()[0]);
                        assert(k == 0);
                        assert(p.drop_first().len() == 1);
                        assert(child2 == Option::Some(NodeV::Dir(ces.remove(0))));
                        assert(ces.remove(0).len() == 0);
                        assert(is_empty_dir(child2.unwrap()));
                        assert(w == NodeV::Dir(es.remove(i)));
                        lemma_no_name_after_remove(es, i, p[0]);
                        lemma_lookup_step(es.remove(i), p.drop_last());
                    },
                    NodeV::File(_) => {},
                }
            } else {
                assert(p.drop_first().len() >= 2);
                match child2 {
                    Option::Some(c2) => {
                        if is_empty_dir(c2) {
                            assert(w == NodeV::Dir(es.remove(i)));
                            lemma_no_name_after_remove(es, i, p[0]);
                            lemma_lookup_step(es.remove(i), p.drop_last());
                        } else {
                            let e = EntryV { name: p[0], node: c2 };
                            assert(w == NodeV::Dir(es.update(i, e)));
                            assert(p.drop_last().drop_first() =~= p.drop_first().drop_last());
                            assert(lookup(v, p.drop_last()) == lookup(
                                child,
                                p.drop_first().drop_last(),
                            ));
                            lemma_remove_prunes_parent(child, p.drop_first());
                            crate::fstree::lemma_found_update(es, i, e, p[0]);
                            lemma_lookup_step(es.update(i, e), p.drop_last());
                        }
                    },
                    Option::None => {},
                }
            }
        },
    }
}

/// After the entry at `j` goes, nothing in a well-named list answers to
/// its name.
proof fn lemma_no_name_after_remove(es: Seq<EntryV>, j: int, name: Seq<char>)
    requires
        0 <= j < es.len(),
        es[j].name == name,
        forall|a: int, b: int|
            0 <= a < b < es.len() ==> #[trigger] es[a].name != #[trigger] es[b].name,
    ensures
        found_node(es.remove(j), name) is None,
{
    lemma_find_e(es.remove(j), name);
    match find_e(es.remove(j), name) {
        Option::Some(k) => {
            if k < j {
                assert(es.remove(j)[k] == es[k]);
            } else {
                assert(es.remove(j)[k] == es[k + 1]);
            }
        },
        Option::None => {},
    }
}

/// A copy into an empty destination reproduces the source exactly. So an
/// export of the whole base into an empty place, imported back into a
/// fresh empty base, restores the original tree.
pub proof fn lemma_export_import_round_trip(v: NodeV)
    requires
        wf(v),
        v matches NodeV::Dir(_),
    ensures
        copy_go(v, NodeV::Dir(Seq::empty())) == (v, true),
        copy_go(copy_go(v, NodeV::Dir(Seq::empty())).0, NodeV::Dir(Seq::empty())) == (v, true),
{
    match v {
        NodeV::Dir(es) => {
            assert forall|i: int|
                0 <= i < es.len() implies find_e(Seq::<EntryV>::empty(), #[trigger] es[i].name)
                is None by {}
            lemma_copy_fresh_entries(es, Seq::empty());
            assert(Seq::<EntryV>::empty() + es =~= es);
        },
        NodeV::File(_) => {},
    }
}

/// Copying entries whose names are all new to the destination appends
/// them, in order, unchanged.
pub proof fn lemma_copy_fresh_entries(ses: Seq<EntryV>, des: Seq<EntryV>)
    requires
        forall|i: int, j: int|
            0 <= i < j < ses.len() ==> #[trigger] ses[i].name != #[trigger] ses[j].name,
        forall|i: int| 0 <= i < ses.len() ==> find_e(des, #[trigger] ses[i].name) is None,
    ensures
        copy_entries_go(ses, des) == (NodeV::Dir(des + ses), true),
    decreases ses.len(),
{
    if ses.len() == 0 {
        assert(des + ses =~= des);
    } else {
        assert(find_e(des, ses[0].name) is None);
        let des2 = des.push(ses[0]);
        assert forall|i: int, j: int|
            0 <= i < j < ses.drop_first().len() implies #[trigger] ses.drop_first()[i].name
            != #[trigger] ses.drop_first()[j].name by {
            assert(ses.drop_first()[i] == ses[i + 1]);
            assert(ses.drop_first()[j] == ses[j + 1]);
        }
        assert forall|i: int|
            0 <= i < ses.drop_first().len() implies find_e(
            des2,
            #[trigger] ses.drop_first()[i].name,
        ) is None by {
            assert(ses.drop_first()[i] == ses[i + 1]);
            assert(ses[0].name != ses[i + 1].name);
            lemma_found_push(des, ses[0], ses[i + 1].name);
            assert(find_e(des, ses[i + 1].name) is None);
            match find_e(des2, ses[i + 1].name) {
                Option::Some(_) => {
                    assert(found_node(des2, ses[i + 1].name) is Some);
                },
                Option::None => {},
            }
        }
        lemma_copy_fresh_entries(ses.drop_first(), des2);
        assert(des2 + ses.drop_first() =~= des + ses);
    }
}

/// Moving the note `x` to `y/x` while no entry `y` exists yet succeeds,
/// creates the folder `y`, and leaves the note below it.
pub proof fn lemma_move_creates_folder(v: NodeV, x: Seq<char>, y: Seq<char>, c: Option<Seq<char>>)
    requires
        valid_name(x),
        valid_name(y),
        lookup(v, note_segs(x)) == Option::Some(NodeV::File(c)),
        lookup(v, seq![y]) is None,
    ensures
        put_file_model(v, note_segs(y + seq!['/'] + x), c) is Some,
        lookup(
            remove_plain_model(
                put_file_model(v, note_segs(y + seq!['/'] + x), c).unwrap(),
                note_segs(x),
            ).unwrap(),
            seq![y],
        ) matches Option::Some(NodeV::Dir(_)),
        lookup(
            remove_plain_model(
                put_file_model(v, note_segs(y + seq!['/'] + x), c).unwrap(),
                note_segs(x),
            ).unwrap(),
            note_segs(y + seq!['/'] + x),
        ) == Option::Some(NodeV::File(c)),
{
    let md = seq!['.', 'm', 'd'];
    let fp = note_segs(x);
    let t = y + seq!['/'] + x;
    let tp = note_segs(t);
    lemma_split_ch_whole(x, '/');
    assert(fp =~= seq![x + md]);
    assert forall|k: int| 0 <= k < y.len() implies t[k] != '/' by {
        assert(t[k] == y[k]);
    }
    assert(t[y.len() as int] == '/');
    lemma_split_ch_step(t, '/', y.len() as int);
    assert(t.subrange(0, y.len() as int) =~= y);
    assert(t.skip(y.len() as int + 1) =~= x);
    lemma_split_ch_whole(t.skip(y.len() as int + 1), '/');
    assert(split_ch(t, '/') =~= seq![y, x]);
    assert(tp =~= seq![y, x + md]);
    assert(valid_name(x + md)) by {
        assert forall|k: int| 0 <= k < (x + md).len() implies (x + md)[k] != '/' by {
            if k < x.len() {
                assert((x + md)[k] == x[k]);
            } else {
                assert((x + md)[k] == md[k - x.len()]);
            }
        }
    }
    assert(all_valid(tp));
    match v {
        NodeV::File(_) => {},
        NodeV::Dir(es) => {
            lemma_lookup_step(es, seq![y]);
            assert(find_e(es, y) is None) by {
                match find_e(es, y) {
                    Option::Some(_) => {
                        assert(found_node(es, y) is Some);
                        assert(seq![y].drop_first() =~= Seq::<Seq<char>>::empty());
                    },
                    Option::None => {},
                }
            }
            assert(tp[0] == y);
            assert(put_file_model(v, tp, c) is Some);
            let w2 = put_file_model(v, tp, c).unwrap();
            lemma_put_creates(v, tp, c);
            assert(fp[0] != y) by {
                if fp[0] == y {
                    assert(seq![y] =~= fp);
                }
            }
            assert(fp != tp) by {
                assert(fp.len() != tp.len());
            }
            lemma_put_preserves(v, tp, c, fp);
            lemma_remove_plain_some(w2, fp);
            let w = remove_plain_model(w2, fp).unwrap();
            lemma_remove_plain_preserves_head(w2, fp, seq![y]);
            lemma_remove_plain_preserves_head(w2, fp, tp);
            assert(tp.take(1) =~= seq![y]);
            assert(lookup(w2, seq![y]) matches Option::Some(NodeV::Dir(_)));
        },
    }
}

} // verus!
