//! The in-memory model of the note tree. A node is either a file (its
//! text, or nothing when the text cannot be read) or a directory of named
//! entries, kept in the order the directory was enumerated in.
use vstd::prelude::*;
use crate::strings::views_of;

verus! {

/// A node of the file tree.
#[derive(Debug, PartialEq, Eq)]
pub enum Node {
    /// A file and its text content; `None` when the content cannot be
    /// read as text.
    File(Option<String>),
    /// A directory and its entries, in enumeration order.
    Dir(Vec<Entry>),
}

/// A directory entry: a name and the node behind it.
#[derive(Debug, PartialEq, Eq)]
pub struct Entry {
    pub name: String,
    pub node: Node,
}

/// Mathematical counterpart of `Node`.
pub ghost enum NodeV {
    File(Option<Seq<char>>),
    Dir(Seq<EntryV>),
}

/// Mathematical counterpart of `Entry`.
pub ghost struct EntryV {
    pub name: Seq<char>,
    pub node: NodeV,
}

pub open spec fn content_view(c: Option<String>) -> Option<Seq<char>> {
    match c {
        Option::Some(s) => Option::Some(s@),
        Option::None => Option::None,
    }
}

pub open spec fn node_view(n: Node) -> NodeV
    decreases n,
{
    match n {
        Node::File(c) => NodeV::File(content_view(c)),
        Node::Dir(es) => NodeV::Dir(entries_view(es@)),
    }
}

pub open spec fn entries_view(es: Seq<Entry>) -> Seq<EntryV>
    decreases es,
{
    if es.len() == 0 {
        Seq::empty()
    } else {
        seq![EntryV { name: es[0].name@, node: node_view(es[0].node) }] + entries_view(
            es.drop_first(),
        )
    }
}

pub proof fn lemma_entries_view(es: Seq<Entry>)
    ensures
        entries_view(es).len() == es.len(),
        forall|i: int|
            0 <= i < es.len() ==> #[trigger] entries_view(es)[i] == (EntryV {
                name: es[i].name@,
                node: node_view(es[i].node),
            }),
    decreases es,
{
    if es.len() > 0 {
        lemma_entries_view(es.drop_first());
    }
}

/// A legal entry name: nonempty and free of separators.
pub open spec fn valid_name(name: Seq<char>) -> bool {
    name.len() > 0 && forall|k: int| 0 <= k < name.len() ==> name[k] != '/'
}

/// Well-formed tree: every directory has distinct, legal entry names.
pub open spec fn wf(v: NodeV) -> bool
    decreases v,
{
    match v {
        NodeV::File(_) => true,
        NodeV::Dir(es) => {
            &&& (forall|i: int, j: int|
                0 <= i < j < es.len() ==> #[trigger] es[i].name != #[trigger] es[j].name)
            &&& wf_entries(es)
        },
    }
}

pub open spec fn wf_entries(es: Seq<EntryV>) -> bool
    decreases es,
{
    es.len() == 0 || {
        &&& valid_name(es[0].name)
        &&& wf(es[0].node)
        &&& wf_entries(es.drop_first())
    }
}

pub proof fn lemma_wf_entries(es: Seq<EntryV>)
    requires
        wf_entries(es),
    ensures
        forall|i: int|
            0 <= i < es.len() ==> valid_name(#[trigger] es[i].name) && wf(es[i].node),
    decreases es,
{
    if es.len() > 0 {
        lemma_wf_entries(es.drop_first());
        assert forall|i: int|
            0 <= i < es.len() implies valid_name(#[trigger] es[i].name) && wf(es[i].node) by {
            if i > 0 {
                assert(es.drop_first()[i - 1] == es[i]);
            }
        }
    }
}

/// Index of the entry called `name`, searching from the front.
pub open spec fn find_e(es: Seq<EntryV>, name: Seq<char>) -> Option<int>
    decreases es,
{
    if es.len() == 0 {
        Option::None
    } else if es[0].name == name {
        Option::Some(0int)
    } else {
        match find_e(es.drop_first(), name) {
            Option::Some(i) => Option::Some(i + 1),
            Option::None => Option::None,
        }
    }
}

pub proof fn lemma_find_e(es: Seq<EntryV>, name: Seq<char>)
    ensures
        match find_e(es, name) {
            Option::Some(i) => 0 <= i < es.len() && es[i].name == name && forall|k: int|
                0 <= k < i ==> #[trigger] es[k].name != name,
            Option::None => forall|k: int| 0 <= k < es.len() ==> #[trigger] es[k].name != name,
        },
    decreases es,
{
    if es.len() > 0 && es[0].name != name {
        lemma_find_e(es.drop_first(), name);
        match find_e(es, name) {
            Option::Some(i) => {
                assert(es.drop_first()[i - 1] == es[i]);
                assert forall|k: int| 0 <= k < i implies #[trigger] es[k].name != name by {
                    if k > 0 {
                        assert(es.drop_first()[k - 1] == es[k]);
                    }
                }
            },
            Option::None => {
                assert forall|k: int| 0 <= k < es.len() implies #[trigger] es[k].name != name by {
                    if k > 0 {
                        assert(es.drop_first()[k - 1] == es[k]);
                    }
                }
            },
        }
    }
}

/// The node reached from `v` by following `path`, segment by segment.
pub open spec fn lookup(v: NodeV, path: Seq<Seq<char>>) -> Option<NodeV>
    decreases path.len(),
{
    if path.len() == 0 {
        Option::Some(v)
    } else {
        match v {
            NodeV::File(_) => Option::None,
            NodeV::Dir(es) => match find_e(es, path[0]) {
                Option::Some(i) => lookup(es[i].node, path.drop_first()),
                Option::None => Option::None,
            },
        }
    }
}

/// Finds the entry called `name` in a directory's entry list.
pub(crate) fn find_entry(es: &Vec<Entry>, name: &String) -> (r: Option<usize>)
    ensures
        match r {
            Option::Some(i) => i < es@.len() && find_e(entries_view(es@), name@)
                == Option::Some(i as int),
            Option::None => find_e(entries_view(es@), name@) is None,
        },
{
    proof {
        lemma_entries_view(es@);
        lemma_find_e(entries_view(es@), name@);
    }
    let mut i: usize = 0;
    while i < es.len()
        invariant
            i <= es@.len(),
            forall|k: int| 0 <= k < i ==> #[trigger] entries_view(es@)[k].name != name@,
        decreases es@.len() - i,
    {
        proof {
            lemma_entries_view(es@);
        }
        if es[i].name == *name {
            proof {
                lemma_find_e(entries_view(es@), name@);
                assert(entries_view(es@)[i as int].name == name@);
            }
            return Some(i);
        }
        i += 1;
    }
    proof {
        lemma_find_e(entries_view(es@), name@);
    }
    None
}

/// The node reached from `n` by the path segments from index `i` on.
pub fn get_node<'a>(n: &'a Node, path: &Vec<String>, i: usize) -> (r: Option<&'a Node>)
    requires
        i <= path@.len(),
    ensures
        match r {
            Option::Some(m) => lookup(node_view(*n), views_of(path@).skip(i as int))
                == Option::Some(node_view(*m)),
            Option::None => lookup(node_view(*n), views_of(path@).skip(i as int)) is None,
        },
    decreases path@.len() - i,
{
    if i == path.len() {
        proof {
            assert(views_of(path@).skip(i as int) =~= Seq::<Seq<char>>::empty());
        }
        return Some(n);
    }
    let ghost p = views_of(path@).skip(i as int);
    proof {
        assert(p.len() > 0);
        assert(p[0] == path@[i as int]@);
        assert(p.drop_first() =~= views_of(path@).skip(i + 1));
    }
    match n {
        Node::File(_) => None,
        Node::Dir(es) => {
            match find_entry(es, &path[i]) {
                Option::Some(j) => {
                    proof {
                        lemma_entries_view(es@);
                    }
                    get_node(&es[j].node, path, i + 1)
                },
                Option::None => None,
            }
        },
    }
}

pub proof fn lemma_ev_remove(es: Seq<Entry>, j: int)
    requires
        0 <= j < es.len(),
    ensures
        entries_view(es.remove(j)) == entries_view(es).remove(j),
{
    lemma_entries_view(es);
    lemma_entries_view(es.remove(j));
    assert(entries_view(es.remove(j)) =~= entries_view(es).remove(j));
}

pub proof fn lemma_ev_insert(es: Seq<Entry>, j: int, e: Entry)
    requires
        0 <= j <= es.len(),
    ensures
        entries_view(es.insert(j, e)) == entries_view(es).insert(
            j,
            EntryV { name: e.name@, node: node_view(e.node) },
        ),
{
    lemma_entries_view(es);
    lemma_entries_view(es.insert(j, e));
    assert(entries_view(es.insert(j, e)) =~= entries_view(es).insert(
        j,
        EntryV { name: e.name@, node: node_view(e.node) },
    ));
}

pub proof fn lemma_ev_push(es: Seq<Entry>, e: Entry)
    ensures
        entries_view(es.push(e)) == entries_view(es).push(
            EntryV { name: e.name@, node: node_view(e.node) },
        ),
{
    lemma_entries_view(es);
    lemma_entries_view(es.push(e));
    assert(entries_view(es.push(e)) =~= entries_view(es).push(
        EntryV { name: e.name@, node: node_view(e.node) },
    ));
}

/// The name of a markdown note file: some stem before a trailing `.md`.
pub open spec fn is_md(name: Seq<char>) -> bool {
    name.len() >= 4 && name[name.len() - 3] == '.' && name[name.len() - 2] == 'm' && name[name.len()
        - 1] == 'd'
}

/// The name without its trailing `.md`.
pub open spec fn stem_of(name: Seq<char>) -> Seq<char> {
    name.take(name.len() - 3)
}

/// Joins a relative prefix and a name with a separator.
pub open spec fn join_path(prefix: Seq<char>, name: Seq<char>) -> Seq<char> {
    if prefix.len() == 0 {
        name
    } else {
        prefix + seq!['/'] + name
    }
}

pub(crate) fn md_name(name: &String) -> (r: bool)
    ensures
        r == is_md(name@),
{
    let n = name.as_str().unicode_len();
    n >= 4 && name.as_str().get_char(n - 3) == '.' && name.as_str().get_char(n - 2) == 'm'
        && name.as_str().get_char(n - 1) == 'd'
}

pub(crate) fn join_title(prefix: &String, name: &String) -> (r: String)
    ensures
        r@ == join_path(prefix@, name@),
{
    if prefix.as_str().is_empty() {
        name.clone()
    } else {
        let mut r = prefix.clone();
        r.append("/");
        r.append(name.as_str());
        proof {
            reveal_strlit("/");
            assert(r@ =~= prefix@ + seq!['/'] + name@);
        }
        r
    }
}

/// A markdown note found by the walk: its title and its content.
pub ghost struct FileV {
    pub title: Seq<char>,
    pub content: Option<Seq<char>>,
}

/// Every markdown note below `v`, in walk order, titled relative to
/// `prefix`.
pub open spec fn md_files(v: NodeV, prefix: Seq<char>) -> Seq<FileV>
    decreases v,
{
    match v {
        NodeV::File(_) => Seq::empty(),
        NodeV::Dir(es) => md_files_entries(es, prefix),
    }
}

pub open spec fn md_files_entries(es: Seq<EntryV>, prefix: Seq<char>) -> Seq<FileV>
    decreases es,
{
    if es.len() == 0 {
        Seq::empty()
    } else {
        let head = match es[0].node {
            NodeV::File(c) => if is_md(es[0].name) {
                seq![FileV { title: join_path(prefix, stem_of(es[0].name)), content: c }]
            } else {
                Seq::empty()
            },
            NodeV::Dir(_) => md_files(es[0].node, join_path(prefix, es[0].name)),
        };
        head + md_files_entries(es.drop_first(), prefix)
    }
}

pub open spec fn titles_of(fs: Seq<FileV>) -> Seq<Seq<char>> {
    fs.map_values(|f: FileV| f.title)
}

/// Appends to `acc` the titles of all markdown notes below `n`, in walk
/// order.
pub(crate) fn collect_titles(n: &Node, prefix: &String, acc: &mut Vec<String>)
    ensures
        views_of(final(acc)@) == views_of(old(acc)@) + titles_of(
            md_files(node_view(*n), prefix@),
        ),
    decreases *n,
{
    match n {
        Node::File(_) => {
            proof {
                assert(views_of(acc@) =~= views_of(acc@) + titles_of(
                    md_files(node_view(*n), prefix@),
                ));
            }
        },
        Node::Dir(es) => {
            let ghost ev = entries_view(es@);
            let ghost acc0 = acc@;
            proof {
                lemma_entries_view(es@);
                assert(ev.skip(0) =~= ev);
            }
            let mut i: usize = 0;
            while i < es.len()
                invariant
                    i <= es@.len(),
                    ev == entries_view(es@),
                    ev.len() == es@.len(),
                    node_view(*n) == NodeV::Dir(ev),
                    *n == Node::Dir(*es),
                    views_of(acc@) + titles_of(md_files_entries(ev.skip(i as int), prefix@))
                        == views_of(acc0) + titles_of(md_files_entries(ev, prefix@)),
                decreases es@.len() - i,
            {
                let ghost accpre = acc@;
                let ghost rest = ev.skip(i as int);
                proof {
                    lemma_entries_view(es@);
                    assert(rest[0] == ev[i as int]);
                    assert(rest.drop_first() =~= ev.skip(i + 1));
                }
                match &es[i].node {
                    Node::File(_) => {
                        if md_name(&es[i].name) {
                            let nm = &es[i].name;
                            let ln = nm.as_str().unicode_len();
                            let stem = nm.as_str().substring_char(0, ln - 3).to_owned();
                            let t = join_title(prefix, &stem);
                            proof {
                                assert(stem@ =~= stem_of(ev[i as int].name));
                            }
                            acc.push(t);
                            proof {
                                let head = seq![
                                    FileV {
                                        title: join_path(prefix@, stem_of(ev[i as int].name)),
                                        content: match ev[i as int].node {
                                            NodeV::File(c) => c,
                                            NodeV::Dir(_) => Option::None,
                                        },
                                    },
                                ];
                                assert(md_files_entries(rest, prefix@) == head + md_files_entries(
                                    rest.drop_first(),
                                    prefix@,
                                ));
                                assert(views_of(acc@) =~= views_of(accpre) + seq![t@]);
                                assert(titles_of(head + md_files_entries(rest.drop_first(), prefix@))
                                    =~= seq![t@] + titles_of(md_files_entries(ev.skip(i + 1), prefix@)));
                            }
                        } else {
                            proof {
                                assert(md_files_entries(rest, prefix@) =~= md_files_entries(
                                    rest.drop_first(),
                                    prefix@,
                                ));
                            }
                        }
                    },
                    Node::Dir(_) => {
                        let child_prefix = join_title(prefix, &es[i].name);
                        proof {
                            assert(*n == Node::Dir(*es));
                            assert(decreases_to!(Node::Dir(*es) => *es));
                            assert(decreases_to!(*es => es@));
                            assert(decreases_to!(es@ => es@[i as int]));
                            assert(decreases_to!(es@[i as int] => es@[i as int].node));
                        }
                        collect_titles(&es[i].node, &child_prefix, acc);
                        proof {
                            let head = md_files(ev[i as int].node, join_path(prefix@, ev[i as int].name));
                            assert(md_files_entries(rest, prefix@) == head + md_files_entries(
                                rest.drop_first(),
                                prefix@,
                            ));
                            assert(views_of(acc@) =~= views_of(accpre) + titles_of(head));
                            assert(titles_of(head + md_files_entries(ev.skip(i + 1), prefix@)) =~= titles_of(
                                head,
                            ) + titles_of(md_files_entries(ev.skip(i + 1), prefix@)));
                        }
                    },
                }
                i += 1;
            }
            proof {
                assert(ev.skip(es@.len() as int) =~= Seq::<EntryV>::empty());
                assert(titles_of(md_files_entries(Seq::<EntryV>::empty(), prefix@)) =~= Seq::<
                    Seq<char>,
                >::empty());
                assert(views_of(acc@) =~= views_of(acc@) + Seq::<Seq<char>>::empty());
                assert(views_of(acc@) =~= views_of(acc0) + titles_of(md_files(node_view(*n), prefix@)));
            }
        },
    }
}

/// Every segment is a legal entry name.
pub open spec fn all_valid(path: Seq<Seq<char>>) -> bool {
    forall|i: int| 0 <= i < path.len() ==> valid_name(#[trigger] path[i])
}

/// A fresh chain of directories ending in a file holding `c`.
pub open spec fn fresh_node(path: Seq<Seq<char>>, c: Option<Seq<char>>) -> NodeV
    decreases path.len(),
{
    if path.len() == 0 {
        NodeV::File(c)
    } else {
        NodeV::Dir(seq![EntryV { name: path[0], node: fresh_node(path.drop_first(), c) }])
    }
}

/// Writes the file at `path` below `v`, creating directories as needed.
/// `None` when a file stands in the way, a directory occupies `path`
/// itself, the path is empty, or a segment is not a legal name.
pub open spec fn put_file_model(
    v: NodeV,
    path: Seq<Seq<char>>,
    c: Option<Seq<char>>,
) -> Option<NodeV>
    decreases path.len(),
{
    match v {
        NodeV::File(_) => Option::None,
        NodeV::Dir(es) => if path.len() == 0 || !all_valid(path) {
            Option::None
        } else {
            match find_e(es, path[0]) {
                Option::Some(i) => if path.len() == 1 {
                    match es[i].node {
                        NodeV::Dir(_) => Option::None,
                        NodeV::File(_) => Option::Some(
                            NodeV::Dir(
                                es.update(i, EntryV { name: path[0], node: NodeV::File(c) }),
                            ),
                        ),
                    }
                } else {
                    match put_file_model(es[i].node, path.drop_first(), c) {
                        Option::Some(child) => Option::Some(
                            NodeV::Dir(es.update(i, EntryV { name: path[0], node: child })),
                        ),
                        Option::None => Option::None,
                    }
                },
                Option::None => Option::Some(
                    NodeV::Dir(
                        es.push(EntryV { name: path[0], node: fresh_node(path.drop_first(), c) }),
                    ),
                ),
            }
        },
    }
}

/// Removes the file at `path`; parent directories are kept. `None` when
/// no file stands at `path`.
pub open spec fn remove_plain_model(v: NodeV, path: Seq<Seq<char>>) -> Option<NodeV>
    decreases path.len(),
{
    match v {
        NodeV::File(_) => Option::None,
        NodeV::Dir(es) => if path.len() == 0 {
            Option::None
        } else {
            match find_e(es, path[0]) {
                Option::None => Option::None,
                Option::Some(i) => if path.len() == 1 {
                    match es[i].node {
                        NodeV::File(_) => Option::Some(NodeV::Dir(es.remove(i))),
                        NodeV::Dir(_) => Option::None,
                    }
                } else {
                    match remove_plain_model(es[i].node, path.drop_first()) {
                        Option::Some(child) => Option::Some(
                            NodeV::Dir(es.update(i, EntryV { name: path[0], node: child })),
                        ),
                        Option::None => Option::None,
                    }
                },
            }
        },
    }
}

pub open spec fn is_empty_dir(v: NodeV) -> bool {
    match v {
        NodeV::Dir(es) => es.len() == 0,
        NodeV::File(_) => false,
    }
}

/// Removes the file at `path` and prunes every directory along the path
/// that became empty; the root directory is never pruned. `None` when no
/// file stands at `path`.
pub open spec fn remove_md_model(v: NodeV, path: Seq<Seq<char>>) -> Option<NodeV>
    decreases path.len(),
{
    match v {
        NodeV::File(_) => Option::None,
        NodeV::Dir(es) => if path.len() == 0 {
            Option::None
        } else {
            match find_e(es, path[0]) {
                Option::None => Option::None,
                Option::Some(i) => if path.len() == 1 {
                    match es[i].node {
                        NodeV::File(_) => Option::Some(NodeV::Dir(es.remove(i))),
                        NodeV::Dir(_) => Option::None,
                    }
                } else {
                    match remove_md_model(es[i].node, path.drop_first()) {
                        Option::Some(child) => if is_empty_dir(child) {
                            Option::Some(NodeV::Dir(es.remove(i)))
                        } else {
                            Option::Some(
                                NodeV::Dir(es.update(i, EntryV { name: path[0], node: child })),
                            )
                        },
                        Option::None => Option::None,
                    }
                },
            }
        },
    }
}

/// Removes the directory at `path` together with everything below it;
/// no pruning of parents. `None` when no directory stands at `path`.
pub open spec fn remove_tree_model(v: NodeV, path: Seq<Seq<char>>) -> Option<NodeV>
    decreases path.len(),
{
    match v {
        NodeV::File(_) => Option::None,
        NodeV::Dir(es) => if path.len() == 0 {
            Option::None
        } else {
            match find_e(es, path[0]) {
                Option::None => Option::None,
                Option::Some(i) => if path.len() == 1 {
                    match es[i].node {
                        NodeV::Dir(_) => Option::Some(NodeV::Dir(es.remove(i))),
                        NodeV::File(_) => Option::None,
                    }
                } else {
                    match remove_tree_model(es[i].node, path.drop_first()) {
                        Option::Some(child) => Option::Some(
                            NodeV::Dir(es.update(i, EntryV { name: path[0], node: child })),
                        ),
                        Option::None => Option::None,
                    }
                },
            }
        },
    }
}

/// Copies `s` onto `d`: files overwrite files, directories merge into
/// directories, missing entries are created. Stops at the first spot
/// where a file and a directory collide: the result is the tree built so
/// far, and the flag says whether the copy ran to completion.
pub open spec fn copy_go(s: NodeV, d: NodeV) -> (NodeV, bool)
    decreases s,
{
    match s {
        NodeV::File(c) => match d {
            NodeV::Dir(_) => (d, false),
            NodeV::File(_) => (NodeV::File(c), true),
        },
        NodeV::Dir(ses) => match d {
            NodeV::File(_) => (d, false),
            NodeV::Dir(des) => copy_entries_go(ses, des),
        },
    }
}

pub open spec fn copy_entries_go(ses: Seq<EntryV>, des: Seq<EntryV>) -> (NodeV, bool)
    decreases ses,
{
    if ses.len() == 0 {
        (NodeV::Dir(des), true)
    } else {
        match find_e(des, ses[0].name) {
            Option::Some(i) => {
                let (nd, ok) = copy_go(ses[0].node, des[i].node);
                let des2 = des.update(i, EntryV { name: ses[0].name, node: nd });
                if ok {
                    copy_entries_go(ses.drop_first(), des2)
                } else {
                    (NodeV::Dir(des2), false)
                }
            },
            Option::None => copy_entries_go(ses.drop_first(), des.push(ses[0])),
        }
    }
}

pub(crate) fn clone_content(c: &Option<String>) -> (r: Option<String>)
    ensures
        content_view(r) == content_view(*c),
{
    match c {
        Option::Some(s) => Some(s.clone()),
        Option::None => None,
    }
}

/// Duplicates a tree.
pub fn clone_node(n: &Node) -> (r: Node)
    ensures
        node_view(r) == node_view(*n),
    decreases *n,
{
    match n {
        Node::File(c) => Node::File(clone_content(c)),
        Node::Dir(es) => {
            let ghost ev = entries_view(es@);
            let mut out: Vec<Entry> = Vec::new();
            let mut i: usize = 0;
            proof {
                lemma_entries_view(es@);
            }
            while i < es.len()
                invariant
                    i <= es@.len(),
                    ev == entries_view(es@),
                    ev.len() == es@.len(),
                    node_view(*n) == NodeV::Dir(ev),
                    *n == Node::Dir(*es),
                    entries_view(out@) == entries_view(es@).take(i as int),
                decreases es@.len() - i,
            {
                let ghost outpre = out@;
                match &es[i].node {
                    Node::File(cc) => {
                        let e = Entry { name: es[i].name.clone(), node: Node::File(clone_content(cc)) };
                        out.push(e);
                        proof {
                            lemma_ev_push(outpre, e);
                            lemma_entries_view(es@);
                            assert(es@[i as int].node == Node::File(*cc));
                            assert(entries_view(out@) =~= entries_view(es@).take(i + 1));
                        }
                    },
                    Node::Dir(_) => {
                        proof {
                            assert(*n == Node::Dir(*es));
                            assert(decreases_to!(Node::Dir(*es) => *es));
                            assert(decreases_to!(*es => es@));
                            assert(decreases_to!(es@ => es@[i as int]));
                            assert(decreases_to!(es@[i as int] => es@[i as int].node));
                        }
                        let e = Entry { name: es[i].name.clone(), node: clone_node(&es[i].node) };
                        out.push(e);
                        proof {
                            lemma_ev_push(outpre, e);
                            lemma_entries_view(es@);
                            assert(entries_view(out@) =~= entries_view(es@).take(i + 1));
                        }
                    },
                }
                i += 1;
            }
            proof {
                lemma_entries_view(es@);
                assert(entries_view(es@).take(es@.len() as int) =~= entries_view(es@));
            }
            Node::Dir(out)
        },
    }
}

/// Builds the fresh directory chain for the path segments from `i` on,
/// ending in a file holding `c`; refuses an illegal segment.
fn fresh_chain(path: &Vec<String>, i: usize, c: Option<String>) -> (r: Option<Node>)
    requires
        i <= path@.len(),
        forall|k: int, q: int|
            0 <= k < path@.len() && 0 <= q < path@[k]@.len() ==> #[trigger] path@[k]@[q] != '/',
    ensures
        match r {
            Option::Some(m) => all_valid(views_of(path@).skip(i as int)) && node_view(m)
                == fresh_node(views_of(path@).skip(i as int), content_view(c)),
            Option::None => !all_valid(views_of(path@).skip(i as int)),
        },
    decreases path@.len() - i,
{
    let ghost p = views_of(path@).skip(i as int);
    if i == path.len() {
        proof {
            assert(p =~= Seq::<Seq<char>>::empty());
        }
        return Some(Node::File(c));
    }
    proof {
        assert(p[0] == path@[i as int]@);
        assert(p.drop_first() =~= views_of(path@).skip(i + 1));
    }
    if path[i].as_str().is_empty() {
        proof {
            assert(!valid_name(p[0]));
        }
        return None;
    }
    match fresh_chain(path, i + 1, c) {
        Option::Some(child) => {
            let e = Entry { name: path[i].clone(), node: child };
            let out: Vec<Entry> = vec![e];
            proof {
                assert(valid_name(p[0]));
                assert forall|k: int| 0 <= k < p.len() implies valid_name(#[trigger] p[k]) by {
                    if k > 0 {
                        assert(p.drop_first()[k - 1] == p[k]);
                    }
                }
                lemma_entries_view(out@);
                assert(out@[0] == e);
                assert(entries_view(out@) =~= seq![
                    EntryV { name: p[0], node: fresh_node(p.drop_first(), content_view(c)) },
                ]);
            }
            Some(Node::Dir(out))
        },
        Option::None => {
            proof {
                assert(!all_valid(p.drop_first()));
                let bad = choose|k: int|
                    0 <= k < p.drop_first().len() && !valid_name(#[trigger] p.drop_first()[k]);
                assert(p[bad + 1] == p.drop_first()[bad]);
            }
            None
        },
    }
}

/// Writes the file at the path segments from `i` on, creating parent
/// directories as needed; on refusal the tree comes back unchanged.
pub(crate) fn put_file(n: Node, path: &Vec<String>, i: usize, c: Option<String>) -> (res: (
    Node,
    bool,
))
    requires
        i <= path@.len(),
        forall|k: int, q: int|
            0 <= k < path@.len() && 0 <= q < path@[k]@.len() ==> #[trigger] path@[k]@[q] != '/',
    ensures
        match put_file_model(node_view(n), views_of(path@).skip(i as int), content_view(c)) {
            Option::Some(w) => res.1 && node_view(res.0) == w,
            Option::None => !res.1 && node_view(res.0) == node_view(n),
        },
    decreases path@.len() - i,
{
    let ghost v0 = node_view(n);
    let ghost p = views_of(path@).skip(i as int);
    match n {
        Node::File(cc) => (Node::File(cc), false),
        Node::Dir(mut es) => {
            let ghost ev = entries_view(es@);
            if i == path.len() {
                return (Node::Dir(es), false);
            }
            proof {
                assert(p[0] == path@[i as int]@);
                assert(p.drop_first() =~= views_of(path@).skip(i + 1));
            }
            if path[i].as_str().is_empty() {
                proof {
                    assert(!valid_name(p[0]));
                    assert(!all_valid(p));
                }
                return (Node::Dir(es), false);
            }
            match find_entry(&es, &path[i]) {
                Option::Some(j) => {
                    proof {
                        lemma_find_e(ev, p[0]);
                    }
                    let ghost es0 = es@;
                    if i + 1 == path.len() {
                        let leaf_is_dir = match &es[j].node {
                            Node::Dir(_) => true,
                            Node::File(_) => false,
                        };
                        proof {
                            lemma_entries_view(es@);
                        }
                        if leaf_is_dir {
                            return (Node::Dir(es), false);
                        }
                        let old_e = es.remove(j);
                        let e = Entry { name: old_e.name, node: Node::File(c) };
                        es.insert(j, e);
                        proof {
                            lemma_entries_view(es0);
                            lemma_entries_view(es@);
                            assert(p =~= seq![p[0]]);
                            assert(all_valid(p));
                            assert(old_e == es0[j as int]);
                            assert(entries_view(es@) =~= ev.update(
                                j as int,
                                EntryV { name: p[0], node: NodeV::File(content_view(c)) },
                            ));
                        }
                        (Node::Dir(es), true)
                    } else {
                        let old_e = es.remove(j);
                        let (child, ok) = put_file(old_e.node, path, i + 1, c);
                        let e = Entry { name: old_e.name, node: child };
                        es.insert(j, e);
                        proof {
                            lemma_entries_view(es0);
                            lemma_entries_view(es@);
                            assert(old_e == es0[j as int]);
                            if ok {
                                assert(all_valid(p)) by {
                                    assert(valid_name(p[0]));
                                    assert(all_valid(p.drop_first()));
                                    assert forall|k: int| 0 <= k < p.len() implies valid_name(
                                        #[trigger] p[k],
                                    ) by {
                                        if k > 0 {
                                            assert(p.drop_first()[k - 1] == p[k]);
                                        }
                                    }
                                }
                                assert(entries_view(es@) =~= ev.update(
                                    j as int,
                                    EntryV { name: p[0], node: node_view(child) },
                                ));
                            } else {
                                assert(node_view(child) == node_view(es0[j as int].node));
                                assert(entries_view(es@) =~= ev);
                                assert(node_view(Node::Dir(es)) == v0);
                            }
                        }
                        (Node::Dir(es), ok)
                    }
                },
                Option::None => {
                    match fresh_chain(path, i + 1, c) {
                        Option::Some(child) => {
                            let e = Entry { name: path[i].clone(), node: child };
                            let ghost espre = es@;
                            es.push(e);
                            proof {
                                lemma_ev_push(espre, e);
                                assert(valid_name(p[0]));
                                assert(all_valid(p)) by {
                                    assert forall|k: int| 0 <= k < p.len() implies valid_name(
                                        #[trigger] p[k],
                                    ) by {
                                        if k > 0 {
                                            assert(p.drop_first()[k - 1] == p[k]);
                                        }
                                    }
                                }
                            }
                            (Node::Dir(es), true)
                        },
                        Option::None => {
                            proof {
                                assert(!all_valid(p)) by {
                                    assert(!all_valid(p.drop_first()));
                                    let bad = choose|k: int|
                                        0 <= k < p.drop_first().len() && !valid_name(
                                            #[trigger] p.drop_first()[k],
                                        );
                                    assert(p[bad + 1] == p.drop_first()[bad]);
                                }
                            }
                            (Node::Dir(es), false)
                        },
                    }
                },
            }
        },
    }
}

/// Removes the file at the path segments from `i` on, pruning emptied
/// directories along the way; on refusal the tree comes back unchanged.
pub(crate) fn remove_md(n: Node, path: &Vec<String>, i: usize) -> (res: (Node, bool))
    requires
        i <= path@.len(),
    ensures
        match remove_md_model(node_view(n), views_of(path@).skip(i as int)) {
            Option::Some(w) => res.1 && node_view(res.0) == w,
            Option::None => !res.1 && node_view(res.0) == node_view(n),
        },
    decreases path@.len() - i,
{
    let ghost p = views_of(path@).skip(i as int);
    match n {
        Node::File(cc) => (Node::File(cc), false),
        Node::Dir(mut es) => {
            let ghost ev = entries_view(es@);
            if i == path.len() {
                return (Node::Dir(es), false);
            }
            proof {
                assert(p[0] == path@[i as int]@);
                assert(p.drop_first() =~= views_of(path@).skip(i + 1));
            }
            match find_entry(&es, &path[i]) {
                Option::None => (Node::Dir(es), false),
                Option::Some(j) => {
                    proof {
                        lemma_find_e(ev, p[0]);
                        lemma_entries_view(es@);
                    }
                    let ghost es0 = es@;
                    if i + 1 == path.len() {
                        let leaf_is_file = match &es[j].node {
                            Node::File(_) => true,
                            Node::Dir(_) => false,
                        };
                        if !leaf_is_file {
                            return (Node::Dir(es), false);
                        }
                        es.remove(j);
                        proof {
                            lemma_ev_remove(es0, j as int);
                            assert(p =~= seq![p[0]]);
                        }
                        (Node::Dir(es), true)
                    } else {
                        let old_e = es.remove(j);
                        let (child, ok) = remove_md(old_e.node, path, i + 1);
                        proof {
                            lemma_ev_remove(es0, j as int);
                            assert(old_e == es0[j as int]);
                        }
                        if ok {
                            let child_is_empty_dir = match &child {
                                Node::Dir(ces) => ces.len() == 0,
                                Node::File(_) => false,
                            };
                            if child_is_empty_dir {
                                proof {
                                    assert(is_empty_dir(node_view(child))) by {
                                        match child {
                                            Node::Dir(ces) => {
                                                lemma_entries_view(ces@);
                                            },
                                            Node::File(_) => {},
                                        }
                                    }
                                }
                                (Node::Dir(es), true)
                            } else {
                                let e = Entry { name: old_e.name, node: child };
                                let ghost esmid = es@;
                                es.insert(j, e);
                                proof {
                                    lemma_ev_insert(esmid, j as int, e);
                                    assert(!is_empty_dir(node_view(child))) by {
                                        match child {
                                            Node::Dir(ces) => {
                                                lemma_entries_view(ces@);
                                            },
                                            Node::File(_) => {},
                                        }
                                    }
                                    assert(entries_view(es@) =~= ev.update(
                                        j as int,
                                        EntryV { name: p[0], node: node_view(child) },
                                    ));
                                }
                                (Node::Dir(es), true)
                            }
                        } else {
                            let e = Entry { name: old_e.name, node: child };
                            let ghost esmid = es@;
                            es.insert(j, e);
                            proof {
                                lemma_ev_insert(esmid, j as int, e);
                                assert(entries_view(es@) =~= ev);
                            }
                            (Node::Dir(es), false)
                        }
                    }
                },
            }
        },
    }
}

/// Removes the directory at the path segments from `i` on, with all it
/// holds; on refusal the tree comes back unchanged.
pub(crate) fn remove_tree(n: Node, path: &Vec<String>, i: usize) -> (res: (Node, bool))
    requires
        i <= path@.len(),
    ensures
        match remove_tree_model(node_view(n), views_of(path@).skip(i as int)) {
            Option::Some(w) => res.1 && node_view(res.0) == w,
            Option::None => !res.1 && node_view(res.0) == node_view(n),
        },
    decreases path@.len() - i,
{
    let ghost p = views_of(path@).skip(i as int);
    match n {
        Node::File(cc) => (Node::File(cc), false),
        Node::Dir(mut es) => {
            let ghost ev = entries_view(es@);
            if i == path.len() {
                return (Node::Dir(es), false);
            }
            proof {
                assert(p[0] == path@[i as int]@);
                assert(p.drop_first() =~= views_of(path@).skip(i + 1));
            }
            match find_entry(&es, &path[i]) {
                Option::None => (Node::Dir(es), false),
                Option::Some(j) => {
                    proof {
                        lemma_find_e(ev, p[0]);
                        lemma_entries_view(es@);
                    }
                    let ghost es0 = es@;
                    if i + 1 == path.len() {
                        let leaf_is_dir = match &es[j].node {
                            Node::Dir(_) => true,
                            Node::File(_) => false,
                        };
                        if !leaf_is_dir {
                            return (Node::Dir(es), false);
                        }
                        es.remove(j);
                        proof {
                            lemma_ev_remove(es0, j as int);
                            assert(p =~= seq![p[0]]);
                        }
                        (Node::Dir(es), true)
                    } else {
                        let old_e = es.remove(j);
                        let (child, ok) = remove_tree(old_e.node, path, i + 1);
                        let e = Entry { name: old_e.name, node: child };
                        let ghost esmid = es@;
                        es.insert(j, e);
                        proof {
                            lemma_ev_remove(es0, j as int);
                            lemma_ev_insert(esmid, j as int, e);
                            assert(old_e == es0[j as int]);
                            if ok {
                                assert(entries_view(es@) =~= ev.update(
                                    j as int,
                                    EntryV { name: p[0], node: node_view(child) },
                                ));
                            } else {
                                assert(entries_view(es@) =~= ev);
                            }
                        }
                        (Node::Dir(es), ok)
                    }
                },
            }
        },
    }
}

/// Removes the file at the path segments from `i` on, keeping its parent
/// directories; on refusal the tree comes back unchanged.
pub(crate) fn remove_plain(n: Node, path: &Vec<String>, i: usize) -> (res: (Node, bool))
    requires
        i <= path@.len(),
    ensures
        match remove_plain_model(node_view(n), views_of(path@).skip(i as int)) {
            Option::Some(w) => res.1 && node_view(res.0) == w,
            Option::None => !res.1 && node_view(res.0) == node_view(n),
        },
    decreases path@.len() - i,
{
    let ghost p = views_of(path@).skip(i as int);
    match n {
        Node::File(cc) => (Node::File(cc), false),
        Node::Dir(mut es) => {
            let ghost ev = entries_view(es@);
            if i == path.len() {
                return (Node::Dir(es), false);
            }
            proof {
                assert(p[0] == path@[i as int]@);
                assert(p.drop_first() =~= views_of(path@).skip(i + 1));
            }
            match find_entry(&es, &path[i]) {
                Option::None => (Node::Dir(es), false),
                Option::Some(j) => {
                    proof {
                        lemma_find_e(ev, p[0]);
                        lemma_entries_view(es@);
                    }
                    let ghost es0 = es@;
                    if i + 1 == path.len() {
                        let leaf_is_file = match &es[j].node {
                            Node::File(_) => true,
                            Node::Dir(_) => false,
                        };
                        if !leaf_is_file {
                            return (Node::Dir(es), false);
                        }
                        es.remove(j);
                        proof {
                            lemma_ev_remove(es0, j as int);
                            assert(p =~= seq![p[0]]);
                        }
                        (Node::Dir(es), true)
                    } else {
                        let old_e = es.remove(j);
                        let (child, ok) = remove_plain(old_e.node, path, i + 1);
                        let e = Entry { name: old_e.name, node: child };
                        let ghost esmid = es@;
                        es.insert(j, e);
                        proof {
                            lemma_ev_remove(es0, j as int);
                            lemma_ev_insert(esmid, j as int, e);
                            assert(old_e == es0[j as int]);
                            if ok {
                                assert(entries_view(es@) =~= ev.update(
                                    j as int,
                                    EntryV { name: p[0], node: node_view(child) },
                                ));
                            } else {
                                assert(entries_view(es@) =~= ev);
                            }
                        }
                        (Node::Dir(es), ok)
                    }
                },
            }
        },
    }
}

/// Copies `s` onto `d`, merging directories and overwriting files, as a
/// recursive directory copy does; stops where a file and a directory
/// collide and then reports failure, leaving what was copied so far.
pub(crate) fn copy_into(s: &Node, d: Node) -> (res: (Node, bool))
    ensures
        (node_view(res.0), res.1) == copy_go(node_view(*s), node_view(d)),
    decreases *s,
{
    match s {
        Node::File(cc) => {
            match d {
                Node::Dir(des) => (Node::Dir(des), false),
                Node::File(dc) => (Node::File(clone_content(cc)), true),
            }
        },
        Node::Dir(ses) => {
            match d {
                Node::File(dc) => (Node::File(dc), false),
                Node::Dir(mut des) => {
                    let ghost sev = entries_view(ses@);
                    let ghost dev0 = entries_view(des@);
                    let ghost dv = node_view(d);
                    proof {
                        lemma_entries_view(ses@);
                        assert(sev.skip(0) =~= sev);
                        assert(dv == NodeV::Dir(dev0));
                        assert(copy_go(node_view(*s), dv) == copy_entries_go(sev, dev0));
                    }
                    let mut i: usize = 0;
                    while i < ses.len()
                        invariant
                            i <= ses@.len(),
                            sev == entries_view(ses@),
                            sev.len() == ses@.len(),
                            node_view(*s) == NodeV::Dir(sev),
                            *s == Node::Dir(*ses),
                            node_view(d) == NodeV::Dir(dev0),
                            copy_entries_go(sev, dev0) == copy_entries_go(
                                sev.skip(i as int),
                                entries_view(des@),
                            ),
                        decreases ses@.len() - i,
                    {
                        let ghost rest = sev.skip(i as int);
                        let ghost dev = entries_view(des@);
                        proof {
                            lemma_entries_view(ses@);
                            assert(rest[0] == sev[i as int]);
                            assert(rest.drop_first() =~= sev.skip(i + 1));
                        }
                        match find_entry(&des, &ses[i].name) {
                            Option::Some(j) => {
                                proof {
                                    lemma_find_e(dev, rest[0].name);
                                    lemma_entries_view(des@);
                                }
                                let ghost des0 = des@;
                                let old_e = des.remove(j);
                                let (nd, ok) = copy_into(&ses[i].node, old_e.node);
                                let e = Entry { name: old_e.name, node: nd };
                                let ghost desmid = des@;
                                des.insert(j, e);
                                proof {
                                    lemma_ev_remove(des0, j as int);
                                    lemma_ev_insert(desmid, j as int, e);
                                    assert(old_e == des0[j as int]);
                                    assert(entries_view(des@) =~= dev.update(
                                        j as int,
                                        EntryV { name: rest[0].name, node: node_view(e.node) },
                                    ));
                                }
                                proof {
                                    let step = copy_go(rest[0].node, dev[j as int].node);
                                    assert(step == (node_view(e.node), ok));
                                    if !ok {
                                        assert(copy_entries_go(rest, dev) == (
                                            NodeV::Dir(entries_view(des@)),
                                            false,
                                        ));
                                    } else {
                                        assert(copy_entries_go(rest, dev) == copy_entries_go(
                                            rest.drop_first(),
                                            entries_view(des@),
                                        ));
                                    }
                                }
                                if !ok {
                                    proof {
                                        assert(copy_entries_go(sev, dev0) == (
                                            NodeV::Dir(entries_view(des@)),
                                            false,
                                        ));
                                    }
                                    return (Node::Dir(des), false);
                                }
                            },
                            Option::None => {
                                let e = Entry {
                                    name: ses[i].name.clone(),
                                    node: clone_node(&ses[i].node),
                                };
                                let ghost des0 = des@;
                                des.push(e);
                                proof {
                                    lemma_ev_push(des0, e);
                                    assert(entries_view(des@) =~= dev.push(rest[0]));
                                    assert(copy_entries_go(rest, dev) == copy_entries_go(
                                        rest.drop_first(),
                                        entries_view(des@),
                                    ));
                                }
                            },
                        }
                        i += 1;
                    }
                    proof {
                        assert(sev.skip(ses@.len() as int) =~= Seq::<EntryV>::empty());
                    }
                    (Node::Dir(des), true)
                },
            }
        },
    }
}

/// What stands behind `name` in an entry list.
pub open spec fn found_node(es: Seq<EntryV>, name: Seq<char>) -> Option<NodeV> {
    match find_e(es, name) {
        Option::Some(i) => Option::Some(es[i].node),
        Option::None => Option::None,
    }
}

pub proof fn lemma_found_step(es: Seq<EntryV>, name: Seq<char>)
    requires
        es.len() > 0,
    ensures
        found_node(es, name) == if es[0].name == name {
            Option::Some(es[0].node)
        } else {
            found_node(es.drop_first(), name)
        },
{
    if es[0].name != name {
        lemma_find_e(es.drop_first(), name);
        match find_e(es.drop_first(), name) {
            Option::Some(i) => {
                assert(es[i + 1] == es.drop_first()[i]);
            },
            Option::None => {},
        }
    }
}

pub proof fn lemma_found_update(es: Seq<EntryV>, j: int, e: EntryV, name: Seq<char>)
    requires
        0 <= j < es.len(),
        e.name == es[j].name,
    ensures
        found_node(es.update(j, e), name) == (match find_e(es, name) {
            Option::Some(k) => Option::Some(if k == j {
                e.node
            } else {
                es[k].node
            }),
            Option::None => Option::None::<NodeV>,
        }),
    decreases es.len(),
{
    let upd = es.update(j, e);
    lemma_find_e(es, name);
    lemma_found_step(es, name);
    lemma_found_step(upd, name);
    if j == 0 {
        assert(upd.drop_first() =~= es.drop_first());
        assert(upd[0] == e);
    } else {
        assert(upd[0] == es[0]);
        assert(upd.drop_first() =~= es.drop_first().update(j - 1, e));
        if es[0].name != name {
            lemma_found_update(es.drop_first(), j - 1, e, name);
            lemma_find_e(es.drop_first(), name);
            match find_e(es.drop_first(), name) {
                Option::Some(i) => {
                    assert(es[i + 1] == es.drop_first()[i]);
                },
                Option::None => {},
            }
        }
    }
}

pub proof fn lemma_found_push(es: Seq<EntryV>, e: EntryV, name: Seq<char>)
    requires
        e.name != name,
    ensures
        found_node(es.push(e), name) == found_node(es, name),
    decreases es.len(),
{
    lemma_found_step(es.push(e), name);
    if es.len() == 0 {
        assert(es.push(e)[0] == e);
        assert(es.push(e).drop_first() =~= Seq::<EntryV>::empty());
    } else {
        lemma_found_step(es, name);
        assert(es.push(e)[0] == es[0]);
        assert(es.push(e).drop_first() =~= es.drop_first().push(e));
        lemma_found_push(es.drop_first(), e, name);
    }
}

pub proof fn lemma_found_remove(es: Seq<EntryV>, j: int, name: Seq<char>)
    requires
        0 <= j < es.len(),
        es[j].name != name,
    ensures
        found_node(es.remove(j), name) == found_node(es, name),
    decreases es.len(),
{
    lemma_found_step(es, name);
    if j == 0 {
        assert(es.remove(0) =~= es.drop_first());
    } else {
        lemma_found_step(es.remove(j), name);
        assert(es.remove(j)[0] == es[0]);
        assert(es.remove(j).drop_first() =~= es.drop_first().remove(j - 1));
        if es[0].name != name {
            lemma_found_remove(es.drop_first(), j - 1, name);
        }
    }
}

/// Looking a single step down rewrites `lookup` through `found_node`.
pub proof fn lemma_lookup_step(es: Seq<EntryV>, path: Seq<Seq<char>>)
    requires
        path.len() >= 1,
    ensures
        lookup(NodeV::Dir(es), path) == match found_node(es, path[0]) {
            Option::Some(nd) => lookup(nd, path.drop_first()),
            Option::None => Option::None,
        },
{
}

/// A file can be removed (keeping its folders) exactly where a file
/// stands.
pub proof fn lemma_remove_plain_some(v: NodeV, p: Seq<Seq<char>>)
    requires
        p.len() >= 1,
    ensures
        (remove_plain_model(v, p) is Some) <==> (lookup(v, p) matches Option::Some(
            NodeV::File(_),
        )),
    decreases p.len(),
{
    match v {
        NodeV::File(_) => {},
        NodeV::Dir(es) => {
            match find_e(es, p[0]) {
                Option::None => {},
                Option::Some(i) => {
                    if p.len() > 1 {
                        lemma_remove_plain_some(es[i].node, p.drop_first());
                    }
                },
            }
        },
    }
}

/// A completed write leaves the written file at its path, with folders
/// above it all the way down.
pub proof fn lemma_put_creates(v: NodeV, p: Seq<Seq<char>>, c: Option<Seq<char>>)
    requires
        put_file_model(v, p, c) is Some,
    ensures
        lookup(put_file_model(v, p, c).unwrap(), p) == Option::Some(NodeV::File(c)),
        forall|k: int|
            1 <= k < p.len() ==> #[trigger] lookup(put_file_model(v, p, c).unwrap(), p.take(k))
                matches Option::Some(NodeV::Dir(_)),
        put_file_model(v, p, c).unwrap() matches NodeV::Dir(_),
    decreases p.len(),
{
    let w = put_file_model(v, p, c).unwrap();
    match v {
        NodeV::File(_) => {},
        NodeV::Dir(es) => {
            match find_e(es, p[0]) {
                Option::Some(i) => {
                    lemma_find_e(es, p[0]);
                    if p.len() == 1 {
                        let e = EntryV { name: p[0], node: NodeV::File(c) };
                        lemma_found_update(es, i, e, p[0]);
                        lemma_lookup_step(es.update(i, e), p);
                    } else {
                        let child = put_file_model(es[i].node, p.drop_first(), c).unwrap();
                        lemma_put_creates(es[i].node, p.drop_first(), c);
                        let e = EntryV { name: p[0], node: child };
                        lemma_found_update(es, i, e, p[0]);
                        lemma_lookup_step(es.update(i, e), p);
                        assert(lookup(w, p) == lookup(child, p.drop_first()));
                        assert forall|k: int|
                            1 <= k < p.len() implies #[trigger] lookup(w, p.take(k)) matches Option::Some(
                            NodeV::Dir(_),
                        ) by {
                            lemma_lookup_step(es.update(i, e), p.take(k));
                            assert(p.take(k)[0] == p[0]);
                            if k == 1 {
                                assert(p.take(1).drop_first() =~= Seq::<Seq<char>>::empty());
                            } else {
                                assert(p.take(k).drop_first() =~= p.drop_first().take(k - 1));
                                assert(lookup(child, p.drop_first().take(k - 1)) matches Option::Some(
                                    NodeV::Dir(_),
                                ));
                            }
                        }
                    }
                },
                Option::None => {
                    let fresh = fresh_node(p.drop_first(), c);
                    let e = EntryV { name: p[0], node: fresh };
                    lemma_find_e(es, p[0]);
                    lemma_fresh_lookup(p.drop_first(), c);
                    assert(found_node(es.push(e), p[0]) == Option::Some(fresh)) by {
                        lemma_find_e(es.push(e), p[0]);
                        assert forall|k: int|
                            0 <= k < es.len() implies #[trigger] es.push(e)[k].name != p[0] by {
                            assert(es.push(e)[k] == es[k]);
                        }
                        assert(es.push(e)[es.len() as int].name == p[0]);
                    }
                    lemma_lookup_step(es.push(e), p);
                    assert forall|k: int|
                        1 <= k < p.len() implies #[trigger] lookup(w, p.take(k)) matches Option::Some(
                        NodeV::Dir(_),
                    ) by {
                        lemma_lookup_step(es.push(e), p.take(k));
                        assert(p.take(k)[0] == p[0]);
                        if k == 1 {
                            assert(p.take(1).drop_first() =~= Seq::<Seq<char>>::empty());
                            assert(p.drop_first().len() >= 1);
                        } else {
                            assert(p.take(k).drop_first() =~= p.drop_first().take(k - 1));
                        }
                    }
                },
            }
        },
    }
}

/// In a fresh chain, the whole path leads to the file, through
/// directories.
pub proof fn lemma_fresh_lookup(p: Seq<Seq<char>>, c: Option<Seq<char>>)
    ensures
        lookup(fresh_node(p, c), p) == Option::Some(NodeV::File(c)),
        forall|k: int|
            1 <= k < p.len() ==> #[trigger] lookup(fresh_node(p, c), p.take(k)) matches Option::Some(
                NodeV::Dir(_),
            ),
        p.len() >= 1 ==> fresh_node(p, c) matches NodeV::Dir(_),
    decreases p.len(),
{
    if p.len() > 0 {
        lemma_fresh_lookup(p.drop_first(), c);
        let e = EntryV { name: p[0], node: fresh_node(p.drop_first(), c) };
        let es = seq![e];
        assert(find_e(es, p[0]) == Option::Some(0int));
        lemma_lookup_step(es, p);
        assert forall|k: int|
            1 <= k < p.len() implies #[trigger] lookup(fresh_node(p, c), p.take(k)) matches Option::Some(
            NodeV::Dir(_),
        ) by {
            lemma_lookup_step(es, p.take(k));
            assert(p.take(k)[0] == p[0]);
            if k == 1 {
                assert(p.take(1).drop_first() =~= Seq::<Seq<char>>::empty());
                assert(p.drop_first().len() >= 1);
            } else {
                assert(p.take(k).drop_first() =~= p.drop_first().take(k - 1));
            }
        }
    }
}

/// A completed write at one path leaves a file at another path alone.
pub proof fn lemma_put_preserves(v: NodeV, tp: Seq<Seq<char>>, c: Option<Seq<char>>, fp: Seq<
    Seq<char>,
>)
    requires
        put_file_model(v, tp, c) is Some,
        lookup(v, fp) matches Option::Some(NodeV::File(_)),
        fp != tp,
        fp.len() >= 1,
    ensures
        lookup(put_file_model(v, tp, c).unwrap(), fp) == lookup(v, fp),
    decreases tp.len(),
{
    let w = put_file_model(v, tp, c).unwrap();
    match v {
        NodeV::File(_) => {},
        NodeV::Dir(es) => {
            lemma_lookup_step(es, fp);
            lemma_find_e(es, fp[0]);
            match find_e(es, tp[0]) {
                Option::Some(i) => {
                    lemma_find_e(es, tp[0]);
                    if tp.len() == 1 {
                        let e = EntryV { name: tp[0], node: NodeV::File(c) };
                        lemma_found_update(es, i, e, fp[0]);
                        lemma_lookup_step(es.update(i, e), fp);
                        if fp[0] == tp[0] {
                            assert(es[i].node matches NodeV::File(_));
                            assert(fp.len() > 1) by {
                                if fp.len() == 1 {
                                    assert(fp[0] == tp[0]);
                                    assert(fp =~= tp);
                                }
                            }
                            assert(lookup(es[i].node, fp.drop_first()) is None);
                        }
                    } else {
                        match put_file_model(es[i].node, tp.drop_first(), c) {
                            Option::Some(child) => {
                                let e = EntryV { name: tp[0], node: child };
                                lemma_found_update(es, i, e, fp[0]);
                                lemma_lookup_step(es.update(i, e), fp);
                                if fp[0] == tp[0] {
                                    if fp.drop_first().len() == 0 {
                                        assert(lookup(v, fp) == Option::Some(es[i].node));
                                        assert(es[i].node matches NodeV::File(_));
                                        assert(put_file_model(es[i].node, tp.drop_first(), c)
                                            is None);
                                    } else {
                                        assert(fp.drop_first() != tp.drop_first()) by {
                                            if fp.drop_first() == tp.drop_first() {
                                                assert(fp.len() == tp.len());
                                                assert forall|k: int|
                                                    0 <= k < fp.len() implies fp[k] == tp[k] by {
                                                    if k > 0 {
                                                        assert(fp.drop_first()[k - 1] == fp[k]);
                                                        assert(tp.drop_first()[k - 1] == tp[k]);
                                                    }
                                                }
                                                assert(fp =~= tp);
                                            }
                                        }
                                        lemma_put_preserves(
                                            es[i].node,
                                            tp.drop_first(),
                                            c,
                                            fp.drop_first(),
                                        );
                                    }
                                }
                            },
                            Option::None => {},
                        }
                    }
                },
                Option::None => {
                    let e = EntryV {
                        name: tp[0],
                        node: fresh_node(tp.drop_first(), c),
                    };
                    if fp[0] == tp[0] {
                        assert(lookup(v, fp) is None);
                    } else {
                        lemma_found_push(es, e, fp[0]);
                        lemma_lookup_step(es.push(e), fp);
                    }
                },
            }
        },
    }
}

/// Removing a file at one path leaves any path with another head alone.
pub proof fn lemma_remove_plain_preserves_head(v: NodeV, fp: Seq<Seq<char>>, p: Seq<Seq<char>>)
    requires
        remove_plain_model(v, fp) is Some,
        p.len() >= 1,
        fp.len() >= 1,
        p[0] != fp[0],
    ensures
        lookup(remove_plain_model(v, fp).unwrap(), p) == lookup(v, p),
{
    match v {
        NodeV::File(_) => {},
        NodeV::Dir(es) => {
            lemma_lookup_step(es, p);
            lemma_find_e(es, p[0]);
            match find_e(es, fp[0]) {
                Option::None => {},
                Option::Some(i) => {
                    lemma_find_e(es, fp[0]);
                    if fp.len() == 1 {
                        lemma_found_remove(es, i, p[0]);
                        lemma_lookup_step(es.remove(i), p);
                    } else {
                        match remove_plain_model(es[i].node, fp.drop_first()) {
                            Option::Some(child) => {
                                let e = EntryV { name: fp[0], node: child };
                                lemma_found_update(es, i, e, p[0]);
                                lemma_lookup_step(es.update(i, e), p);
                            },
                            Option::None => {},
                        }
                    }
                },
            }
        },
    }
}

} // verus!
