//! The storage operations on the note tree: reading, listing, searching,
//! writing, removing with empty-parent pruning, moving and export/import
//! copies. Each operation is specified against the tree model.
use vstd::prelude::*;
use crate::strings::{
    views_of, split_ch, split_title, lemma_split_ch_no_sep, sorted_le, sort_strings,
    spec_contains, lower_of, lowercase, str_contains, lines_of, trim_of, trim_str,
    lemma_find_ch_is, strip_cr,
};
use crate::fstree::{
    Node, NodeV, EntryV, node_view, content_view, entries_view, lookup, md_files,
    md_files_entries, titles_of, FileV, collect_titles, get_node, put_file, put_file_model,
    remove_md, remove_md_model, remove_tree, remove_tree_model, copy_go,
    copy_into, clone_content, lemma_entries_view, md_name, join_title, join_path, stem_of,
    remove_plain, remove_plain_model,
};

verus! {

/// What a storage operation can fail with.
#[derive(Debug, PartialEq, Eq)]
pub enum FskError {
    /// The named note, folder or source does not exist.
    NotFound(String),
    /// The note exists but its text cannot be read.
    Unreadable,
    /// A file or directory already stands in the way of the operation.
    Conflict,
}

/// The path segments of a note file: the title split at `/`, with `.md`
/// appended to the last segment.
pub open spec fn note_segs(t: Seq<char>) -> Seq<Seq<char>> {
    let s = split_ch(t, '/');
    s.update(s.len() - 1, s.last() + seq!['.', 'm', 'd'])
}

/// Splits a title into the segments of its note file.
pub(crate) fn note_path(title: &str) -> (v: Vec<String>)
    ensures
        views_of(v@) == note_segs(title@),
        v@.len() >= 1,
        forall|k: int, q: int|
            0 <= k < v@.len() && 0 <= q < v@[k]@.len() ==> #[trigger] v@[k]@[q] != '/',
{
    let mut v = split_title(title);
    proof {
        lemma_split_ch_no_sep(title@, '/');
    }
    let ghost s = split_ch(title@, '/');
    let mut last = v.pop().unwrap();
    last.append(".md");
    proof {
        reveal_strlit(".md");
        assert(last@ =~= s.last() + seq!['.', 'm', 'd']);
    }
    v.push(last);
    proof {
        assert(views_of(v@) =~= note_segs(title@));
        assert forall|k: int, q: int|
            0 <= k < v@.len() && 0 <= q < v@[k]@.len() implies #[trigger] v@[k]@[q] != '/' by {
            assert(v@[k]@ == views_of(v@)[k]);
            assert(s[k].len() >= 0);
            if k < v@.len() - 1 {
                assert(v@[k]@ == s[k]);
            } else {
                assert(v@[k]@ == s.last() + seq!['.', 'm', 'd']);
                if q < s.last().len() {
                    assert((s.last() + seq!['.', 'm', 'd'])[q] == s[s.len() - 1][q]);
                } else {
                    assert((s.last() + seq!['.', 'm', 'd'])[q] == seq!['.', 'm', 'd'][q - s.last().len()]);
                }
            }
        }
    }
    v
}

/// Reads a note's text: the content of the file at `<title>.md`.
pub fn read(fs: &Node, title: &str) -> (r: Result<String, FskError>)
    ensures
        ({
            let target = lookup(node_view(*fs), note_segs(title@));
            match r {
                Result::Ok(c) => target == Option::Some(NodeV::File(Option::Some(c@))),
                Result::Err(FskError::Unreadable) => target == Option::Some(
                    NodeV::File(Option::None),
                ),
                Result::Err(FskError::NotFound(t)) => t@ == title@ && !(target matches Option::Some(
                    NodeV::File(_),
                )),
                Result::Err(FskError::Conflict) => false,
            }
        }),
{
    let path = note_path(title);
    proof {
        assert(views_of(path@).skip(0) =~= note_segs(title@));
    }
    match get_node(fs, &path, 0) {
        Option::Some(node) => match node {
            Node::File(c) => match c {
                Option::Some(text) => Ok(text.clone()),
                Option::None => Err(FskError::Unreadable),
            },
            Node::Dir(_) => Err(FskError::NotFound(title.to_owned())),
        },
        Option::None => Err(FskError::NotFound(title.to_owned())),
    }
}

pub open spec fn sub_view(s: Option<&String>) -> Option<Seq<char>> {
    match s {
        Option::Some(p) => Option::Some(p@),
        Option::None => Option::None,
    }
}

/// The titles a listing shows: every markdown note below the base, or
/// below the given subfolder (empty when it is no directory), titled
/// relative to the base.
pub open spec fn listed_titles(v: NodeV, sub: Option<Seq<char>>) -> Seq<Seq<char>> {
    match sub {
        Option::None => titles_of(md_files(v, Seq::empty())),
        Option::Some(p) => if p.len() == 0 {
            titles_of(md_files(v, Seq::empty()))
        } else {
            match lookup(v, split_ch(p, '/')) {
                Option::Some(d) => match d {
                    NodeV::Dir(_) => titles_of(md_files(d, p)),
                    NodeV::File(_) => Seq::empty(),
                },
                Option::None => Seq::empty(),
            }
        },
    }
}

/// Lists every note below the base (or below `sub_path`), in sorted
/// order, whatever order the directories were enumerated in.
pub fn list(fs: &Node, sub_path: Option<&String>) -> (r: Vec<String>)
    ensures
        sorted_le(views_of(r@)),
        views_of(r@).to_multiset() == listed_titles(node_view(*fs), sub_view(sub_path)).to_multiset(),
{
    let mut acc: Vec<String> = Vec::new();
    proof {
        assert(views_of(acc@) =~= Seq::<Seq<char>>::empty());
    }
    match sub_path {
        Option::None => {
            let pre = String::new();
            collect_titles(fs, &pre, &mut acc);
            proof {
                assert(views_of(acc@) =~= titles_of(md_files(node_view(*fs), Seq::empty())));
            }
        },
        Option::Some(p) => {
            if p.as_str().is_empty() {
                let pre = String::new();
                collect_titles(fs, &pre, &mut acc);
                proof {
                    assert(views_of(acc@) =~= titles_of(md_files(node_view(*fs), Seq::empty())));
                }
            } else {
                let segs = split_title(p.as_str());
                proof {
                    assert(views_of(segs@).skip(0) =~= split_ch(p@, '/'));
                }
                match get_node(fs, &segs, 0) {
                    Option::Some(d) => {
                        match d {
                            Node::Dir(_) => {
                                collect_titles(d, p, &mut acc);
                                proof {
                                    assert(views_of(acc@) =~= titles_of(
                                        md_files(node_view(*d), p@),
                                    ));
                                }
                            },
                            Node::File(_) => {},
                        }
                    },
                    Option::None => {},
                }
            }
        },
    }
    sort_strings(acc)
}

/// One search hit: the note's title, whether the title itself matched,
/// and otherwise the first matching content line, trimmed.
#[derive(Debug, PartialEq, Eq)]
pub struct SearchResult {
    pub title: String,
    pub is_title_match: bool,
    pub preview: Option<String>,
}

/// Mathematical counterpart of `SearchResult`.
pub ghost struct SearchResultV {
    pub title: Seq<char>,
    pub is_title_match: bool,
    pub preview: Option<Seq<char>>,
}

pub open spec fn sr_view(r: SearchResult) -> SearchResultV {
    SearchResultV {
        title: r.title@,
        is_title_match: r.is_title_match,
        preview: content_view(r.preview),
    }
}

pub open spec fn srs_view(rs: Seq<SearchResult>) -> Seq<SearchResultV> {
    rs.map_values(|r: SearchResult| sr_view(r))
}

/// The first line whose lowercased text contains `kw`.
pub open spec fn first_match(ls: Seq<Seq<char>>, kw: Seq<char>) -> Option<Seq<char>>
    decreases ls.len(),
{
    if ls.len() == 0 {
        Option::None
    } else if spec_contains(lower_of(ls[0]), kw) {
        Option::Some(ls[0])
    } else {
        first_match(ls.drop_first(), kw)
    }
}

/// What the search reports for one note, the keyword already lowercased:
/// a title hit reads no content; otherwise the first matching content
/// line, trimmed; a note whose text cannot be read matches nothing.
pub open spec fn file_result(
    title: Seq<char>,
    content: Option<Seq<char>>,
    kw: Seq<char>,
) -> Option<SearchResultV> {
    if spec_contains(lower_of(title), kw) {
        Option::Some(SearchResultV { title, is_title_match: true, preview: Option::None })
    } else {
        match content {
            Option::Some(c) => match first_match(lines_of(c), kw) {
                Option::Some(l) => Option::Some(
                    SearchResultV {
                        title,
                        is_title_match: false,
                        preview: Option::Some(trim_of(l)),
                    },
                ),
                Option::None => Option::None,
            },
            Option::None => Option::None,
        }
    }
}

/// The search results over the walked notes, in walk order.
pub open spec fn search_files(fsq: Seq<FileV>, kw: Seq<char>) -> Seq<SearchResultV>
    decreases fsq.len(),
{
    if fsq.len() == 0 {
        Seq::empty()
    } else {
        (match file_result(fsq[0].title, fsq[0].content, kw) {
            Option::Some(r) => seq![r],
            Option::None => Seq::empty(),
        }) + search_files(fsq.drop_first(), kw)
    }
}

pub proof fn lemma_search_files_add(a: Seq<FileV>, b: Seq<FileV>, kw: Seq<char>)
    ensures
        search_files(a + b, kw) == search_files(a, kw) + search_files(b, kw),
    decreases a.len(),
{
    if a.len() == 0 {
        assert(a + b =~= b);
        assert(search_files(a, kw) + search_files(b, kw) =~= search_files(b, kw));
    } else {
        assert((a + b).drop_first() =~= a.drop_first() + b);
        assert((a + b)[0] == a[0]);
        lemma_search_files_add(a.drop_first(), b, kw);
        assert(search_files(a + b, kw) =~= search_files(a, kw) + search_files(b, kw));
    }
}

/// Finds the first line of `c` whose lowercased text contains the
/// (lowercased) keyword, and hands it back trimmed.
fn first_match_line(c: &String, kw: &String) -> (r: Option<String>)
    ensures
        ({
            let fm = first_match(lines_of(c@), kw@);
            match r {
                Option::Some(t) => fm matches Option::Some(l) && t@ == trim_of(l),
                Option::None => fm is None,
            }
        }),
{
    let n = c.as_str().unicode_len();
    let mut p: usize = 0;
    proof {
        assert(c@.skip(0) =~= c@);
    }
    while p < n
        invariant
            p <= n,
            n == c@.len(),
            first_match(lines_of(c@), kw@) == first_match(lines_of(c@.skip(p as int)), kw@),
        decreases n - p,
    {
        let ghost ss = c@.skip(p as int);
        let mut j: usize = p;
        while j < n && c.as_str().get_char(j) != '\n'
            invariant
                p <= j <= n,
                n == c@.len(),
                forall|k: int| p <= k < j ==> c@[k] != '\n',
            decreases n - j,
        {
            j += 1;
        }
        let has_nl = j < n;
        let strip = has_nl && j > p && c.as_str().get_char(j - 1) == '\r';
        let line_end = if strip {
            j - 1
        } else {
            j
        };
        let line = c.as_str().substring_char(p, line_end).to_owned();
        proof {
            assert forall|k: int| 0 <= k < j - p implies ss[k] != '\n' by {
                assert(c@[p + k] != '\n');
            }
            if has_nl {
                assert(ss[j - p] == c@[j as int]);
                lemma_find_ch_is(ss, '\n', j - p);
                assert(ss.take(j - p) =~= c@.subrange(p as int, j as int));
                if strip {
                    assert(ss.take(j - p)[j - p - 1] == c@[j - 1]);
                    assert(strip_cr(ss.take(j - p)) =~= c@.subrange(p as int, j - 1));
                } else {
                    assert(strip_cr(ss.take(j - p)) =~= c@.subrange(p as int, j as int));
                }
                assert(strip_cr(ss.take(j - p)) == line@);
                assert(ss.skip(j - p + 1) =~= c@.skip(j + 1));
                assert(lines_of(ss) == seq![line@] + lines_of(c@.skip(j + 1)));
                assert(lines_of(ss)[0] == line@);
                assert(lines_of(ss).drop_first() =~= lines_of(c@.skip(j + 1)));
            } else {
                lemma_find_ch_is(ss, '\n', ss.len() as int);
                assert(ss =~= c@.subrange(p as int, j as int));
                assert(lines_of(ss) == seq![ss]);
                assert(lines_of(ss)[0] == line@);
                assert(lines_of(ss).drop_first() =~= Seq::<Seq<char>>::empty());
            }
        }
        let low = lowercase(line.as_str());
        if str_contains(low.as_str(), kw.as_str()) {
            return Some(trim_str(line.as_str()));
        }
        if !has_nl {
            proof {
                assert(first_match(Seq::<Seq<char>>::empty(), kw@) is None);
            }
            return None;
        }
        p = j + 1;
    }
    proof {
        assert(c@.skip(n as int) =~= Seq::<char>::empty());
    }
    None
}

/// Appends to `acc` the search hits for every markdown note below `n`,
/// in walk order; the keyword comes in already lowercased.
pub(crate) fn search_walk(n: &Node, prefix: &String, kw: &String, acc: &mut Vec<SearchResult>)
    ensures
        srs_view(final(acc)@) == srs_view(old(acc)@) + search_files(
            md_files(node_view(*n), prefix@),
            kw@,
        ),
    decreases *n,
{
    match n {
        Node::File(_) => {
            proof {
                assert(srs_view(acc@) =~= srs_view(acc@) + search_files(
                    md_files(node_view(*n), prefix@),
                    kw@,
                ));
            }
        },
        Node::Dir(es) => {
            let ghost ev = entries_view(es@);
            let ghost acc0 = acc@;
            proof {
                lemma_entries_view(es@);
                assert(ev.skip(0) =~= ev);
            }
            let mut i: usize = 0;
            while i < es.len()
                invariant
                    i <= es@.len(),
                    ev == entries_view(es@),
                    ev.len() == es@.len(),
                    node_view(*n) == NodeV::Dir(ev),
                    *n == Node::Dir(*es),
                    srs_view(acc@) + search_files(md_files_entries(ev.skip(i as int), prefix@), kw@)
                        == srs_view(acc0) + search_files(md_files_entries(ev, prefix@), kw@),
                decreases es@.len() - i,
            {
                let ghost accpre = acc@;
                let ghost rest = ev.skip(i as int);
                proof {
                    lemma_entries_view(es@);
                    assert(rest[0] == ev[i as int]);
                    assert(rest.drop_first() =~= ev.skip(i + 1));
                }
                match &es[i].node {
                    Node::File(cc) => {
                        if md_name(&es[i].name) {
                            let nm = &es[i].name;
                            let ln = nm.as_str().unicode_len();
                            let stem = nm.as_str().substring_char(0, ln - 3).to_owned();
                            let title = join_title(prefix, &stem);
                            proof {
                                assert(stem@ =~= stem_of(ev[i as int].name));
                                assert(es@[i as int].node == Node::File(*cc));
                            }
                            let ghost f = FileV {
                                title: join_path(prefix@, stem_of(ev[i as int].name)),
                                content: content_view(*cc),
                            };
                            proof {
                                assert(md_files_entries(rest, prefix@) == seq![f]
                                    + md_files_entries(rest.drop_first(), prefix@));
                                assert((seq![f] + md_files_entries(rest.drop_first(), prefix@))[0]
                                    == f);
                                assert((seq![f] + md_files_entries(rest.drop_first(), prefix@)).drop_first()
                                    =~= md_files_entries(ev.skip(i + 1), prefix@));
                            }
                            let low = lowercase(title.as_str());
                            if str_contains(low.as_str(), kw.as_str()) {
                                let hit = SearchResult {
                                    title,
                                    is_title_match: true,
                                    preview: None,
                                };
                                acc.push(hit);
                                proof {
                                    assert(srs_view(acc@) =~= srs_view(accpre) + seq![sr_view(hit)]);
                                }
                            } else {
                                match cc {
                                    Option::Some(text) => {
                                        match first_match_line(text, kw) {
                                            Option::Some(t) => {
                                                let hit = SearchResult {
                                                    title,
                                                    is_title_match: false,
                                                    preview: Some(t),
                                                };
                                                acc.push(hit);
                                                proof {
                                                    assert(srs_view(acc@) =~= srs_view(accpre)
                                                        + seq![sr_view(hit)]);
                                                }
                                            },
                                            Option::None => {
                                                proof {
                                                    assert(file_result(f.title, f.content, kw@)
                                                        is None);
                                                }
                                            },
                                        }
                                    },
                                    Option::None => {
                                        proof {
                                            assert(file_result(f.title, f.content, kw@) is None);
                                        }
                                    },
                                }
                            }
                        } else {
                            proof {
                                assert(md_files_entries(rest, prefix@) =~= md_files_entries(
                                    rest.drop_first(),
                                    prefix@,
                                ));
                            }
                        }
                    },
                    Node::Dir(_) => {
                        let child_prefix = join_title(prefix, &es[i].name);
                        proof {
                            assert(*n == Node::Dir(*es));
                            assert(decreases_to!(Node::Dir(*es) => *es));
                            assert(decreases_to!(*es => es@));
                            assert(decreases_to!(es@ => es@[i as int]));
                            assert(decreases_to!(es@[i as int] => es@[i as int].node));
                        }
                        search_walk(&es[i].node, &child_prefix, kw, acc);
                        proof {
                            let head = md_files(ev[i as int].node, join_path(prefix@, ev[i as int].name));
                            assert(md_files_entries(rest, prefix@) == head + md_files_entries(
                                rest.drop_first(),
                                prefix@,
                            ));
                            lemma_search_files_add(head, md_files_entries(ev.skip(i + 1), prefix@), kw@);
                            assert(srs_view(acc@) =~= srs_view(accpre) + search_files(head, kw@));
                        }
                    },
                }
                i += 1;
            }
            proof {
                assert(ev.skip(es@.len() as int) =~= Seq::<EntryV>::empty());
                assert(search_files(md_files_entries(Seq::<EntryV>::empty(), prefix@), kw@) =~= Seq::<
                    SearchResultV,
                >::empty());
                assert(srs_view(acc@) =~= srs_view(acc@) + Seq::<SearchResultV>::empty());
                assert(srs_view(acc@) =~= srs_view(acc0) + search_files(
                    md_files(node_view(*n), prefix@),
                    kw@,
                ));
            }
        },
    }
}

/// Searches every note for a keyword, case-insensitively, in walk order:
/// a title hit reports the title alone and reads no content; otherwise
/// the first matching content line is reported, trimmed.
pub fn search(fs: &Node, keyword: &str) -> (r: Vec<SearchResult>)
    ensures
        srs_view(r@) == search_files(md_files(node_view(*fs), Seq::empty()), lower_of(keyword@)),
{
    let kw = lowercase(keyword);
    let mut acc: Vec<SearchResult> = Vec::new();
    let pre = String::new();
    proof {
        assert(srs_view(acc@) =~= Seq::<SearchResultV>::empty());
        assert(srs_view(acc@) + search_files(
            md_files(node_view(*fs), Seq::empty()),
            lower_of(keyword@),
        ) =~= search_files(md_files(node_view(*fs), Seq::empty()), lower_of(keyword@)));
    }
    search_walk(fs, &pre, &kw, &mut acc);
    acc
}

/// Writes a note's text, creating parent folders as needed; refuses when
/// a note stands where a folder is needed, or a folder where the note
/// goes, or the title has an empty segment.
pub fn write_note(fs: &mut Node, title: &str, content: String) -> (r: Result<(), FskError>)
    ensures
        match put_file_model(
            node_view(*old(fs)),
            note_segs(title@),
            Option::Some(content@),
        ) {
            Option::Some(w) => r is Ok && node_view(*final(fs)) == w,
            Option::None => r == Result::<(), FskError>::Err(FskError::Conflict) && node_view(
                *final(fs),
            ) == node_view(*old(fs)),
        },
{
    let mut t = Node::Dir(Vec::new());
    core::mem::swap(fs, &mut t);
    let path = note_path(title);
    proof {
        assert(views_of(path@).skip(0) =~= note_segs(title@));
    }
    let (t2, ok) = put_file(t, &path, 0, Some(content));
    *fs = t2;
    if ok {
        Ok(())
    } else {
        Err(FskError::Conflict)
    }
}

/// Removes the note called `title` (pruning folders the removal emptied,
/// though never the base itself), or else the folder called `title` with
/// everything in it; otherwise reports that the title does not exist.
pub fn remove(fs: &mut Node, title: &str) -> (r: Result<(), FskError>)
    ensures
        ({
            let v0 = node_view(*old(fs));
            match remove_md_model(v0, note_segs(title@)) {
                Option::Some(w) => r is Ok && node_view(*final(fs)) == w,
                Option::None => match remove_tree_model(v0, split_ch(title@, '/')) {
                    Option::Some(w) => r is Ok && node_view(*final(fs)) == w,
                    Option::None => (r matches Result::Err(FskError::NotFound(t)) && t@ == title@)
                        && node_view(*final(fs)) == v0,
                },
            }
        }),
{
    let mut t = Node::Dir(Vec::new());
    core::mem::swap(fs, &mut t);
    let fpath = note_path(title);
    proof {
        assert(views_of(fpath@).skip(0) =~= note_segs(title@));
    }
    let (t2, ok) = remove_md(t, &fpath, 0);
    if ok {
        *fs = t2;
        return Ok(());
    }
    let dpath = split_title(title);
    proof {
        assert(views_of(dpath@).skip(0) =~= split_ch(title@, '/'));
    }
    let (t3, ok2) = remove_tree(t2, &dpath, 0);
    *fs = t3;
    if ok2 {
        Ok(())
    } else {
        Err(FskError::NotFound(title.to_owned()))
    }
}

/// Compares two segment paths for equality.
fn eq_paths(a: &Vec<String>, b: &Vec<String>) -> (r: bool)
    ensures
        r == (views_of(a@) == views_of(b@)),
{
    if a.len() != b.len() {
        proof {
            assert(views_of(a@).len() != views_of(b@).len());
        }
        return false;
    }
    let mut i: usize = 0;
    while i < a.len()
        invariant
            i <= a@.len(),
            a@.len() == b@.len(),
            forall|k: int| 0 <= k < i ==> #[trigger] views_of(a@)[k] == views_of(b@)[k],
        decreases a@.len() - i,
    {
        if !(a[i] == b[i]) {
            proof {
                assert(views_of(a@)[i as int] != views_of(b@)[i as int]);
            }
            return false;
        }
        proof {
            assert(views_of(a@)[i as int] == views_of(b@)[i as int]);
        }
        i += 1;
    }
    proof {
        assert(views_of(a@) =~= views_of(b@));
    }
    true
}

/// Moves the note `from` to the title `to`, creating destination folders
/// as needed and overwriting a note already at `to`; refuses when a
/// folder stands at `to` or a note blocks the folder chain, and reports
/// a missing source.
pub fn rename(fs: &mut Node, from: &str, to: &str) -> (r: Result<(), FskError>)
    ensures
        ({
            let v0 = node_view(*old(fs));
            let fp = note_segs(from@);
            let tp = note_segs(to@);
            match lookup(v0, fp) {
                Option::Some(src) => match src {
                    NodeV::File(c) => if fp == tp {
                        r is Ok && node_view(*final(fs)) == v0
                    } else {
                        match put_file_model(v0, tp, c) {
                            Option::Some(t2) => r is Ok && node_view(*final(fs))
                                == remove_plain_model(t2, fp).unwrap(),
                            Option::None => r == Result::<(), FskError>::Err(FskError::Conflict)
                                && node_view(*final(fs)) == v0,
                        }
                    },
                    NodeV::Dir(_) => (r matches Result::Err(FskError::NotFound(t)) && t@ == from@)
                        && node_view(*final(fs)) == v0,
                },
                Option::None => (r matches Result::Err(FskError::NotFound(t)) && t@ == from@)
                    && node_view(*final(fs)) == v0,
            }
        }),
{
    let ghost v0 = node_view(*fs);
    let ghost fp = note_segs(from@);
    let ghost tp = note_segs(to@);
    let fpath = note_path(from);
    let tpath = note_path(to);
    proof {
        assert(views_of(fpath@).skip(0) =~= fp);
        assert(views_of(tpath@).skip(0) =~= tp);
    }
    let content = match get_node(fs, &fpath, 0) {
        Option::Some(nd) => match nd {
            Node::File(c) => clone_content(c),
            Node::Dir(_) => {
                return Err(FskError::NotFound(from.to_owned()));
            },
        },
        Option::None => {
            return Err(FskError::NotFound(from.to_owned()));
        },
    };
    let ghost cv = content_view(content);
    if eq_paths(&fpath, &tpath) {
        return Ok(());
    }
    let mut t = Node::Dir(Vec::new());
    core::mem::swap(fs, &mut t);
    let (t2, ok) = put_file(t, &tpath, 0, content);
    if !ok {
        *fs = t2;
        return Err(FskError::Conflict);
    }
    proof {
        crate::fstree::lemma_put_preserves(v0, tp, cv, fp);
        crate::fstree::lemma_remove_plain_some(node_view(t2), fp);
    }
    let (t3, _moved) = remove_plain(t2, &fpath, 0);
    *fs = t3;
    Ok(())
}

/// Copies the folder called `source_title` (the whole base when the name
/// is empty) onto the destination tree, creating what is missing and
/// overwriting files. Works for either direction of an export or import.
pub fn export_folder(fs: &Node, source_title: &str, dest: &mut Node) -> (r: Result<
    (),
    FskError,
>)
    ensures
        ({
            let v0 = node_view(*fs);
            let src = if source_title@.len() == 0 {
                Option::Some(v0)
            } else {
                lookup(v0, split_ch(source_title@, '/'))
            };
            match src {
                Option::Some(s) => {
                    &&& node_view(*final(dest)) == copy_go(s, node_view(*old(dest))).0
                    &&& (r is Ok <==> copy_go(s, node_view(*old(dest))).1)
                    &&& (r is Ok || r == Result::<(), FskError>::Err(FskError::Conflict))
                },
                Option::None => (r matches Result::Err(FskError::NotFound(t)) && t@
                    == source_title@) && node_view(*final(dest)) == node_view(*old(dest)),
            }
        }),
{
    let mut d = Node::Dir(Vec::new());
    core::mem::swap(dest, &mut d);
    if source_title.is_empty() {
        let (d2, ok) = copy_into(fs, d);
        *dest = d2;
        if ok {
            Ok(())
        } else {
            Err(FskError::Conflict)
        }
    } else {
        let segs = split_title(source_title);
        proof {
            assert(views_of(segs@).skip(0) =~= split_ch(source_title@, '/'));
        }
        match get_node(fs, &segs, 0) {
            Option::Some(s) => {
                let (d2, ok) = copy_into(s, d);
                *dest = d2;
                if ok {
                    Ok(())
                } else {
                    Err(FskError::Conflict)
                }
            },
            Option::None => {
                *dest = d;
                Err(FskError::NotFound(source_title.to_owned()))
            },
        }
    }
}

} // verus!
