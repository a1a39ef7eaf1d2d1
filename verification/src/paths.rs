//! Unix paths as text.

use vstd::prelude::*;

use crate::tables;
use crate::text;

verus! {

/// A piece between slashes that names something: neither empty nor `.`.
pub open spec fn is_component() -> spec_fn(Seq<char>) -> bool {
    |piece: Seq<char>| piece.len() > 0 && piece != "."@
}

/// The last component of a path, unless it leads to a parent.
pub open spec fn file_name(path: Seq<char>) -> Option<Seq<char>> {
    let named = tables::kept(text::split_on(path, '/'), is_component());
    if named.len() == 0 || named.last() == ".."@ {
        None
    } else {
        Some(named.last())
    }
}

/// The index of the last `c` in `s`, or -1.
pub open spec fn last_index(s: Seq<char>, c: char) -> int
    decreases s.len(),
{
    if s.len() == 0 {
        -1
    } else if s.last() == c {
        s.len() - 1
    } else {
        last_index(s.drop_last(), c)
    }
}

/// A file name without its extension; a leading dot starts no extension.
pub open spec fn stem_of(name: Seq<char>) -> Seq<char> {
    let dot = last_index(name, '.');
    if dot <= 0 {
        name
    } else {
        name.take(dot)
    }
}

/// The identity of the board at a path: the stem of its file name.
pub open spec fn board_id(path: Seq<char>) -> Option<Seq<char>> {
    match file_name(path) {
        Some(name) => Some(stem_of(name)),
        None => None,
    }
}

pub open spec fn board_id_or_empty(path: Seq<char>) -> Seq<char> {
    match board_id(path) {
        Some(id) => id,
        None => seq![],
    }
}

/// The index of the last `c` among the first `end` characters, if there is one.
pub fn find_last(cs: &[char], end: usize, c: char) -> (r: Option<usize>)
    requires
        end <= cs@.len(),
    ensures
        match r {
            Some(i) => i == last_index(cs@.take(end as int), c) && i < end,
            None => last_index(cs@.take(end as int), c) == -1,
        },
{
    let mut i: usize = end;
    while i > 0
        invariant
            i <= end <= cs@.len(),
            last_index(cs@.take(end as int), c) == last_index(cs@.take(i as int), c),
        decreases i,
    {
        if cs[i - 1] == c {
            return Some(i - 1);
        }
        proof {
            assert(cs@.take(i as int).drop_last() =~= cs@.take(i as int - 1));
        }
        i = i - 1;
    }
    None
}

proof fn lemma_last_index(s: Seq<char>, c: char)
    ensures
        -1 <= last_index(s, c) < s.len(),
        last_index(s, c) >= 0 ==> s[last_index(s, c)] == c,
    decreases s.len(),
{
    if s.len() > 0 && s.last() != c {
        lemma_last_index(s.drop_last(), c);
    }
}

/// The identity of a board, read back from its path: `<root>/boards/<id>.db`
/// gives `<id>`. A path without a file name gives none.
pub fn board_id_from_path(board_path: &str) -> (r: Option<String>)
    ensures
        text::text_of(r) == board_id(board_path@),
{
    let pieces = text::split(board_path, '/');
    let ghost all = text::texts(pieces@);
    let mut last: Option<usize> = None;
    let mut i: usize = 0;
    proof {
        assert(all.take(0) =~= Seq::<Seq<char>>::empty());
    }
    while i < pieces.len()
        invariant
            i <= pieces@.len(),
            all == text::texts(pieces@),
            match last {
                Some(k) => k < i && tables::kept(all.take(i as int), is_component()).len() > 0
                    && tables::kept(all.take(i as int), is_component()).last() == all[k as int],
                None => tables::kept(all.take(i as int), is_component()).len() == 0,
            },
        decreases pieces.len() - i,
    {
        proof {
            tables::lemma_kept_step(all, is_component(), i as int);
        }
        let piece = pieces[i].as_str();
        if !piece.is_empty() && !text::same(piece, ".") {
            last = Some(i);
        }
        i = i + 1;
    }
    proof {
        assert(all.take(all.len() as int) =~= all);
    }
    match last {
        None => None,
        Some(k) => {
            let name = pieces[k].as_str();
            if text::same(name, "..") {
                return None;
            }
            let cs = text::chars_of(name);
            proof {
                assert(cs@.take(cs@.len() as int) =~= cs@);
            }
            match find_last(cs.as_slice(), cs.len(), '.') {
                Some(dot) => {
                    if dot == 0 {
                        Some(name.to_owned())
                    } else {
                        proof {
                            assert(name@.take(dot as int) =~= name@.subrange(0, dot as int));
                        }
                        Some(name.substring_char(0, dot).to_owned())
                    }
                },
                None => Some(name.to_owned()),
            }
        },
    }
}

/// The identity of a board, empty where its path gives none.
pub fn board_id_text(board_path: &str) -> (r: String)
    ensures
        r@ == board_id_or_empty(board_path@),
{
    match board_id_from_path(board_path) {
        Some(id) => id,
        None => String::new(),
    }
}

/// The directory above a canonical path; the filesystem root has none.
pub open spec fn parent_of(path: Seq<char>) -> Option<Seq<char>> {
    let slash = last_index(path, '/');
    if path.len() == 0 || path == "/"@ {
        None
    } else if slash < 0 {
        Some(seq![])
    } else if slash == 0 {
        Some("/"@)
    } else {
        Some(path.take(slash))
    }
}

/// The parent is shorter.
pub proof fn lemma_parent_shorter(path: Seq<char>)
    ensures
        parent_of(path) is Some ==> parent_of(path)->0.len() < path.len(),
{
    reveal_strlit("/");
    lemma_last_index(path, '/');
    if path.len() == 1 && path[0] == '/' {
        assert(path =~= "/"@);
    }
}

pub fn parent(path: &str) -> (r: Option<String>)
    ensures
        text::text_of(r) == parent_of(path@),
{
    if path.is_empty() || text::same(path, "/") {
        return None;
    }
    let cs = text::chars_of(path);
    proof {
        assert(cs@.take(cs@.len() as int) =~= cs@);
    }
    match find_last(cs.as_slice(), cs.len(), '/') {
        None => {
            let empty = String::new();
            proof {
                assert(empty@ =~= seq![]);
            }
            Some(empty)
        },
        Some(slash) => if slash == 0 {
            Some("/".to_owned())
        } else {
            proof {
                assert(path@.take(slash as int) =~= path@.subrange(0, slash as int));
            }
            Some(path.substring_char(0, slash).to_owned())
        },
    }
}

/// `name` below the directory `root`.
pub open spec fn below(root: Seq<char>, name: Seq<char>) -> Seq<char> {
    if root.len() == 0 || root.last() == '/' {
        root + name
    } else {
        root + "/"@ + name
    }
}

pub fn path_below(root: &str, name: &str) -> (r: String)
    ensures
        r@ == below(root@, name@),
{
    let cs = text::chars_of(root);
    if cs.len() == 0 || cs[cs.len() - 1] == '/' {
        root.to_owned().concat(name)
    } else {
        root.to_owned().concat("/").concat(name)
    }
}

/// The target of an attachment is a path rather than a name.
pub open spec fn looks_like_path(target: Seq<char>) -> bool {
    target.contains('/') || target == "."@ || target == ".."@
}

/// Whether a target is a path rather than a name.
pub fn target_looks_like_path(target: &str) -> (r: bool)
    ensures
        r == looks_like_path(target@),
{
    let cs = text::chars_of(target);
    let at: usize = text::find_from(cs.as_slice(), 0, '/');
    proof {
        assert(cs@.skip(0) =~= target@);
        text::lemma_find_char(target@, '/');
        assert(at < target@.len() ==> target@[at as int] == '/');
    }
    at < cs.len() || text::same(target, ".") || text::same(target, "..")
}

/// The components of a path, with `/` first where it starts at the root.
pub open spec fn components(path: Seq<char>) -> Seq<Seq<char>> {
    let named = tables::kept(text::split_on(path, '/'), is_component());
    if path.len() > 0 && path[0] == '/' {
        seq!["/"@] + named
    } else {
        named
    }
}

/// `path` lies at or below `root`, component by component.
pub open spec fn within(root: Seq<char>, path: Seq<char>) -> bool {
    components(root).is_prefix_of(components(path))
}

/// Some component leads to a parent directory.
pub open spec fn climbs(path: Seq<char>) -> bool {
    components(path).contains(".."@)
}

pub fn components_of(path: &str) -> (r: Vec<String>)
    ensures
        text::texts(r@) == components(path@),
{
    let pieces = text::split(path, '/');
    let ghost all = text::texts(pieces@);
    let mut out: Vec<String> = Vec::new();
    let absolute = !path.is_empty() && path.get_char(0) == '/';
    let ghost head: Seq<Seq<char>> = if absolute {
        seq!["/"@]
    } else {
        seq![]
    };
    if absolute {
        out.push("/".to_owned());
    }
    let mut i: usize = 0;
    proof {
        assert(tables::kept(all.take(0), is_component()) =~= Seq::<Seq<char>>::empty());
        assert(text::texts(out@) =~= head + tables::kept(all.take(0), is_component()));
    }
    while i < pieces.len()
        invariant
            i <= pieces@.len(),
            all == text::texts(pieces@),
            text::texts(out@) == head + tables::kept(all.take(i as int), is_component()),
        decreases pieces.len() - i,
    {
        proof {
            tables::lemma_kept_step(all, is_component(), i as int);
        }
        let piece = pieces[i].as_str();
        if !piece.is_empty() && !text::same(piece, ".") {
            let ghost before = out@;
            out.push(pieces[i].clone());
            proof {
                assert(text::texts(out@) =~= text::texts(before).push(piece@));
                assert(text::texts(out@) =~= head + tables::kept(
                    all.take(i as int + 1),
                    is_component(),
                ));
            }
        }
        i = i + 1;
    }
    proof {
        assert(all.take(all.len() as int) =~= all);
        assert(text::texts(out@) =~= components(path@));
    }
    out
}

/// Whether a path lies at or below a root.
pub fn adoption_path_within_root(root: &str, path: &str) -> (r: bool)
    ensures
        r == within(root@, path@),
{
    let outer = components_of(root);
    let inner = components_of(path);
    if outer.len() > inner.len() {
        return false;
    }
    let ghost a = text::texts(outer@);
    let ghost b = text::texts(inner@);
    let mut i: usize = 0;
    while i < outer.len()
        invariant
            i <= outer@.len() <= inner@.len(),
            a == text::texts(outer@),
            b == text::texts(inner@),
            a == components(root@),
            b == components(path@),
            forall|k: int| 0 <= k < i ==> #[trigger] a[k] == b[k],
        decreases outer.len() - i,
    {
        if !text::same(outer[i].as_str(), inner[i].as_str()) {
            proof {
                assert(a[i as int] != b[i as int]);
                if a.is_prefix_of(b) {
                    assert(a[i as int] == b.subrange(0, a.len() as int)[i as int]);
                }
            }
            return false;
        }
        i = i + 1;
    }
    proof {
        assert(a =~= b.subrange(0, a.len() as int));
    }
    true
}

/// Whether some component leads to a parent directory.
pub fn has_parent_traversal(path: &str) -> (r: bool)
    ensures
        r == climbs(path@),
{
    let parts = components_of(path);
    text::holds(parts.as_slice(), "..")
}

/// A file beside a database: its path with a suffix.
pub fn database_artifact_path(path: &str, suffix: &str) -> (r: String)
    ensures
        r@ == path@ + suffix@,
{
    path.to_owned().concat(suffix)
}

/// The marker of a pending adoption below a data root.
pub fn adoption_marker_path(root: &str) -> (r: String)
    ensures
        r@ == below(root@, ".workspace-adopt.json"@),
{
    path_below(root, ".workspace-adopt.json")
}

/// The staging directory of adoptions below a data root.
pub fn adoption_staging_root(root: &str) -> (r: String)
    ensures
        r@ == below(root@, ".workspace-adopt-staging"@),
{
    path_below(root, ".workspace-adopt-staging")
}

} // verus!
