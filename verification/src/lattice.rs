//! Capabilities, the scopes that they are held on, and what satisfies what.

use vstd::multiset::Multiset;
use vstd::prelude::*;

use crate::text;
use crate::text::Error;

verus! {

// --------------------------------------------------------------------- capabilities

/// One capability level, from the least on. Holding none is holding no grant.
#[derive(Debug, Clone, Copy, PartialEq, Eq, PartialOrd, Ord, Structural)]
pub enum Capability {
    Read,
    Write,
    Admin,
}

/// Where a level stands among the others.
pub open spec fn rank(c: Capability) -> int {
    match c {
        Capability::Read => 0,
        Capability::Write => 1,
        Capability::Admin => 2,
    }
}

pub open spec fn capability_text(c: Capability) -> Seq<char> {
    match c {
        Capability::Read => "read"@,
        Capability::Write => "write"@,
        Capability::Admin => "admin"@,
    }
}

impl Capability {
    pub fn as_str(self) -> (r: &'static str)
        ensures
            r@ == capability_text(self),
    {
        match self {
            Capability::Read => "read",
            Capability::Write => "write",
            Capability::Admin => "admin",
        }
    }

    pub fn from_str(value: &str) -> (r: Option<Self>)
        ensures
            match r {
                Some(c) => value@ == capability_text(c),
                None => forall|c: Capability| value@ != #[trigger] capability_text(c),
            },
    {
        if text::same(value, "read") {
            return Some(Capability::Read);
        }
        if text::same(value, "write") {
            return Some(Capability::Write);
        }
        if text::same(value, "admin") {
            return Some(Capability::Admin);
        }
        None
    }

    /// Whether this level reaches another.
    pub fn at_least(self, other: Capability) -> (r: bool)
        ensures
            r == (rank(self) >= rank(other)),
    {
        match (self, other) {
            (_, Capability::Read) => true,
            (Capability::Read, _) => false,
            (_, Capability::Write) => true,
            (Capability::Write, _) => false,
            (Capability::Admin, Capability::Admin) => true,
        }
    }
}

/// Reading back what a capability is written as gives it again.
pub proof fn law_capability_texts_differ(a: Capability, b: Capability)
    requires
        capability_text(a) == capability_text(b),
    ensures
        a == b,
{
    reveal_strlit("read");
    reveal_strlit("write");
    reveal_strlit("admin");
    assert("write"@[0] == 'w' && "admin"@[0] == 'a' && "read"@[0] == 'r');
}

// --------------------------------------------------------------------------- scopes

/// A normalised scope. Scopes are mutually incomparable; a wildcard is the one
/// other thing that satisfies what is asked for on a tag of its board.
#[derive(Debug, Clone, PartialEq, Eq, Hash, PartialOrd, Ord)]
pub enum ScopeTuple {
    Registry,
    Board { board_id: String },
    BoardTag { board_id: String, tag: String },
    BoardWildcard { board_id: String },
}

/// What a scope says.
pub enum ScopeView {
    Registry,
    Board(Seq<char>),
    BoardTag(Seq<char>, Seq<char>),
    BoardWildcard(Seq<char>),
}

impl View for ScopeTuple {
    type V = ScopeView;

    open spec fn view(&self) -> ScopeView {
        match *self {
            ScopeTuple::Registry => ScopeView::Registry,
            ScopeTuple::Board { board_id } => ScopeView::Board(board_id@),
            ScopeTuple::BoardTag { board_id, tag } => ScopeView::BoardTag(board_id@, tag@),
            ScopeTuple::BoardWildcard { board_id } => ScopeView::BoardWildcard(board_id@),
        }
    }
}

/// The atoms of a scope: the registry alone, or a board and what of it.
pub open spec fn atoms_of(scope: ScopeView) -> Seq<Seq<char>> {
    match scope {
        ScopeView::Registry => seq!["registry"@],
        ScopeView::Board(board) => seq!["board:"@ + board],
        ScopeView::BoardTag(board, tag) => seq!["board:"@ + board, "tag:"@ + tag],
        ScopeView::BoardWildcard(board) => seq!["board:"@ + board, "*"@],
    }
}

/// The atoms read so far.
pub struct Atoms {
    pub registry: bool,
    pub wildcard: bool,
    pub board: Option<Seq<char>>,
    pub tag: Option<Seq<char>>,
}

/// One more atom. A star alone is the wildcard, and no tag.
pub open spec fn read_atom(st: Atoms, atom: Seq<char>) -> Result<Atoms, Seq<char>> {
    match (text::stripped_prefix(atom, "board:"@), text::stripped_prefix(atom, "tag:"@)) {
        _ if atom == "registry"@ => Ok(Atoms { registry: true, ..st }),
        _ if atom == "*"@ => Ok(Atoms { wildcard: true, ..st }),
        (Some(id), _) => if id.len() == 0 {
            Err("empty board scope"@)
        } else if st.board is Some {
            Err("two board atoms"@)
        } else {
            Ok(Atoms { board: Some(id), ..st })
        },
        (None, Some(slug)) => if slug.len() == 0 {
            Err("empty tag scope"@)
        } else if slug == "*"@ {
            Err("* is not a tag"@)
        } else if st.tag is Some {
            Err("two tag atoms"@)
        } else {
            Ok(Atoms { tag: Some(slug), ..st })
        },
        (None, None) => Err("unknown scope atom "@ + atom),
    }
}

/// All atoms, or what is wrong with the first that does not fit.
pub open spec fn read_atoms(atoms: Seq<Seq<char>>) -> Result<Atoms, Seq<char>>
    decreases atoms.len(),
{
    if atoms.len() == 0 {
        Ok(Atoms { registry: false, wildcard: false, board: None, tag: None })
    } else {
        match read_atoms(atoms.drop_last()) {
            Err(m) => Err(m),
            Ok(st) => if atoms.drop_last().contains(atoms.last()) {
                Err("duplicate scope atom "@ + atoms.last())
            } else {
                read_atom(st, atoms.last())
            },
        }
    }
}

/// The one scope that the atoms form.
pub open spec fn scope_of(atoms: Seq<Seq<char>>) -> Result<ScopeView, Seq<char>> {
    match read_atoms(atoms) {
        Err(m) => Err(m),
        Ok(st) => match (st.registry, st.board, st.tag, st.wildcard) {
            (true, None, None, false) => Ok(ScopeView::Registry),
            (false, Some(board), None, false) => Ok(ScopeView::Board(board)),
            (false, Some(board), Some(tag), false) => Ok(ScopeView::BoardTag(board, tag)),
            (false, Some(board), None, true) => Ok(ScopeView::BoardWildcard(board)),
            _ => Err("scope atoms do not form exactly one valid tuple"@),
        },
    }
}

proof fn lemma_atoms_stay(atoms: Seq<Seq<char>>, n: int)
    requires
        0 <= n <= atoms.len(),
    ensures
        read_atoms(atoms.take(n)) is Err ==> read_atoms(atoms) == read_atoms(atoms.take(n)),
    decreases atoms.len(),
{
    if n < atoms.len() {
        lemma_atoms_stay(atoms.drop_last(), n);
        assert(atoms.drop_last().take(n) =~= atoms.take(n));
    } else {
        assert(atoms.take(n) =~= atoms);
    }
}

/// The atoms read so far.
struct AtomsRead {
    registry: bool,
    wildcard: bool,
    board: Option<String>,
    tag: Option<String>,
}

impl AtomsRead {
    spec fn shows(self) -> Atoms {
        Atoms {
            registry: self.registry,
            wildcard: self.wildcard,
            board: text::text_of(self.board),
            tag: text::text_of(self.tag),
        }
    }

    fn read(&mut self, atom: &str) -> (r: Result<(), Error>)
        ensures
            match read_atom(old(self).shows(), atom@) {
                Err(m) => text::refused(r, m),
                Ok(st) => r is Ok && final(self).shows() == st,
            },
    {
        if text::same(atom, "registry") {
            self.registry = true;
            return Ok(());
        }
        if text::same(atom, "*") {
            self.wildcard = true;
            return Ok(());
        }
        if let Some(id) = text::strip_prefix(atom, "board:") {
            if id.is_empty() {
                return text::refuse("empty board scope".to_owned());
            }
            if self.board.is_some() {
                return text::refuse("two board atoms".to_owned());
            }
            self.board = Some(id.to_owned());
            return Ok(());
        }
        if let Some(slug) = text::strip_prefix(atom, "tag:") {
            if slug.is_empty() {
                return text::refuse("empty tag scope".to_owned());
            }
            if text::same(slug, "*") {
                return text::refuse("* is not a tag".to_owned());
            }
            if self.tag.is_some() {
                return text::refuse("two tag atoms".to_owned());
            }
            self.tag = Some(slug.to_owned());
            return Ok(());
        }
        text::refuse("unknown scope atom ".to_owned().concat(atom))
    }
}

fn read_all(atoms: &[String]) -> (r: Result<AtomsRead, Error>)
    ensures
        match read_atoms(text::texts(atoms@)) {
            Err(m) => text::refused(r, m),
            Ok(st) => r is Ok && r->Ok_0.shows() == st,
        },
{
    let ghost all = text::texts(atoms@);
    let mut st = AtomsRead { registry: false, wildcard: false, board: None, tag: None };
    let mut seen: Vec<String> = Vec::new();
    let mut i: usize = 0;
    proof {
        assert(all.take(0) =~= Seq::<Seq<char>>::empty());
        assert(text::texts(seen@) =~= all.take(0));
    }
    while i < atoms.len()
        invariant
            i <= atoms@.len(),
            all == text::texts(atoms@),
            text::texts(seen@) == all.take(i as int),
            read_atoms(all.take(i as int)) == Ok::<Atoms, Seq<char>>(st.shows()),
        decreases atoms.len() - i,
    {
        proof {
            assert(all.take(i as int + 1).drop_last() =~= all.take(i as int));
            assert(all.take(i as int + 1).last() == atoms@[i as int]@);
            lemma_atoms_stay(all, i as int + 1);
        }
        if text::holds(seen.as_slice(), atoms[i].as_str()) {
            return text::refuse(
                "duplicate scope atom ".to_owned().concat(atoms[i].as_str()),
            );
        }
        match st.read(atoms[i].as_str()) {
            Ok(_) => {},
            Err(e) => {
                return Err(e);
            },
        }
        seen.push(atoms[i].clone());
        proof {
            assert(text::texts(seen@) =~= all.take(i as int + 1));
        }
        i = i + 1;
    }
    proof {
        assert(all.take(all.len() as int) =~= all);
    }
    Ok(st)
}

impl ScopeTuple {
    /// The atoms of the scope, in their order.
    pub fn to_atoms(&self) -> (r: Vec<String>)
        ensures
            text::texts(r@) == atoms_of(self@),
    {
        let out: Vec<String> = match self {
            ScopeTuple::Registry => vec!["registry".to_owned()],
            ScopeTuple::Board { board_id } => vec!["board:".to_owned().concat(board_id.as_str())],
            ScopeTuple::BoardTag { board_id, tag } => vec![
                "board:".to_owned().concat(board_id.as_str()),
                "tag:".to_owned().concat(tag.as_str()),
            ],
            ScopeTuple::BoardWildcard { board_id } => vec![
                "board:".to_owned().concat(board_id.as_str()),
                "*".to_owned(),
            ],
        };
        proof {
            assert(text::texts(out@) =~= atoms_of(self@));
        }
        out
    }

    /// The one scope that the atoms form.
    pub fn from_atoms(atoms: &[String]) -> (r: Result<Self, Error>)
        ensures
            match scope_of(text::texts(atoms@)) {
                Err(m) => text::refused(r, m),
                Ok(scope) => r is Ok && r->Ok_0@ == scope,
            },
    {
        let st = match read_all(atoms) {
            Ok(st) => st,
            Err(e) => {
                return Err(e);
            },
        };
        match (st.registry, st.board, st.tag, st.wildcard) {
            (true, None, None, false) => Ok(ScopeTuple::Registry),
            (false, Some(board_id), None, false) => Ok(ScopeTuple::Board { board_id }),
            (false, Some(board_id), Some(tag), false) => Ok(
                ScopeTuple::BoardTag { board_id, tag },
            ),
            (false, Some(board_id), None, true) => Ok(ScopeTuple::BoardWildcard { board_id }),
            _ => text::refuse("scope atoms do not form exactly one valid tuple".to_owned()),
        }
    }

    /// Whether two scopes are one.
    pub fn same(&self, other: &ScopeTuple) -> (r: bool)
        ensures
            r == (self@ == other@),
    {
        match (self, other) {
            (ScopeTuple::Registry, ScopeTuple::Registry) => true,
            (ScopeTuple::Board { board_id: a }, ScopeTuple::Board { board_id: b }) => text::same(
                a.as_str(),
                b.as_str(),
            ),
            (
                ScopeTuple::BoardTag { board_id: a, tag: s },
                ScopeTuple::BoardTag { board_id: b, tag: t },
            ) => text::same(a.as_str(), b.as_str()) && text::same(s.as_str(), t.as_str()),
            (
                ScopeTuple::BoardWildcard { board_id: a },
                ScopeTuple::BoardWildcard { board_id: b },
            ) => text::same(a.as_str(), b.as_str()),
            _ => false,
        }
    }

    /// A copy of the scope.
    pub fn copy(&self) -> (r: ScopeTuple)
        ensures
            r@ == self@,
    {
        match self {
            ScopeTuple::Registry => ScopeTuple::Registry,
            ScopeTuple::Board { board_id } => ScopeTuple::Board { board_id: board_id.clone() },
            ScopeTuple::BoardTag { board_id, tag } => ScopeTuple::BoardTag {
                board_id: board_id.clone(),
                tag: tag.clone(),
            },
            ScopeTuple::BoardWildcard { board_id } => ScopeTuple::BoardWildcard {
                board_id: board_id.clone(),
            },
        }
    }
}

/// A scope names its board and its tag; a star is no tag.
pub open spec fn is_named(scope: ScopeView) -> bool {
    match scope {
        ScopeView::Registry => true,
        ScopeView::Board(board) => board.len() > 0,
        ScopeView::BoardTag(board, tag) => board.len() > 0 && tag.len() > 0 && tag != "*"@,
        ScopeView::BoardWildcard(board) => board.len() > 0,
    }
}

proof fn lemma_atom_shapes(name: Seq<char>)
    ensures
        text::stripped_prefix("board:"@ + name, "board:"@) == Some(name),
        text::stripped_prefix("tag:"@ + name, "board:"@) is None,
        text::stripped_prefix("tag:"@ + name, "tag:"@) == Some(name),
        "board:"@ + name != "registry"@,
        "board:"@ + name != "*"@,
        "tag:"@ + name != "registry"@,
        "tag:"@ + name != "*"@,
        "registry"@ != "*"@,
{
    reveal_strlit("board:");
    reveal_strlit("tag:");
    reveal_strlit("registry");
    reveal_strlit("*");
    let b = "board:"@ + name;
    let t = "tag:"@ + name;
    assert(b[0] == 'b' && t[0] == 't' && "registry"@[0] == 'r' && "*"@[0] == '*');
    assert("board:"@.is_prefix_of(b)) by {
        assert(b.subrange(0, 6) =~= "board:"@);
    }
    assert("tag:"@.is_prefix_of(t)) by {
        assert(t.subrange(0, 4) =~= "tag:"@);
    }
    assert(b.skip(6) =~= name);
    assert(t.skip(4) =~= name);
    assert(!"board:"@.is_prefix_of(t)) by {
        assert("board:"@[0] == 'b');
        if "board:"@.is_prefix_of(t) {
            assert(t.subrange(0, 6)[0] == t[0]);
        }
    }
}

/// The atoms that were read, in no order.
spec fn bag(st: Atoms) -> Multiset<Seq<char>> {
    one_if(st.registry, "registry"@).add(one_if(st.wildcard, "*"@)).add(
        match st.board {
            Some(board) => Multiset::singleton("board:"@ + board),
            None => Multiset::empty(),
        },
    ).add(
        match st.tag {
            Some(tag) => Multiset::singleton("tag:"@ + tag),
            None => Multiset::empty(),
        },
    )
}

spec fn one_if(there: bool, atom: Seq<char>) -> Multiset<Seq<char>> {
    if there {
        Multiset::singleton(atom)
    } else {
        Multiset::empty()
    }
}

proof fn lemma_stripped(atom: Seq<char>, prefix: Seq<char>)
    ensures
        text::stripped_prefix(atom, prefix) matches Some(rest) ==> atom == prefix + rest,
{
    if text::stripped_prefix(atom, prefix) is Some {
        assert(atom =~= prefix + text::stripped_prefix(atom, prefix)->0);
    }
}

proof fn lemma_read_atoms(atoms: Seq<Seq<char>>)
    ensures
        read_atoms(atoms) matches Ok(st) ==> {
            &&& atoms.to_multiset() == bag(st)
            &&& st.board matches Some(board) ==> board.len() > 0
            &&& st.tag matches Some(tag) ==> tag.len() > 0 && tag != "*"@
        },
    decreases atoms.len(),
{
    atoms.to_multiset_ensures();
    if atoms.len() == 0 {
        assert(atoms.to_multiset() =~= bag(
            Atoms { registry: false, wildcard: false, board: None, tag: None },
        ));
    } else if read_atoms(atoms) is Ok {
        let rest = atoms.drop_last();
        let atom = atoms.last();
        let before = read_atoms(rest)->Ok_0;
        let st = read_atoms(atoms)->Ok_0;
        lemma_read_atoms(rest);
        rest.to_multiset_ensures();
        assert(atoms =~= rest.push(atom));
        assert(atoms.to_multiset() =~= rest.to_multiset().insert(atom));
        assert(!rest.contains(atom));
        assert(rest.to_multiset().count(atom) == 0);
        lemma_stripped(atom, "board:"@);
        lemma_stripped(atom, "tag:"@);
        if atom == "registry"@ {
            assert(bag(before).count(atom) >= one_if(before.registry, atom).count(atom));
        } else if atom == "*"@ {
            assert(bag(before).count(atom) >= one_if(before.wildcard, atom).count(atom));
        }
        assert(bag(st) =~= bag(before).insert(atom));
    }
}

/// Reading atoms drops none, invents none and repeats none: the atoms of the scope that
/// they form are the same ones, in their one order. The scope names its board and its
/// tag, so that none is read for a star as a tag.
pub proof fn law_read_scope_has_the_atoms(atoms: Seq<Seq<char>>)
    requires
        scope_of(atoms) is Ok,
    ensures
        atoms_of(scope_of(atoms)->Ok_0).to_multiset() == atoms.to_multiset(),
        is_named(scope_of(atoms)->Ok_0),
{
    lemma_read_atoms(atoms);
    let st = read_atoms(atoms)->Ok_0;
    let scope = scope_of(atoms)->Ok_0;
    let list = atoms_of(scope);
    list.to_multiset_ensures();
    let none = Seq::<Seq<char>>::empty();
    none.to_multiset_ensures();
    if list.len() == 1 {
        assert(list =~= none.push(list[0]));
    } else {
        assert(list =~= none.push(list[0]).push(list[1]));
        none.push(list[0]).to_multiset_ensures();
    }
    assert(list.to_multiset() =~= bag(st));
}

/// A scope is what its atoms form.
pub proof fn law_atoms_form_the_scope(scope: ScopeView)
    requires
        is_named(scope),
    ensures
        scope_of(atoms_of(scope)) == Ok::<ScopeView, Seq<char>>(scope),
{
    let atoms = atoms_of(scope);
    let none = Atoms { registry: false, wildcard: false, board: None, tag: None };
    assert(read_atoms(seq![]) == Ok::<Atoms, Seq<char>>(none));
    lemma_atom_shapes(seq![]);
    match scope {
        ScopeView::Registry => {
            assert(atoms.drop_last() =~= seq![]);
        },
        ScopeView::Board(board) => {
            lemma_atom_shapes(board);
            assert(atoms.drop_last() =~= seq![]);
        },
        ScopeView::BoardTag(board, tag) => {
            lemma_atom_shapes(board);
            lemma_atom_shapes(tag);
            lemma_two_atoms(board, "tag:"@ + tag);
        },
        ScopeView::BoardWildcard(board) => {
            lemma_atom_shapes(board);
            lemma_two_atoms(board, "*"@);
        },
    }
}

/// A scope is read from its atoms only where it names its board and its tag.
pub proof fn law_only_named_scopes_are_read(scope: ScopeView)
    ensures
        scope_of(atoms_of(scope)) is Ok <==> is_named(scope),
{
    if is_named(scope) {
        law_atoms_form_the_scope(scope);
    } else {
        let atoms = atoms_of(scope);
        let none = Atoms { registry: false, wildcard: false, board: None, tag: None };
        assert(read_atoms(seq![]) == Ok::<Atoms, Seq<char>>(none));
        let board = match scope {
            ScopeView::Registry => seq![],
            ScopeView::Board(board) => board,
            ScopeView::BoardTag(board, _) => board,
            ScopeView::BoardWildcard(board) => board,
        };
        lemma_atom_shapes(board);
        if board.len() == 0 {
            let first = atoms.take(1);
            assert(first.drop_last() =~= seq![]);
            assert(first.last() == "board:"@ + board);
            assert(!first.drop_last().contains(first.last()));
            assert(read_atoms(first) is Err);
            lemma_atoms_stay(atoms, 1);
        } else if let ScopeView::BoardTag(_, tag) = scope {
            lemma_atom_shapes(tag);
            lemma_two_atoms(board, "tag:"@ + tag);
        }
    }
}

proof fn lemma_two_atoms(board: Seq<char>, second: Seq<char>)
    requires
        board.len() > 0,
        text::stripped_prefix("board:"@ + board, "board:"@) == Some(board),
        "board:"@ + board != "registry"@,
        "board:"@ + board != "*"@,
        second != "board:"@ + board,
    ensures
        read_atoms(seq!["board:"@ + board, second]) == read_atom(
            Atoms { registry: false, wildcard: false, board: Some(board), tag: None },
            second,
        ),
{
    let first = seq!["board:"@ + board];
    let both = seq!["board:"@ + board, second];
    assert(first.drop_last() =~= seq![]);
    assert(both.drop_last() =~= first);
    assert(!first.contains(second)) by {
        assert(first[0] == "board:"@ + board);
    }
    assert(read_atoms(first.drop_last()) == Ok::<Atoms, Seq<char>>(
        Atoms { registry: false, wildcard: false, board: None, tag: None },
    ));
    assert(!first.drop_last().contains(first.last()));
    assert(first.last() == "board:"@ + board);
    assert(read_atoms(first) == Ok::<Atoms, Seq<char>>(
        Atoms { registry: false, wildcard: false, board: Some(board), tag: None },
    ));
    assert(both.last() == second);
}

// ------------------------------------------------------------------------- authority

/// The higher of two levels, where there is one.
pub open spec fn higher(a: Option<Capability>, b: Option<Capability>) -> Option<Capability> {
    match (a, b) {
        (None, _) => b,
        (_, None) => a,
        (Some(x), Some(y)) => if rank(y) > rank(x) {
            b
        } else {
            a
        },
    }
}

/// The highest level held on a scope.
pub open spec fn level(pairs: Seq<(ScopeView, Capability)>, scope: ScopeView) -> Option<Capability>
    decreases pairs.len(),
{
    if pairs.len() == 0 {
        None
    } else {
        higher(
            level(pairs.drop_last(), scope),
            if pairs.last().0 == scope {
                Some(pairs.last().1)
            } else {
                None
            },
        )
    }
}

/// What is held on some scopes.
#[derive(Debug, Clone, PartialEq, Eq)]
pub struct AuthorityEntry {
    pub scope: ScopeTuple,
    pub capability: Capability,
}

pub open spec fn pairs_of(s: Seq<AuthorityEntry>) -> Seq<(ScopeView, Capability)> {
    s.map_values(|e: AuthorityEntry| (e.scope@, e.capability))
}

/// The level held on each scope, where one is held.
#[derive(Debug, Clone, PartialEq, Eq)]
pub struct Authority {
    pub entries: Vec<AuthorityEntry>,
}

impl Authority {
    /// The level held on a scope.
    pub open spec fn held(self, scope: ScopeView) -> Option<Capability> {
        level(pairs_of(self.entries@), scope)
    }

    /// Every scope has one entry at most.
    pub open spec fn wf(self) -> bool {
        forall|i: int, j: int|
            0 <= i < j < self.entries@.len() ==> (#[trigger] self.entries@[i]).scope@ != (
            #[trigger] self.entries@[j]).scope@
    }

    fn find(&self, scope: &ScopeTuple) -> (r: usize)
        ensures
            r <= self.entries@.len(),
            r < self.entries@.len() ==> self.entries@[r as int].scope@ == scope@,
            forall|k: int| 0 <= k < r ==> (#[trigger] self.entries@[k]).scope@ != scope@,
    {
        let mut i: usize = 0;
        while i < self.entries.len()
            invariant
                i <= self.entries@.len(),
                forall|k: int| 0 <= k < i ==> (#[trigger] self.entries@[k]).scope@ != scope@,
            decreases self.entries.len() - i,
        {
            if self.entries[i].scope.same(scope) {
                return i;
            }
            i = i + 1;
        }
        i
    }

    /// The level held on a scope.
    pub fn get(&self, scope: &ScopeTuple) -> (r: Option<Capability>)
        ensures
            r == self.held(scope@),
    {
        let ghost pairs = pairs_of(self.entries@);
        let mut best: Option<Capability> = None;
        let mut i: usize = 0;
        proof {
            assert(pairs.take(0) =~= seq![]);
        }
        while i < self.entries.len()
            invariant
                i <= self.entries@.len(),
                pairs == pairs_of(self.entries@),
                best == level(pairs.take(i as int), scope@),
            decreases self.entries.len() - i,
        {
            proof {
                assert(pairs.take(i as int + 1).drop_last() =~= pairs.take(i as int));
                assert(pairs.take(i as int + 1).last() == pairs[i as int]);
            }
            if self.entries[i].scope.same(scope) {
                let c = self.entries[i].capability;
                best = match best {
                    None => Some(c),
                    Some(known) => if known.at_least(c) {
                        Some(known)
                    } else {
                        Some(c)
                    },
                };
            }
            i = i + 1;
        }
        proof {
            assert(pairs.take(pairs.len() as int) =~= pairs);
        }
        best
    }
}

/// One more pair raises the level of its own scope and of no other.
proof fn lemma_level_push(pairs: Seq<(ScopeView, Capability)>, p: (ScopeView, Capability))
    ensures
        forall|scope: ScopeView| #[trigger]
            level(pairs.push(p), scope) == higher(
                level(pairs, scope),
                if p.0 == scope {
                    Some(p.1)
                } else {
                    None
                },
            ),
{
    assert(pairs.push(p).drop_last() =~= pairs);
}

/// A scope without a pair has no level; one with a single pair has its level.
proof fn lemma_level_single(pairs: Seq<(ScopeView, Capability)>, scope: ScopeView, n: int)
    requires
        0 <= n <= pairs.len(),
        forall|k: int| 0 <= k < pairs.len() && k != n ==> (#[trigger] pairs[k]).0 != scope,
        n < pairs.len() ==> pairs[n].0 == scope,
    ensures
        level(pairs, scope) == if n < pairs.len() {
            Some(pairs[n].1)
        } else {
            None
        },
    decreases pairs.len(),
{
    if pairs.len() > 0 {
        let rest = pairs.drop_last();
        assert forall|k: int| 0 <= k < rest.len() && k != n implies (#[trigger] rest[k]).0
            != scope by {
            assert(rest[k] == pairs[k]);
        }
        if n < rest.len() {
            assert(rest[n] == pairs[n]);
            lemma_level_single(rest, scope, n);
        } else {
            lemma_level_single(rest, scope, rest.len() as int);
        }
    }
}

/// Replacing the one pair of a scope changes the level of that scope alone.
proof fn lemma_level_update(
    pairs: Seq<(ScopeView, Capability)>,
    n: int,
    c: Capability,
    scope: ScopeView,
)
    requires
        0 <= n < pairs.len(),
        scope != pairs[n].0,
    ensures
        level(pairs.update(n, (pairs[n].0, c)), scope) == level(pairs, scope),
    decreases pairs.len(),
{
    let changed = pairs.update(n, (pairs[n].0, c));
    if n == pairs.len() - 1 {
        assert(changed.drop_last() =~= pairs.drop_last());
    } else {
        assert(changed.drop_last() =~= pairs.drop_last().update(n, (pairs[n].0, c)));
        lemma_level_update(pairs.drop_last(), n, c, scope);
    }
}

impl Authority {
    /// Take one more grant into account.
    fn raise(&mut self, scope: ScopeTuple, capability: Capability)
        requires
            old(self).wf(),
        ensures
            final(self).wf(),
            forall|s: ScopeView| #[trigger]
                final(self).held(s) == higher(
                    old(self).held(s),
                    if scope@ == s {
                        Some(capability)
                    } else {
                        None
                    },
                ),
    {
        let ghost before = pairs_of(self.entries@);
        let ghost old_entries = self.entries@;
        let i: usize = self.find(&scope);
        proof {
            assert forall|k: int| 0 <= k < before.len() && k != i implies (
            #[trigger] before[k]).0 != scope@ by {
                if k > i {
                    assert(old_entries[i as int].scope@ != old_entries[k].scope@);
                } else {
                    assert(old_entries[k].scope@ != scope@);
                }
            }
            lemma_level_single(before, scope@, i as int);
        }
        if i < self.entries.len() {
            let known = self.entries[i].capability;
            if !known.at_least(capability) {
                self.entries.set(i, AuthorityEntry { scope, capability });
                proof {
                    let after = pairs_of(self.entries@);
                    assert(after =~= before.update(i as int, (before[i as int].0, capability)));
                    assert forall|s: ScopeView| #[trigger] level(after, s) == higher(
                        level(before, s),
                        if scope@ == s {
                            Some(capability)
                        } else {
                            None
                        },
                    ) by {
                        if s == scope@ {
                            assert forall|k: int| 0 <= k < after.len() && k != i implies (
                            #[trigger] after[k]).0 != s by {
                                assert(before[k].0 != s);
                            }
                            lemma_level_single(after, s, i as int);
                        } else {
                            lemma_level_update(before, i as int, capability, s);
                        }
                    }
                    assert forall|a: int, b: int| 0 <= a < b < self.entries@.len() implies (
                    #[trigger] self.entries@[a]).scope@ != (#[trigger] self.entries@[b]).scope@ by {
                        assert(old_entries[a].scope@ != old_entries[b].scope@);
                    }
                }
            }
        } else {
            self.entries.push(AuthorityEntry { scope, capability });
            proof {
                assert(pairs_of(self.entries@) =~= before.push((scope@, capability)));
                lemma_level_push(before, (scope@, capability));
            }
        }
    }
}

/// What is held, from each grant: on every scope the highest level granted.
pub fn authority(grants: Vec<AuthorityEntry>) -> (r: Authority)
    ensures
        r.wf(),
        forall|scope: ScopeView| #[trigger] r.held(scope) == level(pairs_of(grants@), scope),
{
    let ghost pairs = pairs_of(grants@);
    let mut out = Authority { entries: Vec::new() };
    let mut i: usize = 0;
    proof {
        assert(pairs.take(0) =~= seq![]);
        assert(pairs_of(out.entries@) =~= seq![]);
    }
    while i < grants.len()
        invariant
            i <= grants@.len(),
            pairs == pairs_of(grants@),
            out.wf(),
            forall|scope: ScopeView| #[trigger]
                out.held(scope) == level(pairs.take(i as int), scope),
        decreases grants.len() - i,
    {
        proof {
            assert(pairs.take(i as int + 1) =~= pairs.take(i as int).push(pairs[i as int]));
            lemma_level_push(pairs.take(i as int), pairs[i as int]);
        }
        out.raise(grants[i].scope.copy(), grants[i].capability);
        i = i + 1;
    }
    proof {
        assert(pairs.take(pairs.len() as int) =~= pairs);
    }
    out
}

pub open spec fn reaches(held: Option<Capability>, required: Capability) -> bool {
    held is Some && rank(held->0) >= rank(required)
}

/// What is held satisfies what is required on a scope: by that scope itself or,
/// for a tag, by the wildcard of its board.
pub open spec fn satisfied(
    pairs: Seq<(ScopeView, Capability)>,
    scope: ScopeView,
    required: Capability,
) -> bool {
    ||| reaches(level(pairs, scope), required)
    ||| scope is BoardTag && reaches(
        level(pairs, ScopeView::BoardWildcard(scope->BoardTag_0)),
        required,
    )
}

/// Whether what is held satisfies what is required.
pub fn satisfies(authority: &Authority, tuple: &ScopeTuple, required: Capability) -> (r: bool)
    ensures
        r == satisfied(pairs_of(authority.entries@), tuple@, required),
{
    if let Some(c) = authority.get(tuple) {
        if c.at_least(required) {
            return true;
        }
    }
    match tuple {
        ScopeTuple::BoardTag { board_id, .. } => {
            let wildcard = ScopeTuple::BoardWildcard { board_id: board_id.clone() };
            match authority.get(&wildcard) {
                Some(c) => c.at_least(required),
                None => false,
            }
        },
        _ => false,
    }
}

// ------------------------------------------------------------------------------ laws

/// Without a grant nothing is satisfied.
pub proof fn law_nothing_held_satisfies_nothing(scope: ScopeView, required: Capability)
    ensures
        !satisfied(seq![], scope, required),
{
}

/// What satisfies a level satisfies every lower one.
pub proof fn law_lower_levels_are_satisfied_too(
    pairs: Seq<(ScopeView, Capability)>,
    scope: ScopeView,
    a: Capability,
    b: Capability,
)
    requires
        satisfied(pairs, scope, a),
        rank(b) <= rank(a),
    ensures
        satisfied(pairs, scope, b),
{
}

proof fn lemma_level_reached(pairs: Seq<(ScopeView, Capability)>, scope: ScopeView, c: Capability)
    ensures
        reaches(level(pairs, scope), c) <==> exists|i: int|
            0 <= i < pairs.len() && (#[trigger] pairs[i]).0 == scope && rank(pairs[i].1) >= rank(c),
    decreases pairs.len(),
{
    if pairs.len() > 0 {
        let rest = pairs.drop_last();
        lemma_level_reached(rest, scope, c);
        if exists|i: int|
            0 <= i < rest.len() && (#[trigger] rest[i]).0 == scope && rank(rest[i].1) >= rank(c) {
            let i = choose|i: int|
                0 <= i < rest.len() && (#[trigger] rest[i]).0 == scope && rank(rest[i].1)
                    >= rank(c);
            assert(pairs[i] == rest[i]);
        }
        if exists|i: int|
            0 <= i < pairs.len() && (#[trigger] pairs[i]).0 == scope && rank(pairs[i].1) >= rank(
                c,
            ) {
            let i = choose|i: int|
                0 <= i < pairs.len() && (#[trigger] pairs[i]).0 == scope && rank(pairs[i].1)
                    >= rank(c);
            if i < rest.len() {
                assert(rest[i] == pairs[i]);
            }
        }
        if pairs.last().0 == scope && rank(pairs.last().1) >= rank(c) {
            assert(pairs[pairs.len() - 1] == pairs.last());
        }
    }
}

/// A requirement is satisfied exactly where some single grant satisfies it: one on
/// the very scope, or, for a tag, one on the wildcard of its board, of that level
/// or a higher one. No other scope satisfies anything.
pub proof fn law_scopes_are_incomparable(
    pairs: Seq<(ScopeView, Capability)>,
    scope: ScopeView,
    required: Capability,
)
    ensures
        satisfied(pairs, scope, required) <==> exists|i: int|
            0 <= i < pairs.len() && rank((#[trigger] pairs[i]).1) >= rank(required) && (
            pairs[i].0 == scope || (scope is BoardTag && pairs[i].0 == ScopeView::BoardWildcard(
                scope->BoardTag_0,
            ))),
{
    lemma_level_reached(pairs, scope, required);
    if scope is BoardTag {
        lemma_level_reached(pairs, ScopeView::BoardWildcard(scope->BoardTag_0), required);
    }
}

} // verus!
