//! A selector that names a board names just one active board.

use vstd::prelude::*;

use crate::listing;
use crate::place_laws;
use crate::retirement;
use crate::rule_history;
use crate::rule_history::Change;
use crate::rule_laws;
use crate::rulebook;
use crate::rules;
use crate::rules::Rule;
use crate::selectors;
use crate::selectors::Fault;
use crate::selectors::Scope;
use crate::tables;
use crate::tables::BoardRow;
use crate::tables::Registry;
use crate::text;
use crate::text::Error;
use crate::workspace::ProjectRecord;

verus! {

/// The tag selects a board by its name.
pub open spec fn selects_by_name(tag: Seq<char>, name: Seq<char>) -> bool {
    tag == "ONLY:"@ + name || tag == "EXCEPT:"@ + name
}

/// The active boards of a name, but for one.
pub open spec fn is_active_namesake(
    name: Seq<char>,
    but: Option<Seq<char>>,
) -> spec_fn(BoardRow) -> bool {
    |b: BoardRow| b.name@ == name && !b.archived && but != Some(b.board_path@)
}

pub open spec fn count_active(
    boards: Seq<BoardRow>,
    name: Seq<char>,
    but: Option<Seq<char>>,
) -> nat {
    boards.filter(is_active_namesake(name, but)).len()
}

proof fn lemma_count(boards: Seq<BoardRow>, name: Seq<char>, but: Option<Seq<char>>)
    requires
        boards.len() <= i64::MAX,
    ensures
        selectors::active_count(boards, name, but) == count_active(boards, name, but),
{
    let p = selectors::counted(name, but);
    let q = is_active_namesake(name, but);
    assert(p =~= q);
    listing::lemma_kept_is_filter(boards, p);
    boards.lemma_filter_len(q);
}

pub(crate) proof fn lemma_selector(tag: Seq<char>, name: Seq<char>)
    ensures
        rules::selector_board(tag) == Some(name) <==> selects_by_name(tag, name),
{
    rule_laws::lemma_prefixed(tag, "ONLY:"@, name);
    rule_laws::lemma_prefixed(tag, "EXCEPT:"@, name);
    if text::stripped_prefix(tag, "ONLY:"@) is Some && tag == "EXCEPT:"@ + name {
        reveal_strlit("ONLY:");
        reveal_strlit("EXCEPT:");
        assert(tag[0] == 'E');
        assert("ONLY:"@.is_prefix_of(tag));
        assert("ONLY:"@[0] == tag[0]);
    }
}

/// Each tag that selects a board by its name names just one active board.
pub open spec fn each_names_one(tags: Seq<Seq<char>>, boards: Seq<BoardRow>) -> bool {
    forall|j: int, name: Seq<char>|
        0 <= j < tags.len() && #[trigger] selects_by_name(tags[j], name) ==> count_active(
            boards,
            name,
            None,
        ) == 1
}

/// Tags are refused if and only if one of them names a board of which there is not just one
/// active.
pub proof fn law_selectors_name_one_board(
    rule_id: Seq<char>,
    tags: Seq<Seq<char>>,
    boards: Seq<BoardRow>,
)
    requires
        boards.len() <= i64::MAX,
    ensures
        selectors::selectors_refusal(rule_id, tags, boards) is None <==> each_names_one(
            tags,
            boards,
        ),
{
    let scope = Scope { only: None, excluded: None };
    let none = Seq::<Fault>::empty();
    let faults = selectors::tags_at_fault(rule_id, tags, boards);
    selectors::lemma_with_tag_faults(none, rule_id, tags, boards, scope);
    if faults.len() == 0 {
        assert forall|j: int, name: Seq<char>|
            0 <= j < tags.len() && #[trigger] selects_by_name(
                tags[j],
                name,
            ) implies count_active(boards, name, None) == 1 by {
            lemma_selector(tags[j], name);
            lemma_count(boards, name, None);
            if count_active(boards, name, None) != 1 {
                let y = selectors::tag_fault(rule_id, tags[j], boards, scope)->0;
                assert(selectors::tag_fault(rule_id, tags[j], boards, scope) == Some(y));
                assert(faults.contains(y));
            }
        }
    } else {
        let y = faults[0];
        assert(faults.contains(y));
        let j = choose|j: int|
            0 <= j < tags.len() && selectors::tag_fault(
                rule_id,
                #[trigger] tags[j],
                boards,
                scope,
            ) == Some(y);
        let name = rules::selector_board(tags[j])->0;
        lemma_selector(tags[j], name);
        lemma_count(boards, name, None);
        assert(selects_by_name(tags[j], name));
    }
}

/// The rulebook is healthy if and only if every selector of an active rule that names a board
/// names just one active board.
pub proof fn law_healthy_rules_name_one_board(all: Seq<Rule>, boards: Seq<BoardRow>)
    requires
        boards.len() <= i64::MAX,
    ensures
        selectors::rule_faults(all, boards, Scope { only: None, excluded: None }).len() == 0
            <==> forall|i: int|
            0 <= i < all.len() && !(#[trigger] all[i]).archived ==> each_names_one(
                text::texts(all[i].tags@),
                boards,
            ),
{
    let scope = Scope { only: None, excluded: None };
    let faults = selectors::rule_faults(all, boards, scope);
    selectors::law_rule_faults(all, boards, scope);
    if faults.len() == 0 {
        assert forall|i: int| 0 <= i < all.len() && !(
        #[trigger] all[i]).archived implies each_names_one(text::texts(all[i].tags@), boards) by {
            let tags = text::texts(all[i].tags@);
            assert forall|j: int, name: Seq<char>|
                0 <= j < tags.len() && #[trigger] selects_by_name(
                    tags[j],
                    name,
                ) implies count_active(boards, name, None) == 1 by {
                lemma_selector(tags[j], name);
                lemma_count(boards, name, None);
                if count_active(boards, name, None) != 1 {
                    let y = selectors::tag_fault(all[i].id@, tags[j], boards, scope)->0;
                    assert(selectors::at_fault(all, boards, scope, y, i, j));
                    assert(faults.contains(y));
                }
            }
        }
    } else {
        let y = faults[0];
        assert(faults.contains(y));
        let (i, j) = choose|i: int, j: int| selectors::at_fault(all, boards, scope, y, i, j);
        let tags = text::texts(all[i].tags@);
        assert(tags[j] == all[i].tags@[j]@);
        let name = rules::selector_board(tags[j])->0;
        lemma_selector(tags[j], name);
        lemma_count(boards, name, None);
        assert(selects_by_name(tags[j], name));
        assert(!each_names_one(tags, boards));
    }
}

/// A rule is added only where each of its selectors that names a board names just one active
/// board.
pub proof fn law_added_rules_name_one_board(
    pre: Registry,
    post: Registry,
    r: Result<Rule, Error>,
    body: Seq<char>,
    actor: Seq<char>,
    tags: Seq<Seq<char>>,
    id: Seq<char>,
    now: i64,
)
    requires
        pre.boards@.len() <= i64::MAX,
        rulebook::rule_added(pre, post, r, body, actor, tags, id, now),
        r is Ok,
    ensures
        each_names_one(tags, post.boards@),
{
    law_selectors_name_one_board(id, tags, pre.boards@);
}

/// A rule that is active is changed only so that each of its selectors that names a board
/// names just one active board.
pub proof fn law_updated_rules_name_one_board(
    pre: Registry,
    post: Registry,
    r: Result<Rule, Error>,
    id: Seq<char>,
    change: Change,
    actor: Seq<char>,
    now: i64,
)
    requires
        pre.boards@.len() <= i64::MAX,
        rule_history::rule_updated(pre, post, r, id, change, actor, now),
        r is Ok,
        !r->Ok_0.archived,
    ensures
        each_names_one(text::texts(r->Ok_0.tags@), post.boards@),
{
    let i = tables::first_index(pre.rules@, rulebook::rule_at(id));
    law_selectors_name_one_board(id, text::texts(r->Ok_0.tags@), pre.boards@);
    assert(r->Ok_0@.archived == pre.rules@[i]@.archived);
}

/// A board is retired only where no active rule names it.
pub proof fn law_named_boards_are_not_retired(
    pre: Registry,
    post: Registry,
    r: Result<ProjectRecord, Error>,
    name: Seq<char>,
    actor: Seq<char>,
    note: Seq<char>,
    retirement_id: Seq<char>,
    now: i64,
)
    requires
        pre.wf(),
        pre.boards@.len() <= i64::MAX,
        retirement::retired(pre, post, r, name, actor, note, retirement_id, now),
        r is Ok,
    ensures
        forall|i: int, j: int|
            #![trigger pre.rules@[i].tags@[j]]
            0 <= i < pre.rules@.len() && !pre.rules@[i].archived && 0 <= j
                < pre.rules@[i].tags@.len() ==> !selects_by_name(pre.rules@[i].tags@[j]@, name),
{
    let k = place_laws::law_retired_board_gives_up_its_roots(
        pre,
        post,
        r,
        name,
        actor,
        note,
        retirement_id,
        now,
    );
    let active = pre.named_boards(name, false);
    let path = active[0].board_path@;
    let scope = Scope { only: Some(active[0].name@), excluded: Some(path) };
    let faults = selectors::rule_faults(pre.rules@, pre.boards@, scope);
    let named = tables::kept(pre.boards@, tables::board_named(name, false));
    assert(active.contains(active[0]));
    listing::lemma_ranked_contains(named, active[0]);
    listing::lemma_kept_contains(pre.boards@, tables::board_named(name, false), active[0]);
    assert(active[0].name@ == name);
    selectors::law_rule_faults(pre.rules@, pre.boards@, scope);
    let q = selectors::counted(name, Some(path));
    assert(tables::kept(pre.boards@, q).len() == 0) by {
        if tables::kept(pre.boards@, q).len() > 0 {
            let b = tables::kept(pre.boards@, q)[0];
            assert(tables::kept(pre.boards@, q).contains(b));
            listing::lemma_kept_contains(pre.boards@, q, b);
            let m = choose|m: int| 0 <= m < pre.boards@.len() && pre.boards@[m] == b;
            assert(m == k);
            let a = choose|a: int| 0 <= a < pre.boards@.len() && pre.boards@[a] == active[0];
            assert(a == k);
        }
    }
    assert forall|i: int, j: int|
        #![trigger pre.rules@[i].tags@[j]]
        0 <= i < pre.rules@.len() && !pre.rules@[i].archived && 0 <= j
            < pre.rules@[i].tags@.len() implies !selects_by_name(
        pre.rules@[i].tags@[j]@,
        name,
    ) by {
        let tag = pre.rules@[i].tags@[j]@;
        if selects_by_name(tag, name) {
            lemma_selector(tag, name);
            let y = selectors::tag_fault(pre.rules@[i].id@, tag, pre.boards@, scope)->0;
            assert(selectors::at_fault(pre.rules@, pre.boards@, scope, y, i, j));
            assert(faults.contains(y));
        }
    }
}

} // verus!
