//! Which rules apply where, over all tags, boards and tasks.

use vstd::prelude::*;

use crate::listing;
use crate::ranking;
use crate::rulebook;
use crate::rules;
use crate::rules::Rule;
use crate::tables;
use crate::tables::Registry;
use crate::text;

verus! {

/// The tag names a part of a board's work: it neither is `ALL` nor begins as a selector
/// of a named board does.
pub open spec fn names_subsystem(tag: Seq<char>) -> bool {
    &&& tag != "ALL"@
    &&& !(tag.len() >= 5 && tag.take(5) == "ONLY:"@)
    &&& !(tag.len() >= 7 && tag.take(7) == "EXCEPT:"@)
}

pub(crate) proof fn lemma_named(tag: Seq<char>)
    ensures
        names_subsystem(tag) <==> !rules::is_selector(tag),
{
    reveal_strlit("ONLY:");
    reveal_strlit("EXCEPT:");
    if tag.len() >= 5 {
        assert(tag.take(5) =~= tag.subrange(0, 5));
    }
    if tag.len() >= 7 {
        assert(tag.take(7) =~= tag.subrange(0, 7));
    }
}

pub(crate) proof fn lemma_prefixed(tag: Seq<char>, prefix: Seq<char>, name: Seq<char>)
    ensures
        text::stripped_prefix(tag, prefix) == Some(name) <==> tag == prefix + name,
{
    if tag == prefix + name {
        assert(tag.subrange(0, prefix.len() as int) =~= prefix);
        assert(tag.skip(prefix.len() as int) =~= name);
    } else if text::stripped_prefix(tag, prefix) == Some(name) {
        assert(tag =~= prefix + name);
    }
}

proof fn lemma_names(tags: Seq<Seq<char>>, prefix: Seq<char>, name: Seq<char>)
    ensures
        rules::names_board(tags, prefix, name) <==> tags.contains(prefix + name),
{
    if rules::names_board(tags, prefix, name) {
        let i = choose|i: int|
            0 <= i < tags.len() && text::stripped_prefix(#[trigger] tags[i], prefix) == Some(name);
        lemma_prefixed(tags[i], prefix, name);
    }
    if tags.contains(prefix + name) {
        let i = choose|i: int| 0 <= i < tags.len() && tags[i] == prefix + name;
        lemma_prefixed(tags[i], prefix, name);
    }
}

/// A rule for all boards admits each board that it does not except, and every request
/// without a board; any other rule admits just the boards that it names.
pub proof fn law_selectors_admit(tags: Seq<Seq<char>>, name: Seq<char>)
    ensures
        tags.contains("ALL"@) && !tags.contains("EXCEPT:"@ + name) ==> rules::selectors_apply(
            tags,
            Some(name),
        ),
        tags.contains("ALL"@) && tags.contains("EXCEPT:"@ + name) ==> !rules::selectors_apply(
            tags,
            Some(name),
        ),
        !tags.contains("ALL"@) && tags.contains("ONLY:"@ + name) ==> rules::selectors_apply(
            tags,
            Some(name),
        ),
        !tags.contains("ALL"@) && !tags.contains("ONLY:"@ + name) ==> !rules::selectors_apply(
            tags,
            Some(name),
        ),
        rules::selectors_apply(tags, None) <==> tags.contains("ALL"@),
{
    lemma_names(tags, "EXCEPT:"@, name);
    lemma_names(tags, "ONLY:"@, name);
}

/// Where a rule admits the board and the task carries one of its subsystems, it applies.
pub proof fn law_one_shared_subsystem_is_enough(
    tags: Seq<Seq<char>>,
    board: Option<Seq<char>>,
    task_tags: Seq<Seq<char>>,
    shared: Seq<char>,
)
    requires
        rules::selectors_apply(tags, board),
        names_subsystem(shared),
        tags.contains(shared),
        task_tags.contains(shared),
    ensures
        rules::tags_apply(tags, board, Some(task_tags)),
{
    lemma_named(shared);
    let i = choose|i: int| 0 <= i < tags.len() && tags[i] == shared;
    assert(!rules::is_selector(tags[i]));
}

/// A rule that names no subsystem applies to every task of the boards that it admits,
/// whatever the task carries.
pub proof fn law_plain_rules_apply_to_every_task(
    tags: Seq<Seq<char>>,
    board: Option<Seq<char>>,
    task_tags: Option<Seq<Seq<char>>>,
)
    requires
        rules::selectors_apply(tags, board),
        forall|tag: Seq<char>| #[trigger] tags.contains(tag) ==> !names_subsystem(tag),
    ensures
        rules::tags_apply(tags, board, task_tags),
{
    assert forall|i: int| 0 <= i < tags.len() implies rules::is_selector(#[trigger] tags[i]) by {
        assert(tags.contains(tags[i]));
        lemma_named(tags[i]);
    }
}

/// A rule that names a subsystem does not apply to a task that carries none of those that
/// the rule names, nor where no task is asked about; and never outside the boards that it
/// admits.
pub proof fn law_other_subsystems_do_not_apply(
    tags: Seq<Seq<char>>,
    board: Option<Seq<char>>,
    task_tags: Option<Seq<Seq<char>>>,
    named: Seq<char>,
)
    requires
        !rules::selectors_apply(tags, board) || (tags.contains(named) && names_subsystem(named)
            && (task_tags matches Some(list) ==> forall|tag: Seq<char>| #[trigger]
            list.contains(tag) && names_subsystem(tag) ==> !tags.contains(tag))),
    ensures
        !rules::tags_apply(tags, board, task_tags),
{
    if rules::selectors_apply(tags, board) {
        lemma_named(named);
        let k = choose|k: int| 0 <= k < tags.len() && tags[k] == named;
        assert(!rules::is_selector(tags[k]));
        if let Some(list) = task_tags {
            if rules::shares_subsystem(tags, list) {
                let i = choose|i: int|
                    0 <= i < tags.len() && !rules::is_selector(#[trigger] tags[i]) && list.contains(
                        tags[i],
                    );
                lemma_named(tags[i]);
                assert(tags.contains(tags[i]));
            }
        }
    }
}

/// A tag more on a task never stops a rule from applying, and neither does it to ask about
/// a task at all.
pub proof fn law_more_task_tags_keep_rules(
    tags: Seq<Seq<char>>,
    board: Option<Seq<char>>,
    task_tags: Option<Seq<Seq<char>>>,
    more: Seq<Seq<char>>,
)
    requires
        rules::tags_apply(tags, board, task_tags),
        task_tags matches Some(list) ==> forall|tag: Seq<char>| #[trigger] list.contains(tag)
            ==> more.contains(tag),
    ensures
        rules::tags_apply(tags, board, Some(more)),
{
    if !rules::all_selectors(tags) {
        let list = task_tags->0;
        let i = choose|i: int|
            0 <= i < tags.len() && !rules::is_selector(#[trigger] tags[i]) && list.contains(
                tags[i],
            );
        assert(more.contains(tags[i]));
        assert(!rules::is_selector(tags[i]));
    }
}

/// A subsystem more on a rule never stops it from applying to a task that carries one that
/// it named before.
pub proof fn law_more_subsystems_keep_tasks(
    tags: Seq<Seq<char>>,
    board: Option<Seq<char>>,
    task_tags: Seq<Seq<char>>,
    shared: Seq<char>,
    more: Seq<char>,
)
    requires
        rules::tags_apply(tags, board, Some(task_tags)),
        names_subsystem(shared),
        tags.contains(shared),
        task_tags.contains(shared),
        names_subsystem(more),
    ensures
        rules::tags_apply(tags.push(more), board, Some(task_tags)),
{
    let longer = tags.push(more);
    law_selectors_do_not_mind_subsystems(tags, board, more);
    let i = choose|i: int| 0 <= i < tags.len() && tags[i] == shared;
    assert(longer[i] == shared);
    law_one_shared_subsystem_is_enough(longer, board, task_tags, shared);
}

/// The subsystems of a rule have no say in which boards it admits.
pub proof fn law_selectors_do_not_mind_subsystems(
    tags: Seq<Seq<char>>,
    board: Option<Seq<char>>,
    more: Seq<char>,
)
    requires
        names_subsystem(more),
    ensures
        rules::selectors_apply(tags.push(more), board) <==> rules::selectors_apply(tags, board),
{
    let longer = tags.push(more);
    let name = if board is Some {
        board->0
    } else {
        seq![]
    };
    law_selectors_admit(tags, name);
    law_selectors_admit(longer, name);
    lemma_named(more);
    reveal_strlit("ONLY:");
    reveal_strlit("EXCEPT:");
    assert(more != "EXCEPT:"@ + name) by {
        if more == "EXCEPT:"@ + name {
            assert(more.take(7) =~= "EXCEPT:"@);
        }
    }
    assert(more != "ONLY:"@ + name) by {
        if more == "ONLY:"@ + name {
            assert(more.take(5) =~= "ONLY:"@);
        }
    }
    lemma_pushed(tags, more, "ALL"@);
    lemma_pushed(tags, more, "EXCEPT:"@ + name);
    lemma_pushed(tags, more, "ONLY:"@ + name);
}

proof fn lemma_pushed(s: Seq<Seq<char>>, x: Seq<char>, y: Seq<char>)
    requires
        x != y,
    ensures
        s.push(x).contains(y) <==> s.contains(y),
{
    if s.contains(y) {
        let i = choose|i: int| 0 <= i < s.len() && s[i] == y;
        assert(s.push(x)[i] == y);
    }
    if s.push(x).contains(y) {
        let i = choose|i: int| 0 <= i < s.push(x).len() && s.push(x)[i] == y;
        assert(s[i] == y);
    }
}

// --------------------------------------------------------------------------- listings

/// The rulebook lists every rule that is not retired, and the retired ones just where they
/// are asked for, each as often as it is there; the oldest stands first, and of two of one
/// age the one whose id is less.
pub proof fn law_rules_are_listed(reg: Registry, include_archived: bool)
    ensures
        forall|x: Rule| #[trigger]
            reg.listed_rules(include_archived).contains(x) <==> reg.rules@.contains(x) && (
            include_archived || !x.archived),
        forall|x: Rule| #[trigger]
            reg.listed_rules(include_archived).to_multiset().count(x) == (if include_archived
                || !x.archived {
                reg.rules@.to_multiset().count(x)
            } else {
                0nat
            }),
        forall|i: int, j: int|
            0 <= i < j < reg.listed_rules(include_archived).len() ==> {
                let a = #[trigger] reg.listed_rules(include_archived)[i];
                let b = #[trigger] reg.listed_rules(include_archived)[j];
                a.created_at < b.created_at || (a.created_at == b.created_at
                    && !text::text_less(b.id@, a.id@))
            },
{
    let p = rulebook::is_listed(include_archived);
    let some = tables::kept(reg.rules@, p);
    ranking::law_ranked(some);
    assert forall|x: Rule| #[trigger]
        reg.listed_rules(include_archived).contains(x) <==> reg.rules@.contains(x) && (
        include_archived || !x.archived) by {
        listing::lemma_ranked_contains(some, x);
        listing::lemma_kept_contains(reg.rules@, p, x);
    }
    assert forall|x: Rule| #[trigger]
        reg.listed_rules(include_archived).to_multiset().count(x) == (if include_archived
            || !x.archived {
            reg.rules@.to_multiset().count(x)
        } else {
            0nat
        }) by {
        listing::lemma_kept_count(reg.rules@, p, x);
    }
}

/// The rules that apply to a task of a board are those of the listing whose tags apply, and
/// the rules that target a board those whose selectors admit it.
pub proof fn law_applicable_rules_are_listed(
    reg: Registry,
    board: Option<Seq<char>>,
    task_tags: Option<Seq<Seq<char>>>,
    include_archived: bool,
)
    ensures
        ({
            let all = reg.listed_rules(include_archived);
            &&& forall|x: Rule| #[trigger]
                tables::kept(all, rulebook::applies(board, task_tags)).contains(x) <==> (
                reg.rules@.contains(x) && (include_archived || !x.archived) && rules::tags_apply(
                    text::texts(x.tags@),
                    board,
                    task_tags,
                ))
            &&& forall|x: Rule| #[trigger]
                tables::kept(all, rulebook::targets(board)).contains(x) <==> (reg.rules@.contains(x)
                    && (include_archived || !x.archived) && rules::selectors_apply(
                    text::texts(x.tags@),
                    board,
                ))
        }),
{
    let all = reg.listed_rules(include_archived);
    law_rules_are_listed(reg, include_archived);
    assert forall|x: Rule| #[trigger]
        tables::kept(all, rulebook::applies(board, task_tags)).contains(x) <==> (
        reg.rules@.contains(x) && (include_archived || !x.archived) && rules::tags_apply(
            text::texts(x.tags@),
            board,
            task_tags,
        )) by {
        listing::lemma_kept_contains(all, rulebook::applies(board, task_tags), x);
        assert(all.contains(x) <==> reg.rules@.contains(x) && (include_archived || !x.archived));
    }
    assert forall|x: Rule| #[trigger]
        tables::kept(all, rulebook::targets(board)).contains(x) <==> (reg.rules@.contains(x) && (
        include_archived || !x.archived) && rules::selectors_apply(
            text::texts(x.tags@),
            board,
        )) by {
        listing::lemma_kept_contains(all, rulebook::targets(board), x);
        assert(all.contains(x) <==> reg.rules@.contains(x) && (include_archived || !x.archived));
    }
}

} // verus!
