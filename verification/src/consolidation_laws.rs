//! What the rules of the boards become in the rulebook, over all boards and rules.

use vstd::prelude::*;

use crate::consolidation;
use crate::consolidation::BoardSource;
use crate::consolidation::Consolidation;
use crate::consolidation::ConsolidationContext;
use crate::consolidation::NamedBoard;
use crate::consolidation::RetirementView;
use crate::consolidation::SourceState;
use crate::json;
use crate::listing;
use crate::outside;
use crate::ranking;
use crate::rulebook;
use crate::rulebook::RuleView;
use crate::rules::Rule;
use crate::rules::RuleMigrationReport;
use crate::tables;
use crate::tables::BoardRow;
use crate::tables::EntryView;
use crate::tables::LegacyRule;
use crate::tables::Registry;
use crate::text;
use crate::text::Error;

verus! {

/// The rule says that it comes from a rule of a board.
pub open spec fn comes_from(x: Rule, board: Seq<char>, id: Seq<char>) -> bool {
    &&& x.source_board matches Some(name) && name@ == board
    &&& x.source_rule_id matches Some(own) && own@ == id
}

/// The rule is a board's rule as the registry has it: it says what the board's rule says,
/// is retired just where that one is, and is for that board only.
pub open spec fn is_taken_over(x: Rule, source: Rule, board: Seq<char>) -> bool {
    &&& comes_from(x, board, source.id@)
    &&& x.body@ == source.body@
    &&& x.author@ == source.author@
    &&& x.archived == source.archived
    &&& x.created_at == source.created_at
    &&& x.updated_at == source.updated_at
    &&& text::texts(x.tags@) == seq!["ONLY:"@ + board] + text::texts(source.tags@)
    &&& x.source_registry_uuid is None
    &&& x.source_boards is None
    &&& x.source_content_sha256 is None
}

// ------------------------------------------------------------------------- one board

spec fn is_from(v: RuleView, board: Seq<char>, id: Seq<char>) -> bool {
    v.source_board == Some(board) && v.source_rule_id == Some(id)
}

spec fn copies(v: RuleView, source: RuleView, board: Seq<char>) -> bool {
    &&& is_from(v, board, source.id)
    &&& v.body == source.body
    &&& v.author == source.author
    &&& v.archived == source.archived
    &&& v.created_at == source.created_at
    &&& v.updated_at == source.updated_at
    &&& v.tags == seq!["ONLY:"@ + board] + source.tags
    &&& v.source_registry_uuid is None
    &&& v.source_boards is None
    &&& v.source_content_sha256 is None
}

/// Everything that was there is there still, in its place.
spec fn grows(a: Consolidation, b: Consolidation) -> bool {
    &&& a.rules.len() <= b.rules.len()
    &&& forall|k: int| 0 <= k < a.rules.len() ==> #[trigger] b.rules[k] == a.rules[k]
    &&& a.retirements.len() <= b.retirements.len()
    &&& forall|k: int|
        0 <= k < a.retirements.len() ==> #[trigger] b.retirements[k] == a.retirements[k]
    &&& b.imported - a.imported == b.rules.len() - a.rules.len()
    &&& b.retired - a.retired == b.retirements.len() - a.retirements.len()
    &&& b.entries.len() - a.entries.len() == b.rules.len() - a.rules.len()
    &&& forall|k: int| 0 <= k < a.entries.len() ==> #[trigger] b.entries[k] == a.entries[k]
}

/// The entry says that the rule was taken over, and by whom.
spec fn tells_of(e: EntryView, v: RuleView, actor: Seq<char>) -> bool {
    &&& e.subject == v.id
    &&& e.kind == "rule_consolidated"@
    &&& e.actor == actor
    &&& v.source_board is Some && v.source_rule_id is Some
    &&& e.payload == json::object(
        seq![
            json::member("ruleID"@, outside::json_text(v.id)),
            json::member("sourceBoard"@, outside::json_text(v.source_board->0)),
            json::member("sourceRuleID"@, outside::json_text(v.source_rule_id->0)),
            json::member("tags"@, json::array(v.tags)),
        ],
    )
}

/// Each rule that was added has an entry that tells of it.
spec fn all_told(a: Consolidation, b: Consolidation, actor: Seq<char>) -> bool {
    forall|k: int|
        a.rules.len() <= k < b.rules.len() ==> tells_of(
            b.entries[a.entries.len() + k - a.rules.len()],
            #[trigger] b.rules[k],
            actor,
        )
}

proof fn lemma_told(a: Consolidation, b: Consolidation, c: Consolidation, actor: Seq<char>)
    requires
        grows(a, b),
        grows(b, c),
        all_told(a, b, actor),
        all_told(b, c, actor),
    ensures
        grows(a, c),
        all_told(a, c, actor),
{
    assert forall|k: int| a.rules.len() <= k < c.rules.len() implies tells_of(
        c.entries[a.entries.len() + k - a.rules.len()],
        #[trigger] c.rules[k],
        actor,
    ) by {
        if k < b.rules.len() {
            let i = a.entries.len() + k - a.rules.len();
            assert(c.entries[i] == b.entries[i]);
            assert(c.rules[k] == b.rules[k]);
            assert(tells_of(b.entries[i], b.rules[k], actor));
        } else {
            assert(tells_of(
                c.entries[b.entries.len() + k - b.rules.len()],
                c.rules[k],
                actor,
            ));
        }
    }
}

/// No two rules come from one rule of one board.
spec fn at_most_one(s: Seq<RuleView>, board: Seq<char>, id: Seq<char>) -> bool {
    forall|i: int, j: int|
        0 <= i < j < s.len() ==> !(is_from(#[trigger] s[i], board, id) && is_from(
            #[trigger] s[j],
            board,
            id,
        ))
}

proof fn lemma_unknown(s: Seq<RuleView>, board: Seq<char>, id: Seq<char>)
    ensures
        tables::first_index(s, consolidation::view_from(board, id)) < s.len() <==> exists|k: int|
            0 <= k < s.len() && is_from(#[trigger] s[k], board, id),
        tables::first_index(s, consolidation::view_at(id)) < s.len() <==> exists|k: int|
            0 <= k < s.len() && (#[trigger] s[k]).id == id,
{
    let p = consolidation::view_from(board, id);
    let q = consolidation::view_at(id);
    tables::lemma_first_index(s, p);
    tables::lemma_first_index(s, q);
    if tables::first_index(s, p) < s.len() {
        assert(is_from(s[tables::first_index(s, p)], board, id));
    }
    if exists|k: int| 0 <= k < s.len() && is_from(#[trigger] s[k], board, id) {
        let k = choose|k: int| 0 <= k < s.len() && is_from(#[trigger] s[k], board, id);
        assert(p(s[k]));
    }
    if tables::first_index(s, q) < s.len() {
        assert(q(s[tables::first_index(s, q)]));
    }
    if exists|k: int| 0 <= k < s.len() && (#[trigger] s[k]).id == id {
        let k = choose|k: int| 0 <= k < s.len() && (#[trigger] s[k]).id == id;
        assert(q(s[k]));
    }
}

proof fn lemma_rule_step(
    st: Consolidation,
    source: RuleView,
    board: Seq<char>,
    path: Seq<char>,
    c: ConsolidationContext,
)
    ensures
        ({
            let out = consolidation::consolidate_rule(st, source, board, path, c);
            &&& grows(st, out)
            &&& all_told(st, out, c.actor)
            &&& out.marks == st.marks
            &&& out.boards_migrated == st.boards_migrated
            &&& out.boards_already == st.boards_already
            &&& out.failed == st.failed
            &&& forall|k: int|
                st.rules.len() <= k < out.rules.len() ==> copies(
                    #[trigger] out.rules[k],
                    source,
                    board,
                )
            &&& forall|k: int|
                st.retirements.len() <= k < out.retirements.len() ==> (
                #[trigger] out.retirements[k]).board_path == path && out.retirements[k].rule_id
                    == source.id && !source.archived
            &&& forall|name: Seq<char>, id: Seq<char>| #[trigger]
                at_most_one(st.rules, name, id) ==> at_most_one(out.rules, name, id)
        }),
{
    let out = consolidation::consolidate_rule(st, source, board, path, c);
    lemma_unknown(st.rules, board, source.id);
    assert forall|name: Seq<char>, id: Seq<char>| #[trigger]
        at_most_one(st.rules, name, id) implies at_most_one(out.rules, name, id) by {
        assert forall|i: int, j: int| 0 <= i < j < out.rules.len() implies !(is_from(
            #[trigger] out.rules[i],
            name,
            id,
        ) && is_from(#[trigger] out.rules[j], name, id)) by {
            assert(out.rules[i] == st.rules[i]);
            if j < st.rules.len() {
                assert(out.rules[j] == st.rules[j]);
            }
        }
    }
}

proof fn lemma_rules(
    st: Consolidation,
    sources: Seq<RuleView>,
    board: Seq<char>,
    path: Seq<char>,
    c: ConsolidationContext,
)
    ensures
        ({
            let out = consolidation::consolidate_rules(st, sources, board, path, c);
            &&& grows(st, out)
            &&& all_told(st, out, c.actor)
            &&& out.marks == st.marks
            &&& out.boards_migrated == st.boards_migrated
            &&& out.boards_already == st.boards_already
            &&& out.failed == st.failed
            &&& forall|k: int|
                st.rules.len() <= k < out.rules.len() ==> exists|i: int|
                    0 <= i < sources.len() && copies(
                        #[trigger] out.rules[k],
                        #[trigger] sources[i],
                        board,
                    )
            &&& forall|k: int|
                st.retirements.len() <= k < out.retirements.len() ==> exists|i: int|
                    0 <= i < sources.len() && (#[trigger] out.retirements[k]).board_path == path
                        && out.retirements[k].rule_id == (#[trigger] sources[i]).id
                        && !sources[i].archived
            &&& forall|name: Seq<char>, id: Seq<char>| #[trigger]
                at_most_one(st.rules, name, id) ==> at_most_one(out.rules, name, id)
        }),
    decreases sources.len(),
{
    if sources.len() > 0 {
        let rest = sources.drop_last();
        let before = consolidation::consolidate_rules(st, rest, board, path, c);
        let out = consolidation::consolidate_rules(st, sources, board, path, c);
        lemma_rules(st, rest, board, path, c);
        lemma_rule_step(before, sources.last(), board, path, c);
        lemma_told(st, before, out, c.actor);
        assert forall|k: int| st.rules.len() <= k < out.rules.len() implies exists|i: int|
            0 <= i < sources.len() && copies(
                #[trigger] out.rules[k],
                #[trigger] sources[i],
                board,
            ) by {
            if k < before.rules.len() {
                assert(out.rules[k] == before.rules[k]);
                let i = choose|i: int|
                    0 <= i < rest.len() && copies(
                        before.rules[k],
                        #[trigger] rest[i],
                        board,
                    );
                assert(sources[i] == rest[i]);
            } else {
                assert(copies(out.rules[k], sources[sources.len() - 1], board));
            }
        }
        assert forall|k: int|
            st.retirements.len() <= k < out.retirements.len() implies exists|i: int|
            0 <= i < sources.len() && (#[trigger] out.retirements[k]).board_path == path
                && out.retirements[k].rule_id == (#[trigger] sources[i]).id
                && !sources[i].archived by {
            if k < before.retirements.len() {
                assert(out.retirements[k] == before.retirements[k]);
                let i = choose|i: int|
                    0 <= i < rest.len() && before.retirements[k].board_path == path
                        && before.retirements[k].rule_id == (#[trigger] rest[i]).id
                        && !rest[i].archived;
                assert(sources[i] == rest[i]);
            } else {
                assert(out.retirements[k].rule_id == sources[sources.len() - 1].id);
            }
        }
    }
}

/// The n-th rule of a board is there, and where it was active it is to be retired.
spec fn is_done(
    out: Consolidation,
    source: RuleView,
    board: Seq<char>,
    path: Seq<char>,
    k: int,
) -> bool {
    &&& 0 <= k < out.rules.len()
    &&& copies(out.rules[k], source, board)
    &&& out.rules[k].id != source.id ==> exists|j: int|
        0 <= j < out.rules.len() && (#[trigger] out.rules[j]).id == source.id
    &&& !source.archived ==> out.retirements.contains(
        RetirementView {
            board_path: path,
            rule_id: source.id,
            canonical_board: board,
            canonical_rule_id: out.rules[k].id,
        },
    )
}

proof fn lemma_done_stays(
    a: Consolidation,
    b: Consolidation,
    source: RuleView,
    board: Seq<char>,
    path: Seq<char>,
    k: int,
)
    requires
        is_done(a, source, board, path, k),
        grows(a, b),
    ensures
        is_done(b, source, board, path, k),
{
    if a.rules[k].id != source.id {
        let j = choose|j: int| 0 <= j < a.rules.len() && (#[trigger] a.rules[j]).id == source.id;
        assert(b.rules[j].id == source.id);
    }
    if !source.archived {
        let r = RetirementView {
            board_path: path,
            rule_id: source.id,
            canonical_board: board,
            canonical_rule_id: a.rules[k].id,
        };
        let i = choose|i: int| 0 <= i < a.retirements.len() && a.retirements[i] == r;
        assert(b.retirements[i] == r);
    }
}

proof fn lemma_rule_taken(
    st: Consolidation,
    sources: Seq<RuleView>,
    board: Seq<char>,
    path: Seq<char>,
    c: ConsolidationContext,
    n: int,
) -> (k: int)
    requires
        0 <= n < sources.len(),
        forall|i: int| 0 <= i < n ==> (#[trigger] sources[i]).id != sources[n].id,
        forall|i: int| 0 <= i < st.rules.len() ==> !is_from(
            #[trigger] st.rules[i],
            board,
            sources[n].id,
        ),
    ensures
        is_done(
            consolidation::consolidate_rules(st, sources, board, path, c),
            sources[n],
            board,
            path,
            k,
        ),
    decreases sources.len(),
{
    let rest = sources.drop_last();
    let before = consolidation::consolidate_rules(st, rest, board, path, c);
    let out = consolidation::consolidate_rules(st, sources, board, path, c);
    lemma_rules(st, rest, board, path, c);
    lemma_rule_step(before, sources.last(), board, path, c);
    if n < sources.len() - 1 {
        assert(rest[n] == sources[n]);
        assert forall|i: int| 0 <= i < n implies (#[trigger] rest[i]).id != rest[n].id by {
            assert(rest[i] == sources[i]);
        }
        let k = lemma_rule_taken(st, rest, board, path, c, n);
        lemma_done_stays(before, out, sources[n], board, path, k);
        k
    } else {
        let source = sources[n];
        assert(sources.last() == source);
        lemma_unknown(before.rules, board, source.id);
        assert forall|k: int| 0 <= k < before.rules.len() implies !is_from(
            #[trigger] before.rules[k],
            board,
            source.id,
        ) by {
            if k < st.rules.len() {
                assert(before.rules[k] == st.rules[k]);
            } else {
                let i = choose|i: int|
                    0 <= i < rest.len() && copies(before.rules[k], #[trigger] rest[i], board);
                assert(rest[i] == sources[i]);
            }
        }
        let k = before.rules.len() as int;
        assert(out.rules.len() == k + 1);
        if out.rules[k].id != source.id {
            let j = choose|j: int|
                0 <= j < before.rules.len() && (#[trigger] before.rules[j]).id == source.id;
            assert(out.rules[j].id == source.id);
        }
        if !source.archived {
            assert(out.retirements[out.retirements.len() - 1] == (RetirementView {
                board_path: path,
                rule_id: source.id,
                canonical_board: board,
                canonical_rule_id: out.rules[k].id,
            }));
        }
        k
    }
}

// ------------------------------------------------------------------------ all boards

proof fn lemma_boards(st: Consolidation, boards: Seq<NamedBoard>, c: ConsolidationContext)
    ensures
        ({
            let out = consolidation::consolidate_boards(st, boards, c);
            &&& grows(st, out)
            &&& all_told(st, out, c.actor)
            &&& out.failed is None ==> out.boards_migrated + out.boards_already
                == st.boards_migrated + st.boards_already + boards.len()
            &&& out.failed is None ==> st.failed is None
            &&& forall|k: int|
                st.rules.len() <= k < out.rules.len() ==> exists|m: int|
                    0 <= m < boards.len() && (#[trigger] out.rules[k]).source_board == Some(
                        (#[trigger] boards[m]).name@,
                    )
            &&& forall|k: int|
                st.retirements.len() <= k < out.retirements.len() ==> exists|m: int|
                    0 <= m < boards.len() && (#[trigger] out.retirements[k]).board_path == (
                    #[trigger] boards[m]).board_path@
            &&& forall|path: Seq<char>| #[trigger]
                consolidation::is_marked(out.marks, path) ==> consolidation::is_marked(
                    st.marks,
                    path,
                ) || exists|m: int| 0 <= m < boards.len() && (#[trigger] boards[m]).board_path@
                    == path
            &&& forall|name: Seq<char>, id: Seq<char>| #[trigger]
                at_most_one(st.rules, name, id) ==> at_most_one(out.rules, name, id)
        }),
    decreases boards.len(),
{
    if boards.len() > 0 {
        let rest = boards.drop_last();
        let board = boards.last();
        let before = consolidation::consolidate_boards(st, rest, c);
        let out = consolidation::consolidate_boards(st, boards, c);
        lemma_boards(st, rest, c);
        let i = tables::first_index(c.sources, consolidation::source_at(board.board_path@));
        let found = if i < c.sources.len() {
            match c.sources[i].state {
                SourceState::Rules(rules) => rulebook::rule_views(rules@),
                _ => seq![],
            }
        } else {
            seq![]
        };
        let mid = consolidation::consolidate_rules(
            before,
            found,
            board.name@,
            board.board_path@,
            c,
        );
        lemma_rules(before, found, board.name@, board.board_path@, c);
        assert(boards[boards.len() - 1] == board);
        assert(out.rules == before.rules || out.rules == mid.rules);
        assert(grows(before, out) && all_told(before, out, c.actor));
        lemma_told(st, before, out, c.actor);
        assert forall|k: int| st.rules.len() <= k < out.rules.len() implies exists|m: int|
            0 <= m < boards.len() && (#[trigger] out.rules[k]).source_board == Some(
                (#[trigger] boards[m]).name@,
            ) by {
            if k < before.rules.len() {
                assert(out.rules[k] == before.rules[k]);
                let m = choose|m: int|
                    0 <= m < rest.len() && before.rules[k].source_board == Some(
                        (#[trigger] rest[m]).name@,
                    );
                assert(boards[m] == rest[m]);
            } else {
                let n = choose|n: int|
                    0 <= n < found.len() && copies(
                        mid.rules[k],
                        #[trigger] found[n],
                        board.name@,
                    );
                assert(out.rules[k].source_board == Some(boards[boards.len() - 1].name@));
            }
        }
        assert forall|k: int|
            st.retirements.len() <= k < out.retirements.len() implies exists|m: int|
            0 <= m < boards.len() && (#[trigger] out.retirements[k]).board_path == (
            #[trigger] boards[m]).board_path@ by {
            if k < before.retirements.len() {
                assert(out.retirements[k] == before.retirements[k]);
                let m = choose|m: int|
                    0 <= m < rest.len() && before.retirements[k].board_path == (
                    #[trigger] rest[m]).board_path@;
                assert(boards[m] == rest[m]);
            } else {
                assert(out.retirements[k] == mid.retirements[k]);
                assert(out.retirements[k].board_path == boards[boards.len() - 1].board_path@);
            }
        }
        assert forall|path: Seq<char>| #[trigger]
            consolidation::is_marked(out.marks, path) implies consolidation::is_marked(
            st.marks,
            path,
        ) || exists|m: int| 0 <= m < boards.len() && (#[trigger] boards[m]).board_path@ == path by {
            let m = choose|m: int| 0 <= m < out.marks.len() && (#[trigger] out.marks[m]).board_path
                == path;
            if m < before.marks.len() {
                assert(before.marks[m].board_path == path);
                assert(consolidation::is_marked(before.marks, path));
                if !consolidation::is_marked(st.marks, path) {
                    let b = choose|b: int| 0 <= b < rest.len() && (#[trigger] rest[b]).board_path@
                        == path;
                    assert(boards[b] == rest[b]);
                }
            } else {
                assert(boards[boards.len() - 1].board_path@ == path);
            }
        }
    }
}

proof fn lemma_board_taken(
    st: Consolidation,
    boards: Seq<NamedBoard>,
    c: ConsolidationContext,
    m: int,
    s: int,
    n: int,
    rules: Vec<Rule>,
) -> (k: int)
    requires
        consolidation::consolidate_boards(st, boards, c).failed is None,
        0 <= m < boards.len(),
        forall|i: int| 0 <= i < m ==> (#[trigger] boards[i]).name@ != boards[m].name@
            && boards[i].board_path@ != boards[m].board_path@,
        !consolidation::is_marked(st.marks, boards[m].board_path@),
        0 <= s < c.sources.len(),
        c.sources[s].board_path@ == boards[m].board_path@,
        forall|i: int| 0 <= i < s ==> (#[trigger] c.sources[i]).board_path@
            != boards[m].board_path@,
        c.sources[s].state == SourceState::Rules(rules),
        0 <= n < rules@.len(),
        forall|i: int| 0 <= i < n ==> (#[trigger] rules@[i]).id@ != rules@[n].id@,
        forall|i: int| 0 <= i < st.rules.len() ==> !is_from(
            #[trigger] st.rules[i],
            boards[m].name@,
            rules@[n].id@,
        ),
    ensures
        is_done(
            consolidation::consolidate_boards(st, boards, c),
            rules@[n]@,
            boards[m].name@,
            boards[m].board_path@,
            k,
        ),
    decreases boards.len(),
{
    let rest = boards.drop_last();
    let board = boards[m];
    let before = consolidation::consolidate_boards(st, rest, c);
    let out = consolidation::consolidate_boards(st, boards, c);
    lemma_boards(st, rest, c);
    assert(before.failed is None);
    if m < boards.len() - 1 {
        assert(rest[m] == boards[m]);
        assert forall|i: int| 0 <= i < m implies (#[trigger] rest[i]).name@ != rest[m].name@
            && rest[i].board_path@ != rest[m].board_path@ by {
            assert(rest[i] == boards[i]);
        }
        let k = lemma_board_taken(st, rest, c, m, s, n, rules);
        lemma_boards(before, seq![boards.last()], c);
        assert(seq![boards.last()].drop_last() =~= Seq::<NamedBoard>::empty());
        assert(consolidation::consolidate_boards(before, seq![boards.last()].drop_last(), c)
            == before);
        assert(consolidation::consolidate_boards(before, seq![boards.last()], c) == out);
        lemma_done_stays(before, out, rules@[n]@, board.name@, board.board_path@, k);
        k
    } else {
        let name = board.name@;
        let path = board.board_path@;
        assert(boards.last() == board);
        let p = consolidation::source_at(path);
        tables::lemma_first_index_is(c.sources, p, s);
        assert(!consolidation::is_marked(before.marks, path)) by {
            if consolidation::is_marked(before.marks, path) {
                let b = choose|b: int| 0 <= b < rest.len() && (#[trigger] rest[b]).board_path@
                    == path;
                assert(boards[b] == rest[b]);
            }
        }
        let views = rulebook::rule_views(rules@);
        assert(views[n] == rules@[n]@);
        assert forall|i: int| 0 <= i < n implies (#[trigger] views[i]).id != views[n].id by {
            assert(rules@[i].id@ != rules@[n].id@);
        }
        assert forall|i: int| 0 <= i < before.rules.len() implies !is_from(
            #[trigger] before.rules[i],
            name,
            views[n].id,
        ) by {
            if i < st.rules.len() {
                assert(before.rules[i] == st.rules[i]);
            } else {
                let b = choose|b: int|
                    0 <= b < rest.len() && before.rules[i].source_board == Some(
                        (#[trigger] rest[b]).name@,
                    );
                assert(boards[b] == rest[b]);
            }
        }
        lemma_rule_taken(before, views, name, path, c, n)
    }
}

proof fn lemma_kept_two<T>(s: Seq<T>, p: spec_fn(T) -> bool, i: int, j: int)
    requires
        0 <= i < j < s.len(),
        p(s[i]),
        p(s[j]),
    ensures
        tables::kept(s, p).len() >= 2,
    decreases s.len(),
{
    let rest = s.drop_last();
    if j < rest.len() {
        lemma_kept_two(rest, p, i, j);
    } else {
        tables::lemma_kept(rest, p);
        assert(rest[i] == s[i]);
        assert(tables::kept(rest, p).contains(s[i]));
    }
}

proof fn lemma_names_counted(boards: Seq<BoardRow>, name: Seq<char>)
    ensures
        tables::kept(
            consolidation::named_boards(boards),
            |b: NamedBoard| b.name@ == name,
        ).len() == tables::kept(boards, tables::board_named(name, true)).len(),
    decreases boards.len(),
{
    let named = consolidation::named_boards(boards);
    assert(named.len() == boards.len());
    if boards.len() > 0 {
        lemma_names_counted(boards.drop_last(), name);
        assert(named.drop_last() =~= consolidation::named_boards(boards.drop_last()));
        assert(named.last().name == boards.last().name);
    }
}

proof fn lemma_one_name(
    st: Consolidation,
    boards: Seq<NamedBoard>,
    c: ConsolidationContext,
    m: int,
)
    requires
        consolidation::consolidate_boards(st, boards, c).failed is None,
        0 <= m < boards.len(),
    ensures
        tables::kept(c.boards, tables::board_named(boards[m].name@, true)).len() == 1,
    decreases boards.len(),
{
    let rest = boards.drop_last();
    if m < rest.len() {
        assert(rest[m] == boards[m]);
        lemma_one_name(st, rest, c, m);
    } else {
        assert(boards.last() == boards[m]);
    }
}

/// The boards of a consolidation that succeeded have different names and paths.
proof fn lemma_apart(st: Consolidation, c: ConsolidationContext, m: int)
    requires
        tables::unique_boards(c.boards),
        consolidation::consolidate_boards(
            st,
            consolidation::board_order(c.boards),
            c,
        ).failed is None,
        0 <= m < consolidation::board_order(c.boards).len(),
    ensures
        forall|i: int|
            0 <= i < consolidation::board_order(c.boards).len() && i != m ==> (
            #[trigger] consolidation::board_order(c.boards)[i]).name@
                != consolidation::board_order(c.boards)[m].name@
                && consolidation::board_order(c.boards)[i].board_path@
                != consolidation::board_order(c.boards)[m].board_path@,
{
    let named = consolidation::named_boards(c.boards);
    let order = consolidation::board_order(c.boards);
    let name = order[m].name@;
    let p = |b: NamedBoard| b.name@ == name;
    let key = |b: NamedBoard| b.board_path@;
    ranking::law_ranked(named);
    lemma_one_name(st, order, c, m);
    lemma_names_counted(c.boards, name);
    listing::lemma_kept_as_many(named, order, p);
    assert forall|i: int, j: int| 0 <= i < j < named.len() implies key(#[trigger] named[i]) != key(
        #[trigger] named[j],
    ) by {
        assert(c.boards[i].board_path@ != c.boards[j].board_path@);
    }
    tables::lemma_reordered_distinct(named, order, key);
    assert forall|i: int| 0 <= i < order.len() && i != m implies (#[trigger] order[i]).name@
        != order[m].name@ && order[i].board_path@ != order[m].board_path@ by {
        if order[i].name@ == name {
            if i < m {
                lemma_kept_two(order, p, i, m);
            } else {
                lemma_kept_two(order, p, m, i);
            }
        }
        if i < m {
            assert(key(order[i]) != key(order[m]));
        } else {
            assert(key(order[m]) != key(order[i]));
        }
    }
}

// ----------------------------------------------------------------------- the rulebook

proof fn lemma_taken_over(x: Rule, source: Rule, board: Seq<char>)
    ensures
        copies(x@, source@, board) <==> is_taken_over(x, source, board),
        forall|id: Seq<char>| #[trigger] is_from(x@, board, id) <==> comes_from(x, board, id),
{
}

/// Merging the former global table gives no rule that comes from a board.
proof fn lemma_merge_sources(rules: Seq<RuleView>, legacy: Seq<LegacyRule>)
    ensures
        ({
            let out = consolidation::merge_all_legacy(rules, legacy).rules;
            &&& rules.len() <= out.len()
            &&& out.len() - rules.len() == consolidation::merge_all_legacy(rules, legacy).imported
            &&& forall|k: int|
                0 <= k < rules.len() ==> (#[trigger] out[k]).source_board == rules[k].source_board
                    && out[k].source_rule_id == rules[k].source_rule_id && out[k].id
                    == rules[k].id
            &&& forall|k: int|
                rules.len() <= k < out.len() ==> (#[trigger] out[k]).source_board is None
                    && out[k].source_rule_id is None
        }),
    decreases legacy.len(),
{
    if legacy.len() > 0 {
        lemma_merge_sources(rules, legacy.drop_last());
        let st = consolidation::merge_all_legacy(rules, legacy.drop_last());
        tables::lemma_first_index(st.rules, consolidation::view_at(legacy.last().id@));
    }
}

/// What a consolidation that succeeded went through.
proof fn lemma_parts(
    pre: Registry,
    post: Registry,
    r: Result<RuleMigrationReport, Error>,
    retirements: Seq<RetirementView>,
    actor: Seq<char>,
    sources: Seq<BoardSource>,
) -> (parts: (Registry, RuleMigrationReport, Seq<Seq<char>>, i64, Result<(), Error>))
    requires
        consolidation::rules_drawn(pre, post, r, retirements, actor, sources),
        r is Ok,
    ensures
        consolidation::legacy_consolidated(
            pre,
            parts.0,
            parts.4,
            text::trimmed(actor),
            consolidation::empty_report(),
            parts.1,
            parts.3,
        ),
        parts.4 is Ok,
        consolidation::boards_consolidated(
            parts.0,
            post,
            r,
            parts.1,
            retirements,
            text::trimmed(actor),
            sources,
            parts.2,
            parts.3,
        ),
{
    let by = text::trimmed(actor);
    let (half, done, report, now) = choose|
        half: Registry,
        done: Result<(), Error>,
        report: RuleMigrationReport,
        now: i64,
    |
        {
            &&& #[trigger] consolidation::legacy_consolidated(
                pre,
                half,
                done,
                by,
                consolidation::empty_report(),
                report,
                now,
            )
            &&& match done {
                Err(e) => post == half && retirements.len() == 0 && text::refused(r, e.message@),
                Ok(_) => consolidation::boards_drawn(
                    pre,
                    half,
                    post,
                    r,
                    report,
                    retirements,
                    by,
                    sources,
                    now,
                ),
            }
        };
    let ids = choose|ids: Seq<Seq<char>>| #[trigger]
        consolidation::boards_consolidated(
            half,
            post,
            r,
            report,
            retirements,
            by,
            sources,
            ids,
            now,
        );
    (half, report, ids, now, done)
}

/// A rule of a board that the registry did not know is in the rulebook once the board is
/// consolidated, exactly once: it says what the board's rule says and is for that board
/// only, and it is active just where the board's rule was. It has the id that it had on the
/// board, unless another rule has that one. Where it was active it is to be retired on the
/// board, in favour of the rule that the registry has.
pub proof fn law_board_rules_are_taken_over(
    pre: Registry,
    post: Registry,
    r: Result<RuleMigrationReport, Error>,
    retirements: Seq<RetirementView>,
    actor: Seq<char>,
    sources: Seq<BoardSource>,
    b: int,
    s: int,
    rules: Vec<Rule>,
    n: int,
) -> (k: int)
    requires
        pre.wf(),
        consolidation::rules_drawn(pre, post, r, retirements, actor, sources),
        r is Ok,
        0 <= b < pre.boards@.len(),
        pre.boards@[b].board_path@ != consolidation::LEGACY_SOURCE@,
        forall|i: int| 0 <= i < pre.migrations@.len() ==> (
        #[trigger] pre.migrations@[i]).board_path@ != pre.boards@[b].board_path@,
        0 <= s < sources.len(),
        sources[s].board_path@ == pre.boards@[b].board_path@,
        forall|i: int| 0 <= i < s ==> (#[trigger] sources[i]).board_path@
            != pre.boards@[b].board_path@,
        sources[s].state == SourceState::Rules(rules),
        0 <= n < rules@.len(),
        forall|i: int| 0 <= i < n ==> (#[trigger] rules@[i]).id@ != rules@[n].id@,
        forall|i: int| 0 <= i < pre.rules@.len() ==> !comes_from(
            #[trigger] pre.rules@[i],
            pre.boards@[b].name@,
            rules@[n].id@,
        ),
    ensures
        0 <= k < post.rules@.len(),
        is_taken_over(post.rules@[k], rules@[n], pre.boards@[b].name@),
        forall|j: int| 0 <= j < post.rules@.len() && j != k ==> !comes_from(
            #[trigger] post.rules@[j],
            pre.boards@[b].name@,
            rules@[n].id@,
        ),
        post.rules@[k].id@ != rules@[n].id@ ==> exists|j: int|
            0 <= j < post.rules@.len() && j != k && (#[trigger] post.rules@[j]).id@
                == rules@[n].id@,
        !rules@[n].archived ==> retirements.contains(
            RetirementView {
                board_path: pre.boards@[b].board_path@,
                rule_id: rules@[n].id@,
                canonical_board: pre.boards@[b].name@,
                canonical_rule_id: post.rules@[k].id@,
            },
        ),
{
    let (mid, report, ids, now, done) = lemma_parts(pre, post, r, retirements, actor, sources);
    let by = text::trimmed(actor);
    let name = pre.boards@[b].name@;
    let path = pre.boards@[b].board_path@;
    let source = rules@[n];
    let c = ConsolidationContext { boards: mid.boards@, sources, ids, actor: by, now };
    let st = consolidation::consolidation_start(mid);
    let order = consolidation::board_order(mid.boards@);
    let out = consolidation::consolidate_boards(st, order, c);
    assert(mid.boards == pre.boards);
    // The former global table brings no rule of a board.
    let views = rulebook::rule_views(pre.rules@);
    lemma_merge_sources(views, ranking::ranked(pre.legacy_rules@));
    assert forall|i: int| 0 <= i < st.rules.len() implies !is_from(
        #[trigger] st.rules[i],
        name,
        source.id@,
    ) by {
        if i < views.len() {
            lemma_taken_over(pre.rules@[i], source, name);
            assert(!is_from(views[i], name, source.id@)) by {
                assert(views[i] == pre.rules@[i]@);
            }
        }
    }
    assert(!consolidation::is_marked(st.marks, path)) by {
        let before = consolidation::migration_views(pre.migrations@);
        if consolidation::is_marked(st.marks, path) {
            let i = choose|i: int| 0 <= i < st.marks.len() && (#[trigger] st.marks[i]).board_path
                == path;
            if i < before.len() {
                assert(before[i] == pre.migrations@[i]@);
                assert(st.marks[i] == before[i]);
            }
        }
    }
    // The board has its place in the order.
    let named = consolidation::named_boards(mid.boards@);
    assert(named[b].name@ == name && named[b].board_path@ == path);
    assert(named.contains(named[b]));
    listing::lemma_ranked_contains(named, named[b]);
    let m = choose|m: int| 0 <= m < order.len() && order[m] == named[b];
    lemma_apart(st, c, m);
    let k = lemma_board_taken(st, order, c, m, s, n, rules);
    lemma_boards(st, order, c);
    let all = rulebook::rule_views(post.rules@);
    assert(all == out.rules);
    assert(all.len() == post.rules@.len());
    assert(all[k] == post.rules@[k]@);
    lemma_taken_over(post.rules@[k], source, name);
    assert(at_most_one(st.rules, name, source.id@));
    assert(at_most_one(out.rules, name, source.id@));
    assert forall|j: int| 0 <= j < post.rules@.len() && j != k implies !comes_from(
        #[trigger] post.rules@[j],
        name,
        source.id@,
    ) by {
        assert(all[j] == post.rules@[j]@);
        lemma_taken_over(post.rules@[j], source, name);
        if j < k {
            assert(!(is_from(all[j], name, source.id@) && is_from(all[k], name, source.id@)));
        } else {
            assert(!(is_from(all[k], name, source.id@) && is_from(all[j], name, source.id@)));
        }
    }
    if post.rules@[k].id@ != source.id@ {
        let j = choose|j: int| 0 <= j < out.rules.len() && (#[trigger] out.rules[j]).id
            == source.id@;
        assert(all[j] == post.rules@[j]@);
        assert(post.rules@[j].id@ == source.id@);
    }
    k
}

/// A rule that was added by a board's consolidation is that of a rule of a board which was
/// read.
pub open spec fn has_board_rule(x: Rule, boards: Seq<BoardRow>, sources: Seq<BoardSource>) -> bool {
    exists|b: int, s: int, n: int|
        #![trigger boards[b], sources[s], board_rule(sources[s], n)]
        {
            &&& 0 <= b < boards.len()
            &&& 0 <= s < sources.len()
            &&& sources[s].board_path@ == boards[b].board_path@
            &&& board_rule(sources[s], n) matches Some(source) && is_taken_over(
                x,
                source,
                boards[b].name@,
            )
        }
}

/// The n-th rule that was read of a board.
pub open spec fn board_rule(source: BoardSource, n: int) -> Option<Rule> {
    match source.state {
        SourceState::Rules(rules) => if 0 <= n < rules@.len() {
            Some(rules@[n])
        } else {
            None
        },
        _ => None,
    }
}

spec fn has_view_source(
    v: RuleView,
    boards: Seq<NamedBoard>,
    sources: Seq<BoardSource>,
) -> bool {
    exists|m: int, s: int, n: int|
        #![trigger boards[m], sources[s], board_rule(sources[s], n)]
        {
            &&& 0 <= m < boards.len()
            &&& 0 <= s < sources.len()
            &&& sources[s].board_path@ == boards[m].board_path@
            &&& board_rule(sources[s], n) matches Some(source) && copies(
                v,
                source@,
                boards[m].name@,
            )
        }
}

proof fn lemma_added(st: Consolidation, boards: Seq<NamedBoard>, c: ConsolidationContext, k: int)
    requires
        st.rules.len() <= k < consolidation::consolidate_boards(st, boards, c).rules.len(),
    ensures
        has_view_source(
            consolidation::consolidate_boards(st, boards, c).rules[k],
            boards,
            c.sources,
        ),
    decreases boards.len(),
{
    if boards.len() > 0 {
        let rest = boards.drop_last();
        let board = boards.last();
        let before = consolidation::consolidate_boards(st, rest, c);
        let out = consolidation::consolidate_boards(st, boards, c);
        lemma_boards(st, rest, c);
        let p = consolidation::source_at(board.board_path@);
        tables::lemma_first_index(c.sources, p);
        let s = tables::first_index(c.sources, p);
        if k < before.rules.len() {
            lemma_added(st, rest, c, k);
            let (m, t, n) = choose|m: int, t: int, n: int|
                #![trigger rest[m], c.sources[t], board_rule(c.sources[t], n)]
                {
                    &&& 0 <= m < rest.len()
                    &&& 0 <= t < c.sources.len()
                    &&& c.sources[t].board_path@ == rest[m].board_path@
                    &&& board_rule(c.sources[t], n) matches Some(source) && copies(
                        before.rules[k],
                        source@,
                        rest[m].name@,
                    )
                };
            assert(boards[m] == rest[m]);
            assert(board_rule(c.sources[t], n) is Some);
            if s < c.sources.len() {
                if let SourceState::Rules(rules) = c.sources[s].state {
                    lemma_rules(
                        before,
                        rulebook::rule_views(rules@),
                        board.name@,
                        board.board_path@,
                        c,
                    );
                }
            }
            assert(out.rules[k] == before.rules[k]);
        } else {
            assert(s < c.sources.len());
            assert(p(c.sources[s]));
            if let SourceState::Rules(rules) = c.sources[s].state {
                let views = rulebook::rule_views(rules@);
                lemma_rules(before, views, board.name@, board.board_path@, c);
                let n = choose|n: int|
                    0 <= n < views.len() && copies(
                        out.rules[k],
                        #[trigger] views[n],
                        board.name@,
                    );
                assert(views[n] == rules@[n]@);
                assert(boards[boards.len() - 1] == board);
                assert(board_rule(c.sources[s], n) == Some(rules@[n]));
            }
        }
    }
}

/// A consolidation counts what it does: the rules that the rulebook has more are those of
/// the former global table and those of the boards, each board was taken over now or
/// before, and there is a retirement for each rule that is counted as retired.
pub proof fn law_consolidation_counts_what_it_does(
    pre: Registry,
    post: Registry,
    r: Result<RuleMigrationReport, Error>,
    retirements: Seq<RetirementView>,
    actor: Seq<char>,
    sources: Seq<BoardSource>,
)
    requires
        consolidation::rules_drawn(pre, post, r, retirements, actor, sources),
        r is Ok,
    ensures
        post.rules@.len() - pre.rules@.len() == r->Ok_0.legacy_rules_imported
            + r->Ok_0.rules_imported,
        r->Ok_0.boards_migrated + r->Ok_0.boards_already_migrated == pre.boards@.len(),
        r->Ok_0.source_rules_retired == retirements.len(),
        post.boards == pre.boards,
        post.ledger == pre.ledger,
        r->Ok_0.legacy_registry_migrated || r->Ok_0.legacy_registry_already_migrated,
{
    let (mid, report, ids, now, done) = lemma_parts(pre, post, r, retirements, actor, sources);
    let c = ConsolidationContext {
        boards: mid.boards@,
        sources,
        ids,
        actor: text::trimmed(actor),
        now,
    };
    let st = consolidation::consolidation_start(mid);
    let order = consolidation::board_order(mid.boards@);
    lemma_boards(st, order, c);
    lemma_merge_sources(
        rulebook::rule_views(pre.rules@),
        ranking::ranked(pre.legacy_rules@),
    );
    ranking::law_ranked(consolidation::named_boards(mid.boards@));
    assert(rulebook::rule_views(pre.rules@).len() == pre.rules@.len());
    assert(rulebook::rule_views(mid.rules@).len() == mid.rules@.len());
    assert(rulebook::rule_views(post.rules@).len() == post.rules@.len());
}

/// Once the former global table is taken over, a consolidation leaves every rule of the
/// rulebook as it is, adds rules of the boards that were read and no others, and records
/// an event for each rule that it adds, which tells of that rule, and for nothing else.
pub proof fn law_consolidation_only_adds(
    pre: Registry,
    post: Registry,
    r: Result<RuleMigrationReport, Error>,
    retirements: Seq<RetirementView>,
    actor: Seq<char>,
    sources: Seq<BoardSource>,
    mark: int,
)
    requires
        0 <= mark < pre.migrations@.len(),
        pre.migrations@[mark].board_path@ == consolidation::LEGACY_SOURCE@,
        consolidation::rules_drawn(pre, post, r, retirements, actor, sources),
        r is Ok,
    ensures
        pre.rules@.len() <= post.rules@.len(),
        forall|k: int|
            0 <= k < pre.rules@.len() ==> (#[trigger] post.rules@[k])@ == pre.rules@[k]@,
        forall|k: int|
            pre.rules@.len() <= k < post.rules@.len() ==> has_board_rule(
                #[trigger] post.rules@[k],
                pre.boards@,
                sources,
            ),
        post.events@.len() - pre.events@.len() == post.rules@.len() - pre.rules@.len(),
        forall|k: int|
            0 <= k < pre.events@.len() ==> #[trigger] post.events@[k] == pre.events@[k],
        forall|k: int|
            pre.rules@.len() <= k < post.rules@.len() ==> {
                let x = #[trigger] post.rules@[k];
                let e = post.events@[pre.events@.len() + k - pre.rules@.len()];
                &&& x.source_board is Some && x.source_rule_id is Some
                &&& e.rule_id@ == x.id@
                &&& e.kind@ == "rule_consolidated"@
                &&& e.actor@ == text::trimmed(actor)
                &&& e.payload@ == json::object(
                    seq![
                        json::member("ruleID"@, outside::json_text(x.id@)),
                        json::member("sourceBoard"@, outside::json_text(x.source_board->0@)),
                        json::member("sourceRuleID"@, outside::json_text(x.source_rule_id->0@)),
                        json::member("tags"@, json::array(text::texts(x.tags@))),
                    ],
                )
            },
{
    let (mid, report, ids, now, done) = lemma_parts(pre, post, r, retirements, actor, sources);
    let by = text::trimmed(actor);
    let c = ConsolidationContext { boards: mid.boards@, sources, ids, actor: by, now };
    let marks = consolidation::migration_views(pre.migrations@);
    assert(marks[mark] == pre.migrations@[mark]@);
    assert(consolidation::is_marked(marks, consolidation::LEGACY_SOURCE@));
    assert(mid == pre);
    let st = consolidation::consolidation_start(mid);
    let named = consolidation::named_boards(pre.boards@);
    let order = consolidation::board_order(pre.boards@);
    let out = consolidation::consolidate_boards(st, order, c);
    lemma_boards(st, order, c);
    ranking::law_ranked(named);
    listing::lemma_same_members(named, order);
    let before = rulebook::rule_views(pre.rules@);
    let all = rulebook::rule_views(post.rules@);
    assert(before.len() == pre.rules@.len());
    assert(all.len() == post.rules@.len());
    assert forall|k: int| 0 <= k < pre.rules@.len() implies (#[trigger] post.rules@[k])@
        == pre.rules@[k]@ by {
        assert(all[k] == post.rules@[k]@);
        assert(before[k] == pre.rules@[k]@);
        assert(out.rules[k] == st.rules[k]);
    }
    assert forall|k: int| pre.rules@.len() <= k < post.rules@.len() implies has_board_rule(
        #[trigger] post.rules@[k],
        pre.boards@,
        sources,
    ) by {
        lemma_added(st, order, c, k);
        assert(all[k] == post.rules@[k]@);
        let (m, s, n) = choose|m: int, s: int, n: int|
            #![trigger order[m], sources[s], board_rule(sources[s], n)]
            {
                &&& 0 <= m < order.len()
                &&& 0 <= s < sources.len()
                &&& sources[s].board_path@ == order[m].board_path@
                &&& board_rule(sources[s], n) matches Some(source) && copies(
                    all[k],
                    source@,
                    order[m].name@,
                )
            };
        let source = board_rule(sources[s], n)->0;
        lemma_taken_over(post.rules@[k], source, order[m].name@);
        assert(named.contains(order[m]));
        let b = choose|b: int| 0 <= b < named.len() && named[b] == order[m];
        assert(pre.boards@[b].name@ == order[m].name@);
        assert(pre.boards@[b].board_path@ == sources[s].board_path@);
        assert(board_rule(sources[s], n) is Some);
    }
    assert forall|k: int| pre.rules@.len() <= k < post.rules@.len() implies {
        let x = #[trigger] post.rules@[k];
        let e = post.events@[pre.events@.len() + k - pre.rules@.len()];
        &&& x.source_board is Some && x.source_rule_id is Some
        &&& e.rule_id@ == x.id@
        &&& e.kind@ == "rule_consolidated"@
        &&& e.actor@ == by
        &&& e.payload@ == json::object(
            seq![
                json::member("ruleID"@, outside::json_text(x.id@)),
                json::member("sourceBoard"@, outside::json_text(x.source_board->0@)),
                json::member("sourceRuleID"@, outside::json_text(x.source_rule_id->0@)),
                json::member("tags"@, json::array(text::texts(x.tags@))),
            ],
        )
    } by {
        assert(all[k] == post.rules@[k]@);
        let i = k - pre.rules@.len();
        assert(tells_of(out.entries[st.entries.len() + k - st.rules.len()], out.rules[k], by));
        assert(tells_of(out.entries[i], all[k], by));
    }
    assert forall|k: int| 0 <= k < pre.events@.len() implies #[trigger] post.events@[k]
        == pre.events@[k] by {
        assert(post.events@.take(pre.events@.len() as int)[k] == post.events@[k]);
    }
}

// ---------------------------------------------------------------- the former global table

/// The rule says what a rule of the former global table says, for the boards and the tasks
/// that that one names.
pub open spec fn says_as_legacy(x: Rule, l: LegacyRule) -> bool {
    &&& x.body@ == l.body@
    &&& x.author@ == l.author@
    &&& x.archived == l.archived
    &&& x.updated_at == l.updated_at
    &&& outside::json_strings(l.board_tags@) matches Ok(boards) && outside::json_strings(
        l.task_tags@,
    ) matches Ok(tasks) && text::texts(x.tags@) == boards + tasks
}

spec fn views_as_legacy(v: RuleView, l: LegacyRule) -> bool {
    &&& v.body == l.body@
    &&& v.author == l.author@
    &&& v.archived == l.archived
    &&& v.updated_at == l.updated_at
    &&& outside::json_strings(l.board_tags@) matches Ok(boards) && outside::json_strings(
        l.task_tags@,
    ) matches Ok(tasks) && v.tags == boards + tasks
}

/// What a rule of the former global table has become.
spec fn is_merged(before: Seq<RuleView>, after: Seq<RuleView>, l: LegacyRule, k: int) -> bool {
    &&& 0 <= k < after.len()
    &&& after[k].id == l.id@
    &&& k < before.len() ==> if l.updated_at > before[k].updated_at {
        &&& views_as_legacy(after[k], l)
        &&& after[k].created_at == before[k].created_at
    } else {
        after[k] == before[k]
    }
    &&& k >= before.len() ==> {
        &&& views_as_legacy(after[k], l)
        &&& after[k].created_at == l.created_at
        &&& after[k].source_board is None
        &&& after[k].source_rule_id is None
        &&& after[k].source_registry_uuid is None
        &&& after[k].source_boards is None
        &&& after[k].source_content_sha256 is None
    }
}

/// Rules whose ids no legacy rule has stay as they are.
proof fn lemma_untouched(rules: Seq<RuleView>, legacy: Seq<LegacyRule>, k: int)
    requires
        consolidation::distinct_ids(rules),
        0 <= k < rules.len(),
        forall|i: int| 0 <= i < legacy.len() ==> (#[trigger] legacy[i]).id@ != rules[k].id,
    ensures
        consolidation::merge_all_legacy(rules, legacy).rules.len() >= rules.len(),
        consolidation::merge_all_legacy(rules, legacy).rules[k] == rules[k],
    decreases legacy.len(),
{
    lemma_merge_sources(rules, legacy);
    if legacy.len() > 0 {
        let rest = legacy.drop_last();
        assert forall|i: int| 0 <= i < rest.len() implies (#[trigger] rest[i]).id@
            != rules[k].id by {
            assert(rest[i] == legacy[i]);
        }
        lemma_untouched(rules, rest, k);
        lemma_merge_sources(rules, rest);
        let st = consolidation::merge_all_legacy(rules, rest);
        let p = consolidation::view_at(legacy.last().id@);
        tables::lemma_first_index(st.rules, p);
        let i = tables::first_index(st.rules, p);
        assert(legacy[legacy.len() - 1] == legacy.last());
        if i < st.rules.len() {
            assert(p(st.rules[i]));
        }
    }
}

proof fn lemma_merged(rules: Seq<RuleView>, legacy: Seq<LegacyRule>, n: int) -> (k: int)
    requires
        consolidation::distinct_ids(rules),
        consolidation::merge_all_legacy(rules, legacy).failed is None,
        0 <= n < legacy.len(),
        forall|i: int| 0 <= i < legacy.len() && i != n ==> (#[trigger] legacy[i]).id@
            != legacy[n].id@,
    ensures
        is_merged(
            rules,
            consolidation::merge_all_legacy(rules, legacy).rules,
            legacy[n],
            k,
        ),
    decreases legacy.len(),
{
    let rest = legacy.drop_last();
    let st = consolidation::merge_all_legacy(rules, rest);
    let out = consolidation::merge_all_legacy(rules, legacy);
    let p = consolidation::view_at(legacy.last().id@);
    tables::lemma_first_index(st.rules, p);
    let at = tables::first_index(st.rules, p);
    lemma_merge_sources(rules, rest);
    lemma_merge_sources(rules, legacy);
    assert(legacy[legacy.len() - 1] == legacy.last());
    if n < legacy.len() - 1 {
        assert(rest[n] == legacy[n]);
        assert forall|i: int| 0 <= i < rest.len() && i != n implies (#[trigger] rest[i]).id@
            != rest[n].id@ by {
            assert(rest[i] == legacy[i]);
        }
        let k = lemma_merged(rules, rest, n);
        if at < st.rules.len() {
            assert(p(st.rules[at]));
            assert(at != k);
        }
        k
    } else {
        if at < st.rules.len() {
            assert(p(st.rules[at]));
            if at < rules.len() {
                assert(st.rules[at].id == rules[at].id);
                assert forall|i: int| 0 <= i < rest.len() implies (#[trigger] rest[i]).id@
                    != rules[at].id by {
                    assert(rest[i] == legacy[i]);
                }
                lemma_untouched(rules, rest, at);
            } else {
                lemma_merged_ids(rules, rest, at);
                let i = choose|i: int| 0 <= i < rest.len() && (#[trigger] rest[i]).id@
                    == st.rules[at].id;
                assert(rest[i] == legacy[i]);
            }
            at
        } else {
            st.rules.len() as int
        }
    }
}

proof fn lemma_merged_ids(rules: Seq<RuleView>, legacy: Seq<LegacyRule>, k: int)
    requires
        rules.len() <= k < consolidation::merge_all_legacy(rules, legacy).rules.len(),
    ensures
        exists|i: int|
            0 <= i < legacy.len() && (#[trigger] legacy[i]).id@
                == consolidation::merge_all_legacy(rules, legacy).rules[k].id,
    decreases legacy.len(),
{
    if legacy.len() > 0 {
        let rest = legacy.drop_last();
        let st = consolidation::merge_all_legacy(rules, rest);
        let out = consolidation::merge_all_legacy(rules, legacy);
        tables::lemma_first_index(st.rules, consolidation::view_at(legacy.last().id@));
        assert(legacy[legacy.len() - 1] == legacy.last());
        if k < st.rules.len() {
            lemma_merged_ids(rules, rest, k);
            let i = choose|i: int| 0 <= i < rest.len() && (#[trigger] rest[i]).id@
                == st.rules[k].id;
            assert(rest[i] == legacy[i]);
            assert(out.rules[k].id == st.rules[k].id);
        }
    }
}

/// The first consolidation takes the former global table over. A rule of it whose id the
/// rulebook does not have is added as it is; where the rulebook has the id, the later of
/// the two says what the rule says from then on, and the rule keeps its age. Every rule of
/// the former table is retired there.
pub proof fn law_legacy_rules_are_taken_over(
    pre: Registry,
    post: Registry,
    r: Result<RuleMigrationReport, Error>,
    retirements: Seq<RetirementView>,
    actor: Seq<char>,
    sources: Seq<BoardSource>,
    n: int,
) -> (k: int)
    requires
        pre.wf(),
        forall|i: int| 0 <= i < pre.migrations@.len() ==> (
        #[trigger] pre.migrations@[i]).board_path@ != consolidation::LEGACY_SOURCE@,
        consolidation::rules_drawn(pre, post, r, retirements, actor, sources),
        r is Ok,
        0 <= n < pre.legacy_rules@.len(),
        forall|i: int| 0 <= i < pre.legacy_rules@.len() && i != n ==> (
        #[trigger] pre.legacy_rules@[i]).id@ != pre.legacy_rules@[n].id@,
    ensures
        0 <= k < post.rules@.len(),
        post.rules@[k].id@ == pre.legacy_rules@[n].id@,
        k < pre.rules@.len() && pre.legacy_rules@[n].updated_at > pre.rules@[k].updated_at ==> {
            &&& says_as_legacy(post.rules@[k], pre.legacy_rules@[n])
            &&& post.rules@[k].created_at == pre.rules@[k].created_at
        },
        k < pre.rules@.len() && pre.legacy_rules@[n].updated_at <= pre.rules@[k].updated_at
            ==> post.rules@[k]@ == pre.rules@[k]@,
        k >= pre.rules@.len() ==> {
            &&& says_as_legacy(post.rules@[k], pre.legacy_rules@[n])
            &&& post.rules@[k].created_at == pre.legacy_rules@[n].created_at
            &&& post.rules@[k].source_board is None
            &&& post.rules@[k].source_rule_id is None
            &&& post.rules@[k].source_registry_uuid is None
        },
        post.legacy_rules@.len() == pre.legacy_rules@.len(),
        post.legacy_rules@[n].archived,
        post.legacy_rules@[n].id == pre.legacy_rules@[n].id,
        post.legacy_rules@[n].body == pre.legacy_rules@[n].body,
        r->Ok_0.legacy_registry_migrated,
{
    let (mid, report, ids, now, done) = lemma_parts(pre, post, r, retirements, actor, sources);
    let by = text::trimmed(actor);
    let l = pre.legacy_rules@[n];
    let c = ConsolidationContext { boards: mid.boards@, sources, ids, actor: by, now };
    let marks = consolidation::migration_views(pre.migrations@);
    assert(!consolidation::is_marked(marks, consolidation::LEGACY_SOURCE@)) by {
        if consolidation::is_marked(marks, consolidation::LEGACY_SOURCE@) {
            let i = choose|i: int| 0 <= i < marks.len() && (#[trigger] marks[i]).board_path
                == consolidation::LEGACY_SOURCE@;
            assert(marks[i] == pre.migrations@[i]@);
        }
    }
    let before = rulebook::rule_views(pre.rules@);
    let legacy = ranking::ranked(pre.legacy_rules@);
    let key = |x: LegacyRule| x.id@;
    ranking::law_ranked(pre.legacy_rules@);
    listing::lemma_same_members(pre.legacy_rules@, legacy);
    let m = choose|m: int| 0 <= m < legacy.len() && legacy[m] == l;
    lemma_only_one(pre.legacy_rules@, legacy, n, m);
    assert(consolidation::distinct_ids(before)) by {
        assert forall|i: int, j: int| 0 <= i < j < before.len() implies (#[trigger] before[i]).id
            != (#[trigger] before[j]).id by {
            assert(pre.rules@[i].id@ != pre.rules@[j].id@);
        }
    }
    let k = lemma_merged(before, legacy, m);
    let st = consolidation::consolidation_start(mid);
    let order = consolidation::board_order(mid.boards@);
    lemma_boards(st, order, c);
    let all = rulebook::rule_views(post.rules@);
    assert(all.len() == post.rules@.len());
    assert(all[k] == post.rules@[k]@);
    if k < before.len() {
        assert(before[k] == pre.rules@[k]@);
    }
    assert(post.legacy_rules@[n] == (LegacyRule { archived: true, ..l }));
    k
}

/// Where one row alone has an id, one row alone has it in any order.
proof fn lemma_only_one(s: Seq<LegacyRule>, t: Seq<LegacyRule>, n: int, m: int)
    requires
        s.to_multiset() == t.to_multiset(),
        0 <= n < s.len(),
        0 <= m < t.len(),
        t[m] == s[n],
        forall|i: int| 0 <= i < s.len() && i != n ==> (#[trigger] s[i]).id@ != s[n].id@,
    ensures
        forall|i: int| 0 <= i < t.len() && i != m ==> (#[trigger] t[i]).id@ != t[m].id@,
{
    let id = s[n].id@;
    let p = |x: LegacyRule| x.id@ == id;
    listing::lemma_kept_as_many(s, t, p);
    lemma_kept_one_of(s, p, n);
    assert forall|i: int| 0 <= i < t.len() && i != m implies (#[trigger] t[i]).id@ != t[m].id@ by {
        if t[i].id@ == id {
            if i < m {
                lemma_kept_two(t, p, i, m);
            } else {
                lemma_kept_two(t, p, m, i);
            }
        }
    }
}

proof fn lemma_kept_one_of<T>(s: Seq<T>, p: spec_fn(T) -> bool, n: int)
    requires
        0 <= n < s.len(),
        forall|i: int| 0 <= i < s.len() && i != n ==> !p(#[trigger] s[i]),
    ensures
        tables::kept(s, p).len() <= 1,
    decreases s.len(),
{
    let rest = s.drop_last();
    if n < s.len() - 1 {
        assert forall|i: int| 0 <= i < rest.len() && i != n implies !p(#[trigger] rest[i]) by {
            assert(rest[i] == s[i]);
        }
        lemma_kept_one_of(rest, p, n);
        assert(!p(s[s.len() - 1]));
    } else {
        tables::lemma_kept(rest, p);
        if tables::kept(rest, p).len() > 0 {
            let x = tables::kept(rest, p)[0];
            assert(rest.contains(x));
            let i = choose|i: int| 0 <= i < rest.len() && rest[i] == x;
            assert(s[i] == x);
        }
    }
}

} // verus!
