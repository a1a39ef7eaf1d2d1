//! How many ids a consolidation has to draw: one for each board rule that the registry
//! does not have yet and whose own id is in use.

use vstd::prelude::*;

use crate::consolidation;
use crate::consolidation::BoardSource;
use crate::consolidation::Consolidation;
use crate::consolidation::ConsolidationContext;
use crate::consolidation::MigrationView;
use crate::consolidation::NamedBoard;
use crate::consolidation::SourceState;
use crate::rulebook;
use crate::rulebook::RuleView;
use crate::rules::Rule;
use crate::tables;
use crate::tables::BoardRow;
use crate::tables::Registry;
use crate::text;

verus! {

/// What the boards looked at so far come to: the own ids that their rules take up, the
/// board rules that are taken over, the boards that are marked, and the ids needed.
pub struct Pending {
    pub ids: Seq<Seq<char>>,
    pub sources: Seq<(Seq<char>, Seq<char>)>,
    pub marked: Seq<Seq<char>>,
    pub needed: nat,
    pub stopped: bool,
}

pub open spec fn nothing_pending() -> Pending {
    Pending { ids: seq![], sources: seq![], marked: seq![], needed: 0, stopped: false }
}

/// A rule was taken over from a board rule.
pub open spec fn has_source(rules: Seq<RuleView>, board: Seq<char>, id: Seq<char>) -> bool {
    tables::first_index(rules, consolidation::view_from(board, id)) < rules.len()
}

/// A rule has an id.
pub open spec fn has_id(rules: Seq<RuleView>, id: Seq<char>) -> bool {
    tables::first_index(rules, consolidation::view_at(id)) < rules.len()
}

/// One more rule of a board: it is there already, needs an id, or keeps its own.
pub open spec fn pend_rule(
    p: Pending,
    rules: Seq<RuleView>,
    board: Seq<char>,
    id: Seq<char>,
) -> Pending {
    if has_source(rules, board, id) || p.sources.contains((board, id)) {
        p
    } else if has_id(rules, id) || p.ids.contains(id) {
        Pending { sources: p.sources.push((board, id)), needed: p.needed + 1, ..p }
    } else {
        Pending { sources: p.sources.push((board, id)), ids: p.ids.push(id), ..p }
    }
}

pub open spec fn pend_rules(
    p: Pending,
    rules: Seq<RuleView>,
    board: Seq<char>,
    sources: Seq<RuleView>,
) -> Pending
    decreases sources.len(),
{
    if sources.len() == 0 {
        p
    } else {
        pend_rule(pend_rules(p, rules, board, sources.drop_last()), rules, board, sources.last().id)
    }
}

/// What is pending over.
pub struct PendingOver {
    pub rules: Seq<RuleView>,
    pub marks: Seq<MigrationView>,
    pub boards: Seq<BoardRow>,
    pub sources: Seq<BoardSource>,
}

/// One more board: it stops the rest, is marked already, or has its rules taken over.
pub open spec fn pend_board(p: Pending, over: PendingOver, board: NamedBoard) -> Pending {
    let path = board.board_path@;
    let i = tables::first_index(over.sources, consolidation::source_at(path));
    if p.stopped {
        p
    } else if tables::kept(over.boards, tables::board_named(board.name@, true)).len() != 1 {
        Pending { stopped: true, ..p }
    } else if consolidation::is_marked(over.marks, path) || p.marked.contains(path) {
        p
    } else if i >= over.sources.len() {
        Pending { stopped: true, ..p }
    } else {
        match over.sources[i].state {
            SourceState::Rules(rules) => {
                let done = pend_rules(p, over.rules, board.name@, rulebook::rule_views(rules@));
                Pending { marked: done.marked.push(path), ..done }
            },
            _ => Pending { stopped: true, ..p },
        }
    }
}

pub open spec fn pend_boards(over: PendingOver, boards: Seq<NamedBoard>) -> Pending
    decreases boards.len(),
{
    if boards.len() == 0 {
        nothing_pending()
    } else {
        pend_board(pend_boards(over, boards.drop_last()), over, boards.last())
    }
}

pub open spec fn pending_over(reg: Registry, sources: Seq<BoardSource>) -> PendingOver {
    PendingOver {
        rules: rulebook::rule_views(reg.rules@),
        marks: consolidation::migration_views(reg.migrations@),
        boards: reg.boards@,
        sources,
    }
}

/// How many ids taking over the boards needs.
pub open spec fn ids_needed(reg: Registry, sources: Seq<BoardSource>) -> nat {
    pend_boards(pending_over(reg, sources), consolidation::board_order(reg.boards@)).needed
}

// ------------------------------------------------------------------------- keeping pace

pub(crate) proof fn lemma_rules_grow(
    p: Pending,
    rules: Seq<RuleView>,
    board: Seq<char>,
    sources: Seq<RuleView>,
    n: int,
)
    requires
        0 <= n <= sources.len(),
    ensures
        pend_rules(p, rules, board, sources.take(n)).needed <= pend_rules(
            p,
            rules,
            board,
            sources,
        ).needed,
        p.needed <= pend_rules(p, rules, board, sources).needed,
    decreases sources.len(),
{
    if n < sources.len() {
        lemma_rules_grow(p, rules, board, sources.drop_last(), n);
        assert(sources.drop_last().take(n) =~= sources.take(n));
    } else {
        assert(sources.take(n) =~= sources);
        if n > 0 {
            lemma_rules_grow(p, rules, board, sources.drop_last(), 0);
        }
    }
}

pub(crate) proof fn lemma_boards_grow(over: PendingOver, boards: Seq<NamedBoard>, n: int)
    requires
        0 <= n <= boards.len(),
    ensures
        pend_boards(over, boards.take(n)).needed <= pend_boards(over, boards).needed,
    decreases boards.len(),
{
    if n < boards.len() {
        let rest = boards.drop_last();
        lemma_boards_grow(over, rest, n);
        assert(rest.take(n) =~= boards.take(n));
        let board = boards.last();
        let i = tables::first_index(over.sources, consolidation::source_at(board.board_path@));
        if i < over.sources.len() {
            match over.sources[i].state {
                SourceState::Rules(rules) => {
                    lemma_rules_grow(
                        pend_boards(over, rest),
                        over.rules,
                        board.name@,
                        rulebook::rule_views(rules@),
                        0,
                    );
                },
                _ => {},
            }
        }
    } else {
        assert(boards.take(n) =~= boards);
    }
}

/// A consolidation under given ids is as far as the count of what is pending.
pub open spec fn keeps_pace(
    p: Pending,
    st: Consolidation,
    over: PendingOver,
    ids: Seq<Seq<char>>,
) -> bool {
    &&& p.needed == st.used
    &&& p.needed <= ids.len()
    &&& p.stopped == (st.failed is Some)
    &&& forall|path: Seq<char>| #[trigger]
        consolidation::is_marked(st.marks, path) <==> consolidation::is_marked(over.marks, path)
            || p.marked.contains(path)
    &&& forall|x: Seq<char>| #[trigger]
        has_id(st.rules, x) <==> has_id(over.rules, x) || p.ids.contains(x) || ids.take(
            p.needed as int,
        ).contains(x)
    &&& forall|b: Seq<char>, x: Seq<char>| #[trigger]
        has_source(st.rules, b, x) <==> has_source(over.rules, b, x) || p.sources.contains((b, x))
}

proof fn lemma_found_push<T>(s: Seq<T>, v: T, p: spec_fn(T) -> bool)
    ensures
        tables::first_index(s.push(v), p) < s.len() + 1 <==> tables::first_index(s, p) < s.len()
            || p(v),
{
    let all = s.push(v);
    tables::lemma_first_index(s, p);
    tables::lemma_first_index(all, p);
    let i = tables::first_index(s, p);
    let k = tables::first_index(all, p);
    if k < s.len() {
        assert(all[k] == s[k]);
    }
    if i < s.len() {
        assert(all[i] == s[i]);
    }
    if p(v) {
        assert(p(all[s.len() as int]));
    }
}

proof fn lemma_contains_push<T>(s: Seq<T>, v: T)
    ensures
        forall|x: T| #[trigger] s.push(v).contains(x) <==> s.contains(x) || x == v,
{
    assert forall|x: T| #[trigger] s.push(v).contains(x) <==> s.contains(x) || x == v by {
        if s.contains(x) {
            let i = choose|i: int| 0 <= i < s.len() && s[i] == x;
            assert(s.push(v)[i] == x);
        }
        assert(s.push(v)[s.len() as int] == v);
        if s.push(v).contains(x) && x != v {
            let i = choose|i: int| 0 <= i < s.push(v).len() && s.push(v)[i] == x;
            assert(s[i] == x);
        }
    }
}

pub(crate) proof fn lemma_pace_rule(
    p: Pending,
    st: Consolidation,
    over: PendingOver,
    source: RuleView,
    board: Seq<char>,
    path: Seq<char>,
    c: ConsolidationContext,
)
    requires
        keeps_pace(p, st, over, c.ids),
        !c.ids.contains(source.id),
        pend_rule(p, over.rules, board, source.id).needed <= c.ids.len(),
    ensures
        keeps_pace(
            pend_rule(p, over.rules, board, source.id),
            consolidation::consolidate_rule(st, source, board, path, c),
            over,
            c.ids,
        ),
        !has_source(st.rules, board, source.id) && has_id(st.rules, source.id) ==> st.used
            < c.ids.len(),
{
    let ids = c.ids;
    let next = pend_rule(p, over.rules, board, source.id);
    let done = consolidation::consolidate_rule(st, source, board, path, c);
    let known = has_source(st.rules, board, source.id);
    assert(!ids.take(p.needed as int).contains(source.id)) by {
        if ids.take(p.needed as int).contains(source.id) {
            let i = choose|i: int|
                0 <= i < p.needed && ids.take(p.needed as int)[i] == source.id;
            assert(ids[i] == source.id);
        }
    }
    if !known {
        let row = done.rules.last();
        assert(done.rules == st.rules.push(row));
        lemma_contains_push(p.sources, (board, source.id));
        lemma_contains_push(p.ids, source.id);
        if has_id(st.rules, source.id) {
            assert(ids.take(p.needed as int + 1) =~= ids.take(p.needed as int).push(
                ids[p.needed as int],
            ));
            lemma_contains_push(ids.take(p.needed as int), ids[p.needed as int]);
        }
        assert forall|x: Seq<char>| #[trigger] has_id(done.rules, x) <==> has_id(over.rules, x)
            || next.ids.contains(x) || ids.take(next.needed as int).contains(x) by {
            lemma_found_push(st.rules, row, consolidation::view_at(x));
            assert(has_id(st.rules, x) <==> has_id(over.rules, x) || p.ids.contains(x)
                || ids.take(p.needed as int).contains(x));
        }
        assert forall|b: Seq<char>, x: Seq<char>| #[trigger]
            has_source(done.rules, b, x) <==> has_source(over.rules, b, x)
                || next.sources.contains((b, x)) by {
            lemma_found_push(st.rules, row, consolidation::view_from(b, x));
            assert(has_source(st.rules, b, x) <==> has_source(over.rules, b, x)
                || p.sources.contains((b, x)));
        }
    }
}

pub(crate) proof fn lemma_pace_rules(
    p: Pending,
    st: Consolidation,
    over: PendingOver,
    sources: Seq<RuleView>,
    board: Seq<char>,
    path: Seq<char>,
    c: ConsolidationContext,
)
    requires
        keeps_pace(p, st, over, c.ids),
        forall|n: int| 0 <= n < sources.len() ==> !c.ids.contains((#[trigger] sources[n]).id),
        pend_rules(p, over.rules, board, sources).needed <= c.ids.len(),
    ensures
        keeps_pace(
            pend_rules(p, over.rules, board, sources),
            consolidation::consolidate_rules(st, sources, board, path, c),
            over,
            c.ids,
        ),
    decreases sources.len(),
{
    if sources.len() > 0 {
        let rest = sources.drop_last();
        assert forall|n: int| 0 <= n < rest.len() implies !c.ids.contains(
            (#[trigger] rest[n]).id,
        ) by {
            assert(rest[n] == sources[n]);
        }
        lemma_pace_rules(p, st, over, rest, board, path, c);
        assert(sources.last() == sources[sources.len() - 1]);
        lemma_pace_rule(
            pend_rules(p, over.rules, board, rest),
            consolidation::consolidate_rules(st, rest, board, path, c),
            over,
            sources.last(),
            board,
            path,
            c,
        );
    }
}

/// The drawn ids are those of no board rule.
pub open spec fn all_spare(ids: Seq<Seq<char>>, sources: Seq<BoardSource>) -> bool {
    forall|i: int, k: int|
        0 <= i < ids.len() && 0 <= k < sources.len() ==> consolidation::is_spare(
            #[trigger] ids[i],
            #[trigger] sources[k],
        )
}

pub(crate) proof fn lemma_source_spare(
    ids: Seq<Seq<char>>,
    sources: Seq<BoardSource>,
    k: int,
    rules: Vec<Rule>,
)
    requires
        all_spare(ids, sources),
        0 <= k < sources.len(),
        sources[k].state == SourceState::Rules(rules),
    ensures
        forall|n: int|
            0 <= n < rules@.len() ==> !ids.contains(
                (#[trigger] rulebook::rule_views(rules@)[n]).id,
            ),
{
    let views = rulebook::rule_views(rules@);
    assert forall|n: int| 0 <= n < rules@.len() implies !ids.contains(
        (#[trigger] views[n]).id,
    ) by {
        if ids.contains(views[n].id) {
            let i = choose|i: int| 0 <= i < ids.len() && ids[i] == views[n].id;
            assert(consolidation::is_spare(ids[i], sources[k]));
            assert(rulebook::rule_ids(rules@)[n] == rules@[n].id@);
            assert(rulebook::rule_ids(rules@).contains(rules@[n].id@));
        }
    }
}

pub(crate) proof fn lemma_pace_board(
    p: Pending,
    st: Consolidation,
    over: PendingOver,
    board: NamedBoard,
    c: ConsolidationContext,
)
    requires
        keeps_pace(p, st, over, c.ids),
        over.boards == c.boards,
        over.sources == c.sources,
        all_spare(c.ids, c.sources),
        pend_board(p, over, board).needed <= c.ids.len(),
    ensures
        keeps_pace(
            pend_board(p, over, board),
            consolidation::consolidate_board(st, board, c),
            over,
            c.ids,
        ),
{
    let path = board.board_path@;
    let i = tables::first_index(c.sources, consolidation::source_at(path));
    tables::lemma_first_index(c.sources, consolidation::source_at(path));
    let next = pend_board(p, over, board);
    let done = consolidation::consolidate_board(st, board, c);
    assert(consolidation::is_marked(st.marks, path) <==> consolidation::is_marked(
        over.marks,
        path,
    ) || p.marked.contains(path));
    if i < c.sources.len() {
        match c.sources[i].state {
            SourceState::Rules(rules) => {
                let views = rulebook::rule_views(rules@);
                lemma_source_spare(c.ids, c.sources, i, rules);
                if st.failed is None && tables::kept(
                    c.boards,
                    tables::board_named(board.name@, true),
                ).len() == 1 && !consolidation::is_marked(st.marks, path) {
                    lemma_pace_rules(p, st, over, views, board.name@, path, c);
                    let half = consolidation::consolidate_rules(st, views, board.name@, path, c);
                    let mark = done.marks.last();
                    let before = pend_rules(p, over.rules, board.name@, views).marked;
                    lemma_contains_push(before, path);
                    assert(done.marks == half.marks.push(mark));
                    assert forall|x: Seq<char>| #[trigger]
                        consolidation::is_marked(done.marks, x) <==> consolidation::is_marked(
                            over.marks,
                            x,
                        ) || next.marked.contains(x) by {
                        assert(consolidation::is_marked(half.marks, x)
                            <==> consolidation::is_marked(over.marks, x) || before.contains(x));
                        if consolidation::is_marked(half.marks, x) {
                            let n = choose|n: int|
                                0 <= n < half.marks.len() && (#[trigger] half.marks[n]).board_path
                                    == x;
                            assert(done.marks[n] == half.marks[n]);
                        }
                        if x == path {
                            assert(done.marks[half.marks.len() as int] == mark);
                        }
                        if consolidation::is_marked(done.marks, x) && x != path {
                            let n = choose|n: int|
                                0 <= n < done.marks.len() && (#[trigger] done.marks[n]).board_path
                                    == x;
                            assert(done.marks[n] == half.marks[n]);
                        }
                    }
                }
            },
            _ => {},
        }
    }
}

pub(crate) proof fn lemma_pace_boards(
    st: Consolidation,
    over: PendingOver,
    boards: Seq<NamedBoard>,
    c: ConsolidationContext,
)
    requires
        keeps_pace(nothing_pending(), st, over, c.ids),
        over.boards == c.boards,
        over.sources == c.sources,
        all_spare(c.ids, c.sources),
        pend_boards(over, boards).needed <= c.ids.len(),
    ensures
        keeps_pace(
            pend_boards(over, boards),
            consolidation::consolidate_boards(st, boards, c),
            over,
            c.ids,
        ),
    decreases boards.len(),
{
    if boards.len() > 0 {
        let rest = boards.drop_last();
        lemma_boards_grow(over, boards, rest.len() as int);
        assert(boards.take(rest.len() as int) =~= rest);
        lemma_pace_boards(st, over, rest, c);
        lemma_pace_board(
            pend_boards(over, rest),
            consolidation::consolidate_boards(st, rest, c),
            over,
            boards.last(),
            c,
        );
    }
}

pub(crate) proof fn lemma_pace_start(
    reg: Registry,
    sources: Seq<BoardSource>,
    ids: Seq<Seq<char>>,
)
    ensures
        keeps_pace(
            nothing_pending(),
            consolidation::consolidation_start(reg),
            pending_over(reg, sources),
            ids,
        ),
{
}

/// No more ids are needed than there are rules.
pub(crate) proof fn lemma_needed_bound(over: PendingOver, boards: Seq<NamedBoard>)
    ensures
        pend_boards(over, boards).needed <= consolidation::rules_for(boards, over.sources),
    decreases boards.len(),
{
    if boards.len() > 0 {
        let rest = boards.drop_last();
        lemma_needed_bound(over, rest);
        let board = boards.last();
        let i = tables::first_index(over.sources, consolidation::source_at(board.board_path@));
        if i < over.sources.len() {
            match over.sources[i].state {
                SourceState::Rules(rules) => {
                    lemma_rules_bound(
                        pend_boards(over, rest),
                        over.rules,
                        board.name@,
                        rulebook::rule_views(rules@),
                    );
                },
                _ => {},
            }
        }
    }
}

proof fn lemma_rules_bound(
    p: Pending,
    rules: Seq<RuleView>,
    board: Seq<char>,
    sources: Seq<RuleView>,
)
    ensures
        pend_rules(p, rules, board, sources).needed <= p.needed + sources.len(),
    decreases sources.len(),
{
    if sources.len() > 0 {
        lemma_rules_bound(p, rules, board, sources.drop_last());
    }
}

/// Boards that are all marked need no id.
pub(crate) proof fn lemma_marked_need_nothing(over: PendingOver, boards: Seq<NamedBoard>)
    requires
        forall|i: int|
            0 <= i < boards.len() ==> consolidation::is_marked(
                over.marks,
                (#[trigger] boards[i]).board_path@,
            ),
    ensures
        pend_boards(over, boards).needed == 0,
    decreases boards.len(),
{
    if boards.len() > 0 {
        let rest = boards.drop_last();
        assert forall|i: int| 0 <= i < rest.len() implies consolidation::is_marked(
            over.marks,
            (#[trigger] rest[i]).board_path@,
        ) by {
            assert(rest[i] == boards[i]);
        }
        lemma_marked_need_nothing(over, rest);
        assert(boards.last() == boards[boards.len() - 1]);
    }
}

// ---------------------------------------------------------------------------- counting

spec fn pairs(boards: Seq<String>, ids: Seq<String>) -> Seq<(Seq<char>, Seq<char>)> {
    Seq::new(boards.len(), |i: int| (boards[i]@, ids[i]@))
}

/// The count so far.
struct Tally {
    ids: Vec<String>,
    boards: Vec<String>,
    source_ids: Vec<String>,
    marked: Vec<String>,
    needed: usize,
    stopped: bool,
}

impl Tally {
    spec fn shows(self, p: Pending) -> bool {
        &&& text::texts(self.ids@) == p.ids
        &&& self.boards@.len() == self.source_ids@.len()
        &&& pairs(self.boards@, self.source_ids@) == p.sources
        &&& text::texts(self.marked@) == p.marked
        &&& self.needed == p.needed
        &&& self.needed <= self.boards@.len()
        &&& self.stopped == p.stopped
    }

    fn has_pair(&self, board: &str, id: &str, Ghost(p): Ghost<Pending>) -> (r: bool)
        requires
            self.shows(p),
        ensures
            r == p.sources.contains((board@, id@)),
    {
        let mut i: usize = 0;
        while i < self.boards.len()
            invariant
                i <= self.boards@.len(),
                self.shows(p),
                forall|k: int| 0 <= k < i ==> #[trigger] p.sources[k] != (board@, id@),
            decreases self.boards.len() - i,
        {
            assert(p.sources[i as int] == (self.boards@[i as int]@, self.source_ids@[i as int]@));
            if text::same(self.boards[i].as_str(), board) && text::same(
                self.source_ids[i].as_str(),
                id,
            ) {
                return true;
            }
            i = i + 1;
        }
        false
    }

    fn count_rule(&mut self, rules: &[Rule], board: &str, id: &str, Ghost(p): Ghost<Pending>)
        requires
            old(self).shows(p),
        ensures
            final(self).shows(pend_rule(p, rulebook::rule_views(rules@), board@, id@)),
    {
        if consolidation::find_view_from(rules, board, id) < rules.len() || self.has_pair(
            board,
            id,
            Ghost(p),
        ) {
            return;
        }
        let taken = consolidation::find_view(rules, id) < rules.len() || text::holds(
            self.ids.as_slice(),
            id,
        );
        self.boards.push(board.to_owned());
        self.source_ids.push(id.to_owned());
        proof {
            assert(pairs(self.boards@, self.source_ids@) =~= p.sources.push((board@, id@)));
        }
        let count: usize = self.boards.len();
        if taken {
            assert(self.needed < count);
            self.needed = self.needed + 1;
        } else {
            self.ids.push(id.to_owned());
            proof {
                assert(text::texts(self.ids@) =~= p.ids.push(id@));
            }
        }
    }

    fn count_rules(
        &mut self,
        rules: &[Rule],
        board: &str,
        sources: &[Rule],
        Ghost(p): Ghost<Pending>,
    )
        requires
            old(self).shows(p),
        ensures
            final(self).shows(
                pend_rules(
                    p,
                    rulebook::rule_views(rules@),
                    board@,
                    rulebook::rule_views(sources@),
                ),
            ),
    {
        let ghost all = rulebook::rule_views(rules@);
        let ghost views = rulebook::rule_views(sources@);
        let mut i: usize = 0;
        proof {
            assert(views.take(0) =~= Seq::<RuleView>::empty());
        }
        while i < sources.len()
            invariant
                i <= sources@.len(),
                all == rulebook::rule_views(rules@),
                views == rulebook::rule_views(sources@),
                self.shows(pend_rules(p, all, board@, views.take(i as int))),
            decreases sources.len() - i,
        {
            proof {
                assert(views.take(i as int + 1).drop_last() =~= views.take(i as int));
                assert(views.take(i as int + 1).last() == sources@[i as int]@);
            }
            self.count_rule(
                rules,
                board,
                sources[i].id.as_str(),
                Ghost(pend_rules(p, all, board@, views.take(i as int))),
            );
            i = i + 1;
        }
        proof {
            assert(views.take(views.len() as int) =~= views);
        }
    }

    fn count_board(
        &mut self,
        reg: &Registry,
        board: &NamedBoard,
        sources: &[BoardSource],
        Ghost(p): Ghost<Pending>,
    )
        requires
            old(self).shows(p),
        ensures
            final(self).shows(pend_board(p, pending_over(*reg, sources@), *board)),
    {
        let path = board.board_path.as_str();
        if self.stopped {
            return;
        }
        if consolidation::count_named(reg.boards.as_slice(), board.name.as_str()) != 1 {
            self.stopped = true;
            return;
        }
        if consolidation::find_mark(reg.migrations.as_slice(), path) || text::holds(
            self.marked.as_slice(),
            path,
        ) {
            return;
        }
        let i: usize = consolidation::find_source(sources, path);
        if i >= sources.len() {
            self.stopped = true;
            return;
        }
        match &sources[i].state {
            SourceState::Rules(rules) => {
                self.count_rules(
                    reg.rules.as_slice(),
                    board.name.as_str(),
                    rules.as_slice(),
                    Ghost(p),
                );
                let ghost before = text::texts(self.marked@);
                self.marked.push(path.to_owned());
                proof {
                    assert(text::texts(self.marked@) =~= before.push(path@));
                }
            },
            _ => {
                self.stopped = true;
            },
        }
    }
}

/// How many ids taking over the boards needs.
pub(crate) fn count_needed(reg: &Registry, order: &[NamedBoard], sources: &[BoardSource]) -> (r:
    usize)
    requires
        order@ == consolidation::board_order(reg.boards@),
    ensures
        r == ids_needed(*reg, sources@),
{
    let ghost over = pending_over(*reg, sources@);
    let mut tally = Tally {
        ids: Vec::new(),
        boards: Vec::new(),
        source_ids: Vec::new(),
        marked: Vec::new(),
        needed: 0,
        stopped: false,
    };
    let mut i: usize = 0;
    proof {
        assert(order@.take(0) =~= Seq::<NamedBoard>::empty());
        assert(text::texts(tally.ids@) =~= seq![]);
        assert(text::texts(tally.marked@) =~= seq![]);
        assert(pairs(tally.boards@, tally.source_ids@) =~= seq![]);
    }
    while i < order.len()
        invariant
            i <= order@.len(),
            over == pending_over(*reg, sources@),
            tally.shows(pend_boards(over, order@.take(i as int))),
        decreases order.len() - i,
    {
        proof {
            assert(order@.take(i as int + 1).drop_last() =~= order@.take(i as int));
            assert(order@.take(i as int + 1).last() == order@[i as int]);
        }
        tally.count_board(
            reg,
            &order[i],
            sources,
            Ghost(pend_boards(over, order@.take(i as int))),
        );
        i = i + 1;
    }
    proof {
        assert(order@.take(order@.len() as int) =~= order@);
    }
    tally.needed
}

} // verus!
