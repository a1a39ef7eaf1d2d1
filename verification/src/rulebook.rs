//! Operations on the registry's rules and their history.

use vstd::prelude::*;

use crate::clock;
use crate::draws;
use crate::json;
use crate::ledger;
use crate::outside;
use crate::ranking;
use crate::ranking::Ranked;
use crate::rules;
use crate::rules::Rule;
use crate::rules::RuleSummary;
use crate::selectors;
use crate::tables;
use crate::tables::Registry;
use crate::text;
use crate::text::Error;

verus! {

/// The most events that one read of the history hands out.
pub const WATCH_BATCH_LIMIT: i64 = 1000;

// ------------------------------------------------------------------------- views

/// What a rule says.
pub struct RuleView {
    pub id: Seq<char>,
    pub body: Seq<char>,
    pub author: Seq<char>,
    pub archived: bool,
    pub created_at: i64,
    pub updated_at: i64,
    pub tags: Seq<Seq<char>>,
    pub source_board: Option<Seq<char>>,
    pub source_rule_id: Option<Seq<char>>,
    pub source_registry_uuid: Option<Seq<char>>,
    pub source_boards: Option<Seq<Seq<char>>>,
    pub source_content_sha256: Option<Seq<char>>,
}

impl View for Rule {
    type V = RuleView;

    open spec fn view(&self) -> RuleView {
        RuleView {
            id: self.id@,
            body: self.body@,
            author: self.author@,
            archived: self.archived,
            created_at: self.created_at,
            updated_at: self.updated_at,
            tags: text::texts(self.tags@),
            source_board: text::text_of(self.source_board),
            source_rule_id: text::text_of(self.source_rule_id),
            source_registry_uuid: text::text_of(self.source_registry_uuid),
            source_boards: rules::lists_of(self.source_boards),
            source_content_sha256: text::text_of(self.source_content_sha256),
        }
    }
}

pub open spec fn rule_views(s: Seq<Rule>) -> Seq<RuleView> {
    s.map_values(|r: Rule| r@)
}

/// A copy of a rule.
pub fn copy_rule(rule: &Rule) -> (r: Rule)
    ensures
        r@ == rule@,
{
    let source_boards = match &rule.source_boards {
        Some(list) => Some(text::copy_list(list.as_slice())),
        None => None,
    };
    Rule {
        id: rule.id.clone(),
        body: rule.body.clone(),
        author: rule.author.clone(),
        archived: rule.archived,
        created_at: rule.created_at,
        updated_at: rule.updated_at,
        tags: text::copy_list(rule.tags.as_slice()),
        source_board: rule.source_board.clone(),
        source_rule_id: rule.source_rule_id.clone(),
        source_registry_uuid: rule.source_registry_uuid.clone(),
        source_boards,
        source_content_sha256: rule.source_content_sha256.clone(),
    }
}

/// Rules stand from the oldest on, then by id.
impl Ranked for Rule {
    open spec fn before(self, other: Self) -> bool {
        if self.created_at != other.created_at {
            self.created_at < other.created_at
        } else {
            text::text_less(self.id@, other.id@)
        }
    }

    proof fn lemma_order(a: Self, b: Self, c: Self) {
        text::lemma_text_order(a.id@, b.id@, c.id@);
        text::lemma_text_order(b.id@, c.id@, a.id@);
        text::lemma_text_order(c.id@, a.id@, b.id@);
        text::lemma_text_order(c.id@, b.id@, a.id@);
        text::lemma_text_order(a.id@, c.id@, b.id@);
    }

    fn is_before(&self, other: &Self) -> (r: bool) {
        if self.created_at != other.created_at {
            self.created_at < other.created_at
        } else {
            text::less(self.id.as_str(), other.id.as_str())
        }
    }
}

proof fn lemma_insert_views(a: Seq<Rule>, x: Rule, b: Seq<Rule>, y: Rule)
    requires
        rule_views(a) == rule_views(b),
        x@ == y@,
    ensures
        rule_views(ranking::ranked_insert(a, x)) == rule_views(ranking::ranked_insert(b, y)),
    decreases a.len(),
{
    assert(a.len() == rule_views(a).len());
    assert(b.len() == rule_views(b).len());
    if a.len() > 0 {
        assert(rule_views(a).last() == a.last()@);
        assert(rule_views(b).last() == b.last()@);
        assert(rule_views(a).drop_last() =~= rule_views(a.drop_last()));
        assert(rule_views(b).drop_last() =~= rule_views(b.drop_last()));
        assert(a.last().id@ == a.last()@.id);
        assert(b.last().id@ == b.last()@.id);
        assert(a.last().created_at == a.last()@.created_at);
        assert(b.last().created_at == b.last()@.created_at);
        assert(x.id@ == x@.id && y.id@ == y@.id && x.created_at == x@.created_at && y.created_at
            == y@.created_at);
    }
    if a.len() == 0 || !x.before(a.last()) {
        assert(rule_views(a.push(x)) =~= rule_views(a).push(x@));
        assert(rule_views(b.push(y)) =~= rule_views(b).push(y@));
    } else {
        lemma_insert_views(a.drop_last(), x, b.drop_last(), y);
        let p = ranking::ranked_insert(a.drop_last(), x);
        let q = ranking::ranked_insert(b.drop_last(), y);
        assert(rule_views(p.push(a.last())) =~= rule_views(p).push(a.last()@));
        assert(rule_views(q.push(b.last())) =~= rule_views(q).push(b.last()@));
    }
}

/// The order of rules depends on what they say alone.
proof fn lemma_ranked_views(a: Seq<Rule>, b: Seq<Rule>)
    requires
        rule_views(a) == rule_views(b),
    ensures
        rule_views(ranking::ranked(a)) == rule_views(ranking::ranked(b)),
    decreases a.len(),
{
    assert(a.len() == rule_views(a).len());
    assert(b.len() == rule_views(b).len());
    if a.len() > 0 {
        assert(rule_views(a).drop_last() =~= rule_views(a.drop_last()));
        assert(rule_views(b).drop_last() =~= rule_views(b.drop_last()));
        assert(rule_views(a).last() == a.last()@);
        assert(rule_views(b).last() == b.last()@);
        lemma_ranked_views(a.drop_last(), b.drop_last());
        lemma_insert_views(
            ranking::ranked(a.drop_last()),
            a.last(),
            ranking::ranked(b.drop_last()),
            b.last(),
        );
    }
}

// ----------------------------------------------------------------------- reading

pub open spec fn is_listed(include_archived: bool) -> spec_fn(Rule) -> bool {
    |r: Rule| include_archived || !r.archived
}

pub open spec fn rule_at(id: Seq<char>) -> spec_fn(Rule) -> bool {
    |r: Rule| r.id@ == id
}

pub open spec fn applies(
    board: Option<Seq<char>>,
    task_tags: Option<Seq<Seq<char>>>,
) -> spec_fn(Rule) -> bool {
    |r: Rule| rules::tags_apply(text::texts(r.tags@), board, task_tags)
}

pub open spec fn targets(board: Option<Seq<char>>) -> spec_fn(Rule) -> bool {
    |r: Rule| rules::selectors_apply(text::texts(r.tags@), board)
}

/// The index of a rule, or the number of rules.
pub fn find_rule(all: &[Rule], id: &str) -> (r: usize)
    ensures
        r == tables::first_index(all@, rule_at(id@)),
        r <= all@.len(),
        r < all@.len() ==> all@[r as int].id@ == id@,
{
    let mut i: usize = 0;
    while i < all.len()
        invariant
            i <= all@.len(),
            forall|k: int| 0 <= k < i ==> (#[trigger] all@[k]).id@ != id@,
        decreases all.len() - i,
    {
        if text::same(all[i].id.as_str(), id) {
            proof {
                tables::lemma_first_index_is(all@, rule_at(id@), i as int);
            }
            return i;
        }
        i = i + 1;
    }
    proof {
        tables::lemma_first_index_is(all@, rule_at(id@), i as int);
    }
    i
}

impl Registry {
    /// The rules from the oldest on; retired ones only where asked for.
    pub open spec fn listed_rules(self, include_archived: bool) -> Seq<Rule> {
        ranking::ranked(tables::kept(self.rules@, is_listed(include_archived)))
    }

    /// The rules from the oldest on; retired ones only where asked for.
    pub fn rules(&self, include_archived: bool) -> (r: Vec<Rule>)
        ensures
            rule_views(r@) == rule_views(self.listed_rules(include_archived)),
    {
        let ghost p = is_listed(include_archived);
        let mut out: Vec<Rule> = Vec::new();
        let mut i: usize = 0;
        proof {
            assert(rule_views(out@) =~= rule_views(tables::kept(self.rules@.take(0), p)));
        }
        while i < self.rules.len()
            invariant
                i <= self.rules@.len(),
                p == is_listed(include_archived),
                rule_views(out@) == rule_views(tables::kept(self.rules@.take(i as int), p)),
            decreases self.rules.len() - i,
        {
            let ghost before = out@;
            let ghost kept = tables::kept(self.rules@.take(i as int), p);
            proof {
                tables::lemma_kept_step(self.rules@, p, i as int);
            }
            if include_archived || !self.rules[i].archived {
                let copy = copy_rule(&self.rules[i]);
                out.push(copy);
                proof {
                    assert(rule_views(out@) =~= rule_views(before).push(copy@));
                    assert(rule_views(kept.push(self.rules@[i as int])) =~= rule_views(kept).push(
                        self.rules@[i as int]@,
                    ));
                }
            }
            i = i + 1;
        }
        proof {
            assert(self.rules@.take(self.rules@.len() as int) =~= self.rules@);
            lemma_ranked_views(out@, tables::kept(self.rules@, p));
        }
        ranking::sort_ranked(out)
    }

    /// The summaries of the rules; every body must have a first line.
    pub fn rule_summaries(&self, include_archived: bool) -> (r: Result<Vec<RuleSummary>, Error>)
        ensures
            ({
                let all = self.listed_rules(include_archived);
                if exists|i: int|
                    0 <= i < all.len() && text::lines_of((#[trigger] all[i]).body@).len() == 0 {
                    text::refused(r, "stored rule has no headline"@)
                } else {
                    r is Ok && same_summaries(r->Ok_0@, all)
                }
            }),
    {
        let all = self.rules(include_archived);
        let ghost wanted = self.listed_rules(include_archived);
        let mut out: Vec<RuleSummary> = Vec::new();
        let mut i: usize = 0;
        proof {
            assert(all@.len() == rule_views(all@).len());
            assert(wanted.len() == rule_views(wanted).len());
        }
        while i < all.len()
            invariant
                i <= all@.len() == wanted.len(),
                wanted == self.listed_rules(include_archived),
                rule_views(all@) == rule_views(wanted),
                out@.len() == i,
                forall|k: int|
                    0 <= k < i ==> summary_of(#[trigger] out@[k], wanted[k]@),
                forall|k: int|
                    0 <= k < i ==> text::lines_of((#[trigger] wanted[k]).body@).len() > 0,
            decreases all.len() - i,
        {
            proof {
                assert(rule_views(all@)[i as int] == all@[i as int]@);
                assert(rule_views(wanted)[i as int] == wanted[i as int]@);
                assert(all@[i as int]@.body == all@[i as int].body@);
                assert(wanted[i as int]@.body == wanted[i as int].body@);
            }
            match rules::rule_summary(&all[i]) {
                Ok(summary) => {
                    proof {
                        assert(summary_of(summary, all@[i as int]@));
                    }
                    out.push(summary);
                },
                Err(e) => {
                    proof {
                        assert(text::lines_of(wanted[i as int].body@).len() == 0);
                    }
                    return Err(e);
                },
            }
            i = i + 1;
        }
        Ok(out)
    }

    /// The summaries of the rules that apply to a task of a board.
    pub fn applicable_rule_summaries(
        &self,
        board_name: Option<&str>,
        task_tags: Option<&[String]>,
        include_archived: bool,
    ) -> (r: Result<Vec<RuleSummary>, Error>)
        ensures
            ({
                let all = self.listed_rules(include_archived);
                if exists|i: int|
                    0 <= i < all.len() && text::lines_of((#[trigger] all[i]).body@).len() == 0 {
                    text::refused(r, "stored rule has no headline"@)
                } else {
                    r is Ok && same_summaries(
                        r->Ok_0@,
                        tables::kept(
                            all,
                            applies(text::str_of(board_name), rules::list_of(task_tags)),
                        ),
                    )
                }
            }),
    {
        let ghost wanted = self.listed_rules(include_archived);
        let ghost p = applies(text::str_of(board_name), rules::list_of(task_tags));
        let all = match self.rule_summaries(include_archived) {
            Ok(all) => all,
            Err(e) => {
                return Err(e);
            },
        };
        let mut out: Vec<RuleSummary> = Vec::new();
        let mut i: usize = 0;
        while i < all.len()
            invariant
                i <= all@.len() == wanted.len(),
                same_summaries(all@, wanted),
                p == applies(text::str_of(board_name), rules::list_of(task_tags)),
                same_summaries(out@, tables::kept(wanted.take(i as int), p)),
            decreases all.len() - i,
        {
            proof {
                tables::lemma_kept_step(wanted, p, i as int);
                assert(summary_of(all@[i as int], wanted[i as int]@));
                assert(wanted[i as int]@.tags == text::texts(wanted[i as int].tags@));
            }
            let ghost before = out@;
            if rules::rule_tags_apply(all[i].tags.as_slice(), board_name, task_tags) {
                let summary = copy_summary(&all[i]);
                out.push(summary);
            }
            i = i + 1;
        }
        proof {
            assert(wanted.take(wanted.len() as int) =~= wanted);
        }
        Ok(out)
    }

    /// The rules that apply to a task of a board.
    pub fn applicable_rules(
        &self,
        board_name: Option<&str>,
        task_tags: Option<&[String]>,
        include_archived: bool,
    ) -> (r: Vec<Rule>)
        ensures
            rule_views(r@) == rule_views(
                tables::kept(
                    self.listed_rules(include_archived),
                    applies(text::str_of(board_name), rules::list_of(task_tags)),
                ),
            ),
    {
        let all = self.rules(include_archived);
        let ghost wanted = self.listed_rules(include_archived);
        let ghost p = applies(text::str_of(board_name), rules::list_of(task_tags));
        let mut out: Vec<Rule> = Vec::new();
        let mut i: usize = 0;
        proof {
            assert(all@.len() == rule_views(all@).len());
            assert(wanted.len() == rule_views(wanted).len());
            assert(rule_views(out@) =~= rule_views(tables::kept(wanted.take(0), p)));
        }
        while i < all.len()
            invariant
                i <= all@.len() == wanted.len(),
                rule_views(all@) == rule_views(wanted),
                p == applies(text::str_of(board_name), rules::list_of(task_tags)),
                rule_views(out@) == rule_views(tables::kept(wanted.take(i as int), p)),
            decreases all.len() - i,
        {
            let ghost before = out@;
            let ghost kept = tables::kept(wanted.take(i as int), p);
            proof {
                tables::lemma_kept_step(wanted, p, i as int);
                assert(rule_views(all@)[i as int] == all@[i as int]@);
                assert(rule_views(wanted)[i as int] == wanted[i as int]@);
                assert(all@[i as int]@.tags == text::texts(all@[i as int].tags@));
                assert(wanted[i as int]@.tags == text::texts(wanted[i as int].tags@));
            }
            if rules::rule_tags_apply(all[i].tags.as_slice(), board_name, task_tags) {
                let copy = copy_rule(&all[i]);
                out.push(copy);
                proof {
                    assert(rule_views(out@) =~= rule_views(before).push(copy@));
                    assert(rule_views(kept.push(wanted[i as int])) =~= rule_views(kept).push(
                        wanted[i as int]@,
                    ));
                }
            }
            i = i + 1;
        }
        proof {
            assert(wanted.take(wanted.len() as int) =~= wanted);
        }
        out
    }

    /// The rules whose selectors admit a board.
    pub fn rules_targeting_board(&self, board_name: Option<&str>, include_archived: bool) -> (r:
        Vec<Rule>)
        ensures
            rule_views(r@) == rule_views(
                tables::kept(
                    self.listed_rules(include_archived),
                    targets(text::str_of(board_name)),
                ),
            ),
    {
        let all = self.rules(include_archived);
        let ghost wanted = self.listed_rules(include_archived);
        let ghost p = targets(text::str_of(board_name));
        let mut out: Vec<Rule> = Vec::new();
        let mut i: usize = 0;
        proof {
            assert(all@.len() == rule_views(all@).len());
            assert(wanted.len() == rule_views(wanted).len());
            assert(rule_views(out@) =~= rule_views(tables::kept(wanted.take(0), p)));
        }
        while i < all.len()
            invariant
                i <= all@.len() == wanted.len(),
                rule_views(all@) == rule_views(wanted),
                p == targets(text::str_of(board_name)),
                rule_views(out@) == rule_views(tables::kept(wanted.take(i as int), p)),
            decreases all.len() - i,
        {
            let ghost before = out@;
            let ghost kept = tables::kept(wanted.take(i as int), p);
            proof {
                tables::lemma_kept_step(wanted, p, i as int);
                assert(rule_views(all@)[i as int] == all@[i as int]@);
                assert(rule_views(wanted)[i as int] == wanted[i as int]@);
                assert(all@[i as int]@.tags == text::texts(all@[i as int].tags@));
                assert(wanted[i as int]@.tags == text::texts(wanted[i as int].tags@));
            }
            if rules::selector_tags_apply(all[i].tags.as_slice(), board_name) {
                let copy = copy_rule(&all[i]);
                out.push(copy);
                proof {
                    assert(rule_views(out@) =~= rule_views(before).push(copy@));
                    assert(rule_views(kept.push(wanted[i as int])) =~= rule_views(kept).push(
                        wanted[i as int]@,
                    ));
                }
            }
            i = i + 1;
        }
        proof {
            assert(wanted.take(wanted.len() as int) =~= wanted);
        }
        out
    }

    /// One rule by its id.
    pub fn rule(&self, id: &str) -> (r: Result<Rule, Error>)
        ensures
            ({
                let i = tables::first_index(self.rules@, rule_at(id@));
                if i < self.rules@.len() {
                    r is Ok && r->Ok_0@ == self.rules@[i]@
                } else {
                    text::refused(r, "rule "@ + id@ + " not found"@)
                }
            }),
    {
        let i: usize = find_rule(self.rules.as_slice(), id);
        if i < self.rules.len() {
            Ok(copy_rule(&self.rules[i]))
        } else {
            text::refuse("rule ".to_owned().concat(id).concat(" not found"))
        }
    }
}

/// `s` summarises a rule that says `v`.
pub open spec fn summary_of(s: RuleSummary, v: RuleView) -> bool {
    let lines = text::lines_of(v.body);
    &&& s.id@ == v.id
    &&& lines.len() > 0
    &&& s.headline@ == text::trimmed(lines[0])
    &&& s.has_more == rules::has_more_lines(lines)
    &&& s.bytes == vstd::utf8::encode_utf8(v.body).len() as usize
    &&& text::texts(s.tags@) == v.tags
}

/// Each summary shows what the rule of the same place says.
pub open spec fn same_summaries(list: Seq<RuleSummary>, all: Seq<Rule>) -> bool {
    &&& list.len() == all.len()
    &&& forall|i: int| 0 <= i < list.len() ==> summary_of(#[trigger] list[i], all[i]@)
}

fn copy_summary(s: &RuleSummary) -> (r: RuleSummary)
    ensures
        r.id == s.id,
        r.headline == s.headline,
        r.has_more == s.has_more,
        r.bytes == s.bytes,
        r.tags@ == s.tags@,
{
    RuleSummary {
        id: s.id.clone(),
        headline: s.headline.clone(),
        has_more: s.has_more,
        bytes: s.bytes,
        tags: text::copy_list(s.tags.as_slice()),
    }
}

// ----------------------------------------------------------------------- writing

/// The creation time of the newest rule.
pub open spec fn newest(all: Seq<Rule>) -> Option<i64>
    decreases all.len(),
{
    if all.len() == 0 {
        None
    } else {
        match newest(all.drop_last()) {
            Some(t) => if t >= all.last().created_at {
                Some(t)
            } else {
                Some(all.last().created_at)
            },
            None => Some(all.last().created_at),
        }
    }
}

/// The time stamp of a new rule: now, but later than every rule there is, as far
/// as time stamps go.
pub open spec fn rule_stamp(all: Seq<Rule>, now: i64) -> i64 {
    let previous = match newest(all) {
        Some(t) => t,
        None => 0,
    };
    let next = if previous == i64::MAX {
        i64::MAX
    } else {
        (previous + 1) as i64
    };
    if now >= next {
        now
    } else {
        next
    }
}

fn stamp_for(all: &[Rule], now: i64) -> (r: i64)
    ensures
        r == rule_stamp(all@, now),
{
    let mut previous: Option<i64> = None;
    let mut i: usize = 0;
    while i < all.len()
        invariant
            i <= all@.len(),
            previous == newest(all@.take(i as int)),
        decreases all.len() - i,
    {
        proof {
            assert(all@.take(i as int + 1).drop_last() =~= all@.take(i as int));
        }
        previous = match previous {
            Some(t) => if t >= all[i].created_at {
                Some(t)
            } else {
                Some(all[i].created_at)
            },
            None => Some(all[i].created_at),
        };
        i = i + 1;
    }
    proof {
        assert(all@.take(all@.len() as int) =~= all@);
    }
    let t: i64 = match previous {
        Some(t) => t,
        None => 0,
    };
    let next: i64 = if t == i64::MAX {
        i64::MAX
    } else {
        t + 1
    };
    if now >= next {
        now
    } else {
        next
    }
}

/// `post` is `pre` with other rules and one more event.
pub open spec fn only_rules(pre: Registry, post: Registry) -> bool {
    post == Registry { rules: post.rules, events: post.events, ..pre }
}

impl Registry {
    /// Why a rule is not added.
    pub open spec fn add_refusal(
        self,
        body: Seq<char>,
        actor: Seq<char>,
        tags: Seq<Seq<char>>,
        id: Seq<char>,
    ) -> Option<Seq<char>> {
        if rules::rule_body_refusal(body) is Some {
            rules::rule_body_refusal(body)
        } else if text::trimmed(actor).len() == 0 {
            Some("author is required"@)
        } else if selectors::selectors_refusal(id, tags, self.boards@) is Some {
            selectors::selectors_refusal(id, tags, self.boards@)
        } else if tables::first_index(self.rules@, rule_at(id)) < self.rules@.len() {
            Some("UNIQUE constraint failed: rules.id"@)
        } else {
            None
        }
    }

    /// Add a rule under a given id at a given time.
    pub fn add_rule_as(&mut self, body: &str, actor: &str, tags: &[String], id: &str, now: i64) -> (
    r: Result<Rule, Error>)
        ensures
            rule_added(
                *old(self),
                *final(self),
                r,
                body@,
                actor@,
                text::texts(tags@),
                id@,
                now,
            ),
            old(self).wf() ==> final(self).wf(),
    {
        match rules::validate_rule_body(body) {
            Ok(_) => {},
            Err(e) => {
                return Err(e);
            },
        }
        let by = match rules::validate_rule_actor(actor) {
            Ok(by) => by,
            Err(e) => {
                return Err(e);
            },
        };
        match selectors::validate_active_rule_selectors(self.boards.as_slice(), id, tags) {
            Ok(_) => {},
            Err(e) => {
                return Err(e);
            },
        }
        if find_rule(self.rules.as_slice(), id) < self.rules.len() {
            return text::refuse("UNIQUE constraint failed: rules.id".to_owned());
        }
        let ghost pre = *self;
        let stamp: i64 = stamp_for(self.rules.as_slice(), now);
        let rule = Rule {
            id: id.to_owned(),
            body: body.to_owned(),
            author: by.to_owned(),
            archived: false,
            created_at: stamp,
            updated_at: stamp,
            tags: text::copy_list(tags),
            source_board: None,
            source_rule_id: None,
            source_registry_uuid: None,
            source_boards: None,
            source_content_sha256: None,
        };
        let copy = copy_rule(&rule);
        self.rules.push(rule);
        let tag_list = json::write_array(tags);
        let members: Vec<String> = vec![
            json::text_member("ruleID", id),
            json::write_member("tags", tag_list.as_str()),
        ];
        proof {
            assert(text::texts(members@) =~= seq![
                json::member("ruleID"@, outside::json_text(id@)),
                json::member("tags"@, json::array(text::texts(tags@))),
            ]);
        }
        let payload = json::write_object(members.as_slice());
        tables::append_registry_event(
            &mut self.events,
            id,
            "rule_added",
            by,
            payload.as_str(),
            stamp,
        );
        proof {
            ledger::lemma_ledger_stays(pre, *self);
            tables::lemma_first_index(pre.rules@, rule_at(id@));
            assert forall|i: int, j: int|
                pre.wf() && 0 <= i < j < self.rules@.len() implies (
            #[trigger] self.rules@[i]).id@ != (#[trigger] self.rules@[j]).id@ by {
                if j == pre.rules@.len() {
                    assert(!rule_at(id@)(pre.rules@[i]));
                }
            }
        }
        Ok(copy)
    }

    /// Add a rule under a random id.
    pub fn add_rule(&mut self, body: &str, actor: &str, tags: &[String]) -> (r: Result<Rule, Error>)
        ensures
            exists|id: Seq<char>, now: i64|
                is_rule_id(id) && rule_added(
                    *old(self),
                    *final(self),
                    r,
                    body@,
                    actor@,
                    text::texts(tags@),
                    id,
                    now,
                ),
            old(self).wf() ==> final(self).wf(),
    {
        let id = new_rule_id();
        let now: i64 = clock::now_ms();
        self.add_rule_as(body, actor, tags, id.as_str(), now)
    }

    /// Why a rule is not retired.
    pub open spec fn retire_rule_refusal(
        self,
        id: Seq<char>,
        actor: Seq<char>,
    ) -> Option<Seq<char>> {
        let i = tables::first_index(self.rules@, rule_at(id));
        if text::trimmed(actor).len() == 0 {
            Some("author is required"@)
        } else if i >= self.rules@.len() {
            Some("rule "@ + id + " not found"@)
        } else if self.rules@[i].archived {
            Some("rule "@ + id + " is already retired"@)
        } else {
            None
        }
    }

    /// Retire a rule at a given time.
    pub fn retire_rule_at(&mut self, id: &str, actor: &str, now: i64) -> (r: Result<Rule, Error>)
        ensures
            rule_retired(*old(self), *final(self), r, id@, actor@, now),
            old(self).wf() ==> final(self).wf(),
    {
        let by = match rules::validate_rule_actor(actor) {
            Ok(by) => by,
            Err(e) => {
                return Err(e);
            },
        };
        let i: usize = find_rule(self.rules.as_slice(), id);
        if i >= self.rules.len() {
            return text::refuse("rule ".to_owned().concat(id).concat(" not found"));
        }
        if self.rules[i].archived {
            return text::refuse("rule ".to_owned().concat(id).concat(" is already retired"));
        }
        let ghost pre = *self;
        let mut rule = copy_rule(&self.rules[i]);
        rule.archived = true;
        rule.author = by.to_owned();
        rule.updated_at = now;
        let copy = copy_rule(&rule);
        self.rules.set(i, rule);
        let members: Vec<String> = vec![json::text_member("ruleID", id)];
        proof {
            assert(text::texts(members@) =~= seq![
                json::member("ruleID"@, outside::json_text(id@)),
            ]);
        }
        let payload = json::write_object(members.as_slice());
        tables::append_registry_event(
            &mut self.events,
            id,
            "rule_retired",
            by,
            payload.as_str(),
            now,
        );
        proof {
            lemma_rule_replaced_wf(pre, *self, i as int);
        }
        Ok(copy)
    }

    /// Retire a rule.
    pub fn retire_rule(&mut self, id: &str, actor: &str) -> (r: Result<Rule, Error>)
        ensures
            exists|now: i64| rule_retired(*old(self), *final(self), r, id@, actor@, now),
            old(self).wf() ==> final(self).wf(),
    {
        let now: i64 = clock::now_ms();
        self.retire_rule_at(id, actor, now)
    }
}

pub(crate) proof fn lemma_rule_replaced_wf(pre: Registry, post: Registry, i: int)
    requires
        0 <= i < pre.rules@.len(),
        post == (Registry { rules: post.rules, events: post.events, ..pre }),
        post.rules@ == pre.rules@.update(i, post.rules@[i]),
        post.rules@[i].id@ == pre.rules@[i].id@,
        post.rules@[i]@.source_registry_uuid == pre.rules@[i]@.source_registry_uuid,
        post.rules@[i]@.source_rule_id == pre.rules@[i]@.source_rule_id,
    ensures
        pre.wf() ==> post.wf(),
{
    ledger::lemma_ledger_stays(pre, post);
    if pre.wf() {
        assert forall|a: int, b: int| 0 <= a < b < post.rules@.len() implies (
        #[trigger] post.rules@[a]).id@ != (#[trigger] post.rules@[b]).id@ by {
            assert(pre.rules@[a].id@ != pre.rules@[b].id@);
        }
    }
}

/// `r-` and eight lower-case hexadecimal digits.
pub open spec fn is_rule_id(id: Seq<char>) -> bool {
    &&& id.len() == 10
    &&& id[0] == 'r'
    &&& id[1] == '-'
    &&& forall|i: int| 2 <= i < 10 ==> text::is_lower_hex(#[trigger] id[i])
}

/// A random rule id.
pub fn new_rule_id() -> (r: String)
    ensures
        is_rule_id(r@),
{
    let hex = outside::random_hex();
    let id = "r-".to_owned().concat(hex.as_str().substring_char(0, 8));
    proof {
        reveal_strlit("r-");
        assert forall|i: int| 2 <= i < 10 implies text::is_lower_hex(#[trigger] id@[i]) by {
            assert(id@[i] == hex@[i - 2]);
        }
    }
    id
}

pub open spec fn rule_ids(all: Seq<Rule>) -> Seq<Seq<char>> {
    all.map_values(|r: Rule| r.id@)
}

/// The ids of the rules.
pub fn ids_of(all: &[Rule]) -> (r: Vec<String>)
    ensures
        text::texts(r@) == rule_ids(all@),
{
    let ghost wanted = rule_ids(all@);
    let mut out: Vec<String> = Vec::new();
    let mut i: usize = 0;
    while i < all.len()
        invariant
            i <= all@.len(),
            wanted == rule_ids(all@),
            text::texts(out@) == wanted.take(i as int),
        decreases all.len() - i,
    {
        let ghost before = out@;
        out.push(all[i].id.clone());
        proof {
            assert(text::texts(out@) =~= text::texts(before).push(all@[i as int].id@));
            assert(wanted.take(i as int + 1) =~= wanted.take(i as int).push(wanted[i as int]));
        }
        i = i + 1;
    }
    proof {
        assert(wanted.take(wanted.len() as int) =~= wanted);
    }
    out
}

/// The ids are pairwise distinct, and none of them is taken.
pub open spec fn are_free(ids: Seq<Seq<char>>, taken: Seq<Seq<char>>) -> bool {
    &&& forall|i: int| 0 <= i < ids.len() ==> !taken.contains(#[trigger] ids[i])
    &&& forall|i: int, j: int| 0 <= i < j < ids.len() ==> #[trigger] ids[i] != #[trigger] ids[j]
}

/// That many more rule ids cannot be free, with so many taken.
pub open spec fn is_exhausted(taken: nat, n: nat) -> bool {
    n > 0 && taken + n > draws::NUMBER_COUNT
}

/// Random rule ids that are free and pairwise distinct. A draw that hits a taken id
/// steps on from it, so that there is none only where too many are taken.
pub fn draw_rule_ids(taken: &[String], n: usize) -> (r: Option<Vec<String>>)
    ensures
        r is None <==> is_exhausted(taken@.len(), n as nat),
        r is Some ==> {
            &&& r->0@.len() == n
            &&& are_free(text::texts(r->0@), text::texts(taken@))
            &&& forall|i: int| 0 <= i < n ==> is_rule_id(#[trigger] text::texts(r->0@)[i])
        },
{
    if n > 0 && (taken.len() as u128 + n as u128) > draws::NUMBER_COUNT as u128 {
        return None;
    }
    let mut out: Vec<String> = Vec::new();
    while out.len() < n
        invariant
            out@.len() <= n,
            n > 0 ==> taken@.len() + n <= draws::NUMBER_COUNT,
            are_free(text::texts(out@), text::texts(taken@)),
            forall|i: int| 0 <= i < out@.len() ==> is_rule_id(#[trigger] text::texts(out@)[i]),
        decreases n - out.len(),
    {
        let drawn = new_rule_id();
        let id = if text::holds(taken, drawn.as_str()) || text::holds(
            out.as_slice(),
            drawn.as_str(),
        ) {
            let next = draws::next_free("r-", drawn.as_str(), taken, out.as_slice());
            proof {
                let v = choose|v: nat| next@ == #[trigger] draws::numbered("r-"@, v);
                draws::lemma_numbered("r-"@, v);
                reveal_strlit("r-");
                assert(next@[0] == "r-"@[0] && next@[1] == "r-"@[1]);
            }
            next
        } else {
            drawn
        };
        let ghost before = text::texts(out@);
        out.push(id);
        proof {
            assert(text::texts(out@) =~= before.push(id@));
            assert forall|i: int, j: int|
                0 <= i < j < text::texts(out@).len() implies #[trigger] text::texts(out@)[i]
                != #[trigger] text::texts(out@)[j] by {
                if j == before.len() {
                    assert(before.contains(before[i]));
                }
            }
        }
    }
    Some(out)
}

/// What adding a rule returns and changes.
pub open spec fn rule_added(
    pre: Registry,
    post: Registry,
    r: Result<Rule, Error>,
    body: Seq<char>,
    actor: Seq<char>,
    tags: Seq<Seq<char>>,
    id: Seq<char>,
    now: i64,
) -> bool {
    match pre.add_refusal(body, actor, tags, id) {
        Some(m) => post == pre && text::refused(r, m),
        None => {
            let stamp = rule_stamp(pre.rules@, now);
            let view = RuleView {
                id,
                body,
                author: text::trimmed(actor),
                archived: false,
                created_at: stamp,
                updated_at: stamp,
                tags,
                source_board: None,
                source_rule_id: None,
                source_registry_uuid: None,
                source_boards: None,
                source_content_sha256: None,
            };
            &&& only_rules(pre, post)
            &&& post.rules@.len() == pre.rules@.len() + 1
            &&& post.rules@ == pre.rules@.push(post.rules@.last())
            &&& post.rules@.last()@ == view
            &&& tables::audited(
                pre.events@,
                post.events@,
                id,
                "rule_added"@,
                text::trimmed(actor),
                json::object(
                    seq![
                        json::member("ruleID"@, outside::json_text(id)),
                        json::member("tags"@, json::array(tags)),
                    ],
                ),
                stamp,
            )
            &&& r is Ok
            &&& r->Ok_0@ == view
        },
    }
}

/// What retiring a rule returns and changes.
pub open spec fn rule_retired(
    pre: Registry,
    post: Registry,
    r: Result<Rule, Error>,
    id: Seq<char>,
    actor: Seq<char>,
    now: i64,
) -> bool {
    match pre.retire_rule_refusal(id, actor) {
        Some(m) => post == pre && text::refused(r, m),
        None => {
            let i = tables::first_index(pre.rules@, rule_at(id));
            let view = RuleView {
                archived: true,
                author: text::trimmed(actor),
                updated_at: now,
                ..pre.rules@[i]@
            };
            &&& only_rules(pre, post)
            &&& 0 <= i < pre.rules@.len()
            &&& post.rules@ == pre.rules@.update(i, post.rules@[i])
            &&& post.rules@[i]@ == view
            &&& tables::audited(
                pre.events@,
                post.events@,
                id,
                "rule_retired"@,
                text::trimmed(actor),
                json::object(seq![json::member("ruleID"@, outside::json_text(id))]),
                now,
            )
            &&& r is Ok
            &&& r->Ok_0@ == view
        },
    }
}

// ------------------------------------------------------------------ tag selection

/// A task tag that a rule is to carry: its canonical name or why it has none,
/// and the registered tag that is nearest to it.
#[derive(Debug)]
pub struct TaskTag {
    pub name: Result<String, Error>,
    pub nearest: Option<String>,
}

/// The canonical names of the first tags, in the order given, or the refusal of
/// the first that is invalid, repeated or registered nowhere.
pub open spec fn task_tags_checked(tags: Seq<TaskTag>, known: Seq<Seq<char>>) -> Result<
    Seq<Seq<char>>,
    Seq<char>,
>
    decreases tags.len(),
{
    if tags.len() == 0 {
        Ok(seq![])
    } else {
        match task_tags_checked(tags.drop_last(), known) {
            Err(m) => Err(m),
            Ok(done) => match tags.last().name {
                Err(e) => Err(e.message@),
                Ok(name) => if done.contains(name@) {
                    Err(
                        "global rule task tag "@ + outside::debug_text(name@)
                            + " was given more than once"@,
                    )
                } else if !known.contains(name@) {
                    Err(
                        "global rule task tag "@ + name@
                            + " is not registered on any active board"@ + (
                        match tags.last().nearest {
                            Some(near) => ", did you mean "@ + near@ + "?"@,
                            None => seq![],
                        }),
                    )
                } else {
                    Ok(done.push(name@))
                },
            },
        }
    }
}

/// The canonical task tags of a rule, sorted.
pub open spec fn canonical_task_tags(tags: Seq<TaskTag>, known: Seq<Seq<char>>) -> Result<
    Seq<Seq<char>>,
    Seq<char>,
> {
    match task_tags_checked(tags, known) {
        Ok(done) => Ok(ranking::sorted_texts(done)),
        Err(m) => Err(m),
    }
}

/// The result is the given list, or the given refusal.
pub open spec fn gives(r: Result<Vec<String>, Error>, wanted: Result<Seq<Seq<char>>, Seq<char>>) -> bool {
    match wanted {
        Ok(list) => r is Ok && text::texts(r->Ok_0@) == list,
        Err(m) => text::refused(r, m),
    }
}

proof fn lemma_checked_prefix(tags: Seq<TaskTag>, known: Seq<Seq<char>>, n: int)
    requires
        0 <= n <= tags.len(),
        task_tags_checked(tags.take(n), known) is Err,
    ensures
        task_tags_checked(tags, known) == task_tags_checked(tags.take(n), known),
    decreases tags.len(),
{
    if n == tags.len() {
        assert(tags.take(n) =~= tags);
    } else {
        assert(tags.drop_last().take(n) =~= tags.take(n));
        lemma_checked_prefix(tags.drop_last(), known, n);
    }
}

/// The canonical task tags of a rule: each registered on some active board, none
/// twice, in order.
pub fn canonical_rule_task_tags(tags: &[TaskTag], known: &[String]) -> (r: Result<
    Vec<String>,
    Error,
>)
    ensures
        gives(r, canonical_task_tags(tags@, text::texts(known@))),
{
    let ghost all_known = text::texts(known@);
    let mut done: Vec<String> = Vec::new();
    let mut i: usize = 0;
    proof {
        assert(tags@.take(0) =~= Seq::<TaskTag>::empty());
        assert(text::texts(done@) =~= seq![]);
    }
    while i < tags.len()
        invariant
            i <= tags@.len(),
            all_known == text::texts(known@),
            task_tags_checked(tags@.take(i as int), all_known) == Ok::<Seq<Seq<char>>, Seq<char>>(
                text::texts(done@),
            ),
        decreases tags.len() - i,
    {
        proof {
            assert(tags@.take(i as int + 1).drop_last() =~= tags@.take(i as int));
            assert(tags@.take(i as int + 1).last() == tags@[i as int]);
            if task_tags_checked(tags@.take(i as int + 1), all_known) is Err {
                lemma_checked_prefix(tags@, all_known, i as int + 1);
            }
        }
        match &tags[i].name {
            Err(e) => {
                return text::refuse(e.message.clone());
            },
            Ok(name) => {
                if text::holds(done.as_slice(), name.as_str()) {
                    return text::refuse(
                        "global rule task tag ".to_owned().concat(
                            outside::debug(name.as_str()).as_str(),
                        ).concat(" was given more than once"),
                    );
                }
                if !text::holds(known, name.as_str()) {
                    let head = "global rule task tag ".to_owned().concat(name.as_str()).concat(
                        " is not registered on any active board",
                    );
                    let hint = match &tags[i].nearest {
                        Some(near) => ", did you mean ".to_owned().concat(near.as_str()).concat(
                            "?",
                        ),
                        None => {
                            let none = String::new();
                            proof {
                                assert(none@ =~= seq![]);
                            }
                            none
                        },
                    };
                    return text::refuse(head.concat(hint.as_str()));
                }
                let ghost before = done@;
                done.push(name.clone());
                proof {
                    assert(text::texts(done@) =~= text::texts(before).push(name@));
                }
            },
        }
        i = i + 1;
    }
    proof {
        assert(tags@.take(tags@.len() as int) =~= tags@);
    }
    Ok(ranking::sort_texts(done))
}

/// The place of the first text that occurred before, or the length.
pub open spec fn first_repeat(s: Seq<Seq<char>>) -> int
    decreases s.len(),
{
    if s.len() == 0 {
        0
    } else {
        let earlier = first_repeat(s.drop_last());
        if earlier < s.len() - 1 {
            earlier
        } else if s.drop_last().contains(s.last()) {
            s.len() - 1
        } else {
            s.len() as int
        }
    }
}

/// The first text that occurred before, if one did.
pub fn repeated(list: &[String]) -> (r: Option<usize>)
    ensures
        match r {
            Some(i) => i == first_repeat(text::texts(list@)) && i < list@.len(),
            None => first_repeat(text::texts(list@)) == list@.len(),
        },
{
    let ghost all = text::texts(list@);
    let mut seen: Vec<String> = Vec::new();
    let mut i: usize = 0;
    proof {
        assert(text::texts(seen@) =~= all.take(0));
    }
    while i < list.len()
        invariant
            i <= list@.len(),
            all == text::texts(list@),
            text::texts(seen@) == all.take(i as int),
            first_repeat(all.take(i as int)) == i,
        decreases list.len() - i,
    {
        proof {
            assert(all.take(i as int + 1).drop_last() =~= all.take(i as int));
            assert(all.take(i as int + 1).last() == list@[i as int]@);
            lemma_first_repeat_stays(all, i as int + 1);
        }
        if text::holds(seen.as_slice(), list[i].as_str()) {
            return Some(i);
        }
        let ghost before = seen@;
        seen.push(list[i].clone());
        proof {
            assert(text::texts(seen@) =~= all.take(i as int + 1));
        }
        i = i + 1;
    }
    proof {
        assert(all.take(all.len() as int) =~= all);
    }
    None
}

proof fn lemma_first_repeat_stays(s: Seq<Seq<char>>, n: int)
    requires
        0 <= n <= s.len(),
    ensures
        first_repeat(s.take(n)) < n ==> first_repeat(s) == first_repeat(s.take(n)),
    decreases s.len(),
{
    if n < s.len() {
        lemma_first_repeat_stays(s.drop_last(), n);
        assert(s.drop_last().take(n) =~= s.take(n));
    } else {
        assert(s.take(n) =~= s);
    }
}

/// The boards that a rule is to be for: all of them where none is given.
pub open spec fn board_targets(boards: Seq<Seq<char>>) -> Seq<Seq<char>> {
    if boards.len() == 0 {
        seq!["ALL"@]
    } else {
        boards
    }
}

pub open spec fn is_named_target() -> spec_fn(Seq<char>) -> bool {
    |name: Seq<char>| name != "ALL"@
}

impl Registry {
    /// Why a board target is no board, if so.
    pub open spec fn target_refusal(self, name: Seq<char>) -> Option<Seq<char>> {
        let count = self.named_boards(name, false).len();
        if name == "ALL"@ {
            Some("ALL is only valid as --board ALL, never --except-board ALL"@)
        } else if count == 0 {
            Some("no registered Kanban board named "@ + name)
        } else if count > 1 {
            Some(
                text::decimal(count as int) + " registered Kanban boards are named "@ + name
                    + "; board tags require a unique name"@,
            )
        } else {
            None
        }
    }

    /// The refusal of the first of the given targets that has one.
    pub open spec fn targets_refusal(self, names: Seq<Seq<char>>) -> Option<Seq<char>>
        decreases names.len(),
    {
        if names.len() == 0 {
            None
        } else {
            match self.targets_refusal(names.drop_last()) {
                Some(m) => Some(m),
                None => self.target_refusal(names.last()),
            }
        }
    }

    /// The canonical selector tags for the boards to include and to leave out.
    pub open spec fn board_tags(
        self,
        boards: Seq<Seq<char>>,
        except: Seq<Seq<char>>,
    ) -> Result<Seq<Seq<char>>, Seq<char>> {
        let included = board_targets(boards);
        let every = included + except;
        let repeat = first_repeat(every);
        let all = included.contains("ALL"@);
        let named = tables::kept(included, is_named_target()) + except;
        if repeat < every.len() {
            Err(
                "board target "@ + outside::debug_text(every[repeat])
                    + " was given more than once"@,
            )
        } else if all && included.len() != 1 {
            Err("ALL cannot be combined with named --board targets"@)
        } else if !all && except.len() > 0 {
            Err("--except-board requires ALL scope; omit --board or pass --board ALL"@)
        } else if self.targets_refusal(named) is Some {
            Err(self.targets_refusal(named)->0)
        } else {
            let head = if all {
                seq!["ALL"@]
            } else {
                included.map_values(|name: Seq<char>| "ONLY:"@ + name)
            };
            Ok(head + except.map_values(|name: Seq<char>| "EXCEPT:"@ + name))
        }
    }

    fn check_target(&self, name: &str) -> (r: Result<(), Error>)
        ensures
            match self.target_refusal(name@) {
                Some(m) => text::refused(r, m),
                None => r is Ok,
            },
    {
        if text::same(name, "ALL") {
            return text::refuse(
                "ALL is only valid as --board ALL, never --except-board ALL".to_owned(),
            );
        }
        let count: usize = self.boards_named(name, false).len();
        if count == 0 {
            return text::refuse("no registered Kanban board named ".to_owned().concat(name));
        }
        if count > 1 {
            return text::refuse(
                text::show_u64(count as u64).concat(" registered Kanban boards are named ").concat(
                    name,
                ).concat("; board tags require a unique name"),
            );
        }
        Ok(())
    }

    fn check_targets(&self, names: &[String]) -> (r: Result<(), Error>)
        ensures
            match self.targets_refusal(text::texts(names@)) {
                Some(m) => text::refused(r, m),
                None => r is Ok,
            },
    {
        let ghost all = text::texts(names@);
        let mut i: usize = 0;
        proof {
            assert(all.take(0) =~= Seq::<Seq<char>>::empty());
        }
        while i < names.len()
            invariant
                i <= names@.len(),
                all == text::texts(names@),
                self.targets_refusal(all.take(i as int)) is None,
            decreases names.len() - i,
        {
            proof {
                assert(all.take(i as int + 1).drop_last() =~= all.take(i as int));
                assert(all.take(i as int + 1).last() == names@[i as int]@);
                lemma_targets_refusal_stays(*self, all, i as int + 1);
            }
            match self.check_target(names[i].as_str()) {
                Ok(_) => {},
                Err(e) => {
                    return Err(e);
                },
            }
            i = i + 1;
        }
        proof {
            assert(all.take(all.len() as int) =~= all);
        }
        Ok(())
    }

    /// Turn boards to include and to leave out into the canonical selector tags.
    pub fn canonical_board_tags(&self, boards: &[String], except_boards: &[String]) -> (r: Result<
        Vec<String>,
        Error,
    >)
        ensures
            gives(r, self.board_tags(text::texts(boards@), text::texts(except_boards@))),
    {
        let ghost except = text::texts(except_boards@);
        let included: Vec<String> = if boards.len() == 0 {
            vec!["ALL".to_owned()]
        } else {
            text::copy_list(boards)
        };
        let ghost inc = text::texts(included@);
        proof {
            assert(inc =~= board_targets(text::texts(boards@)));
        }
        let mut every: Vec<String> = text::copy_list(included.as_slice());
        let mut rest: Vec<String> = text::copy_list(except_boards);
        every.append(&mut rest);
        proof {
            assert(text::texts(every@) =~= inc + except);
        }
        if let Some(i) = repeated(every.as_slice()) {
            proof {
                assert(text::texts(every@)[i as int] == every@[i as int]@);
            }
            return text::refuse(
                "board target ".to_owned().concat(outside::debug(every[i].as_str()).as_str()).concat(
                    " was given more than once",
                ),
            );
        }
        let all = text::holds(included.as_slice(), "ALL");
        if all && included.len() != 1 {
            return text::refuse("ALL cannot be combined with named --board targets".to_owned());
        }
        if !all && except_boards.len() > 0 {
            return text::refuse(
                "--except-board requires ALL scope; omit --board or pass --board ALL".to_owned(),
            );
        }
        let ghost p = is_named_target();
        let mut named: Vec<String> = Vec::new();
        let mut i: usize = 0;
        proof {
            assert(text::texts(named@) =~= tables::kept(inc.take(0), p));
        }
        while i < included.len()
            invariant
                i <= included@.len(),
                inc == text::texts(included@),
                p == is_named_target(),
                text::texts(named@) == tables::kept(inc.take(i as int), p),
            decreases included.len() - i,
        {
            let ghost before = named@;
            proof {
                tables::lemma_kept_step(inc, p, i as int);
            }
            if !text::same(included[i].as_str(), "ALL") {
                named.push(included[i].clone());
                proof {
                    assert(text::texts(named@) =~= text::texts(before).push(
                        included@[i as int]@,
                    ));
                }
            }
            i = i + 1;
        }
        proof {
            assert(inc.take(inc.len() as int) =~= inc);
        }
        let ghost first = named@;
        let mut rest: Vec<String> = text::copy_list(except_boards);
        named.append(&mut rest);
        let ghost targets = text::texts(named@);
        proof {
            assert(targets =~= tables::kept(inc, p) + except);
        }
        match self.check_targets(named.as_slice()) {
            Ok(_) => {},
            Err(e) => {
                return Err(e);
            },
        }
        let mut tags: Vec<String> = if all {
            vec!["ALL".to_owned()]
        } else {
            prefixed(included.as_slice(), "ONLY:")
        };
        let mut left_out = prefixed(except_boards, "EXCEPT:");
        let ghost head = tags@;
        let ghost tail = left_out@;
        tags.append(&mut left_out);
        proof {
            assert(text::texts(tags@) =~= text::texts(head) + text::texts(tail));
            if all {
                assert(text::texts(head) =~= seq!["ALL"@]);
            } else {
                assert(text::texts(head) =~= inc.map_values(|name: Seq<char>| "ONLY:"@ + name));
            }
            assert(text::texts(tail) =~= except.map_values(|name: Seq<char>| "EXCEPT:"@ + name));
        }
        Ok(tags)
    }

    /// The canonical tags of a rule: its selectors, then its task tags.
    pub fn canonical_rule_tags(
        &self,
        boards: &[String],
        except_boards: &[String],
        subsystem_tags: &[TaskTag],
        known: &[String],
    ) -> (r: Result<Vec<String>, Error>)
        ensures
            match self.board_tags(text::texts(boards@), text::texts(except_boards@)) {
                Err(m) => text::refused(r, m),
                Ok(selectors) => match canonical_task_tags(subsystem_tags@, text::texts(known@)) {
                    Err(m) => text::refused(r, m),
                    Ok(subsystems) => r is Ok && text::texts(r->Ok_0@) == selectors + subsystems,
                },
            },
    {
        let mut tags = match self.canonical_board_tags(boards, except_boards) {
            Ok(tags) => tags,
            Err(e) => {
                return Err(e);
            },
        };
        let mut subsystems = match canonical_rule_task_tags(subsystem_tags, known) {
            Ok(tags) => tags,
            Err(e) => {
                return Err(e);
            },
        };
        let ghost a = tags@;
        let ghost b = subsystems@;
        tags.append(&mut subsystems);
        proof {
            assert(text::texts(tags@) =~= text::texts(a) + text::texts(b));
        }
        Ok(tags)
    }
}

proof fn lemma_targets_refusal_stays(reg: Registry, names: Seq<Seq<char>>, n: int)
    requires
        0 <= n <= names.len(),
    ensures
        reg.targets_refusal(names.take(n)) is Some ==> reg.targets_refusal(names)
            == reg.targets_refusal(names.take(n)),
    decreases names.len(),
{
    if n < names.len() {
        lemma_targets_refusal_stays(reg, names.drop_last(), n);
        assert(names.drop_last().take(n) =~= names.take(n));
    } else {
        assert(names.take(n) =~= names);
    }
}

/// Each text behind a prefix.
fn prefixed(list: &[String], prefix: &str) -> (r: Vec<String>)
    ensures
        text::texts(r@) == text::texts(list@).map_values(|name: Seq<char>| prefix@ + name),
{
    let ghost wanted = text::texts(list@).map_values(|name: Seq<char>| prefix@ + name);
    let mut out: Vec<String> = Vec::new();
    let mut i: usize = 0;
    while i < list.len()
        invariant
            i <= list@.len(),
            wanted == text::texts(list@).map_values(|name: Seq<char>| prefix@ + name),
            text::texts(out@) == wanted.take(i as int),
        decreases list.len() - i,
    {
        let ghost before = out@;
        let tag = prefix.to_owned().concat(list[i].as_str());
        out.push(tag);
        proof {
            assert(text::texts(out@) =~= text::texts(before).push(tag@));
            assert(wanted.take(i as int + 1) =~= wanted.take(i as int).push(wanted[i as int]));
        }
        i = i + 1;
    }
    proof {
        assert(wanted.take(wanted.len() as int) =~= wanted);
    }
    out
}

} // verus!
