//! Changing rules, and reading the history of changes.

use vstd::prelude::*;

use crate::clock;
use crate::json;
use crate::outside;
use crate::records::Event;
use crate::rulebook;
use crate::rulebook::RuleView;
use crate::rulebook::TaskTag;
use crate::rulebook::WATCH_BATCH_LIMIT;
use crate::rules;
use crate::rules::Rule;
use crate::selectors;
use crate::tables;
use crate::tables::EventRow;
use crate::tables::Registry;
use crate::text;
use crate::text::Error;

verus! {

// ------------------------------------------------------------------------ update

pub open spec fn selector_tag() -> spec_fn(Seq<char>) -> bool {
    |tag: Seq<char>| rules::is_selector(tag)
}

pub open spec fn subsystem_tag() -> spec_fn(Seq<char>) -> bool {
    |tag: Seq<char>| !rules::is_selector(tag)
}

/// The tags of a rule after a change of its selectors or of its task tags; what
/// is not given stays.
pub open spec fn changed_tags(
    previous: Seq<Seq<char>>,
    selectors: Option<Seq<Seq<char>>>,
    subsystems: Option<Seq<Seq<char>>>,
) -> Seq<Seq<char>> {
    let head = match selectors {
        Some(tags) => tags,
        None => tables::kept(previous, selector_tag()),
    };
    let tail = match subsystems {
        Some(tags) => tags,
        None => tables::kept(previous, subsystem_tag()),
    };
    head + tail
}

/// What a change touched.
pub open spec fn changed_fields(body: bool, selectors: bool, subsystems: bool) -> Seq<Seq<char>> {
    (if body {
        seq!["body"@]
    } else {
        seq![]
    }) + (if selectors {
        seq!["selectorTags"@]
    } else {
        seq![]
    }) + (if subsystems {
        seq!["subsystemTags"@]
    } else {
        seq![]
    })
}

/// What a rule is to be changed to.
pub struct Change {
    pub body: Option<Seq<char>>,
    pub selectors: Option<Seq<Seq<char>>>,
    pub subsystems: Option<Seq<TaskTag>>,
    pub known: Seq<Seq<char>>,
}

pub open spec fn task_list(o: Option<&[TaskTag]>) -> Option<Seq<TaskTag>> {
    match o {
        Some(list) => Some(list@),
        None => None,
    }
}

pub open spec fn change_of(
    body: Option<&str>,
    selector_tags: Option<&[String]>,
    subsystem_tags: Option<&[TaskTag]>,
    known: &[String],
) -> Change {
    Change {
        body: text::str_of(body),
        selectors: rules::list_of(selector_tags),
        subsystems: task_list(subsystem_tags),
        known: text::texts(known@),
    }
}

impl Change {
    /// The canonical task tags, where the change gives any and they are valid.
    pub open spec fn task_tags(self) -> Option<Seq<Seq<char>>> {
        match self.subsystems {
            Some(tags) => match rulebook::canonical_task_tags(tags, self.known) {
                Ok(list) => Some(list),
                Err(_) => None,
            },
            None => None,
        }
    }
}

impl Registry {
    /// Why a rule is not changed.
    pub open spec fn update_refusal(
        self,
        id: Seq<char>,
        change: Change,
        actor: Seq<char>,
    ) -> Option<Seq<char>> {
        let i = tables::first_index(self.rules@, rulebook::rule_at(id));
        if change.body is None && change.selectors is None && change.subsystems is None {
            Some(
                "rule update requires --body/--body-file, --board/--except-board, --tag, or --clear-tags"@,
            )
        } else if change.body is Some && rules::rule_body_refusal(change.body->0) is Some {
            rules::rule_body_refusal(change.body->0)
        } else if change.subsystems is Some && rulebook::canonical_task_tags(
            change.subsystems->0,
            change.known,
        ) is Err {
            Some(rulebook::canonical_task_tags(change.subsystems->0, change.known)->Err_0)
        } else if text::trimmed(actor).len() == 0 {
            Some("author is required"@)
        } else if i >= self.rules@.len() {
            Some("rule "@ + id + " not found"@)
        } else if !self.rules@[i].archived {
            selectors::selectors_refusal(
                id,
                changed_tags(
                    text::texts(self.rules@[i].tags@),
                    change.selectors,
                    change.task_tags(),
                ),
                self.boards@,
            )
        } else {
            None
        }
    }
}

/// What changing a rule returns and changes.
pub open spec fn rule_updated(
    pre: Registry,
    post: Registry,
    r: Result<Rule, Error>,
    id: Seq<char>,
    change: Change,
    actor: Seq<char>,
    now: i64,
) -> bool {
    match pre.update_refusal(id, change, actor) {
        Some(m) => post == pre && text::refused(r, m),
        None => {
            let i = tables::first_index(pre.rules@, rulebook::rule_at(id));
            let previous = pre.rules@[i]@;
            let view = RuleView {
                body: match change.body {
                    Some(body) => body,
                    None => previous.body,
                },
                tags: changed_tags(previous.tags, change.selectors, change.task_tags()),
                author: text::trimmed(actor),
                updated_at: now,
                ..previous
            };
            &&& rulebook::only_rules(pre, post)
            &&& 0 <= i < pre.rules@.len()
            &&& post.rules@ == pre.rules@.update(i, post.rules@[i])
            &&& post.rules@[i]@ == view
            &&& tables::audited(
                pre.events@,
                post.events@,
                id,
                "rule_updated"@,
                text::trimmed(actor),
                json::object(
                    seq![
                        json::member(
                            "changed"@,
                            json::array(
                                changed_fields(
                                    change.body is Some,
                                    change.selectors is Some,
                                    change.subsystems is Some,
                                ),
                            ),
                        ),
                        json::member("previousBody"@, outside::json_text(previous.body)),
                        json::member("previousTags"@, json::array(previous.tags)),
                        json::member("ruleID"@, outside::json_text(id)),
                    ],
                ),
                now,
            )
            &&& r is Ok
            &&& r->Ok_0@ == view
        },
    }
}

fn tags_where(tags: &[String], selector: bool) -> (r: Vec<String>)
    ensures
        text::texts(r@) == tables::kept(
            text::texts(tags@),
            if selector {
                selector_tag()
            } else {
                subsystem_tag()
            },
        ),
{
    let ghost all = text::texts(tags@);
    let ghost p = if selector {
        selector_tag()
    } else {
        subsystem_tag()
    };
    let mut out: Vec<String> = Vec::new();
    let mut i: usize = 0;
    proof {
        assert(text::texts(out@) =~= tables::kept(all.take(0), p));
    }
    while i < tags.len()
        invariant
            i <= tags@.len(),
            all == text::texts(tags@),
            p == (if selector {
                selector_tag()
            } else {
                subsystem_tag()
            }),
            text::texts(out@) == tables::kept(all.take(i as int), p),
        decreases tags.len() - i,
    {
        let ghost before = out@;
        proof {
            tables::lemma_kept_step(all, p, i as int);
        }
        if rules::is_selector_tag(tags[i].as_str()) == selector {
            out.push(tags[i].clone());
            proof {
                assert(text::texts(out@) =~= text::texts(before).push(tags@[i as int]@));
            }
        }
        i = i + 1;
    }
    proof {
        assert(all.take(all.len() as int) =~= all);
    }
    out
}

fn new_tags(
    previous: &[String],
    selector_tags: Option<&[String]>,
    subsystems: Option<Vec<String>>,
) -> (r: Vec<String>)
    ensures
        text::texts(r@) == changed_tags(
            text::texts(previous@),
            rules::list_of(selector_tags),
            rules::lists_of(subsystems),
        ),
{
    let mut head = match selector_tags {
        Some(tags) => text::copy_list(tags),
        None => tags_where(previous, true),
    };
    let mut tail = match subsystems {
        Some(tags) => tags,
        None => tags_where(previous, false),
    };
    let ghost a = head@;
    let ghost b = tail@;
    head.append(&mut tail);
    proof {
        assert(text::texts(head@) =~= text::texts(a) + text::texts(b));
    }
    head
}

fn field_names(body: bool, selectors: bool, subsystems: bool) -> (r: Vec<String>)
    ensures
        text::texts(r@) == changed_fields(body, selectors, subsystems),
{
    let mut out: Vec<String> = Vec::new();
    if body {
        out.push("body".to_owned());
    }
    if selectors {
        out.push("selectorTags".to_owned());
    }
    if subsystems {
        out.push("subsystemTags".to_owned());
    }
    proof {
        assert(text::texts(out@) =~= changed_fields(body, selectors, subsystems));
    }
    out
}

impl Registry {
    /// Change a rule at a given time. `known` holds the tags that some active
    /// board registers.
    pub fn update_rule_at(
        &mut self,
        id: &str,
        body: Option<&str>,
        selector_tags: Option<&[String]>,
        subsystem_tags: Option<&[TaskTag]>,
        known: &[String],
        actor: &str,
        now: i64,
    ) -> (r: Result<Rule, Error>)
        ensures
            rule_updated(
                *old(self),
                *final(self),
                r,
                id@,
                change_of(body, selector_tags, subsystem_tags, known),
                actor@,
                now,
            ),
            old(self).wf() ==> final(self).wf(),
    {
        let ghost change = change_of(body, selector_tags, subsystem_tags, known);
        if body.is_none() && selector_tags.is_none() && subsystem_tags.is_none() {
            return text::refuse(
                "rule update requires --body/--body-file, --board/--except-board, --tag, or --clear-tags".to_owned(),
            );
        }
        if let Some(body) = body {
            match rules::validate_rule_body(body) {
                Ok(_) => {},
                Err(e) => {
                    return Err(e);
                },
            }
        }
        let subsystems = match subsystem_tags {
            Some(tags) => match rulebook::canonical_rule_task_tags(tags, known) {
                Ok(list) => Some(list),
                Err(e) => {
                    return Err(e);
                },
            },
            None => None,
        };
        proof {
            assert(rules::lists_of(subsystems) == change.task_tags());
        }
        let by = match rules::validate_rule_actor(actor) {
            Ok(by) => by,
            Err(e) => {
                return Err(e);
            },
        };
        let i: usize = rulebook::find_rule(self.rules.as_slice(), id);
        if i >= self.rules.len() {
            return text::refuse("rule ".to_owned().concat(id).concat(" not found"));
        }
        let tags = new_tags(self.rules[i].tags.as_slice(), selector_tags, subsystems);
        if !self.rules[i].archived {
            match selectors::validate_active_rule_selectors(
                self.boards.as_slice(),
                id,
                tags.as_slice(),
            ) {
                Ok(_) => {},
                Err(e) => {
                    return Err(e);
                },
            }
        }
        let ghost pre = *self;
        let previous_body = self.rules[i].body.clone();
        let previous_tags = json::write_array(self.rules[i].tags.as_slice());
        let ghost previous = self.rules@[i as int]@;
        let mut rule = rulebook::copy_rule(&self.rules[i]);
        if let Some(body) = body {
            rule.body = body.to_owned();
        }
        rule.tags = tags;
        rule.author = by.to_owned();
        rule.updated_at = now;
        let copy = rulebook::copy_rule(&rule);
        self.rules.set(i, rule);
        let names = field_names(
            body.is_some(),
            selector_tags.is_some(),
            subsystem_tags.is_some(),
        );
        let changed = json::write_array(names.as_slice());
        let members: Vec<String> = vec![
            json::write_member("changed", changed.as_str()),
            json::text_member("previousBody", previous_body.as_str()),
            json::write_member("previousTags", previous_tags.as_str()),
            json::text_member("ruleID", id),
        ];
        proof {
            assert(text::texts(members@) =~= seq![
                json::member(
                    "changed"@,
                    json::array(
                        changed_fields(
                            change.body is Some,
                            change.selectors is Some,
                            change.subsystems is Some,
                        ),
                    ),
                ),
                json::member("previousBody"@, outside::json_text(previous.body)),
                json::member("previousTags"@, json::array(previous.tags)),
                json::member("ruleID"@, outside::json_text(id@)),
            ]);
        }
        let payload = json::write_object(members.as_slice());
        tables::append_registry_event(
            &mut self.events,
            id,
            "rule_updated",
            by,
            payload.as_str(),
            now,
        );
        proof {
            rulebook::lemma_rule_replaced_wf(pre, *self, i as int);
        }
        Ok(copy)
    }

    /// Change a rule.
    pub fn update_rule(
        &mut self,
        id: &str,
        body: Option<&str>,
        selector_tags: Option<&[String]>,
        subsystem_tags: Option<&[TaskTag]>,
        known: &[String],
        actor: &str,
    ) -> (r: Result<Rule, Error>)
        ensures
            exists|now: i64|
                rule_updated(
                    *old(self),
                    *final(self),
                    r,
                    id@,
                    change_of(body, selector_tags, subsystem_tags, known),
                    actor@,
                    now,
                ),
            old(self).wf() ==> final(self).wf(),
    {
        let now: i64 = clock::now_ms();
        self.update_rule_at(id, body, selector_tags, subsystem_tags, known, actor, now)
    }
}

// ----------------------------------------------------------------------- history

/// `e` shows the event of a row.
pub open spec fn is_event_record(e: Event, row: EventRow) -> bool {
    &&& e.seq == row.seq
    &&& e.task_id is None
    &&& e.kind@ == row.kind@
    &&& text::text_of(e.actor) == Some(row.actor@)
    &&& e.payload@ == row.payload@
    &&& e.created_at == row.created_at
    &&& !e.archived
    &&& text::text_of(e.prev_hash) == text::text_of(row.prev_hash)
    &&& text::text_of(e.event_hash) == text::text_of(row.event_hash)
}

pub open spec fn are_event_records(list: Seq<Event>, rows: Seq<EventRow>) -> bool {
    &&& list.len() == rows.len()
    &&& forall|i: int| 0 <= i < list.len() ==> is_event_record(#[trigger] list[i], rows[i])
}

/// An event of the history as a record.
pub fn rule_event_row(row: &EventRow) -> (r: Event)
    ensures
        is_event_record(r, *row),
{
    Event {
        seq: row.seq,
        task_id: None,
        kind: row.kind.clone(),
        actor: Some(row.actor.clone()),
        payload: row.payload.clone(),
        created_at: row.created_at,
        archived: false,
        prev_hash: row.prev_hash.clone(),
        event_hash: row.event_hash.clone(),
    }
}

pub open spec fn limit_refusal(limit: i64) -> Option<Seq<char>> {
    if 0 <= limit <= WATCH_BATCH_LIMIT {
        None
    } else {
        Some("--limit must be between 0 and 1000, got "@ + text::decimal(limit as int))
    }
}

/// A read of the history hands out a bounded number of events.
pub fn validate_event_limit(limit: i64) -> (r: Result<(), Error>)
    ensures
        match limit_refusal(limit) {
            Some(m) => text::refused(r, m),
            None => r is Ok,
        },
{
    if limit < 0 || limit > WATCH_BATCH_LIMIT {
        return text::refuse(
            "--limit must be between 0 and 1000, got ".to_owned().concat(
                text::show_i64(limit).as_str(),
            ),
        );
    }
    Ok(())
}

/// The events of a rule, where one is given, of the given kinds, where there are
/// any, behind a cursor.
pub open spec fn event_fits(
    rule: Option<Seq<char>>,
    kinds: Seq<Seq<char>>,
    cursor: Option<i64>,
) -> spec_fn(EventRow) -> bool {
    |e: EventRow|
        {
            &&& rule is None || rule == Some(e.rule_id@)
            &&& kinds.len() == 0 || kinds.contains(e.kind@)
            &&& cursor is None || e.seq > cursor->0
        }
}

pub open spec fn kind_list(kind: Option<Seq<char>>) -> Seq<Seq<char>> {
    match kind {
        Some(k) => seq![k],
        None => seq![],
    }
}

/// The first events, at most `limit`; all of them where the limit is negative.
pub open spec fn first_events(rows: Seq<EventRow>, limit: i64) -> Seq<EventRow> {
    if 0 <= limit < rows.len() {
        rows.take(limit as int)
    } else {
        rows
    }
}

impl Registry {
    /// Why the history of a rule cannot be read.
    pub open spec fn unknown_rule(self, rule: Option<Seq<char>>) -> Option<Seq<char>> {
        if rule is Some && tables::first_index(self.rules@, rulebook::rule_at(rule->0))
            >= self.rules@.len() {
            Some("rule "@ + rule->0 + " not found"@)
        } else {
            None
        }
    }

    fn check_rule(&self, rule: Option<&str>) -> (r: Result<(), Error>)
        ensures
            match self.unknown_rule(text::str_of(rule)) {
                Some(m) => text::refused(r, m),
                None => r is Ok,
            },
    {
        if let Some(id) = rule {
            if rulebook::find_rule(self.rules.as_slice(), id) >= self.rules.len() {
                return text::refuse("rule ".to_owned().concat(id).concat(" not found"));
            }
        }
        Ok(())
    }

    /// The fitting events in the order they were written.
    fn fitting(&self, rule: Option<&str>, kinds: &[String], cursor: Option<i64>) -> (r: Vec<Event>)
        ensures
            are_event_records(
                r@,
                tables::kept(
                    self.events@,
                    event_fits(text::str_of(rule), text::texts(kinds@), cursor),
                ),
            ),
    {
        let ghost p = event_fits(text::str_of(rule), text::texts(kinds@), cursor);
        let mut out: Vec<Event> = Vec::new();
        let mut i: usize = 0;
        while i < self.events.len()
            invariant
                i <= self.events@.len(),
                p == event_fits(text::str_of(rule), text::texts(kinds@), cursor),
                are_event_records(out@, tables::kept(self.events@.take(i as int), p)),
            decreases self.events.len() - i,
        {
            proof {
                tables::lemma_kept_step(self.events@, p, i as int);
                assert(kinds@.len() == text::texts(kinds@).len());
            }
            let row = &self.events[i];
            let of_rule = match rule {
                Some(id) => text::same(id, row.rule_id.as_str()),
                None => true,
            };
            let of_kind = kinds.len() == 0 || text::holds(kinds, row.kind.as_str());
            let behind = match cursor {
                Some(seq) => row.seq > seq,
                None => true,
            };
            if of_rule && of_kind && behind {
                out.push(rule_event_row(row));
            }
            i = i + 1;
        }
        proof {
            assert(self.events@.take(self.events@.len() as int) =~= self.events@);
        }
        out
    }

    /// The history of changes, newest first.
    pub fn rule_events(&self, rule: Option<&str>, kind: Option<&str>, limit: i64) -> (r: Result<
        Vec<Event>,
        Error,
    >)
        ensures
            match self.unknown_rule(text::str_of(rule)) {
                Some(m) => text::refused(r, m),
                None => r is Ok && are_event_records(
                    r->Ok_0@,
                    first_events(
                        tables::kept(
                            self.events@,
                            event_fits(text::str_of(rule), kind_list(text::str_of(kind)), None),
                        ).reverse(),
                        limit,
                    ),
                ),
            },
    {
        match self.check_rule(rule) {
            Ok(_) => {},
            Err(e) => {
                return Err(e);
            },
        }
        let kinds: Vec<String> = match kind {
            Some(kind) => vec![kind.to_owned()],
            None => Vec::new(),
        };
        proof {
            assert(text::texts(kinds@) =~= kind_list(text::str_of(kind)));
        }
        let all = self.fitting(rule, kinds.as_slice(), None);
        let ghost rows = tables::kept(
            self.events@,
            event_fits(text::str_of(rule), kind_list(text::str_of(kind)), None),
        );
        let n: usize = all.len();
        let count: usize = if 0 <= limit && (limit as u64) < (n as u64) {
            limit as usize
        } else {
            n
        };
        let mut out: Vec<Event> = Vec::new();
        let mut i: usize = 0;
        while i < count
            invariant
                i <= count <= n,
                n == all@.len(),
                are_event_records(all@, rows),
                are_event_records(out@, rows.reverse().take(i as int)),
            decreases count - i,
        {
            proof {
                assert(rows.reverse().take(i as int + 1) =~= rows.reverse().take(i as int).push(
                    rows[n - 1 - i],
                ));
                assert(is_event_record(all@[n - 1 - i], rows[n - 1 - i]));
            }
            out.push(copy_event(&all[n - 1 - i]));
            i = i + 1;
        }
        proof {
            assert(first_events(rows.reverse(), limit) =~= rows.reverse().take(count as int));
        }
        Ok(out)
    }

    /// The history of changes behind a cursor, oldest first.
    pub fn rule_events_since(
        &self,
        rule: Option<&str>,
        kind: Option<&str>,
        cursor: i64,
        limit: i64,
    ) -> (r: Result<Vec<Event>, Error>)
        ensures
            self.events_page(
                r,
                text::str_of(rule),
                kind_list(text::str_of(kind)),
                cursor,
                limit,
            ),
    {
        let kinds: Vec<String> = match kind {
            Some(kind) => vec![kind.to_owned()],
            None => Vec::new(),
        };
        proof {
            assert(text::texts(kinds@) =~= kind_list(text::str_of(kind)));
        }
        self.rule_events_since_filtered(rule, kinds.as_slice(), cursor, limit)
    }

    /// What a read behind a cursor returns.
    pub open spec fn events_page(
        self,
        r: Result<Vec<Event>, Error>,
        rule: Option<Seq<char>>,
        kinds: Seq<Seq<char>>,
        cursor: i64,
        limit: i64,
    ) -> bool {
        if limit_refusal(limit) is Some {
            text::refused(r, limit_refusal(limit)->0)
        } else if self.unknown_rule(rule) is Some {
            text::refused(r, self.unknown_rule(rule)->0)
        } else {
            r is Ok && are_event_records(
                r->Ok_0@,
                first_events(
                    tables::kept(self.events@, event_fits(rule, kinds, Some(cursor))),
                    limit,
                ),
            )
        }
    }

    /// The history of changes of several kinds behind a cursor, oldest first;
    /// the kinds are selected before the limit applies.
    pub fn rule_events_since_filtered(
        &self,
        rule: Option<&str>,
        kinds: &[String],
        cursor: i64,
        limit: i64,
    ) -> (r: Result<Vec<Event>, Error>)
        ensures
            self.events_page(r, text::str_of(rule), text::texts(kinds@), cursor, limit),
    {
        match validate_event_limit(limit) {
            Ok(_) => {},
            Err(e) => {
                return Err(e);
            },
        }
        match self.check_rule(rule) {
            Ok(_) => {},
            Err(e) => {
                return Err(e);
            },
        }
        let ghost rows = tables::kept(
            self.events@,
            event_fits(text::str_of(rule), text::texts(kinds@), Some(cursor)),
        );
        let mut all = self.fitting(rule, kinds, Some(cursor));
        let ghost full = all@;
        let n: usize = all.len();
        if (limit as u64) < (n as u64) {
            all.truncate(limit as usize);
        }
        proof {
            let page = first_events(rows, limit);
            assert forall|i: int| 0 <= i < all@.len() implies is_event_record(
                #[trigger] all@[i],
                page[i],
            ) by {
                assert(all@[i] == full[i]);
                assert(is_event_record(full[i], rows[i]));
            }
        }
        Ok(all)
    }

    /// Whether some change of a kind was ever audited.
    pub fn event_kind_exists(&self, kind: &str) -> (r: bool)
        ensures
            r == exists|i: int|
                0 <= i < self.events@.len() && (#[trigger] self.events@[i]).kind@ == kind@,
    {
        let mut i: usize = 0;
        while i < self.events.len()
            invariant
                i <= self.events@.len(),
                forall|k: int| 0 <= k < i ==> (#[trigger] self.events@[k]).kind@ != kind@,
            decreases self.events.len() - i,
        {
            if text::same(self.events[i].kind.as_str(), kind) {
                return true;
            }
            i = i + 1;
        }
        false
    }

    /// Audit a change of the registry as a whole at a given time; the payload is
    /// JSON text.
    pub fn record_system_event_at(
        &mut self,
        kind: &str,
        actor: &str,
        payload: &str,
        now: i64,
    ) -> (r: Result<(), Error>)
        ensures
            system_event(*old(self), *final(self), r, kind@, actor@, payload@, now),
            old(self).wf() ==> final(self).wf(),
    {
        let by = match rules::validate_rule_actor(actor) {
            Ok(by) => by,
            Err(e) => {
                return Err(e);
            },
        };
        tables::append_registry_event(&mut self.events, "registry", kind, by, payload, now);
        Ok(())
    }

    /// Audit a change of the registry as a whole.
    pub fn record_system_event(&mut self, kind: &str, actor: &str, payload: &str) -> (r: Result<
        (),
        Error,
    >)
        ensures
            exists|now: i64|
                system_event(*old(self), *final(self), r, kind@, actor@, payload@, now),
            old(self).wf() ==> final(self).wf(),
    {
        let now: i64 = clock::now_ms();
        self.record_system_event_at(kind, actor, payload, now)
    }
}

/// What auditing a change of the registry as a whole returns and changes.
pub open spec fn system_event(
    pre: Registry,
    post: Registry,
    r: Result<(), Error>,
    kind: Seq<char>,
    actor: Seq<char>,
    payload: Seq<char>,
    now: i64,
) -> bool {
    if text::trimmed(actor).len() == 0 {
        post == pre && text::refused(r, "author is required"@)
    } else {
        &&& r is Ok
        &&& post == Registry { events: post.events, ..pre }
        &&& tables::audited(
            pre.events@,
            post.events@,
            "registry"@,
            kind,
            text::trimmed(actor),
            payload,
            now,
        )
    }
}

fn copy_event(e: &Event) -> (r: Event)
    ensures
        r == *e,
{
    Event {
        seq: e.seq,
        task_id: e.task_id.clone(),
        kind: e.kind.clone(),
        actor: e.actor.clone(),
        payload: e.payload.clone(),
        created_at: e.created_at,
        archived: e.archived,
        prev_hash: e.prev_hash.clone(),
        event_hash: e.event_hash.clone(),
    }
}

/// The events stand in the strict order of their numbers.
spec fn events_in_order(rows: Seq<EventRow>) -> bool {
    forall|i: int, j: int|
        0 <= i < j < rows.len() ==> (#[trigger] rows[i]).seq < (#[trigger] rows[j]).seq
}

/// The history is in sequence, and its numbers have not run out.
pub open spec fn is_numbered(events: Seq<EventRow>) -> bool {
    &&& tables::in_sequence(events)
    &&& events.len() > 0 ==> events.last().seq < i64::MAX
}

proof fn lemma_numbered_in_order(events: Seq<EventRow>)
    requires
        is_numbered(events),
    ensures
        events_in_order(events),
{
    assert forall|i: int, j: int| 0 <= i < j < events.len() implies (#[trigger] events[i]).seq < (
    #[trigger] events[j]).seq by {
        if j < events.len() - 1 {
            assert(events[j].seq < events[events.len() - 1].seq);
        }
    }
}

/// What reading so many pages gives, each from the last event of the one before it.
pub open spec fn pages_read(
    events: Seq<EventRow>,
    rule: Option<Seq<char>>,
    kinds: Seq<Seq<char>>,
    cursor: i64,
    limit: i64,
    n: nat,
) -> Seq<EventRow>
    decreases n,
{
    let page = first_events(
        tables::kept(events, event_fits(rule, kinds, Some(cursor))),
        limit,
    );
    if n == 0 || page.len() == 0 {
        seq![]
    } else {
        page + pages_read(events, rule, kinds, page.last().seq, limit, (n - 1) as nat)
    }
}

/// The pages together are the fitting events behind the cursor, in the order of their
/// numbers, none skipped and none repeated; no page is longer than the limit.
pub proof fn law_pages_are_the_whole_history(
    events: Seq<EventRow>,
    rule: Option<Seq<char>>,
    kinds: Seq<Seq<char>>,
    cursor: i64,
    limit: i64,
    n: nat,
)
    requires
        is_numbered(events),
        0 < limit,
        n >= tables::kept(events, event_fits(rule, kinds, Some(cursor))).len(),
    ensures
        pages_read(events, rule, kinds, cursor, limit, n) == tables::kept(
            events,
            event_fits(rule, kinds, Some(cursor)),
        ),
        first_events(
            tables::kept(events, event_fits(rule, kinds, Some(cursor))),
            limit,
        ).len() <= limit,
    decreases n,
{
    let all = tables::kept(events, event_fits(rule, kinds, Some(cursor)));
    let page = first_events(all, limit);
    if page.len() == 0 {
        assert(all =~= seq![]);
    } else {
        law_pages_resume_without_skips(events, rule, kinds, cursor, limit);
        law_pages_are_the_whole_history(
            events,
            rule,
            kinds,
            page.last().seq,
            limit,
            (n - 1) as nat,
        );
    }
}

/// Reading on from the last event of a page skips nothing and repeats nothing:
/// the page and what is read behind it are together what was there behind the
/// cursor.
pub proof fn law_pages_resume_without_skips(
    events: Seq<EventRow>,
    rule: Option<Seq<char>>,
    kinds: Seq<Seq<char>>,
    cursor: i64,
    limit: i64,
)
    requires
        is_numbered(events),
        0 < limit,
    ensures
        ({
            let all = tables::kept(events, event_fits(rule, kinds, Some(cursor)));
            let page = first_events(all, limit);
            page.len() > 0 ==> all == page + tables::kept(
                events,
                event_fits(rule, kinds, Some(page.last().seq)),
            )
        }),
{
    let p = event_fits(rule, kinds, Some(cursor));
    let all = tables::kept(events, p);
    let page = first_events(all, limit);
    lemma_numbered_in_order(events);
    if page.len() > 0 {
        let n = page.len() as int;
        assert(page =~= all.take(n));
        lemma_kept_behind(events, rule, kinds, cursor, n);
        assert(all =~= all.take(n) + all.skip(n));
    }
}

/// What fits behind the `n`th of the fitting events is the rest of them.
proof fn lemma_kept_behind(
    events: Seq<EventRow>,
    rule: Option<Seq<char>>,
    kinds: Seq<Seq<char>>,
    cursor: i64,
    n: int,
)
    requires
        events_in_order(events),
        0 < n <= tables::kept(events, event_fits(rule, kinds, Some(cursor))).len(),
    ensures
        ({
            let all = tables::kept(events, event_fits(rule, kinds, Some(cursor)));
            tables::kept(events, event_fits(rule, kinds, Some(all[n - 1].seq))) == all.skip(n)
        }),
    decreases events.len(),
{
    let p = event_fits(rule, kinds, Some(cursor));
    let all = tables::kept(events, p);
    let rest = events.drop_last();
    let before = tables::kept(rest, p);
    let last = events.last();
    let q = event_fits(rule, kinds, Some(all[n - 1].seq));
    tables::lemma_kept(events, p);
    tables::lemma_kept(rest, p);
    assert(events_in_order(rest));
    if n <= before.len() {
        lemma_kept_behind(rest, rule, kinds, cursor, n);
        assert(all[n - 1] == before[n - 1]);
        assert(rest.contains(before[n - 1]));
        let k = choose|k: int| 0 <= k < rest.len() && rest[k] == before[n - 1];
        assert(events[k].seq < events[events.len() - 1].seq);
        assert(p(before[n - 1]));
        if p(last) {
            assert(q(last));
            assert(all.skip(n) =~= before.skip(n).push(last));
        } else {
            assert(!q(last));
            assert(all.skip(n) =~= before.skip(n));
        }
    } else {
        // The `n`th fitting event is the last one there is.
        assert(p(last));
        assert(all[n - 1] == last);
        assert(!q(last));
        assert forall|i: int| 0 <= i < rest.len() implies !q(#[trigger] rest[i]) by {
            assert(events[i].seq < events[events.len() - 1].seq);
        }
        lemma_kept_none(rest, q);
        assert(all.skip(n) =~= Seq::<EventRow>::empty());
    }
}

proof fn lemma_kept_none(rows: Seq<EventRow>, p: spec_fn(EventRow) -> bool)
    requires
        forall|i: int| 0 <= i < rows.len() ==> !p(#[trigger] rows[i]),
    ensures
        tables::kept(rows, p) == Seq::<EventRow>::empty(),
    decreases rows.len(),
{
    if rows.len() > 0 {
        assert forall|i: int| 0 <= i < rows.drop_last().len() implies !p(
            #[trigger] rows.drop_last()[i],
        ) by {
            assert(!p(rows[i]));
        }
        lemma_kept_none(rows.drop_last(), p);
        assert(!p(rows[rows.len() - 1]));
    } else {
        assert(tables::kept(rows, p) =~= Seq::<EventRow>::empty());
    }
}

} // verus!
