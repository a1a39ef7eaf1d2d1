//! Building the state of policy again from its events, and what holds of that.

use vstd::prelude::*;

use crate::keyed;
use crate::keyed::Row;
use crate::policy;
use crate::policy::ChangeView;
use crate::policy_journal::PolicyActor;
use crate::policy_journal::PolicyEpochPayload;
use crate::policy_journal::PolicyEventRow;
use crate::policy_state;
use crate::policy_state::EffectView;
use crate::policy_state::Grant;
use crate::policy_state::GrantRetirementView;
use crate::policy_state::GrantState;
use crate::policy_state::GrantView;
use crate::policy_state::MappingRetirementView;
use crate::policy_state::PolicyEffect;
use crate::policy_state::PolicyState;
use crate::policy_state::PolicyTables;
use crate::policy_state::PrincipalRow;
use crate::policy_state::SsoMapping;
use crate::policy_state::SsoView;
use crate::tables;
use crate::tables::Registry;
use crate::text;
use crate::text::Error;

verus! {

// ----------------------------------------------------------------------------- replay

/// The state after an effect, as replay builds it: rows begin before others end.
pub open spec fn replay_step(st: PolicyState, e: EffectView) -> PolicyState {
    PolicyState {
        principals: keyed::put_all::<PrincipalRow>(st.principals, e.principals),
        grants: policy_state::end_grants(
            keyed::put_all::<Grant>(st.grants, e.grants),
            e.retired_grants,
        ),
        mappings: policy_state::end_mappings(
            keyed::put_all::<SsoMapping>(st.mappings, e.mappings),
            e.unmapped_mappings,
        ),
        enforcement: match e.enforcement {
            Some(state) => state,
            None => st.enforcement,
        },
    }
}

/// The state that the events lead to.
pub open spec fn replayed(events: Seq<PolicyEventRow>) -> PolicyState
    decreases events.len(),
{
    if events.len() == 0 {
        policy_state::empty_state()
    } else {
        replay_step(replayed(events.drop_last()), events.last().payload.effect@)
    }
}

/// The event at `i` leads from epoch `i` to the next.
pub open spec fn is_in_step(e: PolicyEventRow, i: int) -> bool {
    e.payload.before_epoch == i && e.payload.after_epoch == i + 1
}

/// The first event that does not lead from its epoch to the next, or their number.
pub open spec fn first_break(events: Seq<PolicyEventRow>) -> int
    decreases events.len(),
{
    if events.len() == 0 {
        0
    } else {
        let k = first_break(events.drop_last());
        if k < events.len() - 1 {
            k
        } else if is_in_step(events.last(), events.len() - 1) {
            events.len() as int
        } else {
            events.len() - 1
        }
    }
}

/// What is wrong with the epochs: one is missing, one does not start at the hash that
/// the one before it ended at, or one does not end at the hash of the state that the
/// events up to it lead to.
pub open spec fn epochs_refusal(
    epochs: Seq<PolicyEpochPayload>,
    events: Seq<PolicyEventRow>,
) -> Option<Seq<char>>
    decreases epochs.len(),
{
    if epochs.len() == 0 {
        None
    } else {
        match epochs_refusal(epochs.drop_last(), events) {
            Some(m) => Some(m),
            None => if epochs.last().epoch != epochs.len() {
                Some("epochs are not consecutive"@)
            } else if epochs.last().previous_state_hash@ != end_hash(epochs.drop_last()) {
                Some(
                    "epoch "@ + text::decimal(epochs.last().epoch as int)
                        + " previous state hash does not match replay"@,
                )
            } else if !ends_as_replayed(epochs.last(), events, epochs.len() as int) {
                Some(
                    "epoch "@ + text::decimal(epochs.last().epoch as int)
                        + " resulting state hash does not match replay"@,
                )
            } else {
                None
            },
        }
    }
}

/// The epoch ends at the hash of the state that the first `n` events lead to.
pub open spec fn ends_as_replayed(
    epoch: PolicyEpochPayload,
    events: Seq<PolicyEventRow>,
    n: int,
) -> bool {
    &&& n <= events.len()
    &&& epoch.resulting_state_hash@ == policy_state::state_hash(replayed(events.take(n)))
}

/// The hash that the epochs end at.
pub open spec fn end_hash(epochs: Seq<PolicyEpochPayload>) -> Seq<char> {
    if epochs.len() == 0 {
        policy_state::state_hash(policy_state::empty_state())
    } else {
        epochs.last().resulting_state_hash@
    }
}

/// Why the tables are not what the journals say.
pub open spec fn replay_refusal(p: PolicyTables) -> Option<Seq<char>> {
    let i = first_break(p.events@);
    let st = replayed(p.events@);
    if i < p.events@.len() {
        Some(
            "policy event "@ + text::decimal(i + 1) + " epochs are not monotonic: "@
                + text::decimal(p.events@[i].payload.before_epoch as int) + " -> "@
                + text::decimal(p.events@[i].payload.after_epoch as int) + " after "@
                + text::decimal(i),
        )
    } else if p.state().principals != st.principals {
        Some("replayed principals do not match the materialized projection"@)
    } else if p.state().grants != st.grants {
        Some("replayed grants do not match the materialized projection"@)
    } else if p.state().mappings != st.mappings {
        Some("replayed mappings do not match the materialized projection"@)
    } else if p.state().enforcement != st.enforcement {
        Some("replayed enforcement state does not match the materialized projection"@)
    } else if epochs_refusal(p.epochs@, p.events@) is Some {
        epochs_refusal(p.epochs@, p.events@)
    } else if policy_state::state_hash(p.state()) != end_hash(p.epochs@) {
        Some("final replayed state hash does not match the materialized projection"@)
    } else {
        None
    }
}

proof fn lemma_first_break(events: Seq<PolicyEventRow>)
    ensures
        0 <= first_break(events) <= events.len(),
        forall|i: int| 0 <= i < first_break(events) ==> is_in_step(#[trigger] events[i], i),
        first_break(events) < events.len() ==> !is_in_step(
            events[first_break(events)],
            first_break(events),
        ),
    decreases events.len(),
{
    if events.len() > 0 {
        lemma_first_break(events.drop_last());
        let k = first_break(events.drop_last());
        assert forall|i: int| 0 <= i < first_break(events) implies is_in_step(
            #[trigger] events[i],
            i,
        ) by {
            if i < events.len() - 1 {
                assert(events[i] == events.drop_last()[i]);
            }
        }
        if k < events.len() - 1 {
            assert(events[k] == events.drop_last()[k]);
        }
    }
}

proof fn lemma_first_break_is(events: Seq<PolicyEventRow>, n: int)
    requires
        0 <= n <= events.len(),
        forall|i: int| 0 <= i < n ==> is_in_step(#[trigger] events[i], i),
        n < events.len() ==> !is_in_step(events[n], n),
    ensures
        first_break(events) == n,
{
    lemma_first_break(events);
    let k = first_break(events);
    if k < n {
        assert(is_in_step(events[k], k));
    }
    if n < k {
        assert(is_in_step(events[n], n));
    }
}

fn replay_effect(tables: &mut PolicyTables, effect: &PolicyEffect)
    ensures
        final(tables).state() == replay_step(old(tables).state(), effect@),
{
    policy_state::place_principals(&mut tables.principals, effect.principals.as_slice());
    policy_state::place_grants(&mut tables.grants, effect.grants.as_slice());
    policy_state::apply_grant_ends(&mut tables.grants, effect.retired_grants.as_slice());
    policy_state::place_mappings(&mut tables.mappings, effect.mappings.as_slice());
    policy_state::apply_mapping_ends(&mut tables.mappings, effect.unmapped_mappings.as_slice());
    if let Some(state) = &effect.enforcement {
        tables.enforcement = state.clone();
    }
}

/// The hashes of the states that the events lead to one after the other.
spec fn are_replay_hashes(hashes: Seq<String>, events: Seq<PolicyEventRow>) -> bool {
    &&& hashes.len() == events.len()
    &&& forall|k: int|
        0 <= k < hashes.len() ==> (#[trigger] hashes[k])@ == policy_state::state_hash(
            replayed(events.take(k + 1)),
        )
}

fn replay_events(events: &[PolicyEventRow]) -> (r: Result<(PolicyTables, Vec<String>), Error>)
    requires
        events@.len() < i64::MAX,
    ensures
        ({
            let i = first_break(events@);
            if i < events@.len() {
                text::refused(
                    r,
                    "policy event "@ + text::decimal(i + 1) + " epochs are not monotonic: "@
                        + text::decimal(events@[i].payload.before_epoch as int) + " -> "@
                        + text::decimal(events@[i].payload.after_epoch as int) + " after "@
                        + text::decimal(i),
                )
            } else {
                r is Ok && r->Ok_0.0.state() == replayed(events@) && are_replay_hashes(
                    (r->Ok_0.1)@,
                    events@,
                )
            }
        }),
{
    let mut scratch = PolicyTables::new();
    let mut hashes: Vec<String> = Vec::new();
    let mut i: usize = 0;
    proof {
        assert(events@.take(0) =~= seq![]);
    }
    while i < events.len()
        invariant
            i <= events@.len() < i64::MAX,
            scratch.state() == replayed(events@.take(i as int)),
            hashes@.len() == i,
            forall|k: int|
                0 <= k < i ==> (#[trigger] hashes@[k])@ == policy_state::state_hash(
                    replayed(events@.take(k + 1)),
                ),
            forall|k: int| 0 <= k < i ==> is_in_step(#[trigger] events@[k], k),
        decreases events.len() - i,
    {
        let e = &events[i].payload;
        let prior: i64 = i as i64;
        if e.before_epoch != prior || e.after_epoch != prior + 1 {
            proof {
                lemma_first_break_is(events@, i as int);
            }
            return text::refuse(
                "policy event ".to_owned().concat(text::show_i64(prior + 1).as_str()).concat(
                    " epochs are not monotonic: ",
                ).concat(text::show_i64(e.before_epoch).as_str()).concat(" -> ").concat(
                    text::show_i64(e.after_epoch).as_str(),
                ).concat(" after ").concat(text::show_i64(prior).as_str()),
            );
        }
        replay_effect(&mut scratch, &e.effect);
        proof {
            assert(events@.take(i as int + 1).drop_last() =~= events@.take(i as int));
            assert(events@.take(i as int + 1).last() == events@[i as int]);
        }
        hashes.push(policy_state::compute_state_hash(&scratch));
        i = i + 1;
    }
    proof {
        assert(events@.take(events@.len() as int) =~= events@);
        lemma_first_break_is(events@, i as int);
    }
    Ok((scratch, hashes))
}

proof fn lemma_epochs_stay(epochs: Seq<PolicyEpochPayload>, events: Seq<PolicyEventRow>, n: int)
    requires
        0 <= n <= epochs.len(),
    ensures
        epochs_refusal(epochs.take(n), events) is Some ==> epochs_refusal(epochs, events)
            == epochs_refusal(epochs.take(n), events),
    decreases epochs.len(),
{
    if n < epochs.len() {
        lemma_epochs_stay(epochs.drop_last(), events, n);
        assert(epochs.drop_last().take(n) =~= epochs.take(n));
    } else {
        assert(epochs.take(n) =~= epochs);
    }
}

fn check_epochs(
    epochs: &[PolicyEpochPayload],
    events: &[PolicyEventRow],
    hashes: &[String],
) -> (r: Result<String, Error>)
    requires
        epochs@.len() < i64::MAX,
        are_replay_hashes(hashes@, events@),
    ensures
        match epochs_refusal(epochs@, events@) {
            Some(m) => text::refused(r, m),
            None => r is Ok && r->Ok_0@ == end_hash(epochs@),
        },
{
    let mut hash = policy_state::compute_empty_state_hash();
    let mut i: usize = 0;
    proof {
        assert(epochs@.take(0) =~= seq![]);
    }
    while i < epochs.len()
        invariant
            i <= epochs@.len() < i64::MAX,
            are_replay_hashes(hashes@, events@),
            epochs_refusal(epochs@.take(i as int), events@) is None,
            hash@ == end_hash(epochs@.take(i as int)),
        decreases epochs.len() - i,
    {
        proof {
            assert(epochs@.take(i as int + 1).drop_last() =~= epochs@.take(i as int));
            assert(epochs@.take(i as int + 1).last() == epochs@[i as int]);
            lemma_epochs_stay(epochs@, events@, i as int + 1);
        }
        if epochs[i].epoch != i as i64 + 1 {
            return text::refuse("epochs are not consecutive".to_owned());
        }
        if !text::same(epochs[i].previous_state_hash.as_str(), hash.as_str()) {
            return text::refuse(
                "epoch ".to_owned().concat(text::show_i64(epochs[i].epoch).as_str()).concat(
                    " previous state hash does not match replay",
                ),
            );
        }
        if i >= hashes.len() || !text::same(
            epochs[i].resulting_state_hash.as_str(),
            hashes[i].as_str(),
        ) {
            return text::refuse(
                "epoch ".to_owned().concat(text::show_i64(epochs[i].epoch).as_str()).concat(
                    " resulting state hash does not match replay",
                ),
            );
        }
        hash = epochs[i].resulting_state_hash.clone();
        i = i + 1;
    }
    proof {
        assert(epochs@.take(epochs@.len() as int) =~= epochs@);
    }
    Ok(hash)
}

/// The tables are what the journals say.
pub fn replay_policy_on(p: &PolicyTables) -> (r: Result<(), Error>)
    requires
        p.events@.len() < i64::MAX,
        p.epochs@.len() < i64::MAX,
    ensures
        match replay_refusal(*p) {
            Some(m) => text::refused(r, m),
            None => r is Ok,
        },
{
    let (scratch, hashes) = match replay_events(p.events.as_slice()) {
        Ok(replay) => replay,
        Err(e) => {
            return Err(e);
        },
    };
    proof {
        lemma_first_break(p.events@);
    }
    if !keyed::same_rows(p.principals.as_slice(), scratch.principals.as_slice()) {
        return text::refuse(
            "replayed principals do not match the materialized projection".to_owned(),
        );
    }
    if !keyed::same_rows(p.grants.as_slice(), scratch.grants.as_slice()) {
        return text::refuse(
            "replayed grants do not match the materialized projection".to_owned(),
        );
    }
    if !keyed::same_rows(p.mappings.as_slice(), scratch.mappings.as_slice()) {
        return text::refuse(
            "replayed mappings do not match the materialized projection".to_owned(),
        );
    }
    if !text::same(p.enforcement.as_str(), scratch.enforcement.as_str()) {
        return text::refuse(
            "replayed enforcement state does not match the materialized projection".to_owned(),
        );
    }
    let end = match check_epochs(
        p.epochs.as_slice(),
        p.events.as_slice(),
        hashes.as_slice(),
    ) {
        Ok(end) => end,
        Err(e) => {
            return Err(e);
        },
    };
    let now = policy_state::compute_state_hash(p);
    if !text::same(now.as_str(), end.as_str()) {
        return text::refuse(
            "final replayed state hash does not match the materialized projection".to_owned(),
        );
    }
    Ok(())
}

impl Registry {
    /// The tables of policy are what its journals say.
    pub fn replay_policy(&self) -> (r: Result<(), Error>)
        requires
            self.policy.events@.len() < i64::MAX,
            self.policy.epochs@.len() < i64::MAX,
        ensures
            match replay_refusal(self.policy) {
                Some(m) => text::refused(r, m),
                None => r is Ok,
            },
    {
        replay_policy_on(&self.policy)
    }
}

// ------------------------------------------------------------- beginning and ending rows

/// The rows with the one of an id changed.
spec fn amended<T: Row>(
    s: Seq<T::Shown>,
    id: Seq<char>,
    f: spec_fn(T::Shown) -> T::Shown,
) -> Seq<T::Shown> {
    let i = keyed::index_of::<T>(s, id);
    if i < s.len() {
        s.update(i, f(s[i]))
    } else {
        s
    }
}

spec fn keeps_key<T: Row>(f: spec_fn(T::Shown) -> T::Shown) -> bool {
    forall|v: T::Shown| T::key(#[trigger] f(v)) == T::key(v)
}

/// Where a row of an id is once another row is behind.
proof fn lemma_amended_push<T: Row>(
    s: Seq<T::Shown>,
    v: T::Shown,
    id: Seq<char>,
    f: spec_fn(T::Shown) -> T::Shown,
)
    ensures
        keyed::has_id::<T>(s, id) ==> amended::<T>(s.push(v), id, f) == amended::<T>(
            s,
            id,
            f,
        ).push(v),
        !keyed::has_id::<T>(s, id) && T::key(v) == id ==> amended::<T>(s.push(v), id, f)
            == s.push(f(v)),
        !keyed::has_id::<T>(s, id) && T::key(v) != id ==> amended::<T>(s.push(v), id, f)
            == s.push(v),
        !keyed::has_id::<T>(s, id) ==> amended::<T>(s, id, f) == s,
        keyed::has_id::<T>(s.push(v), id) <==> keyed::has_id::<T>(s, id) || T::key(v) == id,
{
    let p = keyed::with_id::<T>(id);
    let all = s.push(v);
    tables::lemma_first_index(s, p);
    tables::lemma_first_index(all, p);
    let i = keyed::index_of::<T>(s, id);
    if i < s.len() {
        assert(all[i] == s[i]);
        tables::lemma_first_index_is(all, p, i);
        assert(all.update(i, f(s[i])) =~= s.update(i, f(s[i])).push(v));
    } else if T::key(v) == id {
        tables::lemma_first_index_is(all, p, s.len() as int);
        assert(all.update(s.len() as int, f(v)) =~= s.push(f(v)));
    } else {
        assert forall|k: int| 0 <= k < all.len() implies !p(#[trigger] all[k]) by {
            if k < s.len() {
                assert(all[k] == s[k]);
            }
        }
        tables::lemma_first_index_is(all, p, all.len() as int);
    }
}

/// Putting a row in and changing another one can change places.
proof fn lemma_amend_and_put<T: Row>(
    s: Seq<T::Shown>,
    v: T::Shown,
    id: Seq<char>,
    f: spec_fn(T::Shown) -> T::Shown,
)
    requires
        keeps_key::<T>(f),
        T::key(v) != id,
    ensures
        amended::<T>(keyed::put::<T>(s, v), id, f) == keyed::put::<T>(
            amended::<T>(s, id, f),
            v,
        ),
        keyed::has_id::<T>(keyed::put::<T>(s, v), id) <==> keyed::has_id::<T>(s, id),
    decreases s.len(),
{
    let changed = amended::<T>(s, id, f);
    if s.len() == 0 {
        lemma_amended_push::<T>(s, v, id, f);
    } else {
        let rest = s.drop_last();
        let last = s.last();
        assert(s =~= rest.push(last));
        lemma_amended_push::<T>(rest, last, id, f);
        tables::lemma_first_index(s, keyed::with_id::<T>(id));
        tables::lemma_first_index(rest, keyed::with_id::<T>(id));
        assert(changed.len() == s.len());
        assert(T::key(changed.last()) == T::key(last)) by {
            assert(T::key(f(last)) == T::key(last));
        }
        if text::text_less(T::key(last), T::key(v)) {
            lemma_amended_push::<T>(s, v, id, f);
        } else if T::key(last) == T::key(v) {
            lemma_amended_push::<T>(rest, v, id, f);
            assert(changed.drop_last() =~= amended::<T>(rest, id, f));
        } else {
            lemma_amend_and_put::<T>(rest, v, id, f);
            lemma_amended_push::<T>(keyed::put::<T>(rest, v), last, id, f);
            assert(changed.drop_last() =~= amended::<T>(rest, id, f));
        }
    }
}

proof fn lemma_amend_and_put_all<T: Row>(
    s: Seq<T::Shown>,
    vs: Seq<T::Shown>,
    id: Seq<char>,
    f: spec_fn(T::Shown) -> T::Shown,
)
    requires
        keeps_key::<T>(f),
        forall|i: int| 0 <= i < vs.len() ==> T::key(#[trigger] vs[i]) != id,
    ensures
        amended::<T>(keyed::put_all::<T>(s, vs), id, f) == keyed::put_all::<T>(
            amended::<T>(s, id, f),
            vs,
        ),
    decreases vs.len(),
{
    if vs.len() > 0 {
        let rest = vs.drop_last();
        assert forall|i: int| 0 <= i < rest.len() implies T::key(#[trigger] rest[i]) != id by {
            assert(rest[i] == vs[i]);
        }
        lemma_amend_and_put_all::<T>(s, rest, id, f);
        assert(vs.last() == vs[vs.len() - 1]);
        lemma_amend_and_put::<T>(keyed::put_all::<T>(s, rest), vs.last(), id, f);
    }
}

spec fn ends_grant(end: GrantRetirementView) -> spec_fn(GrantView) -> GrantView {
    |g: GrantView|
        GrantView {
            state: GrantState::Retired,
            retired_at_epoch: Some(end.retired_at_epoch),
            retired_by_event_id: Some(end.retired_by_event_id),
            ..g
        }
}

spec fn ends_mapping(end: MappingRetirementView) -> spec_fn(SsoView) -> SsoView {
    |m: SsoView|
        SsoView {
            unmapped_at_epoch: Some(end.unmapped_at_epoch),
            unmapped_by_event_id: Some(end.unmapped_by_event_id),
            ..m
        }
}

proof fn lemma_end_grants_and_put(
    s: Seq<GrantView>,
    vs: Seq<GrantView>,
    ends: Seq<GrantRetirementView>,
)
    requires
        forall|i: int, j: int|
            0 <= i < vs.len() && 0 <= j < ends.len() ==> (#[trigger] vs[i]).id != (
            #[trigger] ends[j]).id,
    ensures
        policy_state::end_grants(keyed::put_all::<Grant>(s, vs), ends) == keyed::put_all::<Grant>(
            policy_state::end_grants(s, ends),
            vs,
        ),
    decreases ends.len(),
{
    if ends.len() > 0 {
        let rest = ends.drop_last();
        let end = ends.last();
        assert forall|i: int, j: int| 0 <= i < vs.len() && 0 <= j < rest.len() implies (
        #[trigger] vs[i]).id != (#[trigger] rest[j]).id by {
            assert(rest[j] == ends[j]);
        }
        lemma_end_grants_and_put(s, vs, rest);
        let before = policy_state::end_grants(s, rest);
        assert forall|i: int| 0 <= i < vs.len() implies Grant::key(#[trigger] vs[i]) != end.id by {
            assert(end == ends[ends.len() - 1]);
        }
        lemma_amend_and_put_all::<Grant>(before, vs, end.id, ends_grant(end));
        assert(policy_state::end_grant(before, end) == amended::<Grant>(
            before,
            end.id,
            ends_grant(end),
        ));
    }
}

proof fn lemma_end_mappings_and_put(
    s: Seq<SsoView>,
    vs: Seq<SsoView>,
    ends: Seq<MappingRetirementView>,
)
    requires
        forall|i: int, j: int|
            0 <= i < vs.len() && 0 <= j < ends.len() ==> (#[trigger] vs[i]).id != (
            #[trigger] ends[j]).id,
    ensures
        policy_state::end_mappings(keyed::put_all::<SsoMapping>(s, vs), ends) == keyed::put_all::<
            SsoMapping,
        >(policy_state::end_mappings(s, ends), vs),
    decreases ends.len(),
{
    if ends.len() > 0 {
        let rest = ends.drop_last();
        let end = ends.last();
        assert forall|i: int, j: int| 0 <= i < vs.len() && 0 <= j < rest.len() implies (
        #[trigger] vs[i]).id != (#[trigger] rest[j]).id by {
            assert(rest[j] == ends[j]);
        }
        lemma_end_mappings_and_put(s, vs, rest);
        let before = policy_state::end_mappings(s, rest);
        assert forall|i: int| 0 <= i < vs.len() implies SsoMapping::key(#[trigger] vs[i])
            != end.id by {
            assert(end == ends[ends.len() - 1]);
        }
        lemma_amend_and_put_all::<SsoMapping>(before, vs, end.id, ends_mapping(end));
        assert(policy_state::end_mapping(before, end) == amended::<SsoMapping>(
            before,
            end.id,
            ends_mapping(end),
        ));
    }
}

/// No row both begins and ends.
pub open spec fn is_separate(e: EffectView) -> bool {
    &&& forall|i: int, j: int|
        0 <= i < e.grants.len() && 0 <= j < e.retired_grants.len() ==> (
        #[trigger] e.grants[i]).id != (#[trigger] e.retired_grants[j]).id
    &&& forall|i: int, j: int|
        0 <= i < e.mappings.len() && 0 <= j < e.unmapped_mappings.len() ==> (
        #[trigger] e.mappings[i]).id != (#[trigger] e.unmapped_mappings[j]).id
}

/// Replaying an effect and applying it come to the same, unless a row both begins
/// and ends in it.
pub proof fn law_replay_is_application(st: PolicyState, e: EffectView)
    requires
        is_separate(e),
    ensures
        replay_step(st, e) == policy_state::applied(st, e),
{
    lemma_end_grants_and_put(st.grants, e.grants, e.retired_grants);
    lemma_end_mappings_and_put(st.mappings, e.mappings, e.unmapped_mappings);
}

// -------------------------------------------------------------------- changes and replay

/// The journals account for the tables: replay finds nothing wrong, and there is one
/// epoch for each event.
pub open spec fn accounts(p: PolicyTables) -> bool {
    &&& replay_refusal(p) is None
    &&& p.epochs@.len() == p.events@.len()
}

pub(crate) proof fn lemma_epoch_is_count(
    epochs: Seq<PolicyEpochPayload>,
    events: Seq<PolicyEventRow>,
)
    requires
        epochs_refusal(epochs, events) is None,
    ensures
        epochs.len() > 0 ==> policy::highest(epochs) == Some(epochs.last().epoch)
            && epochs.last().epoch == epochs.len(),
    decreases epochs.len(),
{
    if epochs.len() > 0 {
        lemma_epoch_is_count(epochs.drop_last(), events);
    }
}

/// Where the journals account for the tables, the epoch is the number of events, and
/// the hash to work under is that of the state.
pub proof fn law_live_state(p: PolicyTables)
    requires
        accounts(p),
    ensures
        policy::epoch_of(p) == p.events@.len(),
        policy::live_state(p).0 == p.events@.len(),
        policy::live_state(p).1 == policy_state::state_hash(p.state()),
        policy::live_state(p).1 == end_hash(p.epochs@),
{
    lemma_first_break(p.events@);
    lemma_epoch_is_count(p.epochs@, p.events@);
}

/// Later events make no difference to earlier epochs.
proof fn lemma_epochs_before(
    epochs: Seq<PolicyEpochPayload>,
    events: Seq<PolicyEventRow>,
    more: Seq<PolicyEventRow>,
)
    requires
        epochs.len() <= events.len() <= more.len(),
        more.take(events.len() as int) == events,
    ensures
        epochs_refusal(epochs, more) == epochs_refusal(epochs, events),
    decreases epochs.len(),
{
    if epochs.len() > 0 {
        lemma_epochs_before(epochs.drop_last(), events, more);
        assert(more.take(epochs.len() as int) =~= events.take(epochs.len() as int));
    }
}

/// Where replay finds nothing wrong with the epochs, each of them ends at the hash of
/// the state that the events up to it lead to.
pub proof fn law_every_epoch_is_replayed(
    epochs: Seq<PolicyEpochPayload>,
    events: Seq<PolicyEventRow>,
    k: int,
)
    requires
        epochs_refusal(epochs, events) is None,
        0 <= k < epochs.len(),
    ensures
        ends_as_replayed(epochs[k], events, k + 1),
    decreases epochs.len(),
{
    if k < epochs.len() - 1 {
        law_every_epoch_is_replayed(epochs.drop_last(), events, k);
    }
}

/// A change that starts from the live hash keeps the journals accounting for the
/// tables.
pub proof fn law_change_is_accounted_for(
    pre: PolicyTables,
    post: PolicyTables,
    actor: PolicyActor,
    c: ChangeView,
)
    requires
        accounts(pre),
        policy::committed(pre, post, actor, c),
        is_separate(c.effect),
        c.previous == policy::live_state(pre).1,
    ensures
        accounts(post),
{
    law_live_state(pre);
    law_replay_is_application(pre.state(), c.effect);
    let n = pre.events@.len() as int;
    lemma_first_break(pre.events@);
    assert(post.events@.drop_last() =~= pre.events@);
    assert(post.epochs@.drop_last() =~= pre.epochs@);
    assert(replayed(post.events@) == replay_step(
        replayed(pre.events@),
        post.events@.last().payload.effect@,
    ));
    assert(replayed(pre.events@) == pre.state());
    assert(is_in_step(post.events@.last(), n));
    assert(first_break(post.events@) == n + 1);
    assert(post.epochs@.last().epoch == n + 1);
    assert(post.events@.take(n) =~= pre.events@);
    assert(post.events@.take(n + 1) =~= post.events@);
    lemma_epochs_before(pre.epochs@, pre.events@, post.events@);
    assert(epochs_refusal(post.epochs@, post.events@) is None);
}

} // verus!
