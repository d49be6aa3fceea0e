//! Conversion of reports in the older TOML layout, where each principle is
//! a field of its own, to the current layout.

use vstd::prelude::*;
use crate::event::{TomlAccomplishmentData, TomlDatetime, TomlEvent};
use crate::principles::{EventType, LeadershipPrinciples};
use crate::text::str_equal;

verus! {

/// An event of the older layout: a principle counts when its field is
/// present, whatever its value.
#[derive(Debug)]
pub struct ReportEvent {
    pub summary: String,
    pub details: Option<String>,
    pub date: TomlDatetime,
    pub customer_obsession: Option<u8>,
    pub ownership: Option<u8>,
    pub invent_and_simplify: Option<u8>,
    pub are_right_alot: Option<u8>,
    pub learn_and_be_curious: Option<u8>,
    pub hire_and_develop_the_best: Option<u8>,
    pub insist_on_the_highest_standards: Option<u8>,
    pub think_big: Option<u8>,
    pub bias_for_action: Option<u8>,
    pub frugality: Option<u8>,
    pub earn_trust: Option<u8>,
    pub dive_deep: Option<u8>,
    pub have_backbone: Option<u8>,
    pub deliver_results: Option<u8>,
    pub strive_best_employer: Option<u8>,
    pub success_and_scale_brings_responsibility: Option<u8>,
    pub tags: Option<String>,
}

/// A report in the older layout.
#[derive(Debug)]
pub struct Report {
    pub events: Vec<ReportEvent>,
}

/// The principle `p` if the field is present, nothing otherwise.
pub open spec fn flag(field: Option<u8>, p: LeadershipPrinciples) -> Seq<LeadershipPrinciples> {
    if field is Some {
        seq![p]
    } else {
        Seq::empty()
    }
}

/// The principles of an older event, in a fixed order; the field
/// `strive_best_employer` has no principle and is left out.
pub open spec fn flagged_principles(e: ReportEvent) -> Seq<LeadershipPrinciples> {
    flag(e.customer_obsession, LeadershipPrinciples::CustomerObsession)
        + flag(e.ownership, LeadershipPrinciples::Ownership)
        + flag(e.invent_and_simplify, LeadershipPrinciples::InventAndSimplify)
        + flag(e.are_right_alot, LeadershipPrinciples::AreRightALot)
        + flag(e.learn_and_be_curious, LeadershipPrinciples::LearnAndBeCurious)
        + flag(e.hire_and_develop_the_best, LeadershipPrinciples::HireAndDevelopTheBest)
        + flag(e.insist_on_the_highest_standards, LeadershipPrinciples::InsistOnTheHighestStandards)
        + flag(e.think_big, LeadershipPrinciples::ThinkBig)
        + flag(e.bias_for_action, LeadershipPrinciples::BiasForAction)
        + flag(e.frugality, LeadershipPrinciples::Frugality)
        + flag(e.earn_trust, LeadershipPrinciples::EarnTrust)
        + flag(e.dive_deep, LeadershipPrinciples::DiveDeep)
        + flag(e.have_backbone, LeadershipPrinciples::HaveBackboneAndCommit)
        + flag(e.deliver_results, LeadershipPrinciples::DeliverResults)
        + flag(e.success_and_scale_brings_responsibility, LeadershipPrinciples::SuccessAndScaleBringBroadResponsibility)
}

/// `x` is in `a + b` exactly when it is in `a` or in `b`.
proof fn lemma_contains_concat(a: Seq<LeadershipPrinciples>, b: Seq<LeadershipPrinciples>)
    ensures
        forall|x: LeadershipPrinciples| #[trigger] (a + b).contains(x) <==> a.contains(x) || b.contains(x),
{
    assert forall|x: LeadershipPrinciples| #[trigger] (a + b).contains(x) <==> a.contains(x) || b.contains(x) by {
        if (a + b).contains(x) {
            let k = choose|k: int| 0 <= k < (a + b).len() && (a + b)[k] == x;
            if k < a.len() {
                assert(a[k] == x);
            } else {
                assert(b[k - a.len()] == x);
            }
        }
        if a.contains(x) {
            let k = choose|k: int| 0 <= k < a.len() && a[k] == x;
            assert((a + b)[k] == x);
        }
        if b.contains(x) {
            let k = choose|k: int| 0 <= k < b.len() && b[k] == x;
            assert((a + b)[k + a.len()] == x);
        }
    }
}

proof fn lemma_flag_contains(field: Option<u8>, p: LeadershipPrinciples)
    ensures
        forall|x: LeadershipPrinciples| #[trigger] flag(field, p).contains(x) <==> field is Some && x == p,
{
    if field is Some {
        assert(flag(field, p)[0] == p);
    }
}

/// An older event names a principle exactly when the field of that
/// principle is present: each of the fifteen fields gives its own
/// principle, and no field gives "Disagree and Commit" or `Empty`.
pub proof fn lemma_present_fields_give_principles(e: ReportEvent)
    ensures
        flagged_principles(e).contains(LeadershipPrinciples::CustomerObsession) <==> e.customer_obsession is Some,
        flagged_principles(e).contains(LeadershipPrinciples::Ownership) <==> e.ownership is Some,
        flagged_principles(e).contains(LeadershipPrinciples::InventAndSimplify) <==> e.invent_and_simplify is Some,
        flagged_principles(e).contains(LeadershipPrinciples::AreRightALot) <==> e.are_right_alot is Some,
        flagged_principles(e).contains(LeadershipPrinciples::LearnAndBeCurious) <==> e.learn_and_be_curious is Some,
        flagged_principles(e).contains(LeadershipPrinciples::HireAndDevelopTheBest) <==> e.hire_and_develop_the_best is Some,
        flagged_principles(e).contains(LeadershipPrinciples::InsistOnTheHighestStandards) <==> e.insist_on_the_highest_standards is Some,
        flagged_principles(e).contains(LeadershipPrinciples::ThinkBig) <==> e.think_big is Some,
        flagged_principles(e).contains(LeadershipPrinciples::BiasForAction) <==> e.bias_for_action is Some,
        flagged_principles(e).contains(LeadershipPrinciples::Frugality) <==> e.frugality is Some,
        flagged_principles(e).contains(LeadershipPrinciples::EarnTrust) <==> e.earn_trust is Some,
        flagged_principles(e).contains(LeadershipPrinciples::DiveDeep) <==> e.dive_deep is Some,
        flagged_principles(e).contains(LeadershipPrinciples::HaveBackboneAndCommit) <==> e.have_backbone is Some,
        flagged_principles(e).contains(LeadershipPrinciples::DeliverResults) <==> e.deliver_results is Some,
        flagged_principles(e).contains(LeadershipPrinciples::SuccessAndScaleBringBroadResponsibility) <==> e.success_and_scale_brings_responsibility is Some,
        !flagged_principles(e).contains(LeadershipPrinciples::DisagreeAndCommit),
        !flagged_principles(e).contains(LeadershipPrinciples::Empty),
{
    lemma_flag_contains(e.customer_obsession, LeadershipPrinciples::CustomerObsession);
    let s0 = flag(e.customer_obsession, LeadershipPrinciples::CustomerObsession);
    lemma_flag_contains(e.ownership, LeadershipPrinciples::Ownership);
    let s1 = s0 + flag(e.ownership, LeadershipPrinciples::Ownership);
    lemma_contains_concat(s0, flag(e.ownership, LeadershipPrinciples::Ownership));
    lemma_flag_contains(e.invent_and_simplify, LeadershipPrinciples::InventAndSimplify);
    let s2 = s1 + flag(e.invent_and_simplify, LeadershipPrinciples::InventAndSimplify);
    lemma_contains_concat(s1, flag(e.invent_and_simplify, LeadershipPrinciples::InventAndSimplify));
    lemma_flag_contains(e.are_right_alot, LeadershipPrinciples::AreRightALot);
    let s3 = s2 + flag(e.are_right_alot, LeadershipPrinciples::AreRightALot);
    lemma_contains_concat(s2, flag(e.are_right_alot, LeadershipPrinciples::AreRightALot));
    lemma_flag_contains(e.learn_and_be_curious, LeadershipPrinciples::LearnAndBeCurious);
    let s4 = s3 + flag(e.learn_and_be_curious, LeadershipPrinciples::LearnAndBeCurious);
    lemma_contains_concat(s3, flag(e.learn_and_be_curious, LeadershipPrinciples::LearnAndBeCurious));
    lemma_flag_contains(e.hire_and_develop_the_best, LeadershipPrinciples::HireAndDevelopTheBest);
    let s5 = s4 + flag(e.hire_and_develop_the_best, LeadershipPrinciples::HireAndDevelopTheBest);
    lemma_contains_concat(s4, flag(e.hire_and_develop_the_best, LeadershipPrinciples::HireAndDevelopTheBest));
    lemma_flag_contains(e.insist_on_the_highest_standards, LeadershipPrinciples::InsistOnTheHighestStandards);
    let s6 = s5 + flag(e.insist_on_the_highest_standards, LeadershipPrinciples::InsistOnTheHighestStandards);
    lemma_contains_concat(s5, flag(e.insist_on_the_highest_standards, LeadershipPrinciples::InsistOnTheHighestStandards));
    lemma_flag_contains(e.think_big, LeadershipPrinciples::ThinkBig);
    let s7 = s6 + flag(e.think_big, LeadershipPrinciples::ThinkBig);
    lemma_contains_concat(s6, flag(e.think_big, LeadershipPrinciples::ThinkBig));
    lemma_flag_contains(e.bias_for_action, LeadershipPrinciples::BiasForAction);
    let s8 = s7 + flag(e.bias_for_action, LeadershipPrinciples::BiasForAction);
    lemma_contains_concat(s7, flag(e.bias_for_action, LeadershipPrinciples::BiasForAction));
    lemma_flag_contains(e.frugality, LeadershipPrinciples::Frugality);
    let s9 = s8 + flag(e.frugality, LeadershipPrinciples::Frugality);
    lemma_contains_concat(s8, flag(e.frugality, LeadershipPrinciples::Frugality));
    lemma_flag_contains(e.earn_trust, LeadershipPrinciples::EarnTrust);
    let s10 = s9 + flag(e.earn_trust, LeadershipPrinciples::EarnTrust);
    lemma_contains_concat(s9, flag(e.earn_trust, LeadershipPrinciples::EarnTrust));
    lemma_flag_contains(e.dive_deep, LeadershipPrinciples::DiveDeep);
    let s11 = s10 + flag(e.dive_deep, LeadershipPrinciples::DiveDeep);
    lemma_contains_concat(s10, flag(e.dive_deep, LeadershipPrinciples::DiveDeep));
    lemma_flag_contains(e.have_backbone, LeadershipPrinciples::HaveBackboneAndCommit);
    let s12 = s11 + flag(e.have_backbone, LeadershipPrinciples::HaveBackboneAndCommit);
    lemma_contains_concat(s11, flag(e.have_backbone, LeadershipPrinciples::HaveBackboneAndCommit));
    lemma_flag_contains(e.deliver_results, LeadershipPrinciples::DeliverResults);
    let s13 = s12 + flag(e.deliver_results, LeadershipPrinciples::DeliverResults);
    lemma_contains_concat(s12, flag(e.deliver_results, LeadershipPrinciples::DeliverResults));
    lemma_flag_contains(e.success_and_scale_brings_responsibility, LeadershipPrinciples::SuccessAndScaleBringBroadResponsibility);
    let s14 = s13 + flag(e.success_and_scale_brings_responsibility, LeadershipPrinciples::SuccessAndScaleBringBroadResponsibility);
    lemma_contains_concat(s13, flag(e.success_and_scale_brings_responsibility, LeadershipPrinciples::SuccessAndScaleBringBroadResponsibility));
    assert(s14 == flagged_principles(e));
}

/// Where the field of a principle stands in an older event, in the order the
/// fields are read; principles without a field come last.
pub open spec fn field_position(p: LeadershipPrinciples) -> int {
    match p {
        LeadershipPrinciples::CustomerObsession => 0,
        LeadershipPrinciples::Ownership => 1,
        LeadershipPrinciples::InventAndSimplify => 2,
        LeadershipPrinciples::AreRightALot => 3,
        LeadershipPrinciples::LearnAndBeCurious => 4,
        LeadershipPrinciples::HireAndDevelopTheBest => 5,
        LeadershipPrinciples::InsistOnTheHighestStandards => 6,
        LeadershipPrinciples::ThinkBig => 7,
        LeadershipPrinciples::BiasForAction => 8,
        LeadershipPrinciples::Frugality => 9,
        LeadershipPrinciples::EarnTrust => 10,
        LeadershipPrinciples::DiveDeep => 11,
        LeadershipPrinciples::HaveBackboneAndCommit => 12,
        LeadershipPrinciples::DeliverResults => 13,
        LeadershipPrinciples::SuccessAndScaleBringBroadResponsibility => 14,
        _ => 15,
    }
}

/// The principles are in strictly increasing field position.
pub open spec fn in_field_order(s: Seq<LeadershipPrinciples>) -> bool {
    forall|i: int, j: int|
        #![trigger s[i], s[j]]
        0 <= i < j < s.len() ==> field_position(s[i]) < field_position(s[j])
}

proof fn lemma_append_in_field_order(a: Seq<LeadershipPrinciples>, field: Option<u8>, p: LeadershipPrinciples)
    requires
        in_field_order(a),
        forall|k: int| 0 <= k < a.len() ==> field_position(#[trigger] a[k]) < field_position(p),
    ensures
        in_field_order(a + flag(field, p)),
        forall|k: int|
            0 <= k < (a + flag(field, p)).len() ==> field_position(#[trigger] (a + flag(field, p))[k])
                <= field_position(p),
{
    let r = a + flag(field, p);
    assert forall|k: int| 0 <= k < r.len() implies field_position(#[trigger] r[k]) <= field_position(p) by {
        if k < a.len() {
            assert(r[k] == a[k]);
        } else {
            assert(r[k] == p);
        }
    }
    assert forall|i: int, j: int| #![trigger r[i], r[j]] 0 <= i < j < r.len() implies field_position(r[i])
        < field_position(r[j]) by {
        if j < a.len() {
            assert(r[i] == a[i] && r[j] == a[j]);
        } else {
            assert(r[i] == a[i]);
            assert(r[j] == p);
        }
    }
}

/// An older event's principles come in the order of their fields, each at
/// most once.
pub proof fn lemma_principles_in_field_order(e: ReportEvent)
    ensures
        in_field_order(flagged_principles(e)),
{
    let s0 = flag(e.customer_obsession, LeadershipPrinciples::CustomerObsession);
    lemma_append_in_field_order(Seq::empty(), e.customer_obsession, LeadershipPrinciples::CustomerObsession);
    assert(Seq::<LeadershipPrinciples>::empty() + flag(e.customer_obsession, LeadershipPrinciples::CustomerObsession) =~= s0);
    let s1 = s0 + flag(e.ownership, LeadershipPrinciples::Ownership);
    lemma_append_in_field_order(s0, e.ownership, LeadershipPrinciples::Ownership);
    let s2 = s1 + flag(e.invent_and_simplify, LeadershipPrinciples::InventAndSimplify);
    lemma_append_in_field_order(s1, e.invent_and_simplify, LeadershipPrinciples::InventAndSimplify);
    let s3 = s2 + flag(e.are_right_alot, LeadershipPrinciples::AreRightALot);
    lemma_append_in_field_order(s2, e.are_right_alot, LeadershipPrinciples::AreRightALot);
    let s4 = s3 + flag(e.learn_and_be_curious, LeadershipPrinciples::LearnAndBeCurious);
    lemma_append_in_field_order(s3, e.learn_and_be_curious, LeadershipPrinciples::LearnAndBeCurious);
    let s5 = s4 + flag(e.hire_and_develop_the_best, LeadershipPrinciples::HireAndDevelopTheBest);
    lemma_append_in_field_order(s4, e.hire_and_develop_the_best, LeadershipPrinciples::HireAndDevelopTheBest);
    let s6 = s5 + flag(e.insist_on_the_highest_standards, LeadershipPrinciples::InsistOnTheHighestStandards);
    lemma_append_in_field_order(s5, e.insist_on_the_highest_standards, LeadershipPrinciples::InsistOnTheHighestStandards);
    let s7 = s6 + flag(e.think_big, LeadershipPrinciples::ThinkBig);
    lemma_append_in_field_order(s6, e.think_big, LeadershipPrinciples::ThinkBig);
    let s8 = s7 + flag(e.bias_for_action, LeadershipPrinciples::BiasForAction);
    lemma_append_in_field_order(s7, e.bias_for_action, LeadershipPrinciples::BiasForAction);
    let s9 = s8 + flag(e.frugality, LeadershipPrinciples::Frugality);
    lemma_append_in_field_order(s8, e.frugality, LeadershipPrinciples::Frugality);
    let s10 = s9 + flag(e.earn_trust, LeadershipPrinciples::EarnTrust);
    lemma_append_in_field_order(s9, e.earn_trust, LeadershipPrinciples::EarnTrust);
    let s11 = s10 + flag(e.dive_deep, LeadershipPrinciples::DiveDeep);
    lemma_append_in_field_order(s10, e.dive_deep, LeadershipPrinciples::DiveDeep);
    let s12 = s11 + flag(e.have_backbone, LeadershipPrinciples::HaveBackboneAndCommit);
    lemma_append_in_field_order(s11, e.have_backbone, LeadershipPrinciples::HaveBackboneAndCommit);
    let s13 = s12 + flag(e.deliver_results, LeadershipPrinciples::DeliverResults);
    lemma_append_in_field_order(s12, e.deliver_results, LeadershipPrinciples::DeliverResults);
    let s14 = s13 + flag(e.success_and_scale_brings_responsibility, LeadershipPrinciples::SuccessAndScaleBringBroadResponsibility);
    lemma_append_in_field_order(s13, e.success_and_scale_brings_responsibility, LeadershipPrinciples::SuccessAndScaleBringBroadResponsibility);
    assert(s14 == flagged_principles(e));
}

/// The lower-case form that `str::to_lowercase` gives of `s` (full Unicode
/// lower-casing).
pub uninterp spec fn unicode_lowercase(s: Seq<char>) -> Seq<char>;

/// `str::to_lowercase`: the result is named [`unicode_lowercase`] of the
/// input; which characters change is not stated.
#[verifier::external_body]
fn to_lowercase(s: &str) -> (r: String)
    ensures
        r@ == unicode_lowercase(s@),
{
    s.to_lowercase()
}

/// The kind of an older event, from its tag: "bar raiser" and "invest in
/// your self" in any case; no tag or another tag gives no particular kind.
pub open spec fn tag_event_type(tags: Option<String>) -> EventType {
    match tags {
        Some(s) => if unicode_lowercase(s@) == "bar raiser"@ {
            EventType::BarRaise
        } else if unicode_lowercase(s@) == "invest in your self"@ {
            EventType::InvestInYourSelf
        } else {
            EventType::Unspecified
        },
        None => EventType::Unspecified,
    }
}

/// The kind named by a tag already lower-cased: "bar raiser" and "invest in
/// your self"; any other tag gives no particular kind.
pub fn event_type_of_lowered_tag(lower: &str) -> (t: EventType)
    ensures
        t == (if lower@ == "bar raiser"@ {
            EventType::BarRaise
        } else if lower@ == "invest in your self"@ {
            EventType::InvestInYourSelf
        } else {
            EventType::Unspecified
        }),
{
    if str_equal(lower, "bar raiser") {
        EventType::BarRaise
    } else if str_equal(lower, "invest in your self") {
        EventType::InvestInYourSelf
    } else {
        EventType::Unspecified
    }
}

fn push_if(lp: &mut Vec<LeadershipPrinciples>, field: Option<u8>, p: LeadershipPrinciples)
    ensures
        final(lp)@ == old(lp)@ + flag(field, p),
{
    if field.is_some() {
        lp.push(p);
    }
    assert(lp@ =~= old(lp)@ + flag(field, p));
}

/// The current form of an older event.  The details must be present.
pub fn old_to_new_event(event: &ReportEvent) -> (t: TomlEvent)
    requires
        event.details is Some,
    ensures
        t.date == event.date,
        t.leadership_principles@ == flagged_principles(*event),
        t.event_type == tag_event_type(event.tags),
        t.summary@ == event.summary@,
        t.details@ == event.details.unwrap()@,
{
    let mut lp: Vec<LeadershipPrinciples> = Vec::new();
    push_if(&mut lp, event.customer_obsession, LeadershipPrinciples::CustomerObsession);
    push_if(&mut lp, event.ownership, LeadershipPrinciples::Ownership);
    push_if(&mut lp, event.invent_and_simplify, LeadershipPrinciples::InventAndSimplify);
    push_if(&mut lp, event.are_right_alot, LeadershipPrinciples::AreRightALot);
    push_if(&mut lp, event.learn_and_be_curious, LeadershipPrinciples::LearnAndBeCurious);
    push_if(&mut lp, event.hire_and_develop_the_best, LeadershipPrinciples::HireAndDevelopTheBest);
    push_if(&mut lp, event.insist_on_the_highest_standards, LeadershipPrinciples::InsistOnTheHighestStandards);
    push_if(&mut lp, event.think_big, LeadershipPrinciples::ThinkBig);
    push_if(&mut lp, event.bias_for_action, LeadershipPrinciples::BiasForAction);
    push_if(&mut lp, event.frugality, LeadershipPrinciples::Frugality);
    push_if(&mut lp, event.earn_trust, LeadershipPrinciples::EarnTrust);
    push_if(&mut lp, event.dive_deep, LeadershipPrinciples::DiveDeep);
    push_if(&mut lp, event.have_backbone, LeadershipPrinciples::HaveBackboneAndCommit);
    push_if(&mut lp, event.deliver_results, LeadershipPrinciples::DeliverResults);
    push_if(&mut lp, event.success_and_scale_brings_responsibility, LeadershipPrinciples::SuccessAndScaleBringBroadResponsibility);
    assert(lp@ =~= flagged_principles(*event));
    let event_type = match &event.tags {
        Some(s) => {
            let lower = to_lowercase(s.as_str());
            event_type_of_lowered_tag(lower.as_str())
        },
        None => EventType::Unspecified,
    };
    let details = match &event.details {
        Some(d) => d.clone(),
        None => String::new(),
    };
    TomlEvent {
        date: event.date,
        leadership_principles: lp,
        event_type,
        summary: event.summary.clone(),
        details,
    }
}

impl Report {
    /// The report in the current layout, event by event.  Every event must
    /// have details.
    pub fn to_new_format(&self) -> (data: TomlAccomplishmentData)
        requires
            forall|i: int| 0 <= i < self.events@.len() ==> (#[trigger] self.events@[i]).details is Some,
        ensures
            data.events@.len() == self.events@.len(),
            forall|i: int|
                0 <= i < self.events@.len() ==> converts_from_old(
                    #[trigger] self.events@[i],
                    data.events@[i],
                ),
    {
        let mut events: Vec<TomlEvent> = Vec::new();
        let n = self.events.len();
        for i in 0..n
            invariant
                n == self.events@.len(),
                forall|k: int| 0 <= k < n ==> (#[trigger] self.events@[k]).details is Some,
                events@.len() == i,
                forall|k: int|
                    0 <= k < i ==> converts_from_old(#[trigger] self.events@[k], events@[k]),
        {
            events.push(old_to_new_event(&self.events[i]));
        }
        TomlAccomplishmentData { events }
    }
}

/// `t` is the current form of the older event `e`.
pub open spec fn converts_from_old(e: ReportEvent, t: TomlEvent) -> bool {
    &&& t.date == e.date
    &&& t.leadership_principles@ == flagged_principles(e)
    &&& t.event_type == tag_event_type(e.tags)
    &&& t.summary@ == e.summary@
    &&& t.details@ == e.details.unwrap()@
}

} // verus!
