//! The leadership principles an accomplishment is tagged with, and the kind of
//! an accomplishment.

use vstd::prelude::*;
use crate::text::str_equal;

verus! {

/// The leadership principles, in their fixed order; `Empty` marks an unused
/// slot.
#[derive(PartialEq, Eq, Structural, Debug, Copy, Clone)]
pub enum LeadershipPrinciples {
    Ownership,
    DisagreeAndCommit,
    LearnAndBeCurious,
    CustomerObsession,
    InventAndSimplify,
    AreRightALot,
    HireAndDevelopTheBest,
    InsistOnTheHighestStandards,
    ThinkBig,
    BiasForAction,
    Frugality,
    EarnTrust,
    DiveDeep,
    HaveBackboneAndCommit,
    DeliverResults,
    SuccessAndScaleBringBroadResponsibility,
    Empty,
}

/// Number of leadership principles, `Empty` included.
pub const N_LEADERSHIP_PRINCIPLES: usize = 17;

/// All principles in their fixed order.
pub open spec fn all_principles() -> Seq<LeadershipPrinciples> {
    seq![
        LeadershipPrinciples::Ownership,
        LeadershipPrinciples::DisagreeAndCommit,
        LeadershipPrinciples::LearnAndBeCurious,
        LeadershipPrinciples::CustomerObsession,
        LeadershipPrinciples::InventAndSimplify,
        LeadershipPrinciples::AreRightALot,
        LeadershipPrinciples::HireAndDevelopTheBest,
        LeadershipPrinciples::InsistOnTheHighestStandards,
        LeadershipPrinciples::ThinkBig,
        LeadershipPrinciples::BiasForAction,
        LeadershipPrinciples::Frugality,
        LeadershipPrinciples::EarnTrust,
        LeadershipPrinciples::DiveDeep,
        LeadershipPrinciples::HaveBackboneAndCommit,
        LeadershipPrinciples::DeliverResults,
        LeadershipPrinciples::SuccessAndScaleBringBroadResponsibility,
        LeadershipPrinciples::Empty,
    ]
}

impl LeadershipPrinciples {
    /// Position of the principle in the fixed order.
    pub open spec fn index(self) -> nat {
        match self {
            LeadershipPrinciples::Ownership => 0,
            LeadershipPrinciples::DisagreeAndCommit => 1,
            LeadershipPrinciples::LearnAndBeCurious => 2,
            LeadershipPrinciples::CustomerObsession => 3,
            LeadershipPrinciples::InventAndSimplify => 4,
            LeadershipPrinciples::AreRightALot => 5,
            LeadershipPrinciples::HireAndDevelopTheBest => 6,
            LeadershipPrinciples::InsistOnTheHighestStandards => 7,
            LeadershipPrinciples::ThinkBig => 8,
            LeadershipPrinciples::BiasForAction => 9,
            LeadershipPrinciples::Frugality => 10,
            LeadershipPrinciples::EarnTrust => 11,
            LeadershipPrinciples::DiveDeep => 12,
            LeadershipPrinciples::HaveBackboneAndCommit => 13,
            LeadershipPrinciples::DeliverResults => 14,
            LeadershipPrinciples::SuccessAndScaleBringBroadResponsibility => 15,
            LeadershipPrinciples::Empty => 16,
        }
    }

    /// The display name of the principle.
    pub open spec fn name(self) -> Seq<char> {
        match self {
            LeadershipPrinciples::Ownership => "Ownership"@,
            LeadershipPrinciples::DisagreeAndCommit => "Disagree and Commit"@,
            LeadershipPrinciples::LearnAndBeCurious => "Learn and be Curious"@,
            LeadershipPrinciples::CustomerObsession => "Customer Obsession"@,
            LeadershipPrinciples::InventAndSimplify => "Invent and Simplify"@,
            LeadershipPrinciples::AreRightALot => "Are right alot"@,
            LeadershipPrinciples::HireAndDevelopTheBest => "Hire and Develop the Best"@,
            LeadershipPrinciples::InsistOnTheHighestStandards => "Insist on the Highest Standards"@,
            LeadershipPrinciples::ThinkBig => "Think Big"@,
            LeadershipPrinciples::BiasForAction => "Bias for Action"@,
            LeadershipPrinciples::Frugality => "Frugality"@,
            LeadershipPrinciples::EarnTrust => "Earn Trust"@,
            LeadershipPrinciples::DiveDeep => "Dive Deep"@,
            LeadershipPrinciples::HaveBackboneAndCommit => "Have backbone and Commit"@,
            LeadershipPrinciples::DeliverResults => "Deliver Results"@,
            LeadershipPrinciples::SuccessAndScaleBringBroadResponsibility =>
                "Success and Scale bring Broad Responsibility"@,
            LeadershipPrinciples::Empty => "NA - Empty"@,
        }
    }

    /// The principle whose display name is `s`; `Empty` when no name matches.
    pub open spec fn from_name(s: Seq<char>) -> LeadershipPrinciples {
        if s == "Ownership"@ {
            LeadershipPrinciples::Ownership
        } else if s == "Disagree and Commit"@ {
            LeadershipPrinciples::DisagreeAndCommit
        } else if s == "Learn and be Curious"@ {
            LeadershipPrinciples::LearnAndBeCurious
        } else if s == "Customer Obsession"@ {
            LeadershipPrinciples::CustomerObsession
        } else if s == "Invent and Simplify"@ {
            LeadershipPrinciples::InventAndSimplify
        } else if s == "Are right alot"@ {
            LeadershipPrinciples::AreRightALot
        } else if s == "Hire and Develop the Best"@ {
            LeadershipPrinciples::HireAndDevelopTheBest
        } else if s == "Insist on the Highest Standards"@ {
            LeadershipPrinciples::InsistOnTheHighestStandards
        } else if s == "Think Big"@ {
            LeadershipPrinciples::ThinkBig
        } else if s == "Bias for Action"@ {
            LeadershipPrinciples::BiasForAction
        } else if s == "Frugality"@ {
            LeadershipPrinciples::Frugality
        } else if s == "Earn Trust"@ {
            LeadershipPrinciples::EarnTrust
        } else if s == "Dive Deep"@ {
            LeadershipPrinciples::DiveDeep
        } else if s == "Have backbone and Commit"@ {
            LeadershipPrinciples::HaveBackboneAndCommit
        } else if s == "Deliver Results"@ {
            LeadershipPrinciples::DeliverResults
        } else if s == "Success and Scale bring Broad Responsibility"@ {
            LeadershipPrinciples::SuccessAndScaleBringBroadResponsibility
        } else {
            LeadershipPrinciples::Empty
        }
    }

    /// All principles, `Empty` last, in their fixed order.
    pub fn iterator() -> (v: Vec<LeadershipPrinciples>)
        ensures
            v@ == all_principles(),
    {
        let v = vec![
            LeadershipPrinciples::Ownership,
            LeadershipPrinciples::DisagreeAndCommit,
            LeadershipPrinciples::LearnAndBeCurious,
            LeadershipPrinciples::CustomerObsession,
            LeadershipPrinciples::InventAndSimplify,
            LeadershipPrinciples::AreRightALot,
            LeadershipPrinciples::HireAndDevelopTheBest,
            LeadershipPrinciples::InsistOnTheHighestStandards,
            LeadershipPrinciples::ThinkBig,
            LeadershipPrinciples::BiasForAction,
            LeadershipPrinciples::Frugality,
            LeadershipPrinciples::EarnTrust,
            LeadershipPrinciples::DiveDeep,
            LeadershipPrinciples::HaveBackboneAndCommit,
            LeadershipPrinciples::DeliverResults,
            LeadershipPrinciples::SuccessAndScaleBringBroadResponsibility,
            LeadershipPrinciples::Empty,
        ];
        assert(v@ =~= all_principles());
        v
    }

    /// The display name of the principle.
    pub fn to_str(&self) -> (s: &'static str)
        ensures
            s@ == self.name(),
    {
        match self {
            LeadershipPrinciples::Ownership => "Ownership",
            LeadershipPrinciples::DisagreeAndCommit => "Disagree and Commit",
            LeadershipPrinciples::LearnAndBeCurious => "Learn and be Curious",
            LeadershipPrinciples::CustomerObsession => "Customer Obsession",
            LeadershipPrinciples::InventAndSimplify => "Invent and Simplify",
            LeadershipPrinciples::AreRightALot => "Are right alot",
            LeadershipPrinciples::HireAndDevelopTheBest => "Hire and Develop the Best",
            LeadershipPrinciples::InsistOnTheHighestStandards => "Insist on the Highest Standards",
            LeadershipPrinciples::ThinkBig => "Think Big",
            LeadershipPrinciples::BiasForAction => "Bias for Action",
            LeadershipPrinciples::Frugality => "Frugality",
            LeadershipPrinciples::EarnTrust => "Earn Trust",
            LeadershipPrinciples::DiveDeep => "Dive Deep",
            LeadershipPrinciples::HaveBackboneAndCommit => "Have backbone and Commit",
            LeadershipPrinciples::DeliverResults => "Deliver Results",
            LeadershipPrinciples::SuccessAndScaleBringBroadResponsibility =>
                "Success and Scale bring Broad Responsibility",
            LeadershipPrinciples::Empty => "NA - Empty",
        }
    }

    /// Position of the principle in the fixed order.
    pub fn to_u32(&self) -> (i: u32)
        ensures
            i == self.index(),
    {
        match self {
            LeadershipPrinciples::Ownership => 0,
            LeadershipPrinciples::DisagreeAndCommit => 1,
            LeadershipPrinciples::LearnAndBeCurious => 2,
            LeadershipPrinciples::CustomerObsession => 3,
            LeadershipPrinciples::InventAndSimplify => 4,
            LeadershipPrinciples::AreRightALot => 5,
            LeadershipPrinciples::HireAndDevelopTheBest => 6,
            LeadershipPrinciples::InsistOnTheHighestStandards => 7,
            LeadershipPrinciples::ThinkBig => 8,
            LeadershipPrinciples::BiasForAction => 9,
            LeadershipPrinciples::Frugality => 10,
            LeadershipPrinciples::EarnTrust => 11,
            LeadershipPrinciples::DiveDeep => 12,
            LeadershipPrinciples::HaveBackboneAndCommit => 13,
            LeadershipPrinciples::DeliverResults => 14,
            LeadershipPrinciples::SuccessAndScaleBringBroadResponsibility => 15,
            LeadershipPrinciples::Empty => 16,
        }
    }

    /// The principle at position `i` of the fixed order, if there is one.
    pub fn from_u32(i: u32) -> (p: Option<LeadershipPrinciples>)
        ensures
            i < 17 ==> p == Some(all_principles()[i as int]),
            i >= 17 ==> p is None,
    {
        if i < 17 {
            let all = LeadershipPrinciples::iterator();
            Some(all[i as usize])
        } else {
            None
        }
    }

    /// The principle whose display name is `input`; `Empty` for any other text.
    pub fn from_str(input: &str) -> (p: LeadershipPrinciples)
        ensures
            p == LeadershipPrinciples::from_name(input@),
    {
        if str_equal(input, "Ownership") {
            LeadershipPrinciples::Ownership
        } else if str_equal(input, "Disagree and Commit") {
            LeadershipPrinciples::DisagreeAndCommit
        } else if str_equal(input, "Learn and be Curious") {
            LeadershipPrinciples::LearnAndBeCurious
        } else if str_equal(input, "Customer Obsession") {
            LeadershipPrinciples::CustomerObsession
        } else if str_equal(input, "Invent and Simplify") {
            LeadershipPrinciples::InventAndSimplify
        } else if str_equal(input, "Are right alot") {
            LeadershipPrinciples::AreRightALot
        } else if str_equal(input, "Hire and Develop the Best") {
            LeadershipPrinciples::HireAndDevelopTheBest
        } else if str_equal(input, "Insist on the Highest Standards") {
            LeadershipPrinciples::InsistOnTheHighestStandards
        } else if str_equal(input, "Think Big") {
            LeadershipPrinciples::ThinkBig
        } else if str_equal(input, "Bias for Action") {
            LeadershipPrinciples::BiasForAction
        } else if str_equal(input, "Frugality") {
            LeadershipPrinciples::Frugality
        } else if str_equal(input, "Earn Trust") {
            LeadershipPrinciples::EarnTrust
        } else if str_equal(input, "Dive Deep") {
            LeadershipPrinciples::DiveDeep
        } else if str_equal(input, "Have backbone and Commit") {
            LeadershipPrinciples::HaveBackboneAndCommit
        } else if str_equal(input, "Deliver Results") {
            LeadershipPrinciples::DeliverResults
        } else if str_equal(input, "Success and Scale bring Broad Responsibility") {
            LeadershipPrinciples::SuccessAndScaleBringBroadResponsibility
        } else {
            LeadershipPrinciples::Empty
        }
    }
}

impl Default for LeadershipPrinciples {
    fn default() -> (p: LeadershipPrinciples)
        ensures
            p == LeadershipPrinciples::Empty,
    {
        LeadershipPrinciples::Empty
    }
}

/// Reading back the display name of a principle gives the principle; this
/// holds for `Empty` too, whose name matches no other principle.
pub proof fn lemma_name_round_trip(p: LeadershipPrinciples)
    ensures
        LeadershipPrinciples::from_name(p.name()) == p,
{
    reveal_strlit("Ownership");
    reveal_strlit("Disagree and Commit");
    reveal_strlit("Learn and be Curious");
    reveal_strlit("Customer Obsession");
    reveal_strlit("Invent and Simplify");
    reveal_strlit("Are right alot");
    reveal_strlit("Hire and Develop the Best");
    reveal_strlit("Insist on the Highest Standards");
    reveal_strlit("Think Big");
    reveal_strlit("Bias for Action");
    reveal_strlit("Frugality");
    reveal_strlit("Earn Trust");
    reveal_strlit("Dive Deep");
    reveal_strlit("Have backbone and Commit");
    reveal_strlit("Deliver Results");
    reveal_strlit("Success and Scale bring Broad Responsibility");
    reveal_strlit("NA - Empty");
    assert("Ownership"@.len() == 9 && "Ownership"@[0] == 'O');
    assert("Disagree and Commit"@.len() == 19 && "Disagree and Commit"@[0] == 'D');
    assert("Learn and be Curious"@.len() == 20 && "Learn and be Curious"@[0] == 'L');
    assert("Customer Obsession"@.len() == 18 && "Customer Obsession"@[0] == 'C');
    assert("Invent and Simplify"@.len() == 19 && "Invent and Simplify"@[0] == 'I');
    assert("Are right alot"@.len() == 14 && "Are right alot"@[0] == 'A');
    assert("Hire and Develop the Best"@.len() == 25 && "Hire and Develop the Best"@[0] == 'H');
    assert("Insist on the Highest Standards"@.len() == 31 && "Insist on the Highest Standards"@[0] == 'I');
    assert("Think Big"@.len() == 9 && "Think Big"@[0] == 'T');
    assert("Bias for Action"@.len() == 15 && "Bias for Action"@[0] == 'B');
    assert("Frugality"@.len() == 9 && "Frugality"@[0] == 'F');
    assert("Earn Trust"@.len() == 10 && "Earn Trust"@[0] == 'E');
    assert("Dive Deep"@.len() == 9 && "Dive Deep"@[0] == 'D');
    assert("Have backbone and Commit"@.len() == 24 && "Have backbone and Commit"@[0] == 'H');
    assert("Deliver Results"@.len() == 15 && "Deliver Results"@[0] == 'D');
    assert("Success and Scale bring Broad Responsibility"@.len() == 44 && "Success and Scale bring Broad Responsibility"@[0] == 'S');
    assert("NA - Empty"@.len() == 10 && "NA - Empty"@[0] == 'N');
}

/// The fixed order and the positions agree: the principle at position `i` of
/// the order has position `i`, and every principle sits at its own position.
pub proof fn lemma_order_matches_index(p: LeadershipPrinciples, i: int)
    ensures
        all_principles().len() == 17,
        0 <= i < 17 ==> all_principles()[i].index() == i,
        all_principles()[p.index() as int] == p,
{
}

/// The kind of an accomplishment.
#[derive(PartialEq, Eq, Structural, Debug, Copy, Clone)]
pub enum EventType {
    BarRaise,
    InvestInYourSelf,
    Unspecified,
}

impl EventType {
    /// The code of the kind: its position in declaration order.
    pub open spec fn code(self) -> nat {
        match self {
            EventType::BarRaise => 0,
            EventType::InvestInYourSelf => 1,
            EventType::Unspecified => 2,
        }
    }

    /// The code of the kind.
    pub fn to_u16(&self) -> (c: u16)
        ensures
            c == self.code(),
    {
        match self {
            EventType::BarRaise => 0,
            EventType::InvestInYourSelf => 1,
            EventType::Unspecified => 2,
        }
    }

    /// The kind with code `c`, if there is one.
    pub fn from_u16(c: u16) -> (t: Option<EventType>)
        ensures
            match t {
                Some(t) => t.code() == c,
                Option::None => c > 2,
            },
    {
        if c == 0 {
            Some(EventType::BarRaise)
        } else if c == 1 {
            Some(EventType::InvestInYourSelf)
        } else if c == 2 {
            Some(EventType::Unspecified)
        } else {
            Option::None
        }
    }
}

impl Default for EventType {
    fn default() -> (t: EventType)
        ensures
            t == EventType::Unspecified,
    {
        EventType::Unspecified
    }
}

} // verus!
