use vstd::prelude::*;
use crate::dutch_treat::cli::{Action, InputAmount, InputParticipant, InputPosition};
use crate::token::clock::{current_timestamp, CLOCK_MAX};

verus! {

/// Someone who takes part in the bill.
#[derive(Debug, Clone)]
pub struct Member {
    pub name: String,
    pub years: usize,
    /// When the member was entered, in seconds since the epoch.
    pub created_at: i64,
}

/// A member with the amount they pay.
#[derive(Debug)]
pub struct AmountMember {
    pub amount: usize,
    pub member: Member,
}

/// Why the journal refused a request.
#[derive(Debug, Clone, Copy, PartialEq, Eq, Structural)]
pub enum JournalError {
    /// The position is zero or behind the last entry.
    InvalidPosition,
    /// There is no member.
    EmptyList,
    /// The members would pay more before the split than the whole bill.
    TooMuchBias,
}

impl JournalError {
    /// The text shown to a person for each error.
    pub open spec fn text(self) -> Seq<char> {
        match self {
            JournalError::InvalidPosition => "Invalid Task ID"@,
            JournalError::EmptyList => "Member list is empty!"@,
            JournalError::TooMuchBias => "Too much bias!"@,
        }
    }

    /// Renders the error as its display text.
    pub fn message(&self) -> (out: String)
        ensures
            out@ == self.text(),
    {
        match self {
            JournalError::InvalidPosition => "Invalid Task ID".to_owned(),
            JournalError::EmptyList => "Member list is empty!".to_owned(),
            JournalError::TooMuchBias => "Too much bias!".to_owned(),
        }
    }
}

impl Member {
    /// A member entered at the time `created_at`.
    pub fn new_at(name: String, years: usize, created_at: i64) -> (member: Member)
        ensures
            member == (Member { name, years, created_at }),
    {
        Member { name, years, created_at }
    }

    /// A member entered now, whatever time the clock shows.
    pub fn new_now(name: String, years: usize) -> (member: Member)
        ensures
            member.name == name,
            member.years == years,
            0 <= member.created_at <= CLOCK_MAX,
    {
        let created_at = current_timestamp();
        Member::new_at(name, years, created_at)
    }
}

impl AmountMember {
    /// The entry that says `member` pays `amount`.
    pub fn new(amount: usize, member: Member) -> (entry: AmountMember)
        ensures
            entry == (AmountMember { amount, member }),
    {
        AmountMember { amount, member }
    }
}

/// The journal with `member` written behind its last entry.
pub fn add_member(members: Vec<Member>, member: Member) -> (journal: Vec<Member>)
    ensures
        journal@ == members@.push(member),
{
    let mut journal = members;
    journal.push(member);
    journal
}

/// Whether `position`, counted from one, names an entry of a list of
/// `len` entries.
pub open spec fn names_entry(position: int, len: int) -> bool {
    1 <= position <= len
}

/// The journal without the member at `member_position`, counted from one.
/// `InvalidPosition` where that is zero or behind the last member.
pub fn remove_member(members: Vec<Member>, member_position: u8) -> (journal: Result<
    Vec<Member>,
    JournalError,
>)
    ensures
        match journal {
            Ok(left) => names_entry(member_position as int, members@.len() as int) && left@
                == members@.remove(member_position - 1),
            Err(e) => !names_entry(member_position as int, members@.len() as int) && e
                == JournalError::InvalidPosition,
        },
{
    if member_position == 0 || member_position as usize > members.len() {
        return Err(JournalError::InvalidPosition);
    }
    let mut left = members;
    left.remove((member_position - 1) as usize);
    Ok(left)
}

/// The members to show, in their order; `EmptyList` where there is none.
pub fn out_list(members: Vec<Member>) -> (shown: Result<Vec<Member>, JournalError>)
    ensures
        match shown {
            Ok(list) => members@.len() > 0 && list@ == members@,
            Err(e) => members@.len() == 0 && e == JournalError::EmptyList,
        },
{
    if members.is_empty() {
        Err(JournalError::EmptyList)
    } else {
        Ok(members)
    }
}

/// The members of `members` with `years` years of service, in their order.
pub open spec fn with_years(members: Seq<Member>, years: usize) -> Seq<Member>
    decreases members.len(),
{
    if members.len() == 0 {
        Seq::empty()
    } else if members[0].years == years {
        seq![members[0]] + with_years(members.skip(1), years)
    } else {
        with_years(members.skip(1), years)
    }
}

/// Whether no member stands before one with more years of service.
pub open spec fn descending(members: Seq<Member>) -> bool {
    forall|i: int, j: int| 0 <= i < j < members.len() ==> members[i].years >= members[j].years
}

/// Whether `sorted` holds the members of `members` by descending years of
/// service, those with the same years in the order they had.
pub open spec fn is_descending_order_of(sorted: Seq<Member>, members: Seq<Member>) -> bool {
    &&& descending(sorted)
    &&& sorted.len() == members.len()
    &&& forall|years: usize| with_years(sorted, years) == with_years(members, years)
}

/// The years of service of all members together.
pub open spec fn total_years(members: Seq<Member>) -> nat
    decreases members.len(),
{
    if members.len() == 0 {
        0
    } else {
        members[0].years as nat + total_years(members.skip(1))
    }
}

/// The amounts of all entries together.
pub open spec fn total_amount(entries: Seq<AmountMember>) -> nat
    decreases entries.len(),
{
    if entries.len() == 0 {
        0
    } else {
        entries[0].amount as nat + total_amount(entries.skip(1))
    }
}

/// What every member pays before the rest is split.
pub open spec fn bias_of(bias: Option<usize>) -> int {
    match bias {
        Some(b) => b as int,
        None => 0,
    }
}

/// What is needed to split a bill: the members by descending years of
/// service, their years together, the amount that is split by years, and
/// what every member pays on top of their share.
#[derive(Debug)]
pub struct SplitPlan {
    pub members: Vec<Member>,
    pub years_sum: u128,
    pub amount: usize,
    pub bias: usize,
}

proof fn lemma_with_years_concat(a: Seq<Member>, b: Seq<Member>, years: usize)
    ensures
        with_years(a + b, years) == with_years(a, years) + with_years(b, years),
    decreases a.len(),
{
    if a.len() == 0 {
        assert(a + b =~= b);
        assert(with_years(a, years) + with_years(b, years) =~= with_years(b, years));
    } else {
        assert((a + b).skip(1) =~= a.skip(1) + b);
        lemma_with_years_concat(a.skip(1), b, years);
        if a[0].years == years {
            assert(seq![a[0]] + (with_years(a.skip(1), years) + with_years(b, years)) =~= (seq![
                a[0],
            ] + with_years(a.skip(1), years)) + with_years(b, years));
        }
    }
}

proof fn lemma_with_years_none(members: Seq<Member>, years: usize)
    requires
        forall|i: int| 0 <= i < members.len() ==> members[i].years != years,
    ensures
        with_years(members, years) == Seq::<Member>::empty(),
    decreases members.len(),
{
    if members.len() > 0 {
        assert forall|i: int| 0 <= i < members.skip(1).len() implies members.skip(1)[i].years
            != years by {
            assert(members.skip(1)[i] == members[i + 1]);
        }
        lemma_with_years_none(members.skip(1), years);
    }
}

/// Putting a member into a descending list behind all who have as many
/// years or more keeps the list descending and everyone's order among
/// their equals.
proof fn lemma_insert_keeps_order(
    sorted: Seq<Member>,
    rest: Seq<Member>,
    at: int,
    years: usize,
)
    requires
        rest.len() > 0,
        0 <= at <= sorted.len(),
        descending(sorted),
        forall|i: int| 0 <= i < at ==> sorted[i].years >= rest[0].years,
        forall|i: int| at <= i < sorted.len() ==> sorted[i].years < rest[0].years,
    ensures
        descending(sorted.insert(at, rest[0])),
        with_years(sorted.insert(at, rest[0]), years) + with_years(rest.skip(1), years)
            == with_years(sorted, years) + with_years(rest, years),
{
    let x = rest[0];
    let front = sorted.subrange(0, at);
    let back = sorted.subrange(at, sorted.len() as int);
    let grown = sorted.insert(at, x);
    assert(grown =~= front + (seq![x] + back));
    assert(sorted =~= front + back);
    assert forall|i: int, j: int| 0 <= i < j < grown.len() implies grown[i].years
        >= grown[j].years by {
        let a = if i < at {
            sorted[i]
        } else if i == at {
            x
        } else {
            sorted[i - 1]
        };
        let b = if j < at {
            sorted[j]
        } else if j == at {
            x
        } else {
            sorted[j - 1]
        };
        assert(grown[i] == a && grown[j] == b);
    }
    lemma_with_years_concat(front, seq![x] + back, years);
    lemma_with_years_concat(seq![x], back, years);
    lemma_with_years_concat(front, back, years);
    assert(seq![x].skip(1) =~= Seq::<Member>::empty());
    assert(with_years(seq![x].skip(1), years) =~= Seq::<Member>::empty());
    if x.years == years {
        assert forall|i: int| 0 <= i < back.len() implies back[i].years != years by {
            assert(back[i] == sorted[at + i]);
        }
        lemma_with_years_none(back, years);
        assert(with_years(seq![x], years) =~= seq![x]);
        assert(with_years(rest, years) =~= seq![x] + with_years(rest.skip(1), years));
        assert(with_years(grown, years) + with_years(rest.skip(1), years) =~= with_years(
            sorted,
            years,
        ) + with_years(rest, years));
    } else {
        assert(with_years(seq![x], years) =~= Seq::<Member>::empty());
        assert(with_years(grown, years) =~= with_years(sorted, years));
    }
}

/// The members by descending years of service; members with the same
/// years keep their order.
fn sort_by_years_descending(members: Vec<Member>) -> (sorted: Vec<Member>)
    ensures
        is_descending_order_of(sorted@, members@),
{
    let mut rest = members;
    let mut sorted: Vec<Member> = Vec::new();
    proof {
        assert forall|years: usize|
            with_years(sorted@, years) + with_years(rest@, years) == with_years(
                members@,
                years,
            ) by {
            assert(with_years(sorted@, years) + with_years(rest@, years) =~= with_years(
                rest@,
                years,
            ));
        }
    }
    while rest.len() > 0
        invariant
            descending(sorted@),
            sorted@.len() + rest@.len() == members@.len(),
            forall|years: usize|
                with_years(sorted@, years) + with_years(rest@, years) == with_years(
                    members@,
                    years,
                ),
        decreases rest@.len(),
    {
        let ghost before = rest@;
        let ghost placed = sorted@;
        let next = rest.remove(0);
        assert(rest@ =~= before.skip(1));
        let mut at: usize = 0;
        while at < sorted.len() && sorted[at].years >= next.years
            invariant
                at <= sorted@.len(),
                forall|i: int| 0 <= i < at ==> sorted@[i].years >= next.years,
            decreases sorted@.len() - at,
        {
            at = at + 1;
        }
        proof {
            assert forall|i: int| at <= i < placed.len() implies placed[i].years
                < next.years by {
                if i > at {
                    assert(placed[at as int].years >= placed[i].years);
                }
            }
            assert forall|years: usize|
                with_years(placed.insert(at as int, next), years) + with_years(
                    before.skip(1),
                    years,
                ) == with_years(members@, years) by {
                lemma_insert_keeps_order(placed, before, at as int, years);
            }
            lemma_insert_keeps_order(placed, before, at as int, 0);
        }
        sorted.insert(at, next);
    }
    proof {
        assert forall|years: usize| with_years(sorted@, years) == with_years(
            members@,
            years,
        ) by {
            assert(with_years(sorted@, years) + with_years(rest@, years) =~= with_years(
                sorted@,
                years,
            ));
        }
    }
    sorted
}

/// The years of service of all members together.
fn sum_years(members: &Vec<Member>) -> (sum: u128)
    ensures
        sum == total_years(members@),
{
    let mut sum: u128 = 0;
    let mut i: usize = 0;
    assert(members@.skip(0) == members@);
    while i < members.len()
        invariant
            i <= members@.len(),
            sum + total_years(members@.skip(i as int)) == total_years(members@),
            sum <= i * usize::MAX,
        decreases members@.len() - i,
    {
        proof {
            let here = members@.skip(i as int);
            assert(here[0] == members@[i as int]);
            assert(here.skip(1) == members@.skip(i + 1));
            assert((i + 1) * usize::MAX == i * usize::MAX + usize::MAX) by (nonlinear_arith);
            assert(i * usize::MAX <= 0xffff_ffff_ffff_ffff * 0xffff_ffff_ffff_ffff)
                by (nonlinear_arith)
                requires
                    i <= 0xffff_ffff_ffff_ffff,
                    usize::MAX <= 0xffff_ffff_ffff_ffff,
            ;
        }
        sum = sum + members[i].years as u128;
        i = i + 1;
    }
    sum
}

/// Prepares the split of the bill `amount_all` among `members`, of whom
/// each pays `bias` before the rest is split by years of service.
///
/// `EmptyList` without members; `TooMuchBias` where the members would
/// pay more before the split than the whole bill.
pub fn calc(members: Vec<Member>, amount_all: usize, bias: Option<usize>) -> (plan: Result<
    SplitPlan,
    JournalError,
>)
    ensures
        match plan {
            Ok(p) => {
                &&& members@.len() > 0
                &&& bias_of(bias) * members@.len() <= amount_all
                &&& p.amount == amount_all - bias_of(bias) * members@.len()
                &&& p.bias == bias_of(bias)
                &&& p.years_sum == total_years(members@)
                &&& is_descending_order_of(p.members@, members@)
            },
            Err(e) => if members@.len() == 0 {
                e == JournalError::EmptyList
            } else {
                bias_of(bias) * members@.len() > amount_all && e == JournalError::TooMuchBias
            },
        },
{
    if members.is_empty() {
        return Err(JournalError::EmptyList);
    }
    let count: usize = members.len();
    let mut amount: usize = amount_all;
    let mut each: usize = 0;
    if let Some(b) = bias {
        assert(b * count <= 0xffff_ffff_ffff_ffff * 0xffff_ffff_ffff_ffff) by (nonlinear_arith)
            requires
                b <= 0xffff_ffff_ffff_ffff,
                count <= 0xffff_ffff_ffff_ffff,
        ;
        let reserved: u128 = (b as u128) * (count as u128);
        if reserved > amount_all as u128 {
            return Err(JournalError::TooMuchBias);
        }
        amount = amount_all - reserved as usize;
        each = b;
    } else {
        assert(0 * members@.len() == 0) by (nonlinear_arith);
    }
    let years_sum = sum_years(&members);
    let sorted = sort_by_years_descending(members);
    Ok(SplitPlan { members: sorted, years_sum, amount, bias: each })
}

/// What is left of the bill `amount_all` when every entry has paid its
/// amount; negative where they pay more than the bill. `None` where the
/// amounts together are beyond what 127 bits hold.
pub fn surplus(amount_all: usize, entries: &Vec<AmountMember>) -> (left: Option<i128>)
    ensures
        match left {
            Some(delta) => delta == amount_all - total_amount(entries@),
            None => total_amount(entries@) > i128::MAX,
        },
{
    let mut sum: u128 = 0;
    let mut i: usize = 0;
    assert(entries@.skip(0) == entries@);
    while i < entries.len()
        invariant
            i <= entries@.len(),
            sum + total_amount(entries@.skip(i as int)) == total_amount(entries@),
            sum <= i128::MAX,
        decreases entries@.len() - i,
    {
        proof {
            let here = entries@.skip(i as int);
            assert(here[0] == entries@[i as int]);
            assert(here.skip(1) == entries@.skip(i + 1));
        }
        sum = sum + entries[i].amount as u128;
        if sum > i128::MAX as u128 {
            return None;
        }
        i = i + 1;
    }
    Some(amount_all as i128 - sum as i128)
}

/// What the journal did for a request.
#[derive(Debug)]
pub enum Performed {
    /// The journal changed; these members are to be written.
    Stored(Vec<Member>),
    /// These members are to be shown.
    Listed(Vec<Member>),
    /// The bill is to be split by this plan.
    Planned(SplitPlan),
}

/// Does what `action` asks of the journal `members` at the time `now`.
/// Incrementing the years of service is not offered.
pub fn perform(action: Action, members: Vec<Member>, now: i64) -> (done: Result<
    Performed,
    JournalError,
>)
    requires
        !(action is Increment),
    ensures
        match action {
            Action::Add(input) => done matches Ok(Performed::Stored(journal)) && journal@
                == members@.push(Member { name: input.name, years: input.years, created_at: now }),
            Action::Remove(input) => if names_entry(
                input.position as int,
                members@.len() as int,
            ) {
                done matches Ok(Performed::Stored(journal)) && journal@ == members@.remove(
                    input.position - 1,
                )
            } else {
                done matches Err(e) && e == JournalError::InvalidPosition
            },
            Action::Increment(_) => true,
            Action::Calc(input) => if members@.len() == 0 {
                done matches Err(e) && e == JournalError::EmptyList
            } else if bias_of(input.bias) * members@.len() > input.amount_all {
                done matches Err(e) && e == JournalError::TooMuchBias
            } else {
                done matches Ok(Performed::Planned(p)) && p.amount == input.amount_all - bias_of(
                    input.bias,
                ) * members@.len() && p.bias == bias_of(input.bias) && p.years_sum
                    == total_years(members@) && is_descending_order_of(p.members@, members@)
            },
            Action::List => if members@.len() == 0 {
                done matches Err(e) && e == JournalError::EmptyList
            } else {
                done matches Ok(Performed::Listed(list)) && list@ == members@
            },
        },
{
    match action {
        Action::Add(InputParticipant { name, years }) => Ok(
            Performed::Stored(add_member(members, Member::new_at(name, years, now))),
        ),
        Action::Remove(InputPosition { position }) => match remove_member(members, position) {
            Ok(journal) => Ok(Performed::Stored(journal)),
            Err(e) => Err(e),
        },
        Action::Increment(_) => {
            proof {
                assert(false);
            }
            Err(JournalError::InvalidPosition)
        },
        Action::Calc(InputAmount { amount_all, bias }) => match calc(members, amount_all, bias) {
            Ok(plan) => Ok(Performed::Planned(plan)),
            Err(e) => Err(e),
        },
        Action::List => match out_list(members) {
            Ok(list) => Ok(Performed::Listed(list)),
            Err(e) => Err(e),
        },
    }
}

} // verus!
