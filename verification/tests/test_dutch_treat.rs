use idp::dutch_treat::cli::{
    Action, InputAmount, InputIncrement, InputParticipant, InputPosition, MAX_YEARS,
};
use idp::dutch_treat::members::{
    add_member, out_list, perform, remove_member, surplus, AmountMember, JournalError,
    Member, Performed,
};

fn member(name: &str, years: usize) -> Member {
    Member::new_at(name.to_string(), years, 1_700_000_000)
}

fn names(members: &[Member]) -> Vec<String> {
    members.iter().map(|m| m.name.clone()).collect()
}

fn four() -> Vec<Member> {
    vec![member("a", 3), member("b", 10), member("c", 3), member("d", 7)]
}

#[test]
fn member_keeps_what_it_was_made_of() {
    let m = Member::new_at("taro".to_string(), 4, 12);
    assert_eq!(m.name, "taro");
    assert_eq!(m.years, 4);
    assert_eq!(m.created_at, 12);
    let before = std::time::SystemTime::now()
        .duration_since(std::time::UNIX_EPOCH)
        .unwrap()
        .as_secs() as i64;
    let m = Member::new_now("hanako".to_string(), 9);
    assert_eq!(m.name, "hanako");
    assert_eq!(m.years, 9);
    assert!(m.created_at >= before && m.created_at <= before + 5);
    let e = AmountMember::new(1200, m);
    assert_eq!(e.amount, 1200);
    assert_eq!(e.member.name, "hanako");
}

#[test]
fn add_member_appends() {
    let journal = add_member(Vec::new(), member("a", 1));
    assert_eq!(names(&journal), ["a"]);
    let journal = add_member(journal, member("b", 2));
    assert_eq!(names(&journal), ["a", "b"]);
    assert_eq!(journal[1].years, 2);
}

#[test]
fn remove_member_counts_from_one() {
    assert_eq!(names(&remove_member(four(), 1).unwrap()), ["b", "c", "d"]);
    assert_eq!(names(&remove_member(four(), 2).unwrap()), ["a", "c", "d"]);
    assert_eq!(names(&remove_member(four(), 4).unwrap()), ["a", "b", "c"]);
    assert_eq!(remove_member(four(), 0).unwrap_err(), JournalError::InvalidPosition);
    assert_eq!(remove_member(four(), 5).unwrap_err(), JournalError::InvalidPosition);
    assert_eq!(remove_member(four(), 255).unwrap_err(), JournalError::InvalidPosition);
    assert_eq!(remove_member(Vec::new(), 1).unwrap_err(), JournalError::InvalidPosition);
}

#[test]
fn remove_member_from_a_long_journal() {
    let mut journal = Vec::new();
    for n in 0..300 {
        journal.push(member(&format!("m{}", n), n));
    }
    let left = remove_member(journal, 255).unwrap();
    assert_eq!(left.len(), 299);
    assert_eq!(left[253].name, "m253");
    assert_eq!(left[254].name, "m255");
}

#[test]
fn out_list_needs_a_member() {
    assert_eq!(out_list(Vec::new()).unwrap_err(), JournalError::EmptyList);
    assert_eq!(names(&out_list(four()).unwrap()), ["a", "b", "c", "d"]);
}

#[test]
fn calc_orders_by_years_and_keeps_equals_in_order() {
    let plan = idp::dutch_treat::members::calc(four(), 10_000, None).unwrap();
    assert_eq!(names(&plan.members), ["b", "d", "a", "c"]);
    assert_eq!(plan.years_sum, 23);
    assert_eq!(plan.amount, 10_000);
    assert_eq!(plan.bias, 0);

    let same = vec![member("x", 1), member("y", 1), member("z", 1), member("w", 2)];
    assert_eq!(names(&idp::dutch_treat::members::calc(same, 0, None).unwrap().members), ["w", "x", "y", "z"]);
}

#[test]
fn calc_takes_the_bias_off_the_bill() {
    let plan = idp::dutch_treat::members::calc(four(), 10_000, Some(500)).unwrap();
    assert_eq!(plan.amount, 8_000);
    assert_eq!(plan.bias, 500);
    let plan = idp::dutch_treat::members::calc(four(), 10_000, Some(2_500)).unwrap();
    assert_eq!(plan.amount, 0);
    assert_eq!(plan.bias, 2_500);
    let plan = idp::dutch_treat::members::calc(four(), 10_000, Some(0)).unwrap();
    assert_eq!(plan.amount, 10_000);
    assert_eq!(plan.bias, 0);
}

#[test]
fn calc_refuses() {
    assert_eq!(idp::dutch_treat::members::calc(Vec::new(), 10_000, None).unwrap_err(), JournalError::EmptyList);
    // an empty list is found before the bias is looked at
    assert_eq!(idp::dutch_treat::members::calc(Vec::new(), 0, Some(1)).unwrap_err(), JournalError::EmptyList);
    assert_eq!(idp::dutch_treat::members::calc(four(), 10_000, Some(2_501)).unwrap_err(), JournalError::TooMuchBias);
    assert_eq!(idp::dutch_treat::members::calc(four(), 0, Some(1)).unwrap_err(), JournalError::TooMuchBias);
    assert_eq!(idp::dutch_treat::members::calc(four(), usize::MAX, Some(usize::MAX)).unwrap_err(), JournalError::TooMuchBias);
    assert_eq!(
        idp::dutch_treat::members::calc(vec![member("a", 1)], usize::MAX, Some(usize::MAX)).unwrap().amount,
        0
    );
}

#[test]
fn calc_sums_large_years() {
    let plan = idp::dutch_treat::members::calc(vec![member("a", usize::MAX), member("b", usize::MAX)], 1, None).unwrap();
    assert_eq!(plan.years_sum, 2 * (usize::MAX as u128));
}

#[test]
fn surplus_is_the_bill_less_the_amounts() {
    let entries = vec![
        AmountMember::new(4_300, member("b", 10)),
        AmountMember::new(3_000, member("d", 7)),
        AmountMember::new(1_300, member("a", 3)),
        AmountMember::new(1_300, member("c", 3)),
    ];
    assert_eq!(surplus(10_000, &entries), Some(100));
    assert_eq!(surplus(9_900, &entries), Some(0));
    assert_eq!(surplus(0, &entries), Some(-9_900));
    assert_eq!(surplus(7, &Vec::new()), Some(7));
    let huge = vec![AmountMember::new(usize::MAX, member("a", 1))];
    assert_eq!(surplus(0, &huge), Some(-(usize::MAX as i128)));
}

#[test]
fn perform_does_what_is_asked() {
    let add = Action::Add(InputParticipant { name: "e".to_string(), years: 5 });
    match perform(add, four(), 42).unwrap() {
        Performed::Stored(journal) => {
            assert_eq!(names(&journal), ["a", "b", "c", "d", "e"]);
            assert_eq!(journal[4].years, 5);
            assert_eq!(journal[4].created_at, 42);
        }
        other => panic!("{:?}", other),
    }
    match perform(Action::Remove(InputPosition { position: 3 }), four(), 42).unwrap() {
        Performed::Stored(journal) => assert_eq!(names(&journal), ["a", "b", "d"]),
        other => panic!("{:?}", other),
    }
    assert_eq!(
        perform(Action::Remove(InputPosition { position: 0 }), four(), 42).unwrap_err(),
        JournalError::InvalidPosition
    );
    match perform(Action::List, four(), 42).unwrap() {
        Performed::Listed(list) => assert_eq!(names(&list), ["a", "b", "c", "d"]),
        other => panic!("{:?}", other),
    }
    assert_eq!(perform(Action::List, Vec::new(), 42).unwrap_err(), JournalError::EmptyList);
    let split = Action::Calc(InputAmount { amount_all: 10_000, bias: Some(1_000) });
    match perform(split, four(), 42).unwrap() {
        Performed::Planned(plan) => {
            assert_eq!(names(&plan.members), ["b", "d", "a", "c"]);
            assert_eq!(plan.amount, 6_000);
            assert_eq!(plan.bias, 1_000);
            assert_eq!(plan.years_sum, 23);
        }
        other => panic!("{:?}", other),
    }
    let split = Action::Calc(InputAmount { amount_all: 10, bias: Some(3) });
    assert_eq!(perform(split, four(), 42).unwrap_err(), JournalError::TooMuchBias);
}

#[test]
fn journal_error_messages() {
    assert_eq!(JournalError::InvalidPosition.message(), "Invalid Task ID");
    assert_eq!(JournalError::EmptyList.message(), "Member list is empty!");
    assert_eq!(JournalError::TooMuchBias.message(), "Too much bias!");
}

#[test]
fn years_of_a_participant() {
    assert_eq!(MAX_YEARS, 100);
    assert!(InputParticipant { name: "a".to_string(), years: 0 }.years_in_range());
    assert!(InputParticipant { name: "a".to_string(), years: 100 }.years_in_range());
    assert!(!InputParticipant { name: "a".to_string(), years: 101 }.years_in_range());
    assert_eq!(InputIncrement { years: 3 }.years, 3);
}
