use saas_arr::{
    sort_contracts, ArrError, ArrEvent, ArrEventType, Contract, ContractRecord, Customer, CustomerArrEvents, Date,
    SaasData,
};
use std::cmp::Ordering;

fn ymd(y: i32, m: u32, d: u32) -> Date {
    Date::from_ymd(y, m, d).unwrap()
}

fn record(id: &str, start: Date, end: Date, tcv: i64) -> ContractRecord {
    ContractRecord { customer_id: id.to_string(), start_date: start, end_date: end, tcv }
}

fn contract(id: &str, start: Date, end: Date, tcv: i64) -> Contract {
    Contract::from_record(record(id, start, end, tcv)).unwrap()
}

fn event(date: Date, arr_change: i128, contract: usize, event_type: ArrEventType) -> ArrEvent {
    ArrEvent { date, arr_change, contract, event_type }
}

fn far_future() -> Date {
    ymd(2100, 1, 1)
}

fn events_of(records: Vec<ContractRecord>, id: &str, as_of: Date) -> Vec<ArrEvent> {
    let data = SaasData::new(records).unwrap();
    data.customer_timeline(id, as_of).unwrap()
}

#[test]
fn single_contract_active_is_one_new_event() {
    let mut cust = Customer::new("acme");
    cust.add_contract_record(record("acme", ymd(2021, 1, 1), ymd(2022, 1, 1), 120000)).unwrap();
    let events = CustomerArrEvents::new(&mut cust, ymd(2021, 6, 1)).events;
    assert_eq!(events, vec![event(ymd(2021, 1, 1), 120000, 0, ArrEventType::New)]);
}

#[test]
fn new_then_churn() {
    let events = events_of(vec![record("acme", ymd(2021, 1, 1), ymd(2022, 1, 1), 120000)], "acme", far_future());
    assert_eq!(
        events,
        vec![
            event(ymd(2021, 1, 1), 120000, 0, ArrEventType::New),
            event(ymd(2022, 1, 1), -120000, 0, ArrEventType::Churn),
        ]
    );
}

#[test]
fn renewal_at_equal_value() {
    let events = events_of(
        vec![
            record("acme", ymd(2022, 1, 1), ymd(2023, 1, 1), 120000),
            record("acme", ymd(2021, 1, 1), ymd(2022, 1, 1), 120000),
        ],
        "acme",
        ymd(2022, 6, 1),
    );
    assert_eq!(
        events,
        vec![
            event(ymd(2021, 1, 1), 120000, 0, ArrEventType::New),
            event(ymd(2022, 1, 1), 0, 1, ArrEventType::Renewal),
        ]
    );
}

#[test]
fn expansion_at_hand_off() {
    let events = events_of(
        vec![
            record("acme", ymd(2021, 1, 1), ymd(2022, 1, 1), 120000),
            record("acme", ymd(2022, 1, 1), ymd(2023, 1, 1), 180000),
        ],
        "acme",
        far_future(),
    );
    assert_eq!(
        events,
        vec![
            event(ymd(2021, 1, 1), 120000, 0, ArrEventType::New),
            event(ymd(2022, 1, 1), 60000, 1, ArrEventType::Expansion),
            event(ymd(2023, 1, 1), -180000, 1, ArrEventType::Churn),
        ]
    );
}

#[test]
fn downsell_at_hand_off() {
    let events = events_of(
        vec![
            record("acme", ymd(2021, 1, 1), ymd(2022, 1, 1), 120000),
            record("acme", ymd(2022, 1, 1), ymd(2023, 1, 1), 90000),
        ],
        "acme",
        ymd(2022, 3, 1),
    );
    assert_eq!(
        events,
        vec![
            event(ymd(2021, 1, 1), 120000, 0, ArrEventType::New),
            event(ymd(2022, 1, 1), -30000, 1, ArrEventType::Downsell),
        ]
    );
}

#[test]
fn gap_produces_churn_then_new() {
    let events = events_of(
        vec![
            record("acme", ymd(2021, 1, 1), ymd(2022, 1, 1), 120000),
            record("acme", ymd(2022, 6, 1), ymd(2023, 6, 1), 150000),
        ],
        "acme",
        ymd(2023, 1, 1),
    );
    assert_eq!(
        events,
        vec![
            event(ymd(2021, 1, 1), 120000, 0, ArrEventType::New),
            event(ymd(2022, 1, 1), -120000, 0, ArrEventType::Churn),
            event(ymd(2022, 6, 1), 150000, 1, ArrEventType::New),
        ]
    );
}

#[test]
fn overlap_at_equal_value_has_no_event() {
    let events = events_of(
        vec![
            record("acme", ymd(2021, 1, 1), ymd(2022, 1, 1), 120000),
            record("acme", ymd(2021, 7, 1), ymd(2022, 7, 1), 120000),
        ],
        "acme",
        far_future(),
    );
    assert_eq!(
        events,
        vec![
            event(ymd(2021, 1, 1), 120000, 0, ArrEventType::New),
            event(ymd(2022, 7, 1), -120000, 1, ArrEventType::Churn),
        ]
    );
}

#[test]
fn overlap_with_higher_value_is_expansion() {
    let events = events_of(
        vec![
            record("acme", ymd(2021, 1, 1), ymd(2022, 1, 1), 120000),
            record("acme", ymd(2021, 7, 1), ymd(2022, 7, 1), 200000),
        ],
        "acme",
        far_future(),
    );
    assert_eq!(
        events,
        vec![
            event(ymd(2021, 1, 1), 120000, 0, ArrEventType::New),
            event(ymd(2021, 7, 1), 80000, 1, ArrEventType::Expansion),
            event(ymd(2022, 7, 1), -200000, 1, ArrEventType::Churn),
        ]
    );
}

#[test]
fn conservation_when_coverage_has_ended() {
    let events = events_of(
        vec![
            record("acme", ymd(2021, 1, 1), ymd(2022, 1, 1), 120000),
            record("acme", ymd(2022, 1, 1), ymd(2023, 1, 1), 180000),
            record("acme", ymd(2022, 6, 1), ymd(2023, 6, 1), 90000),
            record("acme", ymd(2024, 1, 1), ymd(2025, 1, 1), 50000),
        ],
        "acme",
        far_future(),
    );
    let total: i128 = events.iter().map(|e| e.arr_change).sum();
    assert_eq!(total, 0);
    for w in events.windows(2) {
        assert!(w[0].date.day_number() <= w[1].date.day_number());
    }
}

#[test]
fn running_total_is_active_acv() {
    let events = events_of(
        vec![
            record("acme", ymd(2021, 1, 1), ymd(2022, 1, 1), 120000),
            record("acme", ymd(2022, 1, 1), ymd(2023, 1, 1), 180000),
        ],
        "acme",
        ymd(2022, 6, 1),
    );
    let total: i128 = events.iter().map(|e| e.arr_change).sum();
    assert_eq!(total, 180000);
}

#[test]
fn unknown_customer_is_reported() {
    let data = SaasData::new(vec![record("acme", ymd(2021, 1, 1), ymd(2022, 1, 1), 120000)]).unwrap();
    assert_eq!(data.customer_timeline("globex", far_future()), Err(ArrError::UnknownCustomer));
}

#[test]
fn registry_groups_by_customer_and_sorts() {
    let data = SaasData::new(vec![
        record("acme", ymd(2022, 1, 1), ymd(2023, 1, 1), 1000),
        record("globex", ymd(2021, 1, 1), ymd(2022, 1, 1), 2000),
        record("acme", ymd(2021, 1, 1), ymd(2022, 1, 1), 3000),
        record("acme", ymd(2021, 1, 1), ymd(2022, 1, 1), 3000),
    ])
    .unwrap();
    assert_eq!(data.customers.len(), 2);
    let acme = data.customers.iter().find(|c| c.id == "acme").unwrap();
    assert_eq!(acme.contracts.len(), 3);
    assert_eq!(acme.contracts[0].start_date, ymd(2021, 1, 1));
    assert_eq!(acme.contracts[1].start_date, ymd(2021, 1, 1));
    assert_eq!(acme.contracts[2].start_date, ymd(2022, 1, 1));
    let globex = data.customers.iter().find(|c| c.id == "globex").unwrap();
    assert_eq!(globex.contracts.len(), 1);
    assert_eq!(globex.contracts[0].acv, 2000);
    let all = data.timelines(far_future());
    assert_eq!(all.len(), 2);
}

#[test]
fn registry_rejects_bad_record() {
    let r = SaasData::new(vec![
        record("acme", ymd(2021, 1, 1), ymd(2022, 1, 1), 1000),
        record("acme", ymd(2021, 1, 1), ymd(2021, 1, 5), 1000),
        record("acme", ymd(2021, 1, 2), ymd(2021, 1, 1), 1000),
    ]);
    assert!(matches!(r, Err(ArrError::DegenerateDuration)));
}

#[test]
fn contract_order_compares_keys_in_turn() {
    let a = contract("b", ymd(2021, 1, 1), ymd(2022, 1, 1), 100);
    let later_start = contract("a", ymd(2021, 1, 2), ymd(2021, 6, 1), 1);
    let later_end = contract("a", ymd(2021, 1, 1), ymd(2022, 1, 2), 1);
    let higher_tcv = contract("a", ymd(2021, 1, 1), ymd(2022, 1, 1), 101);
    let later_id = contract("c", ymd(2021, 1, 1), ymd(2022, 1, 1), 100);
    let same = contract("b", ymd(2021, 1, 1), ymd(2022, 1, 1), 100);
    assert_eq!(a.compare(&later_start), Ordering::Less);
    assert_eq!(later_start.compare(&a), Ordering::Greater);
    assert_eq!(a.compare(&later_end), Ordering::Less);
    assert_eq!(a.compare(&higher_tcv), Ordering::Less);
    assert_eq!(a.compare(&later_id), Ordering::Less);
    assert_eq!(later_id.compare(&a), Ordering::Greater);
    assert_eq!(a.compare(&same), Ordering::Equal);
}

#[test]
fn sorting_twice_changes_nothing() {
    let v = vec![
        contract("a", ymd(2022, 1, 1), ymd(2023, 1, 1), 5),
        contract("a", ymd(2021, 1, 1), ymd(2022, 1, 1), 7),
        contract("a", ymd(2021, 1, 1), ymd(2022, 1, 1), 3),
        contract("a", ymd(2021, 1, 1), ymd(2021, 9, 1), 9),
    ];
    let once = sort_contracts(v);
    let keys: Vec<(i32, i32, i64)> =
        once.iter().map(|c| (c.start_date.day_number(), c.end_date.day_number(), c.tcv)).collect();
    assert_eq!(keys[0].2, 9);
    assert_eq!(keys[1].2, 3);
    assert_eq!(keys[2].2, 7);
    assert_eq!(keys[3].2, 5);
    let twice = sort_contracts(once);
    let keys2: Vec<(i32, i32, i64)> =
        twice.iter().map(|c| (c.start_date.day_number(), c.end_date.day_number(), c.tcv)).collect();
    assert_eq!(keys, keys2);
}

#[test]
fn empty_registry_has_no_timelines() {
    let data = SaasData::new(vec![]).unwrap();
    assert!(data.timelines(far_future()).is_empty());
}

#[test]
fn contracts_equal_only_when_all_keys_agree() {
    let a = contract("acme", ymd(2021, 1, 1), ymd(2022, 1, 1), 100);
    let b = contract("acme", ymd(2021, 1, 1), ymd(2022, 1, 1), 100);
    let c = contract("acme", ymd(2021, 1, 1), ymd(2022, 1, 1), 101);
    let d = contract("acmf", ymd(2021, 1, 1), ymd(2022, 1, 1), 100);
    assert!(a == b);
    assert!(a != c);
    assert!(a != d);
}

fn nested_records() -> Vec<ContractRecord> {
    vec![
        record("acme", ymd(2021, 3, 1), ymd(2021, 7, 29), 40000),
        record("acme", ymd(2021, 1, 1), ymd(2023, 1, 1), 240000),
    ]
}

#[test]
fn nested_contract_hands_arr_back_to_enclosing_one() {
    let events = events_of(nested_records(), "acme", ymd(2023, 1, 1));
    assert_eq!(
        events,
        vec![
            event(ymd(2021, 1, 1), 120000, 0, ArrEventType::New),
            event(ymd(2021, 3, 1), -20000, 1, ArrEventType::Downsell),
            event(ymd(2021, 7, 29), 20000, 0, ArrEventType::Expansion),
            event(ymd(2023, 1, 1), -120000, 0, ArrEventType::Churn),
        ]
    );
}

#[test]
fn nested_contract_running_total_returns_to_enclosing_acv() {
    let events = events_of(nested_records(), "acme", ymd(2022, 1, 1));
    assert_eq!(events.len(), 3);
    let total: i128 = events.iter().map(|e| e.arr_change).sum();
    assert_eq!(total, 120000);
    let during = events_of(nested_records(), "acme", ymd(2021, 5, 1));
    let total_during: i128 = during.iter().map(|e| e.arr_change).sum();
    assert_eq!(total_during, 100000);
}

#[test]
fn nested_contract_then_successor_of_enclosing_one() {
    let mut records = nested_records();
    records.push(record("acme", ymd(2022, 1, 1), ymd(2023, 1, 1), 150000));
    let events = events_of(records, "acme", far_future());
    assert_eq!(
        events,
        vec![
            event(ymd(2021, 1, 1), 120000, 0, ArrEventType::New),
            event(ymd(2021, 3, 1), -20000, 1, ArrEventType::Downsell),
            event(ymd(2021, 7, 29), 20000, 0, ArrEventType::Expansion),
            event(ymd(2022, 1, 1), 30000, 2, ArrEventType::Expansion),
            event(ymd(2023, 1, 1), -150000, 2, ArrEventType::Churn),
        ]
    );
}

#[test]
fn nested_contract_then_gap_churns_enclosing_one() {
    let mut records = nested_records();
    records.push(record("acme", ymd(2023, 6, 1), ymd(2024, 6, 1), 50000));
    let events = events_of(records, "acme", ymd(2024, 1, 1));
    assert_eq!(
        events,
        vec![
            event(ymd(2021, 1, 1), 120000, 0, ArrEventType::New),
            event(ymd(2021, 3, 1), -20000, 1, ArrEventType::Downsell),
            event(ymd(2021, 7, 29), 20000, 0, ArrEventType::Expansion),
            event(ymd(2023, 1, 1), -120000, 0, ArrEventType::Churn),
            event(ymd(2023, 6, 1), 50000, 2, ArrEventType::New),
        ]
    );
}
