use harmonize::{
    start_label, update_label, Constraint, LoadedSchedule, LoadedSchedules, Param, Schedule,
    ScheduleDescriptor, SchedulingError, StableId, System, SystemId, SystemSet,
};

fn system(id: u64) -> System {
    System { id: SystemId(id), name: format!("s{}", id), params: vec![] }
}

fn one(id: u64) -> SystemSet {
    SystemSet::Anonymous(vec![SystemId(id)])
}

fn order_of(s: &LoadedSchedule, id: u64) -> usize {
    s.systems.iter().find(|x| x.id == SystemId(id)).unwrap().topological_order
}

#[test]
fn empty_anonymous_set_is_rejected() {
    let schedule = Schedule {
        systems: vec![system(1)],
        constraints: vec![Constraint::Order {
            before: SystemSet::Anonymous(vec![]),
            after: one(1),
        }],
    };
    let r = LoadedSchedule::try_from_schedules(&vec![&schedule]);
    assert!(matches!(r, Err(SchedulingError::EmptyAnonymousSet)));
}

#[test]
fn two_way_order_is_a_cycle() {
    let (a, b) = (10, 20);
    let schedule = Schedule {
        systems: vec![system(a), system(b)],
        constraints: vec![
            Constraint::Order { before: one(a), after: one(b) },
            Constraint::Order { before: one(b), after: one(a) },
        ],
    };
    match LoadedSchedule::try_from_schedules(&vec![&schedule]) {
        Err(SchedulingError::Cycles { named_set, cycles }) => {
            assert!(named_set.is_none());
            assert_eq!(cycles.len(), 1);
            let mut ids = cycles[0].clone();
            ids.sort();
            assert_eq!(ids, vec![SystemId(a), SystemId(b)]);
        }
        other => panic!("expected a cycle, got {:?}", other),
    }
}

#[test]
fn inclusion_is_flattened_to_real_systems() {
    let (w, x, y) = (1, 2, 3);
    let parent = StableId::new("my_mod", "P");
    let schedule = Schedule {
        systems: vec![system(w), system(x), system(y)],
        constraints: vec![
            Constraint::Includes {
                parent_name: parent.clone(),
                set: SystemSet::Anonymous(vec![SystemId(x), SystemId(y)]),
            },
            Constraint::Order { before: one(w), after: SystemSet::Named(parent.clone()) },
        ],
    };
    let s = LoadedSchedule::try_from_schedules(&vec![&schedule]).unwrap();
    let mut deps = s.dependency.clone();
    deps.sort();
    assert_eq!(deps, vec![(SystemId(w), SystemId(x)), (SystemId(w), SystemId(y))]);
    assert_eq!(s.systems.len(), 3);
    assert!(order_of(&s, w) < order_of(&s, x));
    assert!(order_of(&s, w) < order_of(&s, y));
}

#[test]
fn chain_orders_systems_and_keeps_params() {
    let mut c = system(3);
    c.params = vec![Param::Command];
    let schedule = Schedule {
        systems: vec![system(1), system(2), c],
        constraints: vec![
            Constraint::Order { before: one(2), after: one(3) },
            Constraint::Order { before: one(1), after: one(2) },
            Constraint::Condition { set: one(3), condition: SystemId(1) },
        ],
    };
    let s = LoadedSchedule::try_from_schedules(&vec![&schedule]).unwrap();
    let ids: Vec<u64> = s.systems.iter().map(|x| x.id.0).collect();
    assert_eq!(ids, vec![1, 2, 3]);
    for (i, x) in s.systems.iter().enumerate() {
        assert_eq!(x.topological_order, i);
    }
    for (a, b) in &s.dependency {
        assert!(order_of(&s, a.0) < order_of(&s, b.0));
    }
    let third = s.systems.iter().find(|x| x.id == SystemId(3)).unwrap();
    assert!(matches!(third.params.as_slice(), [Param::Command]));
}

#[test]
fn same_anonymous_members_share_markers() {
    let schedule = Schedule {
        systems: vec![system(1), system(2), system(3)],
        constraints: vec![
            Constraint::Order {
                before: SystemSet::Anonymous(vec![SystemId(1), SystemId(2)]),
                after: one(3),
            },
            Constraint::Order {
                before: one(3),
                after: SystemSet::Anonymous(vec![SystemId(2), SystemId(1)]),
            },
        ],
    };
    assert!(matches!(
        LoadedSchedule::try_from_schedules(&vec![&schedule]),
        Err(SchedulingError::Cycles { .. })
    ));
}

#[test]
fn unknown_label_is_rejected() {
    let odd = StableId::new("my_mod", "Render");
    let descriptors = vec![
        ScheduleDescriptor { id: start_label(), schedule: Schedule { systems: vec![system(1)], constraints: vec![] } },
        ScheduleDescriptor { id: odd.clone(), schedule: Schedule { systems: vec![], constraints: vec![] } },
    ];
    match LoadedSchedules::try_from_schedule_descriptors(&descriptors) {
        Err(SchedulingError::InvalidSchedule(id)) => assert_eq!(id, odd),
        other => panic!("expected an invalid schedule, got {:?}", other),
    }
}

#[test]
fn schedules_are_grouped_by_label() {
    let descriptors = vec![
        ScheduleDescriptor { id: update_label(), schedule: Schedule { systems: vec![system(1)], constraints: vec![] } },
        ScheduleDescriptor { id: update_label(), schedule: Schedule { systems: vec![system(2)], constraints: vec![] } },
    ];
    let loaded = LoadedSchedules::try_from_schedule_descriptors(&descriptors).unwrap();
    assert_eq!(loaded.schedules.len(), 1);
    assert_eq!(loaded.schedules[0].0, update_label());
    assert_eq!(loaded.schedules[0].1.systems.len(), 2);
}
