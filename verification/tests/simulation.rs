use village_sim::arbitration::compare_use_requests;
use village_sim::arbitration::ActionBand;
use village_sim::arbitration::UseRequest;
use village_sim::events::keyed_draw;
use village_sim::{
    Capability, ClientIntention, ClientPlayerTaskSnapshot, ClientPlayerTaskState, ConductAsset,
    ConductMethodDefinition, ContentError, DefinitionId, FloorDefinition, MapAsset,
    NeedDefinition, NeedKind, ObjectAffordanceDefinition, ObjectSlotDefinition, ObjectsAsset,
    PeopleAsset, PersonDefinition, PlanAsset, PlayerCommand, PlayerCommandRejection, PlayerTaskId,
    PortalDefinition, ResidentPlacement, ScenarioContent, ScenarioDefinition, SimId, Simulation,
    SmartObjectDefinition, TilePosition, TimeOfDay, WorldEvent, WorldEventKind,
};

fn tile(floor: u8, x: i32, y: i32) -> TilePosition {
    TilePosition { floor, x, y }
}

fn newcomer(id: &str, display_name: &str) -> PersonDefinition {
    PersonDefinition {
        id: DefinitionId::new(id),
        display_name: display_name.to_owned(),
        needs: vec![NeedDefinition {
            kind: NeedKind::Toilet,
            initial: 0,
            decay_per_tick: 1,
            activate_at: 50,
            retain_above: 20,
            recovery: 100,
            urgent_at: Some(80),
        }],
        conducts: vec![DefinitionId::new("conduct.human")],
    }
}

fn cottage_arrival() -> ScenarioContent {
    ScenarioContent {
        scenario: ScenarioDefinition {
            id: DefinitionId::new("scenario.cottage_arrival"),
            seed: 4_243,
            people: vec![
                DefinitionId::new("person.newcomer_a"),
                DefinitionId::new("person.newcomer_b"),
            ],
            map: DefinitionId::new("map.cottage"),
            objects: vec![DefinitionId::new("object.cottage_toilet")],
            placements: vec![
                ResidentPlacement {
                    person: DefinitionId::new("person.newcomer_a"),
                    position: tile(0, 1, 1),
                },
                ResidentPlacement {
                    person: DefinitionId::new("person.newcomer_b"),
                    position: tile(0, 2, 2),
                },
            ],
            start_time_of_day: TimeOfDay {
                hour: 16,
                minute: 0,
            },
        },
        people: PeopleAsset {
            people: vec![
                newcomer("person.newcomer_a", "Rowan Bell"),
                newcomer("person.newcomer_b", "Mara Bell"),
            ],
        },
        map: MapAsset {
            id: DefinitionId::new("map.cottage"),
            floors: vec![
                FloorDefinition {
                    floor: 0,
                    width: 12,
                    height: 12,
                    blocked: Vec::new(),
                },
                FloorDefinition {
                    floor: 1,
                    width: 12,
                    height: 12,
                    blocked: Vec::new(),
                },
            ],
            portals: vec![PortalDefinition {
                id: DefinitionId::new("portal.stairs"),
                from: tile(0, 5, 5),
                to: tile(1, 5, 5),
                traversal_ticks: 1,
            }],
        },
        objects: ObjectsAsset {
            objects: vec![SmartObjectDefinition {
                id: DefinitionId::new("object.cottage_toilet"),
                object_type: DefinitionId::new("object_type.toilet"),
                position: tile(0, 3, 1),
                slots: vec![ObjectSlotDefinition {
                    id: DefinitionId::new("slot.use"),
                }],
                affordances: vec![ObjectAffordanceDefinition {
                    id: DefinitionId::new("affordance.use_toilet"),
                    slot: DefinitionId::new("slot.use"),
                    capability: Capability::Hands,
                    duration_ticks: 1,
                }],
            }],
        },
        conducts: vec![ConductAsset {
            id: DefinitionId::new("conduct.human"),
            methods: vec![ConductMethodDefinition {
                slot: DefinitionId::new("conduct.use_toilet"),
                plan: DefinitionId::new("plan.toilet_need"),
                priority: 10,
            }],
        }],
        plans: vec![PlanAsset {
            id: DefinitionId::new("plan.toilet_need"),
            object: DefinitionId::new("object.cottage_toilet"),
            affordance: DefinitionId::new("affordance.use_toilet"),
            priority: 5,
        }],
    }
}

fn load_simulation() -> Simulation {
    Simulation::from_content(cottage_arrival()).expect("fixture resolves")
}

fn load_simulation_with_seed(seed: u64) -> Simulation {
    let mut content = cottage_arrival();
    content.scenario.seed = seed;
    Simulation::from_content(content).expect("fixture resolves")
}

/// The fixture with a second object that is not the toilet.
fn load_simulation_with_non_toilet_object() -> (Simulation, DefinitionId) {
    let id = DefinitionId::new("object.cottage_sink");
    let mut content = cottage_arrival();
    content.objects.objects.push(SmartObjectDefinition {
        id: id.clone(),
        object_type: DefinitionId::new("object_type.sink"),
        position: TilePosition {
            floor: 0,
            x: 4,
            y: 2,
        },
        slots: vec![ObjectSlotDefinition {
            id: DefinitionId::new("slot.use"),
        }],
        affordances: vec![ObjectAffordanceDefinition {
            id: DefinitionId::new("affordance.wash_hands"),
            slot: DefinitionId::new("slot.use"),
            capability: Capability::Hands,
            duration_ticks: 1,
        }],
    });
    let simulation = Simulation::from_content(content).expect("fixture resolves");
    (simulation, id)
}

#[test]
fn in_world_clock_advances_one_minute_per_tick_from_authored_start() {
    let mut simulation = load_simulation();
    assert_eq!(
        simulation.time_of_day(),
        TimeOfDay {
            hour: 16,
            minute: 0
        }
    );

    for _ in 0..30 {
        simulation.advance_tick();
    }
    let expected = TimeOfDay {
        hour: 16,
        minute: 30,
    };
    assert_eq!(simulation.time_of_day(), expected);
    assert_eq!(simulation.cottage_snapshot().time_of_day, expected);
}

#[test]
fn time_of_day_maps_and_wraps_across_a_day() {
    assert_eq!(
        TimeOfDay::from_minute_of_day(0),
        TimeOfDay { hour: 0, minute: 0 }
    );
    assert_eq!(
        TimeOfDay::from_minute_of_day(23 * 60 + 59),
        TimeOfDay {
            hour: 23,
            minute: 59
        }
    );
    // A full day plus 90 minutes wraps to 01:30.
    assert_eq!(
        TimeOfDay::from_minute_of_day(24 * 60 + 90),
        TimeOfDay {
            hour: 1,
            minute: 30
        }
    );
    let quiz = TimeOfDay {
        hour: 19,
        minute: 0,
    };
    assert_eq!(TimeOfDay::from_minute_of_day(quiz.minute_of_day()), quiz);
}

#[test]
fn cottage_fixture_assigns_readable_definitions_and_monotonic_sim_ids() {
    let simulation = load_simulation();

    assert_eq!(simulation.seed(), 4_243);
    assert_eq!(
        simulation.residents(),
        vec![
            (SimId(1), DefinitionId::new("person.newcomer_a")),
            (SimId(2), DefinitionId::new("person.newcomer_b")),
        ]
    );
}

#[test]
fn duplicate_initial_placements_are_rejected() {
    let mut content = cottage_arrival();
    content.scenario.placements[1].position = content.scenario.placements[0].position;

    assert!(matches!(
        Simulation::from_content(content),
        Err(ContentError::DuplicatePlacement {
            person,
            occupied_by,
            position: TilePosition {
                floor: 0,
                x: 1,
                y: 1,
            },
        }) if person == DefinitionId::new("person.newcomer_b")
            && occupied_by == DefinitionId::new("person.newcomer_a")
    ));
}

#[test]
fn published_events_are_only_observable_on_the_next_tick() {
    let mut simulation = load_simulation();

    simulation.advance_tick();
    assert!(simulation.ingested_events().is_empty());
    assert_eq!(simulation.event_ledger().len(), 1);

    simulation.advance_tick();
    assert_eq!(
        simulation.ingested_events(),
        &[WorldEvent {
            tick: 1,
            kind: WorldEventKind::TickCompleted {
                keyed_marker: keyed_draw(4_243, 1, 1, 0),
            },
        }]
    );
}

#[test]
fn fixed_seed_fixture_has_repeatable_seed_derived_events() {
    let mut first = load_simulation();
    let mut second = load_simulation();
    let mut different_seed = load_simulation_with_seed(8_484);

    for _ in 0..3 {
        first.advance_tick();
        second.advance_tick();
        different_seed.advance_tick();
    }

    assert_eq!(first.seed(), second.seed());
    assert_eq!(first.residents(), second.residents());
    assert_eq!(first.event_ledger(), second.event_ledger());
    assert_eq!(first.ingested_events(), second.ingested_events());
    assert_ne!(first.event_ledger(), different_seed.event_ledger());
}

#[test]
fn go_to_uses_the_paired_stair_portal_and_emits_arrival() {
    let mut simulation = load_simulation();
    let resident = SimId(1);
    let destination = TilePosition {
        floor: 1,
        x: 6,
        y: 5,
    };

    assert!(simulation.begin_go_to(resident, destination));
    for _ in 0..11 {
        simulation.advance_tick();
    }

    assert_eq!(simulation.resident_position(resident), Some(destination));
    simulation.advance_tick();
    assert!(simulation.ingested_events().iter().any(|event| {
        event.kind
            == WorldEventKind::GoToArrived {
                resident,
                destination,
            }
    }));
}

#[test]
fn live_tile_occupancy_waits_without_reserving_future_tiles() {
    let mut simulation = load_simulation();
    let first = SimId(1);
    let second = SimId(2);

    assert!(simulation.begin_go_to(
        first,
        TilePosition {
            floor: 0,
            x: 3,
            y: 1,
        },
    ));
    assert!(simulation.begin_go_to(
        second,
        TilePosition {
            floor: 0,
            x: 2,
            y: 1,
        },
    ));
    simulation.advance_tick();

    assert_eq!(
        simulation.resident_position(first),
        Some(TilePosition {
            floor: 0,
            x: 2,
            y: 1,
        })
    );
    assert_eq!(
        simulation.resident_position(second),
        Some(TilePosition {
            floor: 0,
            x: 2,
            y: 2,
        })
    );
    simulation.advance_tick();
    assert!(simulation.ingested_events().iter().any(|event| {
        event.kind
            == WorldEventKind::GoToWaited {
                resident: second,
                blocked_by: first,
                position: TilePosition {
                    floor: 0,
                    x: 2,
                    y: 1,
                },
            }
    }));
}

#[test]
fn go_to_replans_when_another_resident_blocks_its_next_step() {
    let mut simulation = load_simulation();
    let resident = SimId(1);
    let blocker = SimId(2);

    assert!(simulation.begin_go_to(
        resident,
        TilePosition {
            floor: 0,
            x: 4,
            y: 1,
        },
    ));
    assert!(simulation.begin_go_to_with_priority(
        blocker,
        TilePosition {
            floor: 0,
            x: 3,
            y: 1,
        },
        1,
    ));
    simulation.advance_tick();
    assert_eq!(
        simulation.resident_position(blocker),
        Some(TilePosition {
            floor: 0,
            x: 2,
            y: 1,
        })
    );

    let route = simulation
        .find_path_avoiding_occupied_tiles(
            resident,
            TilePosition {
                floor: 0,
                x: 1,
                y: 1,
            },
            TilePosition {
                floor: 0,
                x: 4,
                y: 1,
            },
        )
        .expect("a route around the blocker and its immediate target");
    assert_eq!(
        route.first(),
        Some(&TilePosition {
            floor: 0,
            x: 1,
            y: 1,
        })
    );
    assert!(!route.contains(&TilePosition {
        floor: 0,
        x: 2,
        y: 1,
    }));
    assert!(!route.contains(&TilePosition {
        floor: 0,
        x: 3,
        y: 1,
    }));
}

#[test]
fn higher_priority_approach_claim_wins_a_shared_live_tile() {
    let mut simulation = load_simulation();
    let target = TilePosition {
        floor: 0,
        x: 2,
        y: 1,
    };

    assert!(simulation.begin_go_to_with_priority(SimId(1), target, 1));
    assert!(simulation.begin_go_to_with_priority(SimId(2), target, 2));
    simulation.advance_tick();

    assert_eq!(
        simulation.resident_position(SimId(1)),
        Some(TilePosition {
            floor: 0,
            x: 1,
            y: 1,
        })
    );
    assert_eq!(simulation.resident_position(SimId(2)), Some(target));
    simulation.advance_tick();
    assert!(simulation.ingested_events().iter().any(|event| {
        event.kind
            == WorldEventKind::GoToWaited {
                resident: SimId(1),
                blocked_by: SimId(2),
                position: target,
            }
    }));
}

#[test]
fn lower_sim_id_wins_an_equal_priority_and_age_shared_live_tile_claim() {
    let mut simulation = load_simulation();
    let target = TilePosition {
        floor: 0,
        x: 2,
        y: 1,
    };
    let lower_id = SimId(1);
    let higher_id = SimId(2);

    // Both requests start before the same tick, approach the same
    // unoccupied tile, and deliberately have equal priority and age.
    assert!(simulation.begin_go_to_with_priority(lower_id, target, 0));
    assert!(simulation.begin_go_to_with_priority(higher_id, target, 0));
    simulation.advance_tick();

    assert_eq!(simulation.resident_position(lower_id), Some(target));
    assert_eq!(
        simulation.resident_position(higher_id),
        Some(TilePosition {
            floor: 0,
            x: 2,
            y: 2,
        })
    );
    simulation.advance_tick();
    assert!(simulation.ingested_events().iter().any(|event| {
        event.kind
            == WorldEventKind::GoToWaited {
                resident: higher_id,
                blocked_by: lower_id,
                position: target,
            }
    }));
}

#[test]
fn older_approach_claim_wins_a_shared_live_tile_before_sim_id() {
    let mut simulation = load_simulation();
    let target = TilePosition {
        floor: 0,
        x: 2,
        y: 1,
    };

    assert!(simulation.begin_go_to(SimId(1), target));
    assert!(simulation.begin_go_to(SimId(2), target));
    // Keep both approaches in the same contention tick while modelling a
    // newer request from resident 1 and an older request from resident 2.
    let newer = simulation.tick() + 1;
    assert!(
        simulation.set_go_to_request_age(SimId(1), newer),
        "first resident has a navigation request"
    );
    simulation.advance_tick();

    assert_eq!(
        simulation.resident_position(SimId(1)),
        Some(TilePosition {
            floor: 0,
            x: 1,
            y: 1,
        })
    );
    assert_eq!(simulation.resident_position(SimId(2)), Some(target));
    simulation.advance_tick();
    assert!(simulation.ingested_events().iter().any(|event| {
        event.kind
            == WorldEventKind::GoToWaited {
                resident: SimId(1),
                blocked_by: SimId(2),
                position: target,
            }
    }));
}

#[test]
fn impossible_go_to_emits_a_semantic_failure() {
    let mut simulation = load_simulation();
    let resident = SimId(1);
    let destination = TilePosition {
        floor: 1,
        x: 99,
        y: 99,
    };

    assert!(simulation.begin_go_to(resident, destination));
    simulation.advance_tick();
    simulation.advance_tick();

    assert!(simulation.ingested_events().iter().any(|event| {
        event.kind
            == WorldEventKind::GoToFailed {
                resident,
                destination,
            }
    }));
}

fn toilet_ids() -> (DefinitionId, DefinitionId, DefinitionId) {
    (
        DefinitionId::new("object.cottage_toilet"),
        DefinitionId::new("affordance.use_toilet"),
        DefinitionId::new("slot.use"),
    )
}

#[test]
fn object_requests_do_not_claim_a_slot_or_capability_before_execution() {
    let mut simulation = load_simulation();
    let (toilet, affordance, slot) = toilet_ids();

    assert!(simulation.begin_use_object(SimId(1), &toilet, &affordance, 0));
    assert_eq!(simulation.object_slot_claimant(&toilet, &slot), None);
    assert_eq!(
        simulation.capability_claimant(SimId(1), Capability::Hands),
        None
    );
}

#[test]
fn contested_toilet_waits_then_retries_after_execution_releases_claims() {
    let mut simulation = load_simulation();
    let (toilet, affordance, slot) = toilet_ids();
    let first = SimId(1);
    let second = SimId(2);

    assert!(simulation.begin_use_object(first, &toilet, &affordance, 0));
    assert!(simulation.begin_use_object(second, &toilet, &affordance, 0));
    simulation.advance_tick();

    assert_eq!(simulation.object_slot_claimant(&toilet, &slot), Some(first));
    assert_eq!(
        simulation.capability_claimant(first, Capability::Hands),
        Some(toilet.clone())
    );
    assert_eq!(
        simulation.capability_claimant(second, Capability::Hands),
        None
    );

    simulation.advance_tick();
    assert!(simulation.ingested_events().iter().any(|event| {
        event.kind
            == WorldEventKind::ObjectUseWaited {
                resident: second,
                object: toilet.clone(),
                affordance: affordance.clone(),
                blocked_by: first,
            }
    }));
    assert_eq!(
        simulation.object_slot_claimant(&toilet, &slot),
        Some(second)
    );
    assert_eq!(
        simulation.capability_claimant(first, Capability::Hands),
        None
    );
    assert_eq!(
        simulation.capability_claimant(second, Capability::Hands),
        Some(toilet)
    );
}

#[test]
fn object_claim_order_is_priority_then_request_age_then_sim_id() {
    let (toilet, affordance, _) = toilet_ids();
    let request = |resident, priority, request_age| UseRequest {
        resident,
        object: toilet.clone(),
        affordance: affordance.clone(),
        priority,
        band: ActionBand::Player,
        request_age,
        player_task: None,
    };

    assert_eq!(
        compare_use_requests(&request(SimId(2), 2, 9), &request(SimId(1), 1, 1)),
        std::cmp::Ordering::Less,
        "higher priority wins"
    );
    assert_eq!(
        compare_use_requests(&request(SimId(2), 1, 3), &request(SimId(1), 1, 4)),
        std::cmp::Ordering::Less,
        "older request wins equal priority"
    );
    assert_eq!(
        compare_use_requests(&request(SimId(1), 1, 3), &request(SimId(2), 1, 3)),
        std::cmp::Ordering::Less,
        "lower SimId wins a complete tie"
    );
}

#[test]
fn higher_priority_request_wins_the_same_tick_contention() {
    let mut simulation = load_simulation();
    let (toilet, affordance, slot) = toilet_ids();

    assert!(simulation.begin_use_object(SimId(1), &toilet, &affordance, 1));
    assert!(simulation.begin_use_object(SimId(2), &toilet, &affordance, 2));
    simulation.advance_tick();

    assert_eq!(
        simulation.object_slot_claimant(&toilet, &slot),
        Some(SimId(2))
    );
}

#[test]
fn player_command_is_validated_next_tick_and_receipt_is_deferred() {
    let mut simulation = load_simulation();
    let (toilet, affordance, slot) = toilet_ids();
    let task = PlayerTaskId(41);

    simulation.submit_player_command(PlayerCommand::QueueUseToilet {
        task,
        resident: SimId(1),
        object: toilet.clone(),
        affordance: affordance.clone(),
        priority: 3,
    });
    assert_eq!(simulation.object_slot_claimant(&toilet, &slot), None);
    assert!(simulation.ingested_events().is_empty());

    simulation.advance_tick();
    assert_eq!(
        simulation.object_slot_claimant(&toilet, &slot),
        Some(SimId(1))
    );
    assert!(simulation.ingested_events().is_empty());
    assert!(
        simulation
            .event_ledger()
            .iter()
            .any(|event| { event.kind == WorldEventKind::PlayerCommandAccepted { task } })
    );

    simulation.advance_tick();
    assert!(
        simulation
            .ingested_events()
            .iter()
            .any(|event| { event.kind == WorldEventKind::PlayerCommandAccepted { task } })
    );
}

#[test]
fn invalid_player_command_is_rejected_without_claims() {
    let mut simulation = load_simulation();
    let (_, affordance, slot) = toilet_ids();
    let task = PlayerTaskId(42);
    let invalid_object = DefinitionId::new("object.missing_toilet");

    simulation.submit_player_command(PlayerCommand::QueueUseToilet {
        task,
        resident: SimId(1),
        object: invalid_object,
        affordance,
        priority: 0,
    });
    simulation.advance_tick();

    assert_eq!(
        simulation.object_slot_claimant(&DefinitionId::new("object.cottage_toilet"), &slot),
        None
    );
    assert_eq!(
        simulation.capability_claimant(SimId(1), Capability::Hands),
        None
    );
    assert!(simulation.event_ledger().iter().any(|event| {
        event.kind
            == WorldEventKind::PlayerCommandRejected {
                task,
                reason: PlayerCommandRejection::InvalidUseTarget,
            }
    }));
}

#[test]
fn player_toilet_order_rejects_a_valid_non_toilet_affordance() {
    let (mut simulation, sink) = load_simulation_with_non_toilet_object();
    let task = PlayerTaskId(420);

    simulation.submit_player_command(PlayerCommand::QueueUseToilet {
        task,
        resident: SimId(1),
        object: sink,
        affordance: DefinitionId::new("affordance.wash_hands"),
        priority: 0,
    });
    simulation.advance_tick();

    assert!(simulation.event_ledger().iter().any(|event| {
        event.kind
            == WorldEventKind::PlayerCommandRejected {
                task,
                reason: PlayerCommandRejection::InvalidUseTarget,
            }
    }));
}

#[test]
fn cancelling_an_active_player_task_releases_claims_without_completion() {
    let mut simulation = load_simulation();
    let (toilet, affordance, slot) = toilet_ids();
    let task = PlayerTaskId(43);

    simulation.submit_player_command(PlayerCommand::QueueUseToilet {
        task,
        resident: SimId(1),
        object: toilet.clone(),
        affordance: affordance.clone(),
        priority: 0,
    });
    simulation.advance_tick();
    assert_eq!(
        simulation.object_slot_claimant(&toilet, &slot),
        Some(SimId(1))
    );
    assert_eq!(
        simulation.capability_claimant(SimId(1), Capability::Hands),
        Some(toilet.clone())
    );

    simulation.submit_player_command(PlayerCommand::CancelPlayerTask { task });
    simulation.advance_tick();

    assert_eq!(simulation.object_slot_claimant(&toilet, &slot), None);
    assert_eq!(
        simulation.capability_claimant(SimId(1), Capability::Hands),
        None
    );
    assert!(simulation.event_ledger().iter().any(|event| {
        event.kind
            == WorldEventKind::TaskCancelled {
                task,
                resident: SimId(1),
                object: toilet.clone(),
                affordance: affordance.clone(),
            }
    }));
    assert!(!simulation.event_ledger().iter().any(|event| {
        event.kind
            == WorldEventKind::ObjectUseCompleted {
                resident: SimId(1),
                object: toilet.clone(),
                affordance: affordance.clone(),
            }
    }));

    simulation.advance_tick();
    assert!(simulation.ingested_events().iter().any(|event| {
        event.kind
            == WorldEventKind::TaskCancelled {
                task,
                resident: SimId(1),
                object: toilet.clone(),
                affordance: affordance.clone(),
            }
    }));
}

#[test]
fn queued_player_task_can_be_cancelled_before_execution() {
    let mut simulation = load_simulation();
    let (toilet, affordance, slot) = toilet_ids();
    let task = PlayerTaskId(44);

    simulation.submit_player_command(PlayerCommand::QueueUseToilet {
        task,
        resident: SimId(1),
        object: toilet.clone(),
        affordance: affordance.clone(),
        priority: 0,
    });
    simulation.submit_player_command(PlayerCommand::CancelPlayerTask { task });
    simulation.advance_tick();

    assert_eq!(simulation.object_slot_claimant(&toilet, &slot), None);
    assert!(simulation.event_ledger().iter().any(|event| {
        event.kind
            == WorldEventKind::TaskCancelled {
                task,
                resident: SimId(1),
                object: toilet.clone(),
                affordance: affordance.clone(),
            }
    }));
}

#[test]
fn autonomous_toilet_need_uses_human_plan_and_recovers_only_on_completion() {
    let mut simulation = load_simulation();
    let (toilet, affordance, slot) = toilet_ids();

    assert!(simulation.set_toilet_need(SimId(1), 50));
    assert_eq!(simulation.toilet_need(SimId(1)), Some(50));
    simulation.advance_tick();

    assert!(simulation.has_autonomous_toilet_intention(SimId(1)));
    assert_eq!(simulation.toilet_need(SimId(1)), Some(51));
    assert_eq!(
        simulation.resident_position(SimId(1)),
        Some(TilePosition {
            floor: 0,
            x: 2,
            y: 1
        })
    );
    simulation.advance_tick();
    assert_eq!(
        simulation.resident_position(SimId(1)),
        Some(TilePosition {
            floor: 0,
            x: 3,
            y: 1
        })
    );
    simulation.advance_tick();
    assert_eq!(
        simulation.object_slot_claimant(&toilet, &slot),
        Some(SimId(1))
    );
    assert!(simulation.event_ledger().iter().any(|event| {
        event.kind
            == WorldEventKind::ObjectUseStarted {
                resident: SimId(1),
                object: toilet.clone(),
                affordance: affordance.clone(),
            }
    }));

    simulation.advance_tick();
    assert_eq!(simulation.toilet_need(SimId(1)), Some(0));
    assert!(simulation.event_ledger().iter().any(|event| {
        event.kind
            == WorldEventKind::ToiletNeedRecovered {
                resident: SimId(1),
                value: 0,
            }
    }));
}

#[test]
fn cottage_snapshot_exposes_authoritative_status_for_a_resident_card() {
    let mut simulation = load_simulation();
    assert!(simulation.set_toilet_need(SimId(1), 50));
    simulation.advance_tick();

    let resident = &simulation.cottage_snapshot().residents[0];
    assert_eq!(resident.toilet_need, Some(51));
    assert_eq!(resident.autonomous_intention, Some(ClientIntention::Toilet));
    assert!(resident.player_tasks.is_empty());

    let mut simulation = load_simulation();
    let task = PlayerTaskId(47);
    simulation.submit_player_command(PlayerCommand::QueueUseToilet {
        task,
        resident: SimId(1),
        object: DefinitionId::new("object.cottage_toilet"),
        affordance: DefinitionId::new("affordance.use_toilet"),
        priority: 100,
    });
    simulation.advance_tick();

    let resident = &simulation.cottage_snapshot().residents[0];
    assert_eq!(
        resident.player_tasks,
        vec![ClientPlayerTaskSnapshot {
            id: task,
            state: ClientPlayerTaskState::Active,
        }]
    );
}

#[test]
fn non_toilet_object_completion_does_not_recover_toilet_need() {
    let (mut simulation, sink) = load_simulation_with_non_toilet_object();
    let wash_hands = DefinitionId::new("affordance.wash_hands");
    assert!(simulation.set_toilet_need(SimId(1), 30));

    assert!(simulation.begin_use_object(SimId(1), &sink, &wash_hands, 0));
    simulation.advance_tick();
    simulation.advance_tick();

    assert_eq!(simulation.toilet_need(SimId(1)), Some(32));
    assert!(!simulation.event_ledger().iter().any(|event| {
        matches!(
            event.kind,
            WorldEventKind::ToiletNeedRecovered {
                resident: SimId(1),
                ..
            }
        )
    }));
}

#[test]
fn player_toilet_order_suppresses_a_competing_autonomous_request() {
    let mut simulation = load_simulation();
    let (toilet, affordance, slot) = toilet_ids();
    let task = PlayerTaskId(55);

    simulation.submit_player_command(PlayerCommand::QueueUseToilet {
        task,
        resident: SimId(1),
        object: toilet.clone(),
        affordance: affordance.clone(),
        priority: 0,
    });
    simulation.advance_tick();

    assert_eq!(
        simulation.object_slot_claimant(&toilet, &slot),
        Some(SimId(1))
    );
    assert!(
        simulation
            .event_ledger()
            .iter()
            .any(|event| { event.kind == WorldEventKind::PlayerCommandAccepted { task } })
    );
    assert_eq!(
        simulation
            .event_ledger()
            .iter()
            .filter(|event| matches!(
                event.kind,
                WorldEventKind::ObjectUseStarted {
                    resident: SimId(1),
                    ..
                }
            ))
            .count(),
        1
    );
}

#[test]
fn deferred_player_ground_move_uses_the_live_navigation_path() {
    let mut simulation = load_simulation();
    let task = PlayerTaskId(56);
    let destination = TilePosition {
        floor: 0,
        x: 4,
        y: 1,
    };
    simulation.submit_player_command(PlayerCommand::QueueGoTo {
        task,
        resident: SimId(1),
        destination,
        priority: 100,
    });

    for _ in 0..3 {
        simulation.advance_tick();
    }

    assert_eq!(simulation.resident_position(SimId(1)), Some(destination));
    assert!(
        simulation
            .event_ledger()
            .iter()
            .any(|event| { event.kind == WorldEventKind::PlayerCommandAccepted { task } })
    );
    assert!(simulation.event_ledger().iter().any(|event| {
        event.kind
            == WorldEventKind::GoToArrived {
                resident: SimId(1),
                destination,
            }
    }));
}

#[test]
fn toilet_intention_uses_its_own_hysteresis_before_completion_recovers_it() {
    let mut simulation = load_simulation();
    assert!(simulation.set_toilet_need(SimId(1), 50));

    simulation.advance_tick();
    assert!(simulation.has_autonomous_toilet_intention(SimId(1)));
    assert!(simulation.set_toilet_need(SimId(1), 21));

    for _ in 0..3 {
        simulation.advance_tick();
    }
    // It remains selected below the activation threshold because its
    // lower retention threshold belongs to the current intention.
    assert!(simulation.has_autonomous_toilet_intention(SimId(1)));
    assert_eq!(simulation.toilet_need(SimId(1)), Some(0));

    simulation.advance_tick();
    assert!(!simulation.has_autonomous_toilet_intention(SimId(1)));
}

fn assert_no_resident_overlap(simulation: &Simulation) {
    let positions = simulation
        .residents()
        .into_iter()
        .map(|(resident, _)| {
            (
                resident,
                simulation
                    .resident_position(resident)
                    .expect("every fixture resident has a position"),
            )
        })
        .collect::<Vec<_>>();
    assert_ne!(positions[0].1, positions[1].1, "residents never overlap");
}

fn advance_until_arrivals(
    simulation: &mut Simulation,
    first: (SimId, TilePosition),
    second: (SimId, TilePosition),
) {
    let mut first_arrival_was_deferred = false;
    let mut second_arrival_was_deferred = false;

    for _ in 0..64 {
        simulation.advance_tick();
        assert_no_resident_overlap(simulation);
        for event in simulation.ingested_events() {
            match &event.kind {
                WorldEventKind::GoToArrived {
                    resident,
                    destination,
                } if (*resident, *destination) == first => {
                    assert!(event.tick < simulation.tick());
                    first_arrival_was_deferred = true;
                }
                WorldEventKind::GoToArrived {
                    resident,
                    destination,
                } if (*resident, *destination) == second => {
                    assert!(event.tick < simulation.tick());
                    second_arrival_was_deferred = true;
                }
                _ => {}
            }
        }
        if first_arrival_was_deferred && second_arrival_was_deferred {
            break;
        }
    }

    assert!(
        first_arrival_was_deferred,
        "first resident arrives by a deferred event"
    );
    assert!(
        second_arrival_was_deferred,
        "second resident arrives by a deferred event"
    );
    assert_eq!(simulation.resident_position(first.0), Some(first.1));
    assert_eq!(simulation.resident_position(second.0), Some(second.1));
}

fn run_cottage_contention_script() -> Vec<WorldEvent> {
    let mut simulation = load_simulation();
    let first = SimId(1);
    let second = SimId(2);
    let upstairs_first = TilePosition {
        floor: 1,
        x: 5,
        y: 6,
    };
    let upstairs_second = TilePosition {
        floor: 1,
        x: 6,
        y: 5,
    };
    let downstairs_first = TilePosition {
        floor: 0,
        x: 1,
        y: 1,
    };
    let downstairs_second = TilePosition {
        floor: 0,
        x: 2,
        y: 2,
    };

    assert!(simulation.begin_go_to(first, upstairs_first));
    assert!(simulation.begin_go_to(second, upstairs_second));
    advance_until_arrivals(
        &mut simulation,
        (first, upstairs_first),
        (second, upstairs_second),
    );

    assert!(simulation.begin_go_to(first, downstairs_first));
    assert!(simulation.begin_go_to(second, downstairs_second));
    advance_until_arrivals(
        &mut simulation,
        (first, downstairs_first),
        (second, downstairs_second),
    );

    // Object use is deliberately not coupled to resident position in
    // this MVP. The assertion below proves the claim protocol only;
    // spatial affordance reachability is a later slice.
    let (toilet, affordance, slot) = toilet_ids();
    let player_task = PlayerTaskId(600);
    assert!(simulation.begin_use_object(second, &toilet, &affordance, 0));
    simulation.submit_player_command(PlayerCommand::QueueUseToilet {
        task: player_task,
        resident: first,
        object: toilet.clone(),
        affordance: affordance.clone(),
        priority: 1,
    });
    simulation.advance_tick();
    assert_no_resident_overlap(&simulation);
    assert_eq!(simulation.object_slot_claimant(&toilet, &slot), Some(first));
    assert_eq!(
        simulation.capability_claimant(first, Capability::Hands),
        Some(toilet.clone())
    );
    assert!(simulation.event_ledger().iter().any(|event| {
        event.kind
            == WorldEventKind::ObjectUseWaited {
                resident: second,
                object: toilet.clone(),
                affordance: affordance.clone(),
                blocked_by: first,
            }
    }));

    simulation.submit_player_command(PlayerCommand::CancelPlayerTask { task: player_task });
    simulation.advance_tick();
    assert_no_resident_overlap(&simulation);
    assert_eq!(
        simulation.capability_claimant(first, Capability::Hands),
        None
    );
    assert_ne!(simulation.object_slot_claimant(&toilet, &slot), Some(first));
    assert!(simulation.event_ledger().iter().any(|event| {
        event.kind
            == WorldEventKind::TaskCancelled {
                task: player_task,
                resident: first,
                object: toilet.clone(),
                affordance: affordance.clone(),
            }
    }));
    assert_eq!(
        simulation.object_slot_claimant(&toilet, &slot),
        Some(second)
    );

    simulation.advance_tick();
    assert_no_resident_overlap(&simulation);
    assert_eq!(simulation.object_slot_claimant(&toilet, &slot), None);
    assert_eq!(
        simulation.capability_claimant(second, Capability::Hands),
        None
    );
    assert!(simulation.event_ledger().iter().any(|event| {
        event.kind
            == WorldEventKind::ObjectUseCompleted {
                resident: second,
                object: toilet.clone(),
                affordance: affordance.clone(),
            }
    }));

    simulation.event_ledger().to_vec()
}

#[test]
fn cottage_contention_fixture_is_deterministic_and_semantically_complete() {
    let first = run_cottage_contention_script();
    let second = run_cottage_contention_script();
    assert_eq!(first, second, "the full scripted fixture is repeatable");
}

fn resident_player_tasks(
    simulation: &Simulation,
    resident: SimId,
) -> Vec<ClientPlayerTaskSnapshot> {
    simulation
        .cottage_snapshot()
        .residents
        .into_iter()
        .find(|candidate| candidate.id == resident)
        .expect("resident is present in the snapshot")
        .player_tasks
}

#[test]
fn two_queued_player_orders_execute_in_fifo_order() {
    let mut simulation = load_simulation();
    let resident = SimId(1);
    let first = PlayerTaskId(101);
    let second = PlayerTaskId(102);
    let far = TilePosition {
        floor: 0,
        x: 4,
        y: 1,
    };
    let home = TilePosition {
        floor: 0,
        x: 1,
        y: 1,
    };
    simulation.submit_player_command(PlayerCommand::QueueGoTo {
        task: first,
        resident,
        destination: far,
        priority: 0,
    });
    simulation.submit_player_command(PlayerCommand::QueueGoTo {
        task: second,
        resident,
        destination: home,
        priority: 0,
    });

    // Only the head executes; the rest of the list stays queued.
    simulation.advance_tick();
    assert_eq!(
        resident_player_tasks(&simulation, resident),
        vec![
            ClientPlayerTaskSnapshot {
                id: first,
                state: ClientPlayerTaskState::Active,
            },
            ClientPlayerTaskSnapshot {
                id: second,
                state: ClientPlayerTaskState::Queued,
            },
        ]
    );

    for _ in 0..16 {
        simulation.advance_tick();
    }
    assert_eq!(simulation.resident_position(resident), Some(home));
    assert!(resident_player_tasks(&simulation, resident).is_empty());

    // The head arrival is published strictly before the second order's.
    let arrivals = simulation
        .event_ledger()
        .iter()
        .filter_map(|event| match &event.kind {
            WorldEventKind::GoToArrived {
                resident: arrived,
                destination,
            } if *arrived == resident => Some(*destination),
            _ => None,
        })
        .collect::<Vec<_>>();
    assert_eq!(arrivals, vec![far, home]);
}

#[test]
fn a_non_head_queued_task_cancels_without_disturbing_the_head() {
    let mut simulation = load_simulation();
    let resident = SimId(1);
    let first = PlayerTaskId(111);
    let second = PlayerTaskId(112);
    let far = TilePosition {
        floor: 0,
        x: 4,
        y: 1,
    };
    let home = TilePosition {
        floor: 0,
        x: 1,
        y: 1,
    };
    simulation.submit_player_command(PlayerCommand::QueueGoTo {
        task: first,
        resident,
        destination: far,
        priority: 0,
    });
    simulation.submit_player_command(PlayerCommand::QueueGoTo {
        task: second,
        resident,
        destination: home,
        priority: 0,
    });
    simulation.advance_tick();

    simulation.submit_player_command(PlayerCommand::CancelPlayerTask { task: second });
    simulation.advance_tick();

    // The second order is gone; the head continues to its destination.
    assert_eq!(
        resident_player_tasks(&simulation, resident),
        vec![ClientPlayerTaskSnapshot {
            id: first,
            state: ClientPlayerTaskState::Active,
        }]
    );
    assert!(simulation.event_ledger().iter().any(|event| {
        event.kind
            == WorldEventKind::GoToCancelled {
                task: second,
                resident,
                destination: home,
            }
    }));

    for _ in 0..12 {
        simulation.advance_tick();
    }
    assert_eq!(simulation.resident_position(resident), Some(far));
    assert!(resident_player_tasks(&simulation, resident).is_empty());
    // The cancelled order never ran.
    assert!(!simulation.event_ledger().iter().any(|event| {
        matches!(
            event.kind,
            WorldEventKind::GoToArrived {
                resident: r,
                destination,
            } if r == resident && destination == home
        )
    }));
}

#[test]
fn cancelling_the_active_head_dispatches_the_next_queued_task() {
    let mut simulation = load_simulation();
    let (toilet, affordance, slot) = toilet_ids();
    let resident = SimId(1);
    let use_task = PlayerTaskId(121);
    let move_task = PlayerTaskId(122);
    let far = TilePosition {
        floor: 0,
        x: 4,
        y: 1,
    };
    simulation.submit_player_command(PlayerCommand::QueueUseToilet {
        task: use_task,
        resident,
        object: toilet.clone(),
        affordance: affordance.clone(),
        priority: 0,
    });
    simulation.submit_player_command(PlayerCommand::QueueGoTo {
        task: move_task,
        resident,
        destination: far,
        priority: 0,
    });
    simulation.advance_tick();
    assert_eq!(
        simulation.object_slot_claimant(&toilet, &slot),
        Some(resident)
    );

    simulation.submit_player_command(PlayerCommand::CancelPlayerTask { task: use_task });
    simulation.advance_tick();

    // The active use released and the queued move took over.
    assert_eq!(simulation.object_slot_claimant(&toilet, &slot), None);
    assert!(simulation.event_ledger().iter().any(|event| {
        matches!(
            &event.kind,
            WorldEventKind::TaskCancelled { task, .. } if *task == use_task
        )
    }));
    assert_eq!(
        resident_player_tasks(&simulation, resident),
        vec![ClientPlayerTaskSnapshot {
            id: move_task,
            state: ClientPlayerTaskState::Active,
        }]
    );
}

#[test]
fn urgent_need_preempts_a_player_move_then_resumes_it() {
    let mut simulation = load_simulation();
    let (toilet, _, _) = toilet_ids();
    let resident = SimId(1);
    let move_task = PlayerTaskId(131);
    let far = TilePosition {
        floor: 0,
        x: 4,
        y: 1,
    };
    simulation.submit_player_command(PlayerCommand::QueueGoTo {
        task: move_task,
        resident,
        destination: far,
        priority: 0,
    });
    simulation.advance_tick();
    assert_eq!(
        simulation.resident_position(resident),
        Some(TilePosition {
            floor: 0,
            x: 2,
            y: 1,
        })
    );

    // Push the toilet need over its urgent threshold (authored 80).
    assert!(simulation.set_toilet_need(resident, 85));
    simulation.advance_tick();

    // The player move is paused, not cancelled, and the urgent walk to the
    // toilet has taken over.
    assert_eq!(
        resident_player_tasks(&simulation, resident),
        vec![ClientPlayerTaskSnapshot {
            id: move_task,
            state: ClientPlayerTaskState::Paused,
        }]
    );
    assert_eq!(
        simulation.resident_position(resident),
        Some(TilePosition {
            floor: 0,
            x: 3,
            y: 1,
        })
    );

    for _ in 0..12 {
        simulation.advance_tick();
    }

    // The urgent need was served and the paused move resumed to completion.
    assert_eq!(simulation.resident_position(resident), Some(far));
    assert!(resident_player_tasks(&simulation, resident).is_empty());
    assert!(simulation.event_ledger().iter().any(|event| {
        matches!(
            &event.kind,
            WorldEventKind::ObjectUseStarted { resident: r, object, .. }
                if *r == resident && *object == toilet
        )
    }));
    assert!(simulation.event_ledger().iter().any(|event| {
        event.kind
            == WorldEventKind::GoToArrived {
                resident,
                destination: far,
            }
    }));
    // A paused order is never reported as cancelled.
    assert!(!simulation.event_ledger().iter().any(|event| {
        matches!(
            &event.kind,
            WorldEventKind::GoToCancelled { task, .. } if *task == move_task
        )
    }));
}

fn run_queue_and_preemption_script() -> Vec<WorldEvent> {
    let mut simulation = load_simulation();
    let (toilet, affordance, _) = toilet_ids();
    let resident = SimId(1);
    let far = TilePosition {
        floor: 0,
        x: 4,
        y: 1,
    };
    let home = TilePosition {
        floor: 0,
        x: 1,
        y: 1,
    };
    simulation.submit_player_command(PlayerCommand::QueueGoTo {
        task: PlayerTaskId(201),
        resident,
        destination: far,
        priority: 0,
    });
    simulation.submit_player_command(PlayerCommand::QueueUseToilet {
        task: PlayerTaskId(202),
        resident,
        object: toilet,
        affordance,
        priority: 0,
    });
    simulation.submit_player_command(PlayerCommand::QueueGoTo {
        task: PlayerTaskId(203),
        resident,
        destination: home,
        priority: 0,
    });
    simulation.advance_tick();

    assert!(simulation.set_toilet_need(resident, 90));
    simulation.submit_player_command(PlayerCommand::CancelPlayerTask {
        task: PlayerTaskId(203),
    });
    for _ in 0..24 {
        simulation.advance_tick();
    }
    simulation.event_ledger().to_vec()
}

#[test]
fn queue_and_preemption_script_is_deterministic() {
    let first = run_queue_and_preemption_script();
    let second = run_queue_and_preemption_script();
    assert_eq!(first, second, "queue and preemption remain repeatable");
}
