use village_sim::arbitration::compare_movement_claims;
use village_sim::arbitration::ActionBand;
use village_sim::arbitration::MovementClaim;
use village_sim::arrival::resolve_human_toilet_plan;
use village_sim::camera::follow_label;
use village_sim::camera::CameraControl;
use village_sim::camera::CottageCamera;
use village_sim::card::is_walking;
use village_sim::card::movement;
use village_sim::card::selected_status_text;
use village_sim::clock::default_start_time_of_day;
use village_sim::content::default_urgent_at;
use village_sim::content::CottageFile;
use village_sim::driver::SimulationDriver;
use village_sim::events::keyed_draw;
use village_sim::feed::consume_semantic_events;
use village_sim::feed::feed_text;
use village_sim::feed::semantic_event_label;
use village_sim::feed::SemanticEventFeed;
use village_sim::ord_map::OrdMap;
use village_sim::orders::cancel_bindings;
use village_sim::orders::cancel_slot_label;
use village_sim::orders::order_cancellation;
use village_sim::orders::order_feedback_text;
use village_sim::orders::order_go_to;
use village_sim::orders::order_toilet;
use village_sim::orders::pending_action_label;
use village_sim::orders::pressed_binding;
use village_sim::orders::rejection_label;
use village_sim::orders::CancelBinding;
use village_sim::orders::CancellationOutcome;
use village_sim::orders::OrderState;
use village_sim::orders::PendingAction;
use village_sim::orders::PendingOrder;
use village_sim::presentation::blank_outside_clothing;
use village_sim::presentation::clothing_rows;
use village_sim::presentation::UiAudioVariation;
use village_sim::route::heuristic;
use village_sim::route::plan_route;
use village_sim::text::decimal;
use village_sim::text::two_digits;
use village_sim::{
    Capability, ClientPerception, ClientPlayerTaskState, ConductAsset, ConductMethodDefinition, ContentError,
    DefinitionId, FloorDefinition, MapAsset, NeedDefinition, NeedKind,
    ObjectAffordanceDefinition, ObjectSlotDefinition, ObjectsAsset, PeopleAsset,
    PersonDefinition, PlanAsset, PlayerCommand, PlayerCommandRejection, PlayerTaskId,
    PortalDefinition, ResidentPlacement, ScenarioContent, ScenarioDefinition, SimId, Simulation,
    SmartObjectDefinition, TilePosition, TimeOfDay, WorldEvent, WorldEventKind,
};

fn tile(floor: u8, x: i32, y: i32) -> TilePosition {
    TilePosition { floor, x, y }
}

fn newcomer(id: &str, display_name: &str) -> PersonDefinition {
    PersonDefinition {
        id: DefinitionId::new(id),
        display_name: display_name.to_owned(),
        needs: vec![NeedDefinition {
            kind: NeedKind::Toilet,
            initial: 0,
            decay_per_tick: 1,
            activate_at: 50,
            retain_above: 20,
            recovery: 100,
            urgent_at: Some(80),
        }],
        conducts: vec![DefinitionId::new("conduct.human")],
    }
}

fn cottage_arrival() -> ScenarioContent {
    ScenarioContent {
        scenario: ScenarioDefinition {
            id: DefinitionId::new("scenario.cottage_arrival"),
            seed: 4_243,
            people: vec![
                DefinitionId::new("person.newcomer_a"),
                DefinitionId::new("person.newcomer_b"),
            ],
            map: DefinitionId::new("map.cottage"),
            objects: vec![DefinitionId::new("object.cottage_toilet")],
            placements: vec![
                ResidentPlacement {
                    person: DefinitionId::new("person.newcomer_a"),
                    position: tile(0, 1, 1),
                },
                ResidentPlacement {
                    person: DefinitionId::new("person.newcomer_b"),
                    position: tile(0, 2, 2),
                },
            ],
            start_time_of_day: TimeOfDay {
                hour: 16,
                minute: 0,
            },
        },
        people: PeopleAsset {
            people: vec![
                newcomer("person.newcomer_a", "Rowan Bell"),
                newcomer("person.newcomer_b", "Mara Bell"),
            ],
        },
        map: MapAsset {
            id: DefinitionId::new("map.cottage"),
            floors: vec![
                FloorDefinition {
                    floor: 0,
                    width: 12,
                    height: 12,
                    blocked: Vec::new(),
                },
                FloorDefinition {
                    floor: 1,
                    width: 12,
                    height: 12,
                    blocked: Vec::new(),
                },
            ],
            portals: vec![PortalDefinition {
                id: DefinitionId::new("portal.stairs"),
                from: tile(0, 5, 5),
                to: tile(1, 5, 5),
                traversal_ticks: 1,
            }],
        },
        objects: ObjectsAsset {
            objects: vec![SmartObjectDefinition {
                id: DefinitionId::new("object.cottage_toilet"),
                object_type: DefinitionId::new("object_type.toilet"),
                position: tile(0, 3, 1),
                slots: vec![ObjectSlotDefinition {
                    id: DefinitionId::new("slot.use"),
                }],
                affordances: vec![ObjectAffordanceDefinition {
                    id: DefinitionId::new("affordance.use_toilet"),
                    slot: DefinitionId::new("slot.use"),
                    capability: Capability::Hands,
                    duration_ticks: 1,
                }],
            }],
        },
        conducts: vec![ConductAsset {
            id: DefinitionId::new("conduct.human"),
            methods: vec![ConductMethodDefinition {
                slot: DefinitionId::new("conduct.use_toilet"),
                plan: DefinitionId::new("plan.toilet_need"),
                priority: 10,
            }],
        }],
        plans: vec![PlanAsset {
            id: DefinitionId::new("plan.toilet_need"),
            object: DefinitionId::new("object.cottage_toilet"),
            affordance: DefinitionId::new("affordance.use_toilet"),
            priority: 5,
        }],
    }
}

fn load_simulation() -> Simulation {
    Simulation::from_content(cottage_arrival()).expect("fixture resolves")
}

fn error_of(content: ScenarioContent) -> ContentError {
    match Simulation::from_content(content) {
        Ok(_) => panic!("the content should not resolve"),
        Err(error) => error,
    }
}

fn kinds_since(simulation: &Simulation, start: usize) -> Vec<WorldEventKind> {
    simulation.event_ledger()[start..]
        .iter()
        .map(|event| event.kind.clone())
        .collect()
}

fn go_to(task: u64, resident: u64, destination: TilePosition) -> PlayerCommand {
    PlayerCommand::QueueGoTo {
        task: PlayerTaskId(task),
        resident: SimId(resident),
        destination,
        priority: 0,
    }
}

fn rejected(task: u64, reason: PlayerCommandRejection) -> WorldEventKind {
    WorldEventKind::PlayerCommandRejected {
        task: PlayerTaskId(task),
        reason,
    }
}

// ---------------------------------------------------------------------------
// Content.
// ---------------------------------------------------------------------------

#[test]
fn a_scenario_for_another_map_is_refused() {
    let mut content = cottage_arrival();
    content.scenario.map = DefinitionId::new("map.manor");
    assert_eq!(
        error_of(content),
        ContentError::WrongMap {
            expected: DefinitionId::new("map.manor"),
            actual: DefinitionId::new("map.cottage"),
        }
    );
}

#[test]
fn a_missing_object_is_refused() {
    let mut content = cottage_arrival();
    content
        .scenario
        .objects
        .push(DefinitionId::new("object.missing"));
    assert_eq!(
        error_of(content),
        ContentError::MissingObject(DefinitionId::new("object.missing"))
    );
}

#[test]
fn a_missing_person_is_refused() {
    let mut content = cottage_arrival();
    content.people.people.remove(1);
    assert_eq!(
        error_of(content),
        ContentError::MissingPerson(DefinitionId::new("person.newcomer_b"))
    );
}

#[test]
fn a_missing_placement_is_refused() {
    let mut content = cottage_arrival();
    content.scenario.placements.remove(0);
    assert_eq!(
        error_of(content),
        ContentError::MissingPlacement(DefinitionId::new("person.newcomer_a"))
    );
}

#[test]
fn a_placement_off_the_map_is_refused() {
    let mut content = cottage_arrival();
    content.scenario.placements[0].position = tile(0, -1, 1);
    assert_eq!(
        error_of(content),
        ContentError::InvalidPlacement {
            person: DefinitionId::new("person.newcomer_a"),
            position: tile(0, -1, 1),
        }
    );
}

#[test]
fn a_placement_on_a_blocked_tile_is_refused() {
    let mut content = cottage_arrival();
    content.map.floors[0].blocked.push(tile(0, 2, 2));
    assert_eq!(
        error_of(content),
        ContentError::InvalidPlacement {
            person: DefinitionId::new("person.newcomer_b"),
            position: tile(0, 2, 2),
        }
    );
}

#[test]
fn a_need_without_any_conduct_is_refused() {
    let mut content = cottage_arrival();
    content.people.people[0].conducts.clear();
    assert_eq!(
        error_of(content),
        ContentError::MissingConduct {
            person: DefinitionId::new("person.newcomer_a"),
            conduct: DefinitionId::new("conduct.human"),
        }
    );
}

#[test]
fn a_need_with_an_unknown_conduct_is_refused() {
    let mut content = cottage_arrival();
    content.people.people[1].conducts[0] = DefinitionId::new("conduct.ghost");
    assert_eq!(
        error_of(content),
        ContentError::MissingConduct {
            person: DefinitionId::new("person.newcomer_b"),
            conduct: DefinitionId::new("conduct.ghost"),
        }
    );
}

#[test]
fn a_conduct_without_a_toilet_method_is_refused() {
    let mut content = cottage_arrival();
    content.conducts[0].methods[0].slot = DefinitionId::new("conduct.cook");
    assert_eq!(
        error_of(content),
        ContentError::MissingToiletMethod {
            conduct: DefinitionId::new("conduct.human"),
        }
    );
}

#[test]
fn a_method_with_an_unknown_plan_is_refused() {
    let mut content = cottage_arrival();
    content.plans.clear();
    assert_eq!(
        error_of(content),
        ContentError::MissingToiletPlan {
            conduct: DefinitionId::new("conduct.human"),
            plan: DefinitionId::new("plan.toilet_need"),
        }
    );
}

#[test]
fn a_plan_with_an_unknown_affordance_is_refused() {
    let mut content = cottage_arrival();
    content.plans[0].affordance = DefinitionId::new("affordance.sing");
    assert_eq!(
        error_of(content),
        ContentError::InvalidToiletPlan {
            plan: DefinitionId::new("plan.toilet_need"),
        }
    );
}

#[test]
fn a_person_without_a_need_needs_no_conduct() {
    let mut content = cottage_arrival();
    content.people.people[0].needs.clear();
    content.people.people[0].conducts.clear();
    let simulation = Simulation::from_content(content).expect("content resolves");
    assert_eq!(simulation.toilet_need(SimId(1)), None);
    assert_eq!(simulation.toilet_need(SimId(2)), Some(0));
}

#[test]
fn the_later_of_two_definitions_counts() {
    let mut content = cottage_arrival();
    content
        .people
        .people
        .push(newcomer("person.newcomer_a", "Rowan the Second"));
    let simulation = Simulation::from_content(content).expect("content resolves");
    assert_eq!(
        simulation.cottage_snapshot().residents[0].display_name,
        "Rowan the Second"
    );
}

#[test]
fn the_best_toilet_method_is_the_last_of_the_highest_priority() {
    let mut content = cottage_arrival();
    let method = |plan: &str, priority| ConductMethodDefinition {
        slot: DefinitionId::new("conduct.use_toilet"),
        plan: DefinitionId::new(plan),
        priority,
    };
    content.conducts[0].methods = vec![
        method("plan.low", 1),
        method("plan.first", 7),
        method("plan.toilet_need", 7),
        method("plan.lower", -2),
    ];
    let mut objects = OrdMap::new();
    for object in content.objects.objects.clone() {
        objects.insert(object.id.clone(), object);
    }
    let plan = resolve_human_toilet_plan(
        &content.people.people[0],
        &content.conducts,
        &content.plans,
        &objects,
    )
    .expect("plan resolves");
    assert_eq!(plan.object, DefinitionId::new("object.cottage_toilet"));
    assert_eq!(plan.affordance, DefinitionId::new("affordance.use_toilet"));
    assert_eq!(plan.priority, 12);
}

#[test]
fn the_first_file_that_fails_to_load_decides_the_error() {
    let content = cottage_arrival();
    let unread = |file: CottageFile| ContentError::Read {
        path: file.path().to_owned(),
    };
    let garbled = |file: CottageFile| ContentError::Parse {
        path: file.path().to_owned(),
    };
    let loaded = ScenarioContent::load_cottage_arrival(
        Ok(content.scenario.clone()),
        Ok(content.people.clone()),
        Ok(content.map.clone()),
        Ok(content.objects.clone()),
        Ok(content.conducts[0].clone()),
        Ok(content.plans[0].clone()),
    );
    assert_eq!(loaded, Ok(content.clone()));
    let failed = ScenarioContent::load_cottage_arrival(
        Ok(content.scenario.clone()),
        Ok(content.people.clone()),
        Err(garbled(CottageFile::Floors)),
        Err(unread(CottageFile::Objects)),
        Ok(content.conducts[0].clone()),
        Err(unread(CottageFile::Plan)),
    );
    assert_eq!(
        failed,
        Err(ContentError::Parse {
            path: "maps/cottage.ron".to_owned(),
        })
    );
    let failed = ScenarioContent::load_cottage_arrival(
        Err(unread(CottageFile::Scenario)),
        Err(garbled(CottageFile::People)),
        Ok(content.map.clone()),
        Ok(content.objects.clone()),
        Err(unread(CottageFile::Conduct)),
        Ok(content.plans[0].clone()),
    );
    assert_eq!(
        failed,
        Err(ContentError::Read {
            path: "scenarios/cottage_arrival.ron".to_owned(),
        })
    );
    assert_eq!(CottageFile::People.path(), "people/newcomers.ron");
    assert_eq!(CottageFile::Objects.path(), "objects/cottage.ron");
    assert_eq!(CottageFile::Conduct.path(), "conducts/human.ron");
    assert_eq!(CottageFile::Plan.path(), "plans/toilet_need.ron");
}

#[test]
fn omitted_fields_have_their_defaults() {
    assert_eq!(
        default_start_time_of_day(),
        TimeOfDay { hour: 8, minute: 0 }
    );
    assert_eq!(default_urgent_at(), None);
}

// ---------------------------------------------------------------------------
// Clock, draws and identifiers.
// ---------------------------------------------------------------------------

#[test]
fn the_clock_shows_the_same_time_a_day_later() {
    let mut simulation = load_simulation();
    for _ in 0..1_440 {
        simulation.advance_tick();
    }
    assert_eq!(
        simulation.time_of_day(),
        TimeOfDay {
            hour: 16,
            minute: 0
        }
    );
    simulation.advance_tick();
    assert_eq!(
        simulation.time_of_day(),
        TimeOfDay {
            hour: 16,
            minute: 1
        }
    );
    assert_eq!(simulation.tick(), 1_441);
}

#[test]
fn keyed_draws_have_fixed_values() {
    assert_eq!(keyed_draw(4_243, 1, 1, 0), 3_210_927_224_443_541_717);
    assert_eq!(keyed_draw(8_484, 1, 1, 0), 16_353_305_918_144_529_889);
    assert_eq!(keyed_draw(0, 0, 0, 0), 0);
    assert_eq!(keyed_draw(1, 2, 3, 4), 10_897_163_244_209_088_558);
}

#[test]
fn every_tick_ends_with_its_mark() {
    let mut simulation = load_simulation();
    simulation.advance_tick();
    simulation.advance_tick();
    let ledger = simulation.event_ledger();
    assert_eq!(
        ledger.last(),
        Some(&WorldEvent {
            tick: 2,
            kind: WorldEventKind::TickCompleted {
                keyed_marker: keyed_draw(4_243, 2, 2, 0),
            },
        })
    );
    assert_eq!(ledger[0].tick, 1);
}

#[test]
fn commands_know_their_order() {
    assert_eq!(go_to(5, 1, tile(0, 1, 1)).task(), PlayerTaskId(5));
    assert_eq!(
        PlayerCommand::CancelPlayerTask {
            task: PlayerTaskId(6)
        }
        .task(),
        PlayerTaskId(6)
    );
    assert_eq!(
        PlayerCommand::QueueUseToilet {
            task: PlayerTaskId(7),
            resident: SimId(1),
            object: DefinitionId::new("o"),
            affordance: DefinitionId::new("a"),
            priority: 0,
        }
        .task(),
        PlayerTaskId(7)
    );
}

#[test]
fn an_ordered_map_keeps_its_keys_in_order() {
    let mut map: OrdMap<PlayerTaskId, SimId> = OrdMap::new();
    assert!(map.is_empty());
    map.insert(PlayerTaskId(3), SimId(30));
    map.insert(PlayerTaskId(1), SimId(10));
    map.insert(PlayerTaskId(2), SimId(20));
    map.insert(PlayerTaskId(3), SimId(33));
    assert_eq!(map.len(), 3);
    assert_eq!(
        map.key_list(),
        vec![PlayerTaskId(1), PlayerTaskId(2), PlayerTaskId(3)]
    );
    assert_eq!(map.get(&PlayerTaskId(3)), Some(&SimId(33)));
    assert_eq!(map.remove(&PlayerTaskId(2)), Some(SimId(20)));
    assert_eq!(map.remove(&PlayerTaskId(2)), None);
    assert!(!map.contains_key(&PlayerTaskId(2)));
    assert_eq!(map.len(), 2);
    let mut names: OrdMap<DefinitionId, SimId> = OrdMap::new();
    names.insert(DefinitionId::new("b"), SimId(2));
    names.insert(DefinitionId::new("ab"), SimId(1));
    names.insert(DefinitionId::new("a"), SimId(0));
    assert_eq!(
        names.key_list(),
        vec![
            DefinitionId::new("a"),
            DefinitionId::new("ab"),
            DefinitionId::new("b")
        ]
    );
}

// ---------------------------------------------------------------------------
// Ground and routes.
// ---------------------------------------------------------------------------

#[test]
fn only_tiles_inside_the_bounds_and_not_blocked_are_walkable() {
    let mut map = cottage_arrival().map;
    map.floors[0].blocked.push(tile(0, 3, 3));
    assert!(map.is_walkable(tile(0, 0, 0)));
    assert!(map.is_walkable(tile(1, 11, 11)));
    assert!(!map.is_walkable(tile(0, 3, 3)));
    assert!(!map.is_walkable(tile(0, 12, 0)));
    assert!(!map.is_walkable(tile(0, 0, -1)));
    assert!(!map.is_walkable(tile(2, 0, 0)));
}

#[test]
fn neighbours_are_sorted_and_hold_the_far_end_of_a_portal() {
    let map = cottage_arrival().map;
    assert_eq!(
        map.neighbours(tile(0, 5, 5)),
        vec![
            tile(0, 4, 5),
            tile(0, 5, 4),
            tile(0, 5, 6),
            tile(0, 6, 5),
            tile(1, 5, 5)
        ]
    );
    assert_eq!(
        map.neighbours(tile(0, 0, 0)),
        vec![tile(0, 0, 1), tile(0, 1, 0)]
    );
}

#[test]
fn the_heuristic_counts_tiles_and_a_change_of_floor() {
    assert_eq!(heuristic(tile(0, 1, 1), tile(1, 4, -3)), 8);
    assert_eq!(heuristic(tile(0, 1, 1), tile(0, 1, 1)), 0);
}

#[test]
fn routes_are_shortest_and_avoid_closed_tiles() {
    let map = cottage_arrival().map;
    let closed = Vec::new();
    assert_eq!(
        plan_route(&map, &closed, tile(0, 1, 1), tile(0, 3, 1)),
        Some(vec![tile(0, 1, 1), tile(0, 2, 1), tile(0, 3, 1)])
    );
    let closed = vec![tile(0, 2, 1)];
    let around =
        plan_route(&map, &closed, tile(0, 1, 1), tile(0, 3, 1)).expect("there is a way around");
    assert_eq!(around.len(), 5);
    assert!(!around.contains(&tile(0, 2, 1)));
    let closed = vec![tile(0, 0, 1), tile(0, 1, 0)];
    assert_eq!(
        plan_route(&map, &closed, tile(0, 0, 0), tile(0, 3, 3)),
        None
    );
    assert_eq!(
        plan_route(&map, &Vec::new(), tile(0, 4, 4), tile(0, 4, 4)),
        Some(vec![tile(0, 4, 4)])
    );
}

#[test]
fn a_route_visits_no_tile_twice() {
    let mut map = cottage_arrival().map;
    map.portals.push(PortalDefinition {
        id: DefinitionId::new("portal.tunnel"),
        from: tile(0, 0, 0),
        to: tile(0, 11, 11),
        traversal_ticks: 1,
    });
    let route = plan_route(&map, &Vec::new(), tile(0, 1, 0), tile(1, 11, 10)).expect("a way");
    for (i, step) in route.iter().enumerate() {
        assert!(!route[i + 1..].contains(step));
    }
}

#[test]
fn a_route_through_the_stairs_uses_the_portal() {
    let simulation = load_simulation();
    let route = simulation
        .find_path(tile(0, 5, 4), tile(1, 6, 5))
        .expect("the stairs connect the floors");
    assert_eq!(
        route,
        vec![
            tile(0, 5, 4),
            tile(0, 5, 5),
            tile(1, 5, 5),
            tile(1, 6, 5)
        ]
    );
}

// ---------------------------------------------------------------------------
// Arbitration.
// ---------------------------------------------------------------------------

#[test]
fn a_higher_band_dominates_a_lower_one() {
    let claim = |resident, band, priority| MovementClaim {
        resident,
        target: tile(0, 1, 1),
        priority,
        band,
        request_age: 4,
    };
    let urgent = claim(SimId(9), ActionBand::Urgent, 0);
    let player = claim(SimId(1), ActionBand::Player, 999);
    let autonomous = claim(SimId(2), ActionBand::Autonomous, 0);
    assert_eq!(
        compare_movement_claims(&urgent, &player),
        std::cmp::Ordering::Less
    );
    assert_eq!(
        compare_movement_claims(&autonomous, &player),
        std::cmp::Ordering::Greater
    );
    assert_eq!(
        compare_movement_claims(&player, &player),
        std::cmp::Ordering::Equal
    );
    assert_eq!(ActionBand::Autonomous.base(), 0);
    assert_eq!(ActionBand::Player.base(), 1_000);
    assert_eq!(ActionBand::Urgent.base(), 2_000);
    assert_eq!(ActionBand::Mandatory.base(), 3_000);
}

// ---------------------------------------------------------------------------
// Orders.
// ---------------------------------------------------------------------------

#[test]
fn a_used_order_id_is_refused_as_a_duplicate() {
    let mut simulation = load_simulation();
    simulation.submit_player_command(go_to(1, 1, tile(0, 4, 4)));
    simulation.submit_player_command(go_to(1, 2, tile(0, 6, 6)));
    simulation.advance_tick();
    let kinds = kinds_since(&simulation, 0);
    assert_eq!(
        kinds[0],
        WorldEventKind::PlayerCommandAccepted {
            task: PlayerTaskId(1)
        }
    );
    assert_eq!(
        kinds[1],
        rejected(1, PlayerCommandRejection::DuplicateTask)
    );
}

#[test]
fn every_refusal_has_its_reason() {
    let mut simulation = load_simulation();
    simulation.submit_player_command(go_to(1, 9, tile(0, 4, 4)));
    simulation.submit_player_command(go_to(2, 1, tile(0, 99, 99)));
    simulation.submit_player_command(PlayerCommand::QueueUseToilet {
        task: PlayerTaskId(3),
        resident: SimId(7),
        object: DefinitionId::new("object.cottage_toilet"),
        affordance: DefinitionId::new("affordance.use_toilet"),
        priority: 0,
    });
    simulation.submit_player_command(PlayerCommand::QueueUseToilet {
        task: PlayerTaskId(4),
        resident: SimId(1),
        object: DefinitionId::new("object.cottage_toilet"),
        affordance: DefinitionId::new("affordance.sing"),
        priority: 0,
    });
    simulation.submit_player_command(PlayerCommand::CancelPlayerTask {
        task: PlayerTaskId(5),
    });
    simulation.advance_tick();
    let kinds = kinds_since(&simulation, 0);
    assert_eq!(
        &kinds[..5],
        &[
            rejected(1, PlayerCommandRejection::UnknownResident),
            rejected(2, PlayerCommandRejection::InvalidMoveTarget),
            rejected(3, PlayerCommandRejection::UnknownResident),
            rejected(4, PlayerCommandRejection::InvalidUseTarget),
            rejected(5, PlayerCommandRejection::UnknownTask),
        ]
    );
    assert_eq!(kinds.len(), 6);
    assert!(simulation.cottage_snapshot().residents[0]
        .player_tasks
        .is_empty());
}

#[test]
fn an_ended_order_cannot_be_cancelled() {
    let mut simulation = load_simulation();
    simulation.submit_player_command(go_to(1, 1, tile(0, 2, 1)));
    simulation.advance_tick();
    assert_eq!(simulation.resident_position(SimId(1)), Some(tile(0, 2, 1)));
    let start = simulation.event_ledger().len();
    simulation.submit_player_command(PlayerCommand::CancelPlayerTask {
        task: PlayerTaskId(1),
    });
    simulation.advance_tick();
    assert_eq!(
        kinds_since(&simulation, start)[0],
        rejected(1, PlayerCommandRejection::TaskNotCancellable)
    );
}

#[test]
fn an_order_can_be_cancelled_once() {
    let mut simulation = load_simulation();
    simulation.submit_player_command(go_to(1, 1, tile(0, 9, 9)));
    simulation.advance_tick();
    let start = simulation.event_ledger().len();
    simulation.submit_player_command(PlayerCommand::CancelPlayerTask {
        task: PlayerTaskId(1),
    });
    simulation.submit_player_command(PlayerCommand::CancelPlayerTask {
        task: PlayerTaskId(1),
    });
    simulation.advance_tick();
    let kinds = kinds_since(&simulation, start);
    assert_eq!(
        &kinds[..3],
        &[
            WorldEventKind::PlayerCommandAccepted {
                task: PlayerTaskId(1)
            },
            WorldEventKind::GoToCancelled {
                task: PlayerTaskId(1),
                resident: SimId(1),
                destination: tile(0, 9, 9),
            },
            rejected(1, PlayerCommandRejection::TaskNotCancellable),
        ]
    );
    let there = simulation.resident_position(SimId(1));
    simulation.advance_tick();
    assert_eq!(simulation.resident_position(SimId(1)), there);
}

#[test]
fn autonomy_yields_to_the_player_queue() {
    let mut simulation = load_simulation();
    assert!(simulation.set_toilet_need(SimId(1), 60));
    simulation.submit_player_command(go_to(1, 1, tile(0, 1, 4)));
    simulation.advance_tick();
    assert!(simulation.has_autonomous_toilet_intention(SimId(1)));
    assert_eq!(simulation.resident_position(SimId(1)), Some(tile(0, 1, 2)));
    simulation.advance_tick();
    simulation.advance_tick();
    assert_eq!(simulation.resident_position(SimId(1)), Some(tile(0, 1, 4)));
    simulation.advance_tick();
    assert_ne!(simulation.resident_position(SimId(1)), Some(tile(0, 1, 4)));
}

// ---------------------------------------------------------------------------
// Needs and objects.
// ---------------------------------------------------------------------------

#[test]
fn a_need_saturates() {
    let mut simulation = load_simulation();
    assert!(simulation.set_toilet_need(SimId(2), 254));
    assert!(!simulation.set_toilet_need(SimId(3), 1));
    simulation.advance_tick();
    assert_eq!(simulation.toilet_need(SimId(2)), Some(255));
    simulation.advance_tick();
    assert_eq!(simulation.toilet_need(SimId(2)), Some(255));
}

#[test]
fn a_need_without_an_urgent_threshold_never_escalates() {
    for (urgent_at, state) in [
        (default_urgent_at(), ClientPlayerTaskState::Active),
        (Some(254), ClientPlayerTaskState::Paused),
        (Some(255), ClientPlayerTaskState::Paused),
    ] {
        let mut content = cottage_arrival();
        content.people.people[0].needs[0].urgent_at = urgent_at;
        let mut simulation = Simulation::from_content(content).expect("content resolves");
        simulation.submit_player_command(go_to(1, 1, tile(0, 1, 9)));
        simulation.advance_tick();
        assert!(simulation.set_toilet_need(SimId(1), 255));
        simulation.advance_tick();
        assert_eq!(simulation.toilet_need(SimId(1)), Some(255));
        assert!(simulation.has_autonomous_toilet_intention(SimId(1)));
        let shown = simulation.cottage_snapshot();
        assert_eq!(shown.residents[0].player_tasks[0].state, state);
    }
}

#[test]
fn a_full_need_without_an_urgent_threshold_holds_back_no_order() {
    let mut content = cottage_arrival();
    content.people.people[0].needs[0].urgent_at = default_urgent_at();
    let mut simulation = Simulation::from_content(content).expect("content resolves");
    assert!(simulation.set_toilet_need(SimId(1), 255));
    simulation.submit_player_command(go_to(1, 1, tile(0, 1, 3)));
    for _ in 0..2 {
        simulation.advance_tick();
    }
    assert_eq!(simulation.resident_position(SimId(1)), Some(tile(0, 1, 3)));
    assert!(kinds_since(&simulation, 0).contains(&WorldEventKind::GoToArrived {
        resident: SimId(1),
        destination: tile(0, 1, 3),
    }));
}

#[test]
fn a_use_completes_its_duration_after_it_starts() {
    for (duration_ticks, lasts) in [(0, 1), (1, 1), (3, 3)] {
        let mut content = cottage_arrival();
        content.objects.objects[0].affordances[0].duration_ticks = duration_ticks;
        let mut simulation = Simulation::from_content(content).expect("content resolves");
        let toilet = DefinitionId::new("object.cottage_toilet");
        let affordance = DefinitionId::new("affordance.use_toilet");
        let slot = DefinitionId::new("slot.use");
        assert!(simulation.set_toilet_need(SimId(1), 40));
        assert!(simulation.begin_use_object(SimId(1), &toilet, &affordance, 0));
        simulation.advance_tick();
        let completed = WorldEventKind::ObjectUseCompleted {
            resident: SimId(1),
            object: toilet.clone(),
            affordance: affordance.clone(),
        };
        for _ in 0..lasts {
            assert_eq!(simulation.object_slot_claimant(&toilet, &slot), Some(SimId(1)));
            assert!(!kinds_since(&simulation, 0).contains(&completed));
            simulation.advance_tick();
        }
        assert_eq!(simulation.object_slot_claimant(&toilet, &slot), None);
        assert_eq!(simulation.capability_claimant(SimId(1), Capability::Hands), None);
        let done: Vec<u64> = simulation
            .event_ledger()
            .iter()
            .filter(|event| event.kind == completed)
            .map(|event| event.tick)
            .collect();
        assert_eq!(done, vec![1 + lasts]);
        assert!(kinds_since(&simulation, 0).contains(&WorldEventKind::ToiletNeedRecovered {
            resident: SimId(1),
            value: 0,
        }));
        assert_eq!(simulation.toilet_need(SimId(1)), Some(0));
    }
}

#[test]
fn claims_go_together() {
    let mut simulation = load_simulation();
    let toilet = DefinitionId::new("object.cottage_toilet");
    let affordance = DefinitionId::new("affordance.use_toilet");
    let slot = DefinitionId::new("slot.use");
    assert!(simulation.begin_use_object(SimId(2), &toilet, &affordance, 0));
    assert_eq!(simulation.capability_claimant(SimId(2), Capability::Hands), None);
    assert_eq!(simulation.object_slot_claimant(&toilet, &slot), None);
    simulation.advance_tick();
    assert_eq!(
        simulation.capability_claimant(SimId(2), Capability::Hands),
        Some(toilet.clone())
    );
    assert_eq!(simulation.object_slot_claimant(&toilet, &slot), Some(SimId(2)));
    // Whoever uses something asks for nothing.
    assert!(!simulation.begin_use_object(SimId(2), &toilet, &affordance, 0));
}

#[test]
fn a_resident_makes_one_request_at_a_time() {
    let mut simulation = load_simulation();
    let toilet = DefinitionId::new("object.cottage_toilet");
    let affordance = DefinitionId::new("affordance.use_toilet");
    assert!(simulation.begin_use_object(SimId(1), &toilet, &affordance, 0));
    assert!(!simulation.begin_use_object(SimId(1), &toilet, &affordance, 0));
    assert!(!simulation.begin_use_object(SimId(9), &toilet, &affordance, 0));
    assert!(!simulation.begin_use_object(SimId(2), &affordance, &toilet, 0));
    assert!(!simulation.begin_use_object(SimId(2), &toilet, &toilet, 0));
    simulation.advance_tick();
    assert!(!simulation.begin_use_object(SimId(1), &toilet, &affordance, 0));
}

#[test]
fn an_older_request_is_served_before_a_newer_one() {
    let mut content = cottage_arrival();
    content.objects.objects[0].affordances[0].duration_ticks = 3;
    let mut simulation = Simulation::from_content(content).expect("content resolves");
    let toilet = DefinitionId::new("object.cottage_toilet");
    let affordance = DefinitionId::new("affordance.use_toilet");
    let slot = DefinitionId::new("slot.use");
    assert!(simulation.begin_use_object(SimId(2), &toilet, &affordance, 0));
    simulation.advance_tick();
    assert!(simulation.begin_use_object(SimId(1), &toilet, &affordance, 0));
    simulation.advance_tick();
    simulation.advance_tick();
    assert_eq!(
        simulation.object_slot_claimant(&toilet, &slot),
        Some(SimId(2))
    );
    simulation.advance_tick();
    assert_eq!(
        simulation.object_slot_claimant(&toilet, &slot),
        Some(SimId(1))
    );
    assert_eq!(
        simulation.capability_claimant(SimId(2), Capability::Hands),
        None
    );
}

// ---------------------------------------------------------------------------
// Movement.
// ---------------------------------------------------------------------------

#[test]
fn nobody_but_residents_sets_out() {
    let mut simulation = load_simulation();
    assert!(!simulation.begin_go_to(SimId(3), tile(0, 1, 1)));
    assert_eq!(simulation.resident_position(SimId(3)), None);
    assert!(!simulation.set_go_to_request_age(SimId(1), 7));
}

#[test]
fn a_resident_moves_one_tile_a_tick() {
    let mut simulation = load_simulation();
    assert!(simulation.begin_go_to(SimId(1), tile(0, 1, 3)));
    simulation.advance_tick();
    assert_eq!(simulation.resident_position(SimId(1)), Some(tile(0, 1, 2)));
    simulation.advance_tick();
    assert_eq!(simulation.resident_position(SimId(1)), Some(tile(0, 1, 3)));
    simulation.advance_tick();
    assert_eq!(simulation.resident_position(SimId(1)), Some(tile(0, 1, 3)));
}

#[test]
fn a_portal_is_crossed_by_one_resident_at_a_time() {
    let mut content = cottage_arrival();
    content.map.portals[0].traversal_ticks = 3;
    content.scenario.placements[0].position = tile(0, 5, 5);
    content.scenario.placements[1].position = tile(1, 5, 5);
    let mut simulation = Simulation::from_content(content).expect("content resolves");
    assert!(simulation.begin_go_to(SimId(1), tile(1, 6, 5)));
    simulation.advance_tick();
    // The far end is held, and there is no other way up.
    assert!(kinds_since(&simulation, 0).contains(&WorldEventKind::GoToWaited {
        resident: SimId(1),
        blocked_by: SimId(2),
        position: tile(1, 5, 5),
    }));
    assert!(simulation.begin_go_to(SimId(2), tile(1, 5, 8)));
    simulation.advance_tick();
    for _ in 0..3 {
        assert_eq!(simulation.resident_position(SimId(1)), Some(tile(0, 5, 5)));
        simulation.advance_tick();
    }
    assert_eq!(simulation.resident_position(SimId(1)), Some(tile(1, 5, 5)));
}

#[test]
fn a_crossing_lasts_the_ticks_of_its_portal() {
    for (traversal_ticks, lasts) in [(0, 1), (1, 1), (4, 4)] {
        let mut content = cottage_arrival();
        content.map.portals[0].traversal_ticks = traversal_ticks;
        content.scenario.placements[0].position = tile(0, 5, 5);
        let mut simulation = Simulation::from_content(content).expect("content resolves");
        assert!(simulation.begin_go_to(SimId(1), tile(1, 5, 6)));
        // The first tick enters the portal in place, and says nothing.
        simulation.advance_tick();
        assert_eq!(simulation.event_ledger().len(), 1);
        for _ in 0..lasts {
            assert_eq!(simulation.resident_position(SimId(1)), Some(tile(0, 5, 5)));
            simulation.advance_tick();
        }
        assert_eq!(simulation.resident_position(SimId(1)), Some(tile(1, 5, 5)));
        // The portal is free again.
        assert!(simulation.begin_go_to(SimId(1), tile(0, 5, 5)));
        simulation.advance_tick();
        for _ in 0..lasts {
            assert_eq!(simulation.resident_position(SimId(1)), Some(tile(1, 5, 5)));
            simulation.advance_tick();
        }
        assert_eq!(simulation.resident_position(SimId(1)), Some(tile(0, 5, 5)));
    }
}

#[test]
fn a_tile_is_shared_only_by_joining() {
    let mut content = cottage_arrival();
    content.map.portals[0].traversal_ticks = 3;
    content.scenario.placements[0].position = tile(0, 5, 5);
    content.scenario.placements[1].position = tile(1, 5, 4);
    let mut simulation = Simulation::from_content(content).expect("content resolves");
    assert!(simulation.begin_go_to(SimId(1), tile(1, 5, 5)));
    simulation.advance_tick();
    assert!(simulation.begin_go_to(SimId(2), tile(1, 5, 5)));
    for _ in 0..2 {
        simulation.advance_tick();
        assert_eq!(simulation.resident_position(SimId(1)), Some(tile(0, 5, 5)));
        assert_eq!(simulation.resident_position(SimId(2)), Some(tile(1, 5, 5)));
    }
    // The far end was taken meanwhile, and its holder stays.
    simulation.advance_tick();
    assert_eq!(simulation.resident_position(SimId(1)), Some(tile(1, 5, 5)));
    assert_eq!(simulation.resident_position(SimId(2)), Some(tile(1, 5, 5)));
}

#[test]
fn a_holder_that_leaves_in_the_same_tick_is_not_joined_for_long() {
    let mut content = cottage_arrival();
    content.map.portals[0].traversal_ticks = 3;
    content.people.people.push(newcomer("person.newcomer_c", "Wren Bell"));
    content.scenario.people.push(DefinitionId::new("person.newcomer_c"));
    content.scenario.placements[0].position = tile(0, 5, 5);
    content.scenario.placements[1].position = tile(1, 5, 4);
    content.scenario.placements.push(ResidentPlacement {
        person: DefinitionId::new("person.newcomer_c"),
        position: tile(1, 6, 5),
    });
    let mut simulation = Simulation::from_content(content).expect("content resolves");
    assert!(simulation.begin_go_to(SimId(1), tile(1, 5, 5)));
    simulation.advance_tick();
    assert!(simulation.begin_go_to(SimId(2), tile(1, 5, 5)));
    simulation.advance_tick();
    simulation.advance_tick();
    // The third resident goes first and frees the way of the second, which
    // goes after the first has come out.
    assert!(simulation.begin_go_to(SimId(2), tile(1, 6, 5)));
    assert!(simulation.begin_go_to(SimId(3), tile(1, 7, 5)));
    simulation.advance_tick();
    assert_eq!(simulation.resident_position(SimId(1)), Some(tile(1, 5, 5)));
    assert_eq!(simulation.resident_position(SimId(2)), Some(tile(1, 6, 5)));
    assert_eq!(simulation.resident_position(SimId(3)), Some(tile(1, 7, 5)));
    // Nobody holds the first resident's tile now, so it can be stepped onto.
    assert!(simulation.begin_go_to(SimId(2), tile(1, 5, 5)));
    simulation.advance_tick();
    assert_eq!(simulation.resident_position(SimId(1)), Some(tile(1, 5, 5)));
    assert_eq!(simulation.resident_position(SimId(2)), Some(tile(1, 5, 5)));
}

#[test]
fn a_cancellation_names_what_the_order_asked_for() {
    let toilet = DefinitionId::new("object.cottage_toilet");
    let affordance = DefinitionId::new("affordance.use_toilet");
    let mut content = cottage_arrival();
    content.objects.objects[0].affordances[0].duration_ticks = 9;
    let mut simulation = Simulation::from_content(content).expect("content resolves");
    let use_toilet = |task: u64, resident: u64| PlayerCommand::QueueUseToilet {
        task: PlayerTaskId(task),
        resident: SimId(resident),
        object: toilet.clone(),
        affordance: affordance.clone(),
        priority: 0,
    };
    // One order in use, one that asks, one on the way and one that waits.
    simulation.submit_player_command(use_toilet(1, 1));
    simulation.submit_player_command(go_to(2, 1, tile(0, 9, 9)));
    simulation.submit_player_command(use_toilet(3, 2));
    simulation.advance_tick();
    let shown = simulation.cottage_snapshot();
    assert_eq!(
        shown.residents[0].player_tasks[0].state,
        ClientPlayerTaskState::Active
    );
    assert_eq!(
        shown.residents[1].player_tasks[0].state,
        ClientPlayerTaskState::Queued
    );
    let cancelled = |task: u64, resident: u64| WorldEventKind::TaskCancelled {
        task: PlayerTaskId(task),
        resident: SimId(resident),
        object: toilet.clone(),
        affordance: affordance.clone(),
    };
    for (task, expected) in [
        (
            2,
            WorldEventKind::GoToCancelled {
                task: PlayerTaskId(2),
                resident: SimId(1),
                destination: tile(0, 9, 9),
            },
        ),
        (3, cancelled(3, 2)),
        (1, cancelled(1, 1)),
    ] {
        let start = simulation.event_ledger().len();
        simulation.submit_player_command(PlayerCommand::CancelPlayerTask {
            task: PlayerTaskId(task),
        });
        simulation.advance_tick();
        let kinds = kinds_since(&simulation, start);
        assert_eq!(
            kinds[0],
            WorldEventKind::PlayerCommandAccepted {
                task: PlayerTaskId(task)
            }
        );
        assert_eq!(kinds[1], expected);
    }
}

// ---------------------------------------------------------------------------
// Whole runs.
// ---------------------------------------------------------------------------

fn run(seed: u64) -> Simulation {
    let mut content = cottage_arrival();
    content.scenario.seed = seed;
    let mut simulation = Simulation::from_content(content).expect("content resolves");
    simulation.submit_player_command(go_to(1, 1, tile(1, 5, 5)));
    assert!(simulation.begin_go_to(SimId(2), tile(0, 1, 1)));
    for _ in 0..90 {
        simulation.advance_tick();
    }
    simulation
}

#[test]
fn a_tick_publishes_one_mark_and_ingests_the_tick_before() {
    let mut simulation = load_simulation();
    simulation.submit_player_command(go_to(1, 1, tile(0, 1, 6)));
    for _ in 0..12 {
        let before = simulation.event_ledger().to_vec();
        let last_tick = simulation.tick();
        simulation.advance_tick();
        let after = simulation.event_ledger();
        assert_eq!(&after[..before.len()], &before[..]);
        assert!(after[before.len()..]
            .iter()
            .all(|event| event.tick == last_tick + 1));
        let marks = after[before.len()..]
            .iter()
            .filter(|event| matches!(event.kind, WorldEventKind::TickCompleted { .. }))
            .count();
        assert_eq!(marks, 1);
        let expected: Vec<WorldEvent> = before
            .into_iter()
            .filter(|event| event.tick == last_tick)
            .collect();
        assert_eq!(simulation.ingested_events(), &expected[..]);
    }
}

#[test]
fn a_seed_shows_in_the_completion_marks_only() {
    let one = run(1);
    let other = run(2);
    assert_eq!(one.cottage_snapshot(), other.cottage_snapshot());
    assert_eq!(one.event_ledger().len(), other.event_ledger().len());
    for (a, b) in one.event_ledger().iter().zip(other.event_ledger()) {
        assert_eq!(a.tick, b.tick);
        if matches!(a.kind, WorldEventKind::TickCompleted { .. }) {
            assert!(matches!(b.kind, WorldEventKind::TickCompleted { .. }));
            assert_ne!(a, b);
        } else {
            assert_eq!(a, b);
        }
    }
    let again = run(1);
    assert_eq!(one.event_ledger(), again.event_ledger());
    assert_eq!(one.ingested_events(), again.ingested_events());
    assert_eq!(one.cottage_snapshot(), again.cottage_snapshot());
}

// ---------------------------------------------------------------------------
// The client.
// ---------------------------------------------------------------------------

#[test]
fn numbers_read_in_decimal() {
    assert_eq!(decimal(0), "0");
    assert_eq!(decimal(7), "7");
    assert_eq!(decimal(40), "40");
    assert_eq!(decimal(u64::MAX), "18446744073709551615");
    assert_eq!(two_digits(5), "05");
    assert_eq!(two_digits(10), "10");
    assert_eq!(two_digits(255), "255");
}

#[test]
fn a_snapshot_shows_the_village() {
    let simulation = load_simulation();
    let snapshot = simulation.cottage_snapshot();
    let content = cottage_arrival();
    assert_eq!(snapshot.tick, 0);
    assert_eq!(snapshot.floors, content.map.floors);
    assert_eq!(snapshot.objects, content.objects.objects);
    assert_eq!(snapshot.residents.len(), 2);
    assert_eq!(snapshot.residents[1].id, SimId(2));
    assert_eq!(snapshot.residents[1].display_name, "Mara Bell");
    assert_eq!(snapshot.residents[1].position, tile(0, 2, 2));
    assert_eq!(snapshot.residents[1].recent_perception, None);
    assert!(!snapshot.household_knows_pargeter_custom);
    assert_eq!(snapshot.resident_name(SimId(2)), "Mara Bell");
    assert_eq!(snapshot.resident_name(SimId(3)), "A newcomer");
    assert_eq!(snapshot.floor_of(SimId(1)), Some(0));
    assert_eq!(snapshot.floor_of(SimId(3)), None);
}

#[test]
fn a_snapshot_shows_objects_by_name_and_residents_by_id() {
    let mut content = cottage_arrival();
    for id in ["object.sink", "object.armchair", "object.sink"] {
        content.objects.objects.push(SmartObjectDefinition {
            id: DefinitionId::new(id),
            object_type: DefinitionId::new("object_type.other"),
            position: tile(0, 7, 7),
            slots: Vec::new(),
            affordances: Vec::new(),
        });
    }
    let simulation = Simulation::from_content(content).expect("content resolves");
    let shown = simulation.cottage_snapshot();
    let names: Vec<&str> = shown.objects.iter().map(|object| object.id.0.as_str()).collect();
    assert_eq!(
        names,
        vec!["object.armchair", "object.cottage_toilet", "object.sink"]
    );
    let ids: Vec<u64> = shown.residents.iter().map(|resident| resident.id.0).collect();
    assert_eq!(ids, vec![1, 2]);
}

#[test]
fn a_command_submitted_through_the_driver_shows_after_a_tick() {
    let mut driver = SimulationDriver::new(load_simulation());
    let before = driver.current.clone();
    driver.submit(go_to(1, 1, tile(0, 1, 4)));
    assert_eq!(driver.current, before);
    assert_eq!(driver.simulation.cottage_snapshot(), before);
    driver.advance();
    assert_eq!(driver.previous, before);
    assert_eq!(driver.current.residents[0].player_tasks[0].id, PlayerTaskId(1));
}

#[test]
fn the_driver_keeps_the_snapshots_around_a_tick() {
    let mut driver = SimulationDriver::new(load_simulation());
    assert!(driver.simulation.begin_go_to(SimId(1), tile(0, 1, 4)));
    driver.advance_by(0);
    assert_eq!(driver.current.tick, 0);
    driver.advance_by(2);
    assert_eq!(driver.previous.tick, 1);
    assert_eq!(driver.current.tick, 2);
    assert_eq!(
        movement(&driver.previous, &driver.current, SimId(1)),
        Some((tile(0, 1, 2), tile(0, 1, 3)))
    );
    assert!(is_walking(&driver.previous, &driver.current, SimId(1)));
    assert!(!is_walking(&driver.previous, &driver.current, SimId(2)));
    assert!(!is_walking(&driver.previous, &driver.current, SimId(5)));
    assert_eq!(driver.simulation.tick(), 2);
}

#[test]
fn a_toilet_order_needs_a_selection_and_no_pending_command() {
    let mut order = OrderState {
        next_task_id: 1,
        ..OrderState::default()
    };
    assert_eq!(order_toilet(&mut order, None, 0), None);
    assert_eq!(
        order_feedback_text(&order),
        "Select a newcomer before ordering."
    );
    assert_eq!(
        order_toilet(&mut order, Some(SimId(2)), 3),
        Some(PlayerCommand::QueueUseToilet {
            task: PlayerTaskId(1),
            resident: SimId(2),
            object: DefinitionId::new("object.cottage_toilet"),
            affordance: DefinitionId::new("affordance.use_toilet"),
            priority: 100,
        })
    );
    assert_eq!(order_feedback_text(&order), "Order #1 pending\u{2026}");
    assert_eq!(order_toilet(&mut order, Some(SimId(2)), 3), None);
    assert_eq!(
        order.receipt,
        Some("An order is already pending; wait for its receipt.".to_owned())
    );
    assert_eq!(
        order_go_to(&mut order, Some(SimId(2)), tile(0, 1, 1), 3),
        None
    );
    assert_eq!(order.next_task_id, 2);
}

#[test]
fn a_move_order_takes_the_next_id() {
    let mut order = OrderState {
        next_task_id: 8,
        ..OrderState::default()
    };
    assert_eq!(order_go_to(&mut order, None, tile(0, 1, 1), 3), None);
    assert_eq!(
        order_go_to(&mut order, Some(SimId(1)), tile(0, 4, 1), 3),
        Some(PlayerCommand::QueueGoTo {
            task: PlayerTaskId(8),
            resident: SimId(1),
            destination: tile(0, 4, 1),
            priority: 100,
        })
    );
    assert_eq!(order.next_task_id, 9);
    assert_eq!(
        order.pending,
        Some(PendingOrder {
            task: PlayerTaskId(8),
            action: PendingAction::Order,
            receipt_start: 3,
        })
    );
}

#[test]
fn a_cancellation_is_worded_by_the_state_it_was_asked_in() {
    let cases = [
        (CancellationOutcome::Queued, "Removing queued order #5..."),
        (CancellationOutcome::Active, "Cancelling active order #5..."),
        (CancellationOutcome::Paused, "Removing paused order #5..."),
    ];
    for (outcome, wording) in cases {
        let mut order = OrderState::default();
        assert_eq!(order_cancellation(&mut order, None, 4), None);
        let binding = CancelBinding {
            task: PlayerTaskId(5),
            outcome,
        };
        assert_eq!(
            order_cancellation(&mut order, Some(binding), 4),
            Some(PlayerCommand::CancelPlayerTask {
                task: PlayerTaskId(5)
            })
        );
        assert_eq!(order_feedback_text(&order), wording);
        assert_eq!(
            order.cancellation_outcomes.get(&PlayerTaskId(5)),
            Some(&outcome)
        );
        assert_eq!(order_cancellation(&mut order, Some(binding), 4), None);
    }
}

#[test]
fn cancel_slots_are_bound_head_first_while_nothing_is_pending() {
    let mut simulation = load_simulation();
    for task in 1..=6 {
        simulation.submit_player_command(go_to(task, 1, tile(0, 9, 9)));
    }
    simulation.advance_tick();
    let snapshot = simulation.cottage_snapshot();
    let bindings = cancel_bindings(None, Some(SimId(1)), &snapshot);
    assert_eq!(bindings.len(), 4);
    assert_eq!(
        bindings[0],
        Some(CancelBinding {
            task: PlayerTaskId(1),
            outcome: CancellationOutcome::Active,
        })
    );
    assert_eq!(cancel_slot_label(bindings[0]), "Cancel #1 active");
    assert_eq!(cancel_slot_label(bindings[3]), "Cancel #4 queued");
    assert_eq!(cancel_slot_label(None), "Cancel task");
    let pending = Some(PendingOrder {
        task: PlayerTaskId(9),
        action: PendingAction::Order,
        receipt_start: 0,
    });
    assert_eq!(
        cancel_bindings(pending, Some(SimId(1)), &snapshot),
        vec![None; 4]
    );
    assert_eq!(
        cancel_bindings(None, Some(SimId(2)), &snapshot),
        vec![None; 4]
    );
    assert_eq!(pressed_binding(&bindings, &vec![7, 2, 0]), bindings[2]);
    assert_eq!(pressed_binding(&bindings, &Vec::new()), None);
}

#[test]
fn every_refusal_reads_differently() {
    let reasons = [
        (PlayerCommandRejection::DuplicateTask, "duplicate task"),
        (PlayerCommandRejection::InvalidMoveTarget, "unreachable tile"),
        (PlayerCommandRejection::InvalidUseTarget, "invalid fixture"),
        (PlayerCommandRejection::ResidentBusy, "resident busy"),
        (PlayerCommandRejection::UnknownResident, "unknown resident"),
        (PlayerCommandRejection::UnknownTask, "unknown task"),
        (
            PlayerCommandRejection::TaskNotCancellable,
            "task cannot be cancelled",
        ),
    ];
    for (reason, wording) in reasons {
        assert_eq!(rejection_label(reason), wording);
    }
    assert_eq!(pending_action_label(PendingAction::Order), "Order");
}

#[test]
fn the_feed_keeps_the_last_four_entries() {
    let simulation = load_simulation();
    let snapshot = simulation.cottage_snapshot();
    let mut feed = SemanticEventFeed::default();
    let mut outcomes: OrdMap<PlayerTaskId, CancellationOutcome> = OrdMap::new();
    let mut events = Vec::new();
    for tick in 0..3 {
        events.push(WorldEvent {
            tick,
            kind: WorldEventKind::QuizArrived { resident: SimId(1) },
        });
        events.push(WorldEvent {
            tick,
            kind: WorldEventKind::TickCompleted { keyed_marker: 0 },
        });
        events.push(WorldEvent {
            tick,
            kind: WorldEventKind::ObjectUseStarted {
                resident: SimId(2),
                object: DefinitionId::new("object.cottage_toilet"),
                affordance: DefinitionId::new("affordance.use_toilet"),
            },
        });
    }
    consume_semantic_events(&mut feed, &events, &snapshot, &mut outcomes);
    assert_eq!(feed.consumed_events, 9);
    assert_eq!(
        feed_text(&feed),
        "Rowan Bell arrived at the King's Head for the quiz.\n\
         Mara Bell started using the toilet.\n\
         Rowan Bell arrived at the King's Head for the quiz.\n\
         Mara Bell started using the toilet."
    );
    consume_semantic_events(&mut feed, &events, &snapshot, &mut outcomes);
    assert_eq!(feed.entries.len(), 4);
}

#[test]
fn an_unwitnessed_seat_and_an_unasked_cancellation_are_told_as_such() {
    let snapshot = load_simulation().cottage_snapshot();
    let mut outcomes: OrdMap<PlayerTaskId, CancellationOutcome> = OrdMap::new();
    assert_eq!(
        semantic_event_label(
            &WorldEventKind::PargeterSeatTaken {
                participant: SimId(2),
                witnessed_by: Vec::new(),
            },
            &snapshot,
            &mut outcomes,
        ),
        Some(
            "Mara Bell took Mr Pargeter's corner seat. No one seems to have noticed. \
             The household now know it is his."
                .to_owned()
        )
    );
    assert_eq!(
        semantic_event_label(
            &WorldEventKind::TaskCancelled {
                task: PlayerTaskId(1),
                resident: SimId(1),
                object: DefinitionId::new("o"),
                affordance: DefinitionId::new("a"),
            },
            &snapshot,
            &mut outcomes,
        ),
        None
    );
    assert_eq!(
        semantic_event_label(
            &WorldEventKind::ObjectUseCompleted {
                resident: SimId(1),
                object: DefinitionId::new("o"),
                affordance: DefinitionId::new("a"),
            },
            &snapshot,
            &mut outcomes,
        ),
        Some("Rowan Bell finished using the toilet.".to_owned())
    );
}

#[test]
fn the_card_tells_what_the_household_learned() {
    let mut snapshot = load_simulation().cottage_snapshot();
    snapshot.household_knows_pargeter_custom = true;
    snapshot.residents[0].toilet_need = None;
    snapshot.residents[0].recent_perception = Some(ClientPerception::TookPargeterSeat);
    snapshot.residents[0].attending_quiz = true;
    assert_eq!(
        selected_status_text(Some(SimId(1)), &snapshot),
        "Rowan Bell\nToilet need: not applicable\nIntention: None\nCurrent tasks:\n- None\n\
         Perception: sat in the corner seat\nTonight: the pub quiz\n\n\
         The household learned: the corner seat is Mr Pargeter's \
         (he got the news about the pig there)."
    );
}

#[test]
fn camera_buttons_follow_and_explore() {
    let camera = CottageCamera::default();
    assert_eq!(camera.zoom, 1);
    let following = camera.pressed(CameraControl::Follow);
    assert!(following.follow_selected);
    assert_eq!(following.pressed(CameraControl::Follow), camera);
    let upstairs = following.pressed(CameraControl::Floor(1));
    assert_eq!(upstairs.focused_floor, 1);
    assert!(!upstairs.follow_selected);
    assert!(!following.dragged().follow_selected);
    assert_eq!(camera.scrolled(true).zoom, 2);
    assert_eq!(camera.scrolled(false).zoom, 1);
    assert_eq!(follow_label(true), "Follow selected: on");
    assert_eq!(follow_label(false), "Follow selected: off");
    let snapshot = load_simulation().cottage_snapshot();
    assert_eq!(upstairs.followed(Some(SimId(1)), &snapshot), None);
    assert_eq!(following.followed(None, &snapshot), None);
    assert_eq!(following.followed(Some(SimId(8)), &snapshot), None);
    let mut wandering = following;
    wandering.focused_floor = 1;
    assert_eq!(
        wandering.followed(Some(SimId(1)), &snapshot),
        Some(following)
    );
}

#[test]
fn interface_sounds_vary() {
    let mut variation = UiAudioVariation(7);
    assert_eq!(variation.click_sound(), "client/audio/tap-a.ogg");
    assert_eq!(variation.next_step(), 6_962_605);
    assert_eq!(variation.0, 7_655_465_419_508_447_804);
    assert_eq!(variation.click_sound(), "client/audio/click-a.ogg");
}

#[test]
fn only_clothing_rows_are_kept() {
    assert_eq!(clothing_rows(12), (4, 5));
    assert_eq!(clothing_rows(384), (128, 160));
    let mut data = vec![9u8; 2 * 12 * 4 + 3];
    blank_outside_clothing(&mut data, 2, 12);
    for (i, byte) in data.iter().enumerate() {
        let kept = (32..40).contains(&i) || i >= 96;
        assert_eq!(*byte, if kept { 9 } else { 0 });
    }
}
