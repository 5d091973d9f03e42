use village_sim::camera::bounded_zoom;
use village_sim::camera::followed_floor;
use village_sim::camera::CottageCamera;
use village_sim::card::format_clock;
use village_sim::card::furniture_atlas_index;
use village_sim::card::resident_status_text;
use village_sim::card::selected_status_text;
use village_sim::feed::consume_semantic_events;
use village_sim::feed::SemanticEventFeed;
use village_sim::ord_map::OrdMap;
use village_sim::orders::cancellable_tasks;
use village_sim::orders::consume_order_receipt;
use village_sim::orders::deferred_receipt;
use village_sim::orders::CancelBinding;
use village_sim::orders::CancellationOutcome;
use village_sim::orders::OrderState;
use village_sim::orders::PendingAction;
use village_sim::orders::PendingOrder;
use village_sim::presentation::UiAudioVariation;
use village_sim::presentation::PITCH_STEPS;
use village_sim::{
    Capability, ClientIntention, ClientPerception, ClientPlayerTaskSnapshot,
    ClientPlayerTaskState, ClientResidentSnapshot, ConductAsset, ConductMethodDefinition,
    CottageSnapshot, DefinitionId, FloorDefinition, MapAsset, NeedDefinition, NeedKind,
    ObjectAffordanceDefinition, ObjectSlotDefinition, ObjectsAsset, PeopleAsset,
    PersonDefinition, PlanAsset, PlayerCommand, PlayerCommandRejection, PlayerTaskId,
    PortalDefinition, ResidentPlacement, ScenarioContent, ScenarioDefinition, SimId, Simulation,
    SmartObjectDefinition, TilePosition, TimeOfDay, WorldEvent, WorldEventKind,
};

fn tile(floor: u8, x: i32, y: i32) -> TilePosition {
    TilePosition { floor, x, y }
}

fn newcomer(id: &str, display_name: &str) -> PersonDefinition {
    PersonDefinition {
        id: DefinitionId::new(id),
        display_name: display_name.to_owned(),
        needs: vec![NeedDefinition {
            kind: NeedKind::Toilet,
            initial: 0,
            decay_per_tick: 1,
            activate_at: 50,
            retain_above: 20,
            recovery: 100,
            urgent_at: Some(80),
        }],
        conducts: vec![DefinitionId::new("conduct.human")],
    }
}

fn cottage_arrival() -> ScenarioContent {
    ScenarioContent {
        scenario: ScenarioDefinition {
            id: DefinitionId::new("scenario.cottage_arrival"),
            seed: 4_243,
            people: vec![
                DefinitionId::new("person.newcomer_a"),
                DefinitionId::new("person.newcomer_b"),
            ],
            map: DefinitionId::new("map.cottage"),
            objects: vec![DefinitionId::new("object.cottage_toilet")],
            placements: vec![
                ResidentPlacement {
                    person: DefinitionId::new("person.newcomer_a"),
                    position: tile(0, 1, 1),
                },
                ResidentPlacement {
                    person: DefinitionId::new("person.newcomer_b"),
                    position: tile(0, 2, 2),
                },
            ],
            start_time_of_day: TimeOfDay {
                hour: 16,
                minute: 0,
            },
        },
        people: PeopleAsset {
            people: vec![
                newcomer("person.newcomer_a", "Rowan Bell"),
                newcomer("person.newcomer_b", "Mara Bell"),
            ],
        },
        map: MapAsset {
            id: DefinitionId::new("map.cottage"),
            floors: vec![
                FloorDefinition {
                    floor: 0,
                    width: 12,
                    height: 12,
                    blocked: Vec::new(),
                },
                FloorDefinition {
                    floor: 1,
                    width: 12,
                    height: 12,
                    blocked: Vec::new(),
                },
            ],
            portals: vec![PortalDefinition {
                id: DefinitionId::new("portal.stairs"),
                from: tile(0, 5, 5),
                to: tile(1, 5, 5),
                traversal_ticks: 1,
            }],
        },
        objects: ObjectsAsset {
            objects: vec![SmartObjectDefinition {
                id: DefinitionId::new("object.cottage_toilet"),
                object_type: DefinitionId::new("object_type.toilet"),
                position: tile(0, 3, 1),
                slots: vec![ObjectSlotDefinition {
                    id: DefinitionId::new("slot.use"),
                }],
                affordances: vec![ObjectAffordanceDefinition {
                    id: DefinitionId::new("affordance.use_toilet"),
                    slot: DefinitionId::new("slot.use"),
                    capability: Capability::Hands,
                    duration_ticks: 1,
                }],
            }],
        },
        conducts: vec![ConductAsset {
            id: DefinitionId::new("conduct.human"),
            methods: vec![ConductMethodDefinition {
                slot: DefinitionId::new("conduct.use_toilet"),
                plan: DefinitionId::new("plan.toilet_need"),
                priority: 10,
            }],
        }],
        plans: vec![PlanAsset {
            id: DefinitionId::new("plan.toilet_need"),
            object: DefinitionId::new("object.cottage_toilet"),
            affordance: DefinitionId::new("affordance.use_toilet"),
            priority: 5,
        }],
    }
}

fn load_simulation() -> Simulation {
    Simulation::from_content(cottage_arrival()).expect("fixture resolves")
}

#[test]
fn furniture_index_distinguishes_the_bar_from_the_toilet() {
    assert_eq!(
        furniture_atlas_index(&DefinitionId::new("object_type.bar")),
        108
    );
    assert_eq!(
        furniture_atlas_index(&DefinitionId::new("object_type.toilet")),
        144
    );
}

#[test]
fn clock_formats_as_zero_padded_hours_and_minutes() {
    assert_eq!(
        format_clock(TimeOfDay {
            hour: 16,
            minute: 5
        }),
        "16:05"
    );
    assert_eq!(format_clock(TimeOfDay { hour: 9, minute: 0 }), "09:00");
}

#[test]
fn semantic_feed_narrates_the_pargeter_seat_moment() {
    let snapshot = CottageSnapshot {
        tick: 60,
        time_of_day: TimeOfDay {
            hour: 17,
            minute: 0,
        },
        household_knows_pargeter_custom: true,
        floors: Vec::new(),
        objects: Vec::new(),
        residents: vec![
            ClientResidentSnapshot {
                id: SimId(1),
                definition_id: DefinitionId::new("person.newcomer_a"),
                display_name: "Rowan Bell".to_owned(),
                position: TilePosition {
                    floor: 0,
                    x: 22,
                    y: 20,
                },
                toilet_need: Some(0),
                autonomous_intention: None,
                player_tasks: Vec::new(),
                recent_perception: Some(ClientPerception::TookPargeterSeat),
                attending_quiz: false,
            },
            ClientResidentSnapshot {
                id: SimId(2),
                definition_id: DefinitionId::new("person.newcomer_b"),
                display_name: "Mara Bell".to_owned(),
                position: TilePosition {
                    floor: 0,
                    x: 25,
                    y: 18,
                },
                toilet_need: None,
                autonomous_intention: None,
                player_tasks: Vec::new(),
                recent_perception: Some(ClientPerception::WitnessedPargeterSeat),
                attending_quiz: false,
            },
        ],
    };
    let events = [WorldEvent {
        tick: 60,
        kind: WorldEventKind::PargeterSeatTaken {
            participant: SimId(1),
            witnessed_by: vec![SimId(2)],
        },
    }];
    let mut feed = SemanticEventFeed::default();
    let mut outcomes: OrdMap<PlayerTaskId, CancellationOutcome> = OrdMap::new();

    consume_semantic_events(&mut feed, &events, &snapshot, &mut outcomes);

    assert_eq!(
        feed.entries,
        [
            "Rowan Bell took Mr Pargeter's corner seat. Mara Bell tuts. The household now know it is his."
        ]
    );
}

#[test]
fn semantic_feed_announces_quiz_arrival() {
    let snapshot = CottageSnapshot {
        tick: 200,
        time_of_day: TimeOfDay {
            hour: 19,
            minute: 20,
        },
        household_knows_pargeter_custom: false,
        floors: Vec::new(),
        objects: Vec::new(),
        residents: vec![ClientResidentSnapshot {
            id: SimId(2),
            definition_id: DefinitionId::new("person.newcomer_b"),
            display_name: "Mara Bell".to_owned(),
            position: TilePosition {
                floor: 0,
                x: 25,
                y: 18,
            },
            toilet_need: None,
            autonomous_intention: None,
            player_tasks: Vec::new(),
            recent_perception: None,
            attending_quiz: false,
        }],
    };
    let events = [WorldEvent {
        tick: 200,
        kind: WorldEventKind::QuizArrived { resident: SimId(2) },
    }];
    let mut feed = SemanticEventFeed::default();
    let mut outcomes: OrdMap<PlayerTaskId, CancellationOutcome> = OrdMap::new();

    consume_semantic_events(&mut feed, &events, &snapshot, &mut outcomes);

    assert_eq!(
        feed.entries,
        ["Mara Bell arrived at the King's Head for the quiz."]
    );
}

#[test]
fn semantic_feed_announces_a_neighbour_invitation() {
    let snapshot = CottageSnapshot {
        tick: 30,
        time_of_day: TimeOfDay {
            hour: 16,
            minute: 30,
        },
        household_knows_pargeter_custom: false,
        floors: Vec::new(),
        objects: Vec::new(),
        residents: Vec::new(),
    };
    let events = [WorldEvent {
        tick: 30,
        kind: WorldEventKind::NeighbourInvitation {
            host: DefinitionId::new("person.neighbour"),
            event_at: TimeOfDay {
                hour: 19,
                minute: 0,
            },
        },
    }];
    let mut feed = SemanticEventFeed::default();
    let mut outcomes: OrdMap<PlayerTaskId, CancellationOutcome> = OrdMap::new();

    consume_semantic_events(&mut feed, &events, &snapshot, &mut outcomes);

    assert_eq!(
        feed.entries,
        ["A neighbour invited the household to the 19:00 quiz."]
    );
}

#[test]
fn resident_card_uses_only_projected_authoritative_status() {
    let resident = ClientResidentSnapshot {
        id: SimId(1),
        definition_id: DefinitionId::new("person.newcomer_a"),
        display_name: "Rowan Bell".to_owned(),
        position: TilePosition {
            floor: 0,
            x: 2,
            y: 3,
        },
        toilet_need: Some(50),
        autonomous_intention: Some(ClientIntention::Toilet),
        player_tasks: vec![
            ClientPlayerTaskSnapshot {
                id: PlayerTaskId(7),
                state: ClientPlayerTaskState::Active,
            },
            ClientPlayerTaskSnapshot {
                id: PlayerTaskId(8),
                state: ClientPlayerTaskState::Queued,
            },
            ClientPlayerTaskSnapshot {
                id: PlayerTaskId(9),
                state: ClientPlayerTaskState::Paused,
            },
        ],
        recent_perception: None,
        attending_quiz: false,
    };

    assert_eq!(
        resident_status_text(&resident),
        "Rowan Bell\nToilet need: 50\nIntention: Use toilet\nCurrent tasks:\n- #7 active\n- #8 queued\n- #9 paused"
    );
}

#[test]
fn resident_card_has_a_clear_no_selection_state() {
    let snapshot = CottageSnapshot {
        tick: 0,
        time_of_day: TimeOfDay { hour: 0, minute: 0 },
        household_knows_pargeter_custom: false,
        floors: Vec::new(),
        objects: Vec::new(),
        residents: Vec::new(),
    };

    assert_eq!(
        selected_status_text(None, &snapshot),
        "Select a newcomer to inspect them."
    );
}

#[test]
fn camera_zoom_is_bounded_to_integral_pixel_scales() {
    assert_eq!(bounded_zoom(1, false), 1);
    assert_eq!(bounded_zoom(4, true), 4);
    assert_eq!(bounded_zoom(2, true), 3);
}

#[test]
fn follow_uses_authoritative_destination_floor() {
    assert_eq!(followed_floor(0), 0);
    assert_eq!(followed_floor(1), 1);
}

#[test]
fn pending_order_consumes_only_its_own_deferred_receipt() {
    let task = PlayerTaskId(12);
    let events = [
        WorldEvent {
            tick: 4,
            kind: WorldEventKind::PlayerCommandAccepted {
                task: PlayerTaskId(11),
            },
        },
        WorldEvent {
            tick: 4,
            kind: WorldEventKind::PlayerCommandAccepted { task },
        },
    ];

    assert_eq!(
        deferred_receipt(
            PendingOrder {
                task,
                action: PendingAction::Order,
                receipt_start: 0,
            },
            &events
        ),
        Some("Order #12 accepted.".to_owned())
    );
}

#[test]
fn cancellation_receipt_is_named_as_a_cancellation() {
    let task = PlayerTaskId(27);
    let events = [WorldEvent {
        tick: 8,
        kind: WorldEventKind::PlayerCommandAccepted { task },
    }];

    assert_eq!(
        deferred_receipt(
            PendingOrder {
                task,
                action: PendingAction::Cancellation(CancellationOutcome::Queued),
                receipt_start: 0,
            },
            &events,
        ),
        Some("Cancellation #27 accepted.".to_owned())
    );
}

#[test]
fn cancellation_receipt_ignores_the_orders_earlier_receipt() {
    let task = PlayerTaskId(271);
    let events = [
        WorldEvent {
            tick: 8,
            kind: WorldEventKind::PlayerCommandAccepted { task },
        },
        WorldEvent {
            tick: 9,
            kind: WorldEventKind::PlayerCommandAccepted { task },
        },
    ];

    assert_eq!(
        deferred_receipt(
            PendingOrder {
                task,
                action: PendingAction::Cancellation(CancellationOutcome::Active),
                receipt_start: 1,
            },
            &events,
        ),
        Some("Cancellation #271 accepted.".to_owned())
    );
}

#[test]
fn semantic_event_feed_consumes_wait_and_active_cancellation_once() {
    let task = PlayerTaskId(28);
    let snapshot = CottageSnapshot {
        tick: 8,
        time_of_day: TimeOfDay {
            hour: 20,
            minute: 15,
        },
        household_knows_pargeter_custom: false,
        floors: Vec::new(),
        objects: Vec::new(),
        residents: Vec::new(),
    };
    let events = [
        WorldEvent {
            tick: 8,
            kind: WorldEventKind::ObjectUseWaited {
                resident: SimId(1),
                object: DefinitionId::new("object.cottage_toilet"),
                affordance: DefinitionId::new("affordance.use_toilet"),
                blocked_by: SimId(2),
            },
        },
        WorldEvent {
            tick: 8,
            kind: WorldEventKind::TaskCancelled {
                task,
                resident: SimId(2),
                object: DefinitionId::new("object.cottage_toilet"),
                affordance: DefinitionId::new("affordance.use_toilet"),
            },
        },
    ];
    let mut feed = SemanticEventFeed::default();
    let mut outcomes = OrdMap::new();
    outcomes.insert(task, CancellationOutcome::Active);

    consume_semantic_events(&mut feed, &events, &snapshot, &mut outcomes);
    consume_semantic_events(&mut feed, &events, &snapshot, &mut outcomes);

    assert_eq!(feed.entries.len(), 2);
    assert_eq!(feed.entries[0], "A newcomer is waiting for the toilet.");
    assert_eq!(
        feed.entries[1],
        "Order #28 for A newcomer cancelled; toilet released."
    );
    assert!(outcomes.is_empty());
}

#[test]
fn semantic_event_feed_labels_a_queued_cancellation_as_removed_from_queue() {
    let task = PlayerTaskId(30);
    let snapshot = CottageSnapshot {
        tick: 8,
        time_of_day: TimeOfDay {
            hour: 20,
            minute: 15,
        },
        household_knows_pargeter_custom: false,
        floors: Vec::new(),
        objects: Vec::new(),
        residents: Vec::new(),
    };
    let events = [WorldEvent {
        tick: 8,
        kind: WorldEventKind::TaskCancelled {
            task,
            resident: SimId(2),
            object: DefinitionId::new("object.cottage_toilet"),
            affordance: DefinitionId::new("affordance.use_toilet"),
        },
    }];
    let mut feed = SemanticEventFeed::default();
    let mut outcomes = OrdMap::new();
    outcomes.insert(task, CancellationOutcome::Queued);

    consume_semantic_events(&mut feed, &events, &snapshot, &mut outcomes);

    assert_eq!(
        feed.entries,
        ["Order #30 for A newcomer cancelled; removed from queue."],
    );
    assert!(outcomes.is_empty());
}

#[test]
fn cancellable_tasks_project_the_whole_queue_head_first() {
    let snapshot = CottageSnapshot {
        tick: 0,
        time_of_day: TimeOfDay { hour: 0, minute: 0 },
        household_knows_pargeter_custom: false,
        floors: Vec::new(),
        objects: Vec::new(),
        residents: vec![ClientResidentSnapshot {
            id: SimId(3),
            definition_id: DefinitionId::new("person.newcomer_a"),
            display_name: "Rowan Bell".to_owned(),
            position: TilePosition {
                floor: 0,
                x: 0,
                y: 0,
            },
            toilet_need: Some(50),
            autonomous_intention: None,
            player_tasks: vec![
                ClientPlayerTaskSnapshot {
                    id: PlayerTaskId(29),
                    state: ClientPlayerTaskState::Active,
                },
                ClientPlayerTaskSnapshot {
                    id: PlayerTaskId(31),
                    state: ClientPlayerTaskState::Paused,
                },
            ],
            recent_perception: None,
            attending_quiz: false,
        }],
    };

    assert_eq!(
        cancellable_tasks(Some(SimId(3)), &snapshot),
        vec![
            CancelBinding {
                task: PlayerTaskId(29),
                outcome: CancellationOutcome::Active,
            },
            CancelBinding {
                task: PlayerTaskId(31),
                outcome: CancellationOutcome::Paused,
            },
        ]
    );
    assert!(cancellable_tasks(Some(SimId(4)), &snapshot).is_empty());
    assert!(cancellable_tasks(None, &snapshot).is_empty());
}

#[test]
fn deferred_rejection_has_a_player_readable_reason() {
    let task = PlayerTaskId(19);
    let events = [WorldEvent {
        tick: 5,
        kind: WorldEventKind::PlayerCommandRejected {
            task,
            reason: PlayerCommandRejection::ResidentBusy,
        },
    }];

    assert_eq!(
        deferred_receipt(
            PendingOrder {
                task,
                action: PendingAction::Order,
                receipt_start: 0,
            },
            &events
        ),
        Some("Order #19 rejected: resident busy.".to_owned())
    );
}

#[test]
fn order_feedback_uses_the_receipt_published_on_its_next_client_advance() {
    let mut simulation = load_simulation();
    let resident = simulation.cottage_snapshot().residents[0].id;
    let task = PlayerTaskId(44);
    let mut order = OrderState {
        next_task_id: 45,
        pending: Some(PendingOrder {
            task,
            action: PendingAction::Order,
            receipt_start: 0,
        }),
        receipt: None,
        ..OrderState::default()
    };

    simulation.submit_player_command(PlayerCommand::QueueUseToilet {
        task,
        resident,
        object: DefinitionId::new("object.cottage_toilet"),
        affordance: DefinitionId::new("affordance.use_toilet"),
        priority: 100,
    });

    // The receipt is not published until the client performs its next
    // simulation advance.
    consume_order_receipt(&mut order, simulation.event_ledger());
    assert!(order.receipt.is_none());
    assert!(order.pending.is_some());

    simulation.advance_tick();
    consume_order_receipt(&mut order, simulation.event_ledger());

    assert_eq!(order.receipt, Some("Order #44 accepted.".to_owned()));
    assert!(order.pending.is_none());
}

#[test]
fn focused_floor_visibility_updates_when_authoritative_floor_changes() {
    let camera = CottageCamera {
        follow_selected: false,
        focused_floor: 1,
        zoom: 2,
    };

    assert!(!camera.shows_floor(0));
    assert!(camera.shows_floor(1));
}

#[test]
fn selected_marker_stays_hidden_when_its_floor_is_not_focused() {
    let camera = CottageCamera {
        follow_selected: false,
        focused_floor: 0,
        zoom: 2,
    };

    assert!(!camera.shows_marker(Some(1)));
    assert!(!camera.shows_marker(None));
}

#[test]
fn selected_marker_uses_authoritative_floor_during_stair_transition() {
    // This is the focus a following camera adopts as soon as the current
    // snapshot reports the resident through the stair portal.
    let mut camera = CottageCamera {
        follow_selected: true,
        focused_floor: 1,
        zoom: 2,
    };
    assert!(camera.shows_marker(Some(1)));

    // Manually returning focus to the ground floor must hide the same
    // upper-storey marker, rather than leaving a stale visual behind.
    camera.focused_floor = 0;
    assert!(!camera.shows_marker(Some(1)));
}

#[test]
fn ui_pitch_variation_is_bounded_and_client_local() {
    let mut variation = UiAudioVariation(7);
    for _ in 0..32 {
        let step = variation.next_step();
        assert!(step < PITCH_STEPS);
        let pitch = 0.94 + step as f32 / (PITCH_STEPS as f32 - 1.0) * 0.12;
        assert!((0.94..=1.06).contains(&pitch));
    }
}
