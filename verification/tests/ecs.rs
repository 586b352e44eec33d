use gravitron_ecs::commands::Commands;
use gravitron_ecs::storage::Row;
use gravitron_ecs::systems::Access;
use gravitron_ecs::systems::Param;
use gravitron_ecs::systems::System;
use gravitron_ecs::systems::SystemContext;
use gravitron_ecs::systems::SystemDecl;
use gravitron_ecs::systems::ValidationError;
use gravitron_ecs::scheduler::Scheduler;
use gravitron_ecs::scheduler::SchedulerBuilder;
use gravitron_ecs::world::World;
use gravitron_ecs::ECS;

const KA: u64 = 0;
const KB: u64 = 1;

const RID_I32: u64 = 0;

#[derive(Clone, Copy, Debug, PartialEq, Eq)]
enum Comp {
    A { x: u64 },
    B { y: u64 },
}

struct FullSystem;

impl System<Comp, i32> for FullSystem {
    fn run(&mut self, ctx: &mut SystemContext<Comp, i32>) {
        for rows in ctx.queries.iter_mut() {
            for row in rows.iter_mut() {
                let y = match row.comps[1] {
                    Comp::B { y } => y,
                    _ => 0,
                };
                if let Comp::A { x } = row.comps[0] {
                    row.comps[0] = Comp::A { x: x + y };
                }
            }
        }
        ctx.commands.create_entity(vec![(KB, Comp::B { y: 1 })]);
    }
}

struct NoopSystem;

impl System<Comp, i32> for NoopSystem {
    fn run(&mut self, _ctx: &mut SystemContext<Comp, i32>) {}
}

fn query(accs: Vec<Access>) -> Param {
    Param::Query(accs)
}

#[test]
fn full() {
    let mut ecs: ECS<Comp, i32, FullSystem> = ECS::new();

    let decl = SystemDecl {
        params: vec![
            query(vec![Access::Exclusive(KA), Access::Shared(KB)]),
            Param::Commands,
        ],
    };
    ecs.add_system(decl, FullSystem).unwrap();

    for i in 0..10 {
        ecs.create_entity(vec![(KA, Comp::A { x: i })]);
    }

    for _ in 0..10 {
        ecs.run();
    }
}

#[test]
#[should_panic]
fn wrong_query() {
    let mut ecs: ECS<Comp, i32, NoopSystem> = ECS::new();

    let decl = SystemDecl {
        params: vec![query(vec![
            Access::Exclusive(KA),
            Access::Exclusive(KA),
            Access::Shared(KB),
        ])],
    };
    ecs.add_system(decl, NoopSystem).unwrap();
}

#[test]
#[should_panic]
fn wrong_res() {
    let mut ecs: ECS<Comp, i32, NoopSystem> = ECS::new();

    let decl = SystemDecl {
        params: vec![Param::Res(RID_I32), Param::ResMut(RID_I32)],
    };
    ecs.add_system(decl, NoopSystem).unwrap();
}

#[test]
#[should_panic]
fn wrong_cmds() {
    let mut ecs: ECS<Comp, i32, NoopSystem> = ECS::new();

    let decl = SystemDecl {
        params: vec![Param::Commands, Param::Commands],
    };
    ecs.add_system(decl, NoopSystem).unwrap();
}

#[test]
fn resource() {
    let mut world: World<Comp, i32> = World::new();

    world.add_resource(RID_I32, 0i32);

    let res = world.get_resource(RID_I32).unwrap();
    assert_eq!(*res, 0);
}

#[test]
fn resource_mut() {
    let mut world: World<Comp, i32> = World::new();

    world.add_resource(RID_I32, 0i32);

    let res = world.get_resource_mut(RID_I32).unwrap();
    *res = 1;
    assert_eq!(*res, 1);
}

#[test]
#[should_panic]
fn panic_resource() {
    let world: World<Comp, i32> = World::new();

    let _ = world.get_resource(RID_I32).unwrap();
}

#[test]
fn resource_first_registration_wins() {
    let mut world: World<Comp, i32> = World::new();

    world.add_resource(RID_I32, 5);
    world.add_resource(RID_I32, 7);

    assert_eq!(*world.get_resource(RID_I32).unwrap(), 5);
}

#[test]
fn alias_rejection_all_combinations() {
    // Within one query: any repeat of a kind that includes an exclusive
    // request is rejected; a repeat of shared requests is accepted.
    let cases: Vec<(Access, Access, bool)> = vec![
        (Access::Exclusive(KA), Access::Exclusive(KA), false),
        (Access::Exclusive(KA), Access::Shared(KA), false),
        (Access::Shared(KA), Access::Exclusive(KA), false),
        (Access::Shared(KA), Access::Shared(KA), true),
    ];
    for (first, second, ok) in cases {
        let mut ecs: ECS<Comp, i32, NoopSystem> = ECS::new();
        let decl = SystemDecl {
            params: vec![query(vec![first, second])],
        };
        let r = ecs.add_system(decl, NoopSystem);
        assert_eq!(r.is_ok(), ok);
        if !ok {
            assert_eq!(r.unwrap_err(), ValidationError::ComponentConflict { kind: KA });
        }
    }
}

#[test]
fn cross_query_alias_rejection() {
    let mut ecs: ECS<Comp, i32, NoopSystem> = ECS::new();
    let decl = SystemDecl {
        params: vec![
            query(vec![Access::Exclusive(KA)]),
            query(vec![Access::Shared(KA)]),
        ],
    };
    let r = ecs.add_system(decl, NoopSystem);
    assert_eq!(r.unwrap_err(), ValidationError::ComponentConflict { kind: KA });

    let mut ecs2: ECS<Comp, i32, NoopSystem> = ECS::new();
    let decl2 = SystemDecl {
        params: vec![
            query(vec![Access::Shared(KA)]),
            query(vec![Access::Shared(KA), Access::Shared(KB)]),
        ],
    };
    assert!(ecs2.add_system(decl2, NoopSystem).is_ok());
}

#[test]
fn duplicate_commands_error_variant() {
    let mut ecs: ECS<Comp, i32, NoopSystem> = ECS::new();
    let decl = SystemDecl {
        params: vec![Param::Commands, query(vec![Access::Shared(KA)]), Param::Commands],
    };
    assert_eq!(
        ecs.add_system(decl, NoopSystem).unwrap_err(),
        ValidationError::DuplicateCommands
    );
}

#[test]
fn resource_conflict_error_variant() {
    // Registration must fail before any entity is created or any tick runs.
    let mut ecs: ECS<Comp, i32, NoopSystem> = ECS::new();
    let decl = SystemDecl {
        params: vec![Param::Res(RID_I32), Param::ResMut(RID_I32)],
    };
    assert_eq!(
        ecs.add_system(decl, NoopSystem).unwrap_err(),
        ValidationError::ResourceConflict { resource: RID_I32 }
    );
    assert_eq!(ecs.world.storage.archetypes.len(), 0);
    assert_eq!(ecs.scheduler.systems.len(), 0);
}

#[test]
fn archetype_superset_matches() {
    let mut world: World<Comp, i32> = World::new();
    world.create_entity(vec![(KA, Comp::A { x: 1 }), (KB, Comp::B { y: 2 })]);
    world.create_entity(vec![(KB, Comp::B { y: 3 })]);

    let rows: Vec<Row<Comp>> = world.storage.get_entities(&vec![KB]);
    assert_eq!(rows.len(), 2);
    assert_eq!(rows[0].comps, vec![Comp::B { y: 2 }]);
    assert_eq!(rows[1].comps, vec![Comp::B { y: 3 }]);

    let only_a: Vec<Row<Comp>> = world.storage.get_entities(&vec![KA]);
    assert_eq!(only_a.len(), 1);
    assert_eq!(only_a[0].comps, vec![Comp::A { x: 1 }]);
}

#[test]
fn empty_scan() {
    let mut world: World<Comp, i32> = World::new();
    world.create_entity(vec![(KA, Comp::A { x: 1 })]);
    let rows: Vec<Row<Comp>> = world.storage.get_entities(&vec![KB]);
    assert_eq!(rows.len(), 0);
}

#[test]
fn deterministic_scan_order() {
    let mut world: World<Comp, i32> = World::new();
    world.create_entity(vec![(KA, Comp::A { x: 0 })]);
    world.create_entity(vec![(KB, Comp::B { y: 1 })]);
    world.create_entity(vec![(KA, Comp::A { x: 2 }), (KB, Comp::B { y: 3 })]);
    world.create_entity(vec![(KA, Comp::A { x: 4 })]);

    let first: Vec<u64> = world
        .storage
        .get_entities(&vec![])
        .iter()
        .map(|r| r.entity)
        .collect();
    let second: Vec<u64> = world
        .storage
        .get_entities(&vec![])
        .iter()
        .map(|r| r.entity)
        .collect();
    assert_eq!(first, second);
    // Archetype-discovery order, then creation order within an archetype.
    assert_eq!(first, vec![0, 3, 1, 2]);
}

#[test]
fn commands_are_deferred_to_next_tick() {
    struct CountAndSpawn;

    impl System<Comp, u64> for CountAndSpawn {
        fn run(&mut self, ctx: &mut SystemContext<Comp, u64>) {
            let seen = ctx.queries[0].len() as u64;
            if let Some(entry) = ctx.resources.get_mut(0) {
                entry.1 = seen;
            }
            ctx.commands.create_entity(vec![(KB, Comp::B { y: 1 })]);
        }
    }

    const COUNT: u64 = 9;
    let mut ecs: ECS<Comp, u64, CountAndSpawn> = ECS::new();
    ecs.add_resource(COUNT, 1000);
    let decl = SystemDecl {
        params: vec![
            query(vec![Access::Shared(KB)]),
            Param::ResMut(COUNT),
            Param::Commands,
        ],
    };
    ecs.add_system(decl, CountAndSpawn).unwrap();

    // Tick one: the entity created via the commands handle is not visible to
    // the query evaluated during the same tick.
    ecs.run();
    assert_eq!(*ecs.world.get_resource(COUNT).unwrap(), 0);

    // Tick two: it is visible from the next tick on.
    ecs.run();
    assert_eq!(*ecs.world.get_resource(COUNT).unwrap(), 1);

    ecs.run();
    assert_eq!(*ecs.world.get_resource(COUNT).unwrap(), 2);
}

#[test]
fn command_bundle_keeps_first_value_per_kind() {
    struct SpawnDup;

    impl System<Comp, i32> for SpawnDup {
        fn run(&mut self, ctx: &mut SystemContext<Comp, i32>) {
            ctx.commands
                .create_entity(vec![(KB, Comp::B { y: 1 }), (KB, Comp::B { y: 9 })]);
        }
    }

    let mut ecs: ECS<Comp, i32, SpawnDup> = ECS::new();
    let decl = SystemDecl {
        params: vec![Param::Commands],
    };
    ecs.add_system(decl, SpawnDup).unwrap();
    ecs.run();

    let rows: Vec<Row<Comp>> = ecs.world.storage.get_entities(&vec![KB]);
    assert_eq!(rows.len(), 1);
    assert_eq!(rows[0].comps, vec![Comp::B { y: 1 }]);
}

#[test]
fn commands_queue_by_system_id() {
    let mut world: World<Comp, i32> = World::new();
    let q: &mut Commands<Comp> = world.get_commands_mut(2);
    q.create_entity(vec![(KA, Comp::A { x: 7 })]);
    assert_eq!(world.queues.len(), 3);

    world.execute_commands();
    assert_eq!(world.queues.len(), 3);
    assert_eq!(world.queues[2].pending.len(), 0);
    let rows: Vec<Row<Comp>> = world.storage.get_entities(&vec![KA]);
    assert_eq!(rows.len(), 1);
    assert_eq!(rows[0].comps, vec![Comp::A { x: 7 }]);
}


struct IncrementA;

impl System<Comp, i32> for IncrementA {
    fn run(&mut self, ctx: &mut SystemContext<Comp, i32>) {
        for row in ctx.queries[0].iter_mut() {
            if let Comp::A { x } = row.comps[0] {
                row.comps[0] = Comp::A { x: x + 1 };
            }
        }
    }
}

#[test]
fn scheduler_builder_runs_in_order() {
    let mut builder: SchedulerBuilder<IncrementA> = SchedulerBuilder::new();
    let decl = SystemDecl {
        params: vec![query(vec![Access::Exclusive(KA)])],
    };
    builder.add_system(decl, IncrementA).unwrap();
    let mut scheduler = builder.build();

    let mut world: World<Comp, i32> = World::new();
    world.create_entity(vec![(KA, Comp::A { x: 10 })]);

    scheduler.run(&mut world);
    scheduler.run(&mut world);

    let rows: Vec<Row<Comp>> = world.storage.get_entities(&vec![KA]);
    assert_eq!(rows[0].comps, vec![Comp::A { x: 12 }]);
}

#[test]
fn missing_declared_resource_detected() {
    let mut scheduler: Scheduler<NoopSystem> = Scheduler::new();
    let decl = SystemDecl {
        params: vec![Param::Res(RID_I32)],
    };
    scheduler.add_system(decl, NoopSystem).unwrap();

    let mut world: World<Comp, i32> = World::new();
    assert_eq!(scheduler.check_resources(&world), Err(RID_I32));

    world.add_resource(RID_I32, 3);
    assert_eq!(scheduler.check_resources(&world), Ok(()));
}
