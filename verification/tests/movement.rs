use gravitron_ecs::storage::Row;
use gravitron_ecs::systems::Access;
use gravitron_ecs::systems::Param;
use gravitron_ecs::systems::System;
use gravitron_ecs::systems::SystemContext;
use gravitron_ecs::systems::SystemDecl;
use gravitron_ecs::ECS;

const POS: u64 = 0;
const VEL: u64 = 1;

#[derive(Clone, Copy, Debug, PartialEq, Eq)]
enum Comp {
    Position { value: u64 },
    Velocity { value: u64 },
}

struct Movement;

impl System<Comp, ()> for Movement {
    fn run(&mut self, ctx: &mut SystemContext<Comp, ()>) {
        for row in ctx.queries[0].iter_mut() {
            let v = match row.comps[1] {
                Comp::Velocity { value } => value,
                _ => 0,
            };
            if let Comp::Position { value } = row.comps[0] {
                row.comps[0] = Comp::Position { value: value + v };
            }
        }
    }
}

#[test]
fn movement_scenario() {
    let mut ecs: ECS<Comp, (), Movement> = ECS::new();

    let decl = SystemDecl {
        params: vec![Param::Query(vec![Access::Exclusive(POS), Access::Shared(VEL)])],
    };
    ecs.add_system(decl, Movement).unwrap();

    let mut ids: Vec<u64> = Vec::new();
    for i in 0..10 {
        let id = ecs.create_entity(vec![
            (POS, Comp::Position { value: i }),
            (VEL, Comp::Velocity { value: 1 }),
        ]);
        ids.push(id);
    }

    for _ in 0..10 {
        ecs.run();
    }

    let rows: Vec<Row<Comp>> = ecs.world.storage.get_entities(&vec![POS]);
    assert_eq!(rows.len(), 10);
    for (i, row) in rows.iter().enumerate() {
        assert_eq!(row.entity, ids[i]);
        assert_eq!(row.comps[0], Comp::Position { value: i as u64 + 10 });
    }
}
