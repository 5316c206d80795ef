use typstuml::layout::elk::alg::graph::{LGraphArena, LPortId};
use typstuml::layout::elk::alg::intermediate::{find_port_side_range, reverse_west_and_south_side};
use typstuml::layout::elk::alg::options::PortSide;

fn ports_with_sides(sides: &[PortSide]) -> (LGraphArena, Vec<LPortId>) {
    let mut arena = LGraphArena::default();
    let g = arena.new_graph();
    let n = arena.new_node(g);
    let mut ports = Vec::new();
    for &side in sides {
        let p = arena.new_port(n);
        arena.port_set_side(p, side);
        ports.push(p);
    }
    (arena, ports)
}

#[test]
fn west_range_stops_before_the_last_port() {
    let (arena, ports) = ports_with_sides(&[PortSide::East, PortSide::East, PortSide::West, PortSide::West, PortSide::West, PortSide::West]);
    assert_eq!(find_port_side_range(&arena, &ports, PortSide::South), (2, 2));
    assert_eq!(find_port_side_range(&arena, &ports, PortSide::West), (2, 5));
    let mut sorted = ports.clone();
    reverse_west_and_south_side(&arena, &mut sorted);
    assert_eq!(sorted, vec![ports[0], ports[1], ports[4], ports[3], ports[2], ports[5]]);
}

#[test]
fn north_counts_as_west_and_south_as_east() {
    let (arena, ports) = ports_with_sides(&[PortSide::South, PortSide::North, PortSide::North, PortSide::North, PortSide::North]);
    assert_eq!(find_port_side_range(&arena, &ports, PortSide::West), (1, 4));
    let mut sorted = ports.clone();
    reverse_west_and_south_side(&arena, &mut sorted);
    assert_eq!(sorted, vec![ports[0], ports[3], ports[2], ports[1], ports[4]]);
}

#[test]
fn short_ranges_stay_in_order() {
    let (arena, ports) = ports_with_sides(&[PortSide::Undefined, PortSide::East, PortSide::West, PortSide::West]);
    assert_eq!(find_port_side_range(&arena, &ports, PortSide::West), (2, 3));
    let mut sorted = ports.clone();
    reverse_west_and_south_side(&arena, &mut sorted);
    assert_eq!(sorted, ports);
}

#[test]
fn undefined_sides_give_the_last_port() {
    let (arena, ports) = ports_with_sides(&[PortSide::Undefined, PortSide::Undefined, PortSide::Undefined]);
    assert_eq!(find_port_side_range(&arena, &ports, PortSide::South), (2, 2));
    assert_eq!(find_port_side_range(&arena, &ports, PortSide::West), (2, 2));
    let (arena, empty) = ports_with_sides(&[]);
    assert_eq!(find_port_side_range(&arena, &empty, PortSide::West), (0, 0));
}
