use segment_walls::{MinMaxResult, Point, PointKind, Segment, SegmentConnection, SegmentConnections, SegmentNetwork};

fn seg(ax: i64, ay: i64, bx: i64, by: i64) -> Segment {
    Segment::new(Point::new(ax, ay), Point::new(bx, by))
}

fn record(entity: usize, segment: Segment, kind: PointKind) -> SegmentConnection {
    SegmentConnection { entity, segment, kind }
}

#[test]
fn side_segments_by_angle() {
    let mut c = SegmentConnections::new();
    let disp = Point::new(1000, 0);
    assert_eq!(c.side_segments(PointKind::Start, disp), MinMaxResult::NoElements);

    // Up, connected by its start.
    c.start.push(record(1, seg(0, 0, 0, 1000), PointKind::Start));
    assert_eq!(c.side_segments(PointKind::Start, disp), MinMaxResult::OneElement(seg(0, 0, 0, 1000)));

    // Down, connected by its end: turned to point away from the joint.
    c.start.push(record(2, seg(0, -1000, 0, 0), PointKind::End));
    // Left.
    c.start.push(record(3, seg(0, 0, -1000, 0), PointKind::Start));
    assert_eq!(
        c.side_segments(PointKind::Start, disp),
        MinMaxResult::MinMax(seg(0, 0, 0, -1000), seg(0, 0, 0, 1000))
    );
    assert_eq!(
        c.get_unified(PointKind::Start),
        vec![seg(0, 0, 0, 1000), seg(0, 0, 0, -1000), seg(0, 0, -1000, 0)]
    );
}

#[test]
fn side_segments_ties() {
    let mut c = SegmentConnections::new();
    let disp = Point::new(1000, 0);
    c.end.push(record(1, seg(0, 0, 0, 500), PointKind::Start));
    c.end.push(record(2, seg(0, 0, 0, 900), PointKind::Start));
    // Same direction: the first is the smallest, the last the largest.
    assert_eq!(
        c.side_segments(PointKind::End, disp),
        MinMaxResult::MinMax(seg(0, 0, 0, 500), seg(0, 0, 0, 900))
    );
}

fn entities(c: &SegmentConnections, kind: PointKind) -> Vec<(usize, PointKind)> {
    c.get(kind).iter().map(|r| (r.entity, r.kind)).collect()
}

#[test]
fn connections_are_symmetric() {
    let mut net = SegmentNetwork::new();
    let a = net.insert(seg(0, 0, 1000, 0), true, 1);
    let b = net.insert(seg(0, 0, 0, 1000), true, 1);
    let c = net.insert(seg(-1000, 0, 0, 0), true, 1);
    assert_eq!(net.update(), vec![a, b, c]);

    assert_eq!(entities(net.connections(a), PointKind::Start), vec![(b, PointKind::Start), (c, PointKind::End)]);
    assert_eq!(entities(net.connections(b), PointKind::Start), vec![(a, PointKind::Start), (c, PointKind::End)]);
    assert_eq!(entities(net.connections(c), PointKind::End), vec![(a, PointKind::Start), (b, PointKind::Start)]);
    assert!(net.connections(a).end.is_empty());

    // Every record has exactly one matching record on the other side.
    for i in 0..net.len() {
        for kind in [PointKind::Start, PointKind::End] {
            for r in net.connections(i).get(kind) {
                let back = net.connections(r.entity).get(r.kind);
                assert_eq!(back.iter().filter(|x| x.entity == i && x.kind == kind).count(), 1);
                assert_eq!(r.segment, net.segment(r.entity));
            }
        }
    }

    net.remove(b);
    for i in 0..net.len() {
        for kind in [PointKind::Start, PointKind::End] {
            assert!(net.connections(i).get(kind).iter().all(|r| r.entity != b));
        }
    }
    assert_eq!(entities(net.connections(a), PointKind::Start), vec![(c, PointKind::End)]);
}

#[test]
fn moving_a_segment_relinks_it() {
    let mut net = SegmentNetwork::new();
    let a = net.insert(seg(0, 0, 1000, 0), true, 1);
    let b = net.insert(seg(1000, 0, 1000, 1000), true, 1);
    net.update();
    assert_eq!(entities(net.connections(a), PointKind::End), vec![(b, PointKind::Start)]);
    net.set_segment(b, seg(5000, 0, 5000, 1000));
    net.update();
    assert!(net.connections(a).end.is_empty());
    assert!(net.connections(b).start.is_empty());
    net.set_segment(b, seg(1000, 1000, 1000, 0));
    net.update();
    assert_eq!(entities(net.connections(a), PointKind::End), vec![(b, PointKind::End)]);
    assert_eq!(entities(net.connections(b), PointKind::End), vec![(a, PointKind::End)]);
}

#[test]
fn excluded_segments_do_not_connect() {
    let mut net = SegmentNetwork::new();
    let a = net.insert(seg(0, 0, 1000, 0), true, 1);
    net.insert(seg(0, 0, 0, 0), true, 1);
    net.insert(seg(0, 0, 0, 1000), true, 2);
    let hidden = net.insert(seg(0, 0, 0, -1000), false, 1);
    net.update();
    assert!(net.connections(a).start.is_empty());
    net.set_visible(hidden, true);
    net.update();
    assert_eq!(entities(net.connections(a), PointKind::Start), vec![(hidden, PointKind::Start)]);
}

#[test]
fn first_pairing_wins() {
    let mut net = SegmentNetwork::new();
    let a = net.insert(seg(0, 0, 1000, 0), true, 1);
    let b = net.insert(seg(1000, 0, 0, 0), true, 1);
    net.update();
    // Both ends touch; only the first matching pairing of the last update is recorded.
    assert!(net.connections(a).start.is_empty());
    assert_eq!(entities(net.connections(a), PointKind::End), vec![(b, PointKind::Start)]);
    assert_eq!(entities(net.connections(b), PointKind::Start), vec![(a, PointKind::End)]);
    assert!(net.connections(b).end.is_empty());
}
