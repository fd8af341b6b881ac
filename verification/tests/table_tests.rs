use pool_game::table::{rack_layout, Hole, Holes, RackSpot, BALL_RADIUS, BORDER, FIELD_HEIGHT, FIELD_WIDTH, RED_BALLS};

#[test]
fn rack_has_fifteen_numbered_balls() {
    let spots = rack_layout();
    assert_eq!(spots.len(), RED_BALLS);
    for (k, spot) in spots.iter().enumerate() {
        assert_eq!(spot.number, k + 1);
    }
}

#[test]
fn rack_positions_form_a_triangle() {
    let spots = rack_layout();
    assert_eq!(spots[0], RackSpot { number: 1, x: 1500, y: 540 });
    assert_eq!(spots[1], RackSpot { number: 2, x: 1536, y: 558 });
    assert_eq!(spots[2], RackSpot { number: 3, x: 1536, y: 522 });
    assert_eq!(spots[3], RackSpot { number: 4, x: 1572, y: 576 });
    assert_eq!(spots[5], RackSpot { number: 6, x: 1572, y: 504 });
    assert_eq!(spots[6], RackSpot { number: 7, x: 1608, y: 594 });
    assert_eq!(spots[9], RackSpot { number: 10, x: 1608, y: 486 });
    assert_eq!(spots[10], RackSpot { number: 11, x: 1644, y: 612 });
    assert_eq!(spots[14], RackSpot { number: 15, x: 1644, y: 468 });
}

#[test]
fn rack_balls_do_not_overlap() {
    let spots = rack_layout();
    let d = (2 * BALL_RADIUS) as i64;
    for a in 0..spots.len() {
        for b in 0..spots.len() {
            if a != b {
                let dx = spots[a].x as i64 - spots[b].x as i64;
                let dy = spots[a].y as i64 - spots[b].y as i64;
                assert!(dx * dx + dy * dy >= d * d);
            }
        }
    }
}

#[test]
fn rack_lies_on_the_cloth() {
    for spot in rack_layout() {
        assert!(spot.x >= BORDER + BALL_RADIUS && spot.x <= FIELD_WIDTH - BALL_RADIUS);
        assert!(spot.y >= BORDER + BALL_RADIUS && spot.y <= FIELD_HEIGHT - BALL_RADIUS);
    }
}

#[test]
fn table_has_six_pockets() {
    let holes = Holes::new();
    let expected = vec![
        Hole { x: 36, y: 36, radius: 36 },
        Hole { x: 1884, y: 36, radius: 36 },
        Hole { x: 1884, y: 1044, radius: 36 },
        Hole { x: 36, y: 1044, radius: 36 },
        Hole { x: 960, y: 1044, radius: 36 },
        Hole { x: 960, y: 36, radius: 36 },
    ];
    assert_eq!(holes.holes, expected);
}
