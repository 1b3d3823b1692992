use quadgrid::components::math::{RandomGen, Size2i};
use quadgrid::components::visuals::Point;
use quadgrid::data_structures::quadtree::Region;

fn region(x: u32, y: u32, w: i16, h: i16) -> Region {
    Region {
        top_left: Point::new(x, y),
        size: Size2i::new(w, h),
    }
}

#[test]
fn contains_is_half_open() {
    let r = region(1, 2, 4, 3);
    assert!(r.contains(&Point::new(1, 2)));
    assert!(r.contains(&Point::new(4, 4)));
    assert!(!r.contains(&Point::new(5, 2)));
    assert!(!r.contains(&Point::new(1, 5)));
    assert!(!r.contains(&Point::new(0, 2)));
}

#[test]
fn empty_region_contains_nothing() {
    let r = region(0, 0, 0, 5);
    assert!(!r.contains(&Point::new(0, 0)));
}

#[test]
fn split_even_region() {
    let quads = region(0, 0, 4, 4).split();
    assert_eq!(quads.nw, region(0, 0, 2, 2));
    assert_eq!(quads.ne, region(2, 0, 2, 2));
    assert_eq!(quads.sw, region(0, 2, 2, 2));
    assert_eq!(quads.se, region(2, 2, 2, 2));
}

#[test]
fn split_odd_region_tiles_exactly() {
    let r = region(0, 0, 3, 3);
    let quads = r.split();
    assert_eq!(quads.nw, region(0, 0, 1, 1));
    assert_eq!(quads.ne, region(1, 0, 2, 1));
    assert_eq!(quads.sw, region(0, 1, 1, 2));
    assert_eq!(quads.se, region(1, 1, 2, 2));
    // every cell of the region is covered exactly once
    for x in 0..3u32 {
        for y in 0..3u32 {
            let p = Point::new(x, y);
            let covered = [quads.nw, quads.ne, quads.sw, quads.se]
                .iter()
                .filter(|q| q.contains(&p))
                .count();
            assert_eq!(covered, 1);
        }
    }
}

#[test]
fn split_unit_region() {
    let quads = region(7, 9, 1, 1).split();
    assert_eq!(quads.nw, region(7, 9, 0, 0));
    assert_eq!(quads.se, region(7, 9, 1, 1));
    assert!(quads.se.contains(&Point::new(7, 9)));
    assert!(!quads.nw.contains(&Point::new(7, 9)));
}

#[test]
fn to_array_orders_quadrants() {
    let quads = region(0, 0, 4, 4).split();
    let arr = quads.to_array();
    assert_eq!(arr[0], quads.nw);
    assert_eq!(arr[1], quads.ne);
    assert_eq!(arr[2], quads.sw);
    assert_eq!(arr[3], quads.se);
}

#[test]
fn intersects_on_overlap_only() {
    let a = region(0, 0, 4, 4);
    assert!(a.intersects(&region(3, 3, 4, 4)));
    assert!(!a.intersects(&region(4, 0, 4, 4)));
    assert!(!a.intersects(&region(0, 4, 1, 1)));
    assert!(a.intersects(&a));
}

#[test]
fn is_subset_checks_corners() {
    let outer = region(0, 0, 4, 4);
    assert!(outer.is_subset(&region(1, 1, 2, 2)));
    assert!(outer.is_subset(&outer));
    assert!(!outer.is_subset(&region(3, 3, 2, 2)));
    assert!(!region(1, 1, 2, 2).is_subset(&outer));
}

#[test]
fn size_div_halves_dimensions() {
    let s = Size2i::new(5, 4).div(2);
    assert_eq!(s.width, 2);
    assert_eq!(s.height, 2);
}

#[test]
fn random_size_within_bounds() {
    for _ in 0..32 {
        let s = Size2i::gen_range(3, 4, 10);
        assert_eq!(s.width, 3);
        assert!(3 <= s.height && s.height < 10);
    }
}

#[test]
fn random_point_within_bounds() {
    let origin = Point::rand(0, 0);
    assert_eq!(origin, Point::new(0, 0));
    for _ in 0..32 {
        let p = Point::rand(5, 2);
        assert!(p.x <= 5 && p.y <= 2);
    }
}
