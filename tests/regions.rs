use term_test::regions::{extract_region, RegionAnchor, RegionBounds, UiRegion, UiRegionTester};

#[test]
fn test_region_bounds_new() {
    let bounds = RegionBounds::new(5, 10, 20, 15);
    assert_eq!(bounds.row, 5);
    assert_eq!(bounds.col, 10);
    assert_eq!(bounds.width, 20);
    assert_eq!(bounds.height, 15);
}

#[test]
fn test_region_bounds_contains() {
    let bounds = RegionBounds::new(10, 20, 40, 5);
    assert!(bounds.contains(10, 20));
    assert!(bounds.contains(12, 30));
    assert!(bounds.contains(14, 59));

    assert!(!bounds.contains(9, 25));
    assert!(!bounds.contains(15, 25));
    assert!(!bounds.contains(12, 19));
    assert!(!bounds.contains(12, 60));
}

#[test]
fn test_region_bounds_intersects() {
    let a = RegionBounds::new(0, 0, 10, 10);
    let b = RegionBounds::new(5, 5, 10, 10);
    let c = RegionBounds::new(20, 20, 10, 10);
    let d = RegionBounds::new(8, 8, 5, 5);

    assert!(a.intersects(&b));
    assert!(b.intersects(&a));
    assert!(!a.intersects(&c));
    assert!(!c.intersects(&a));
    assert!(a.intersects(&d));
    assert!(d.intersects(&a));
}

#[test]
fn test_ui_region_tester_new() {
    let tester = UiRegionTester::new(80, 24);
    assert_eq!(tester.screen_dimensions(), (80, 24));
    assert_eq!(tester.region_names().len(), 0);
}

#[test]
fn test_status_bar() {
    let tester = UiRegionTester::new(80, 24).with_status_bar(1);

    let bounds = tester.region_bounds("status_bar").unwrap();
    assert_eq!(bounds.row, 23);
    assert_eq!(bounds.col, 0);
    assert_eq!(bounds.width, 80);
    assert_eq!(bounds.height, 1);
}

#[test]
fn test_tab_bar() {
    let tester = UiRegionTester::new(80, 24).with_tab_bar(2);

    let bounds = tester.region_bounds("tab_bar").unwrap();
    assert_eq!(bounds.row, 0);
    assert_eq!(bounds.col, 0);
    assert_eq!(bounds.width, 80);
    assert_eq!(bounds.height, 2);
}

#[test]
fn test_left_sidebar() {
    let tester = UiRegionTester::new(80, 24).with_left_sidebar(20);

    let bounds = tester.region_bounds("left_sidebar").unwrap();
    assert_eq!(bounds.row, 0);
    assert_eq!(bounds.col, 0);
    assert_eq!(bounds.width, 20);
    assert_eq!(bounds.height, 24);
}

#[test]
fn test_right_sidebar() {
    let tester = UiRegionTester::new(80, 24).with_right_sidebar(15);

    let bounds = tester.region_bounds("right_sidebar").unwrap();
    assert_eq!(bounds.row, 0);
    assert_eq!(bounds.col, 65);
    assert_eq!(bounds.width, 15);
    assert_eq!(bounds.height, 24);
}

#[test]
fn test_combined_regions() {
    let tester = UiRegionTester::new(80, 24)
        .with_tab_bar(2)
        .with_status_bar(1)
        .with_left_sidebar(20);
    let tab_bounds = tester.region_bounds("tab_bar").unwrap();
    assert_eq!(tab_bounds.row, 0);
    assert_eq!(tab_bounds.height, 2);
    let status_bounds = tester.region_bounds("status_bar").unwrap();
    assert_eq!(status_bounds.row, 23);
    assert_eq!(status_bounds.height, 1);
    let sidebar_bounds = tester.region_bounds("left_sidebar").unwrap();
    assert_eq!(sidebar_bounds.row, 2);
    assert_eq!(sidebar_bounds.height, 21);
}

#[test]
fn test_content_area() {
    let tester = UiRegionTester::new(80, 24)
        .with_tab_bar(2)
        .with_status_bar(1)
        .with_left_sidebar(20);

    let content = tester.content_area();
    assert_eq!(content.row, 2);
    assert_eq!(content.col, 20);
    assert_eq!(content.height, 21);
    assert_eq!(content.width, 60);
}

#[test]
fn test_is_in_content_area() {
    let tester = UiRegionTester::new(80, 24)
        .with_tab_bar(2)
        .with_status_bar(1);
    assert!(tester.is_in_content_area(10, 10));
    assert!(tester.is_in_content_area(2, 0));

    assert!(!tester.is_in_content_area(0, 10));
    assert!(!tester.is_in_content_area(1, 10));
    assert!(!tester.is_in_content_area(23, 10));
}

#[test]
fn test_is_in_region() {
    let tester = UiRegionTester::new(80, 24)
        .with_status_bar(1)
        .with_tab_bar(2);

    assert!(tester.is_in_region("status_bar", 23, 0));
    assert!(tester.is_in_region("status_bar", 23, 79));
    assert!(!tester.is_in_region("status_bar", 22, 0));

    assert!(tester.is_in_region("tab_bar", 0, 0));
    assert!(tester.is_in_region("tab_bar", 1, 40));
    assert!(!tester.is_in_region("tab_bar", 2, 0));
}

#[test]
fn regions_test_region_names() {
    let tester = UiRegionTester::new(80, 24)
        .with_status_bar(1)
        .with_tab_bar(2)
        .with_left_sidebar(20);

    let names = tester.region_names();
    assert_eq!(names.len(), 3);
    assert!(names.contains(&"status_bar".to_string()));
    assert!(names.contains(&"tab_bar".to_string()));
    assert!(names.contains(&"left_sidebar".to_string()));
}

#[test]
fn test_custom_region() {
    let custom = UiRegion {
        name: "notification".to_string(),
        anchor: RegionAnchor::Top,
        size: 3,
    };

    let tester = UiRegionTester::new(80, 24).with_region(custom);

    let bounds = tester.region_bounds("notification").unwrap();
    assert_eq!(bounds.row, 0);
    assert_eq!(bounds.height, 3);
}

#[test]
fn test_multiple_same_anchor() {
    let custom1 = UiRegion {
        name: "header".to_string(),
        anchor: RegionAnchor::Top,
        size: 1,
    };
    let custom2 = UiRegion {
        name: "tabs".to_string(),
        anchor: RegionAnchor::Top,
        size: 2,
    };

    let tester = UiRegionTester::new(80, 24)
        .with_region(custom1)
        .with_region(custom2);

    let header = tester.region_bounds("header").unwrap();
    assert_eq!(header.row, 0);
    assert_eq!(header.height, 1);

    let tabs = tester.region_bounds("tabs").unwrap();
    assert_eq!(tabs.row, 1);
    assert_eq!(tabs.height, 2);
}

#[test]
fn test_empty_content_area() {
    let tester = UiRegionTester::new(80, 24)
        .with_tab_bar(12)
        .with_status_bar(12);

    let content = tester.content_area();
    assert_eq!(content.height, 0);
}

#[test]
fn test_region_bounds_edge_cases() {
    let bounds = RegionBounds::new(0, 0, 1, 1);
    assert!(bounds.contains(0, 0));
    assert!(!bounds.contains(0, 1));
    assert!(!bounds.contains(1, 0));
}

#[test]
fn test_basic_region_setup() {
    let tester = UiRegionTester::new(80, 24)
        .with_status_bar(1)
        .with_tab_bar(2);

    assert_eq!(tester.screen_dimensions(), (80, 24));
    assert_eq!(tester.region_names().len(), 2);

    let status = tester.region_bounds("status_bar").unwrap();
    assert_eq!(status.row, 23);
    assert_eq!(status.col, 0);
    assert_eq!(status.width, 80);
    assert_eq!(status.height, 1);

    let tabs = tester.region_bounds("tab_bar").unwrap();
    assert_eq!(tabs.row, 0);
    assert_eq!(tabs.col, 0);
    assert_eq!(tabs.width, 80);
    assert_eq!(tabs.height, 2);
}

#[test]
fn test_complex_layout() {
    let tester = UiRegionTester::new(100, 30)
        .with_tab_bar(2)
        .with_status_bar(1)
        .with_left_sidebar(20)
        .with_right_sidebar(15);

    let content = tester.content_area();
    assert_eq!(content.row, 2);
    assert_eq!(content.col, 20);
    assert_eq!(content.width, 65);
    assert_eq!(content.height, 27);

    assert!(tester.region_bounds("tab_bar").is_some());
    assert!(tester.region_bounds("status_bar").is_some());
    assert!(tester.region_bounds("left_sidebar").is_some());
    assert!(tester.region_bounds("right_sidebar").is_some());
}

#[test]
fn test_position_checking() {
    let tester = UiRegionTester::new(80, 24)
        .with_status_bar(1)
        .with_tab_bar(2);
    assert!(tester.is_in_content_area(10, 10));
    assert!(tester.is_in_content_area(2, 0));
    assert!(tester.is_in_content_area(22, 79));

    assert!(!tester.is_in_content_area(0, 10));
    assert!(!tester.is_in_content_area(1, 10));
    assert!(!tester.is_in_content_area(23, 10));

    assert!(tester.is_in_region("tab_bar", 0, 0));
    assert!(tester.is_in_region("tab_bar", 1, 79));
    assert!(!tester.is_in_region("tab_bar", 2, 0));

    assert!(tester.is_in_region("status_bar", 23, 0));
    assert!(tester.is_in_region("status_bar", 23, 79));
    assert!(!tester.is_in_region("status_bar", 22, 0));
}

#[test]
fn test_custom_regions() {
    let header = UiRegion {
        name: "header".to_string(),
        anchor: RegionAnchor::Top,
        size: 1,
    };

    let notification = UiRegion {
        name: "notification".to_string(),
        anchor: RegionAnchor::Top,
        size: 3,
    };

    let tester = UiRegionTester::new(80, 24)
        .with_region(header)
        .with_region(notification);

    let header_bounds = tester.region_bounds("header").unwrap();
    assert_eq!(header_bounds.row, 0);
    assert_eq!(header_bounds.height, 1);

    let notification_bounds = tester.region_bounds("notification").unwrap();
    assert_eq!(notification_bounds.row, 1);
    assert_eq!(notification_bounds.height, 3);
}

#[test]
fn test_region_bounds_operations() {
    let bounds = RegionBounds::new(10, 20, 30, 15);
    assert!(bounds.contains(10, 20));
    assert!(bounds.contains(15, 30));
    assert!(bounds.contains(24, 49));
    assert!(!bounds.contains(9, 25));
    assert!(!bounds.contains(25, 25));
    assert!(!bounds.contains(15, 19));
    assert!(!bounds.contains(15, 50));

    let overlapping = RegionBounds::new(15, 25, 20, 10);
    assert!(bounds.intersects(&overlapping));

    let separate = RegionBounds::new(50, 50, 10, 10);
    assert!(!bounds.intersects(&separate));

    let contained = RegionBounds::new(12, 22, 5, 5);
    assert!(bounds.intersects(&contained));
}

#[test]
fn test_sidebar_positioning() {
    let tester = UiRegionTester::new(80, 24)
        .with_tab_bar(2)
        .with_status_bar(1)
        .with_left_sidebar(20);

    let sidebar = tester.region_bounds("left_sidebar").unwrap();
    assert_eq!(sidebar.row, 2);
    assert_eq!(sidebar.col, 0);
    assert_eq!(sidebar.width, 20);
    assert_eq!(sidebar.height, 21);
}

#[test]
fn test_right_sidebar_positioning() {
    let tester = UiRegionTester::new(80, 24)
        .with_tab_bar(2)
        .with_status_bar(1)
        .with_right_sidebar(15);

    let sidebar = tester.region_bounds("right_sidebar").unwrap();
    assert_eq!(sidebar.row, 2);
    assert_eq!(sidebar.col, 65);
    assert_eq!(sidebar.width, 15);
    assert_eq!(sidebar.height, 21);
}

#[test]
fn test_multiple_same_anchor_regions() {
    let tester = UiRegionTester::new(80, 24)
        .with_region(UiRegion {
            name: "header".to_string(),
            anchor: RegionAnchor::Top,
            size: 1,
        })
        .with_region(UiRegion {
            name: "tabs".to_string(),
            anchor: RegionAnchor::Top,
            size: 2,
        })
        .with_region(UiRegion {
            name: "toolbar".to_string(),
            anchor: RegionAnchor::Top,
            size: 1,
        });

    let header = tester.region_bounds("header").unwrap();
    assert_eq!(header.row, 0);

    let tabs = tester.region_bounds("tabs").unwrap();
    assert_eq!(tabs.row, 1);

    let toolbar = tester.region_bounds("toolbar").unwrap();
    assert_eq!(toolbar.row, 3);
}

#[test]
fn test_edge_cases() {
    let tiny = UiRegionTester::new(80, 1).with_status_bar(1);
    let content = tiny.content_area();
    assert_eq!(content.height, 0);
    let overflow = UiRegionTester::new(80, 24)
        .with_tab_bar(15)
        .with_status_bar(15);
    let overflow_content = overflow.content_area();
    assert_eq!(overflow_content.height, 0);
    let zero = RegionBounds::new(0, 0, 0, 0);
    assert!(!zero.contains(0, 0));
    assert!(!zero.contains(1, 1));
}

#[test]
fn regions_integration_test_test_region_names() {
    let tester = UiRegionTester::new(80, 24)
        .with_status_bar(1)
        .with_tab_bar(2)
        .with_left_sidebar(20);

    let names = tester.region_names();
    assert_eq!(names.len(), 3);
    assert!(names.contains(&"status_bar".to_string()));
    assert!(names.contains(&"tab_bar".to_string()));
    assert!(names.contains(&"left_sidebar".to_string()));
}

#[test]
fn test_nonexistent_region() {
    let tester = UiRegionTester::new(80, 24).with_status_bar(1);

    assert!(tester.region_bounds("nonexistent").is_none());
    assert!(!tester.is_in_region("nonexistent", 10, 10));
}

#[test]
fn test_content_area_with_all_anchors() {
    let tester = UiRegionTester::new(100, 40)
        .with_tab_bar(3)
        .with_status_bar(2)
        .with_left_sidebar(15)
        .with_right_sidebar(20);

    let content = tester.content_area();
    assert_eq!(content.row, 3);
    assert_eq!(content.col, 15);
    assert_eq!(content.width, 65);
    assert_eq!(content.height, 35);

    assert!(tester.is_in_content_area(3, 15));
    assert!(tester.is_in_content_area(20, 50));
    assert!(tester.is_in_content_area(37, 79));

    assert!(!tester.is_in_content_area(2, 15));
    assert!(!tester.is_in_content_area(3, 14));
    assert!(!tester.is_in_content_area(3, 80));
    assert!(!tester.is_in_content_area(38, 50));
}

#[test]
fn region_layout_scenario() {
    let tester = UiRegionTester::new(80, 24).with_tab_bar(2).with_status_bar(1).with_left_sidebar(20);
    assert_eq!(tester.content_area(), RegionBounds::new(2, 20, 60, 21));
    assert!(tester.is_in_content_area(2, 20));
    assert!(!tester.is_in_content_area(0, 0));
    assert!(!tester.is_in_content_area(23, 0));
}

#[test]
fn oversized_regions_saturate_to_screen() {
    let tester = UiRegionTester::new(80, 24).with_status_bar(100).with_tab_bar(5).with_left_sidebar(200);
    let status = tester.region_bounds("status_bar").unwrap();
    assert_eq!(status, RegionBounds::new(0, 0, 80, 24));
    let tab = tester.region_bounds("tab_bar").unwrap();
    assert_eq!(tab.height, 0);
    let content = tester.content_area();
    assert_eq!(content.width, 0);
    assert_eq!(content.height, 0);
}

#[test]
fn regions_and_content_area_tile_screen() {
    let tester = UiRegionTester::new(100, 40)
        .with_left_sidebar(10)
        .with_tab_bar(3)
        .with_right_sidebar(7)
        .with_status_bar(2)
        .with_tab_bar(1);
    let mut total = 0u32;
    for name in ["left_sidebar", "right_sidebar", "status_bar"] {
        let b = tester.region_bounds(name).unwrap();
        total += b.width as u32 * b.height as u32;
    }
    let tab = tester.region_bounds("tab_bar").unwrap();
    assert_eq!(tab, RegionBounds::new(0, 10, 90, 3));
    total += tab.width as u32 * tab.height as u32;
    total += 83 * 1;
    let c = tester.content_area();
    assert_eq!(c, RegionBounds::new(4, 10, 83, 34));
    assert_eq!(total + c.width as u32 * c.height as u32, 100 * 40);
}

#[test]
fn sidebar_before_bar_is_inset() {
    let tester = UiRegionTester::new(80, 24).with_left_sidebar(20).with_tab_bar(2);
    let tab = tester.region_bounds("tab_bar").unwrap();
    assert_eq!(tab, RegionBounds::new(0, 20, 60, 2));
    assert!(!tab.intersects(&tester.region_bounds("left_sidebar").unwrap()));
}

#[test]
fn bounds_arithmetic_saturates() {
    let b = RegionBounds::new(65530, 65530, 100, 100);
    assert!(b.contains(65534, 65534));
    assert!(!b.contains(65535, 65534));
    let other = RegionBounds::new(65534, 65534, 1, 1);
    assert!(b.intersects(&other));
}

#[test]
fn region_text_extraction() {
    let lines: Vec<Vec<char>> = vec!["tabs here".chars().collect(), "ab".chars().collect(), "status ok".chars().collect()];
    let text: String = extract_region(&lines, 10, RegionBounds::new(1, 1, 4, 5)).into_iter().collect();
    assert_eq!(text, "b   \ntatu");
    let first: String = extract_region(&lines, 3, RegionBounds::new(0, 5, 10, 1)).into_iter().collect();
    assert_eq!(first, "here");
    let none: String = extract_region(&lines, 10, RegionBounds::new(7, 0, 5, 2)).into_iter().collect();
    assert_eq!(none, "");
    let resized = UiRegionTester::new(80, 24).with_status_bar(1).resized(100, 30);
    assert_eq!(resized.screen_dimensions(), (100, 30));
    assert_eq!(resized.region_bounds("status_bar").unwrap().row, 29);
}
