use breach_solver::configuration::{DaemonCfg, DaemonRow};
use breach_solver::layout::{
    arrange_rows, daemon_info, daemon_region, dimension_from_len, fit_to_rows, grid_cells,
    grid_info, large_rects, shift_rects, size_from_count, sort_by_edge, Edge, Rect,
};
use breach_solver::utils::{rgb, Color};

fn rect(x: i32, y: i32, width: i32, height: i32) -> Rect {
    Rect::new(x, y, width, height)
}

#[test]
fn rect_between_edges() {
    assert_eq!(Rect::between(10, 20, 110, 50), rect(10, 20, 100, 30));
    assert_eq!(Rect::between(5, 5, 5, 5), rect(5, 5, 0, 0));
    assert_eq!(rect(0, 0, 25, 30).area(), 750);
    assert_eq!(rect(0, 0, i32::MAX, i32::MAX).area(), 4611686014132420609);
}

#[test]
fn counts_become_sizes() {
    assert_eq!(size_from_count(7), Ok(7));
    assert_eq!(size_from_count(0), Ok(0));
    assert_eq!(
        size_from_count(-1),
        Err("out of range integral type conversion attempted".to_string())
    );
    assert_eq!(dimension_from_len(6), Ok(6));
    assert_eq!(dimension_from_len(u32::MAX as usize), Ok(u32::MAX));
    assert_eq!(
        dimension_from_len(usize::MAX),
        Err("out of range integral type conversion attempted".to_string())
    );
}

#[test]
fn small_rects_are_left_out() {
    let rects = vec![rect(0, 0, 10, 10), rect(1, 1, 30, 30), rect(2, 2, 25, 25), rect(3, 3, 26, 25)];
    assert_eq!(large_rects(&rects, 625), vec![rect(1, 1, 30, 30), rect(3, 3, 26, 25)]);
    assert_eq!(large_rects(&rects, 0), rects);
    assert!(large_rects(&rects, 100000).is_empty());
}

#[test]
fn rects_are_moved_to_image_coordinates() {
    let mut rects = vec![rect(0, 0, 10, 10), rect(5, 7, 30, 30)];
    shift_rects(&mut rects, 100, 200);
    assert_eq!(rects, vec![rect(100, 200, 10, 10), rect(105, 207, 30, 30)]);
}

#[test]
fn region_is_cut_down_to_the_rows() {
    let roi = rect(100, 50, 400, 600);
    let rows = vec![rect(110, 80, 300, 40), rect(110, 140, 300, 42)];
    assert_eq!(fit_to_rows(roi, &rows), rect(100, 80, 400, 102));
    assert_eq!(fit_to_rows(roi, &vec![]), roi);
}

#[test]
fn rows_are_put_in_order() {
    let roi = rect(100, 50, 400, 600);
    let mut rows = vec![rect(110, 140, 300, 42), rect(110, 200, 300, 40), rect(110, 80, 300, 40)];
    let fitted = arrange_rows(&mut rows, roi);
    assert_eq!(
        rows,
        vec![rect(110, 80, 300, 40), rect(110, 140, 300, 42), rect(110, 200, 300, 40)]
    );
    assert_eq!(fitted, rect(100, 80, 400, 160));
}

#[test]
fn cells_lie_where_rows_and_columns_cross() {
    let rows = vec![rect(0, 10, 500, 40), rect(0, 60, 500, 45)];
    let cols = vec![rect(5, 0, 50, 300), rect(65, 0, 55, 300), rect(130, 0, 52, 300)];
    assert_eq!(
        grid_cells(&rows, &cols),
        vec![
            rect(5, 10, 50, 40),
            rect(65, 10, 55, 40),
            rect(130, 10, 52, 40),
            rect(5, 60, 50, 45),
            rect(65, 60, 55, 45),
            rect(130, 60, 52, 45),
        ]
    );
    assert!(grid_cells(&rows, &vec![]).is_empty());
    assert!(grid_cells(&vec![], &cols).is_empty());
}

#[test]
fn grid_scan_orders_the_columns() {
    let rows = vec![rect(0, 10, 500, 40), rect(0, 60, 500, 45)];
    let mut cols = vec![rect(130, 0, 52, 300), rect(5, 0, 50, 300)];
    let info = grid_info(&rows, &mut cols).unwrap();
    assert_eq!(info.rows, 2);
    assert_eq!(info.cols, 2);
    assert_eq!(cols, vec![rect(5, 0, 50, 300), rect(130, 0, 52, 300)]);
    assert_eq!(
        info.cells,
        vec![
            rect(5, 10, 50, 40),
            rect(130, 10, 52, 40),
            rect(5, 60, 50, 45),
            rect(130, 60, 52, 45),
        ]
    );
}

#[test]
fn daemon_scan_gives_one_row() {
    let roi = daemon_region(1200, 340, 380, 42, 8);
    assert_eq!(roi, rect(1200, 340, 336, 40));
    let mut cols = vec![rect(1290, 0, 30, 40), rect(1205, 0, 31, 40), rect(1248, 0, 29, 40)];
    let info = daemon_info(&mut cols, &roi).unwrap();
    assert_eq!(info.rows, 1);
    assert_eq!(info.cols, 3);
    assert_eq!(
        info.cells,
        vec![rect(1205, 340, 31, 40), rect(1248, 340, 29, 40), rect(1290, 340, 30, 40)]
    );
    let none = daemon_info(&mut vec![], &roi).unwrap();
    assert_eq!(none.cols, 0);
    assert!(none.cells.is_empty());
}

#[test]
fn colours_keep_their_channels() {
    let yellow = Color::rgba(0xcf, 0xed, 0x56, 0xff);
    assert_eq!(yellow, Color { r: 0xcf, g: 0xed, b: 0x56, a: 0xff });
    assert_eq!(yellow.to_bgra(), (0x56, 0xed, 0xcf, 0xff));
    assert_eq!(rgb(0, 0, 0), 0);
    assert_eq!(rgb(1, 2, 3), 3 << 8 | 2 << 4 | 1);
}

#[test]
fn rects_with_the_same_edge_keep_their_order() {
    let mut rects = vec![
        rect(30, 7, 1, 1),
        rect(10, 5, 2, 2),
        rect(30, 5, 3, 3),
        rect(10, 7, 4, 4),
        rect(20, 6, 5, 5),
    ];
    sort_by_edge(&mut rects, Edge::Left);
    assert_eq!(
        rects,
        vec![
            rect(10, 5, 2, 2),
            rect(10, 7, 4, 4),
            rect(20, 6, 5, 5),
            rect(30, 7, 1, 1),
            rect(30, 5, 3, 3),
        ]
    );
    sort_by_edge(&mut rects, Edge::Top);
    assert_eq!(
        rects,
        vec![
            rect(10, 5, 2, 2),
            rect(30, 5, 3, 3),
            rect(20, 6, 5, 5),
            rect(10, 7, 4, 4),
            rect(30, 7, 1, 1),
        ]
    );
    let mut none: Vec<Rect> = vec![];
    sort_by_edge(&mut none, Edge::Top);
    assert!(none.is_empty());
    let mut negative = vec![rect(3, 0, 1, 1), rect(-5, 0, 1, 1), rect(i32::MIN, 0, 1, 1)];
    sort_by_edge(&mut negative, Edge::Left);
    assert_eq!(
        negative,
        vec![rect(i32::MIN, 0, 1, 1), rect(-5, 0, 1, 1), rect(3, 0, 1, 1)]
    );
}

#[test]
fn daemon_regions_follow_the_settings() {
    let cfg = DaemonCfg {
        max_length: 8,
        left: 1200,
        cell_width: 42,
        rows: vec![
            DaemonRow { top: 340, bottom: 380 },
            DaemonRow { top: 410, bottom: 452 },
            DaemonRow { top: 480, bottom: 480 },
        ],
    };
    assert!(cfg.is_placeable());
    assert_eq!(
        cfg.regions(),
        vec![rect(1200, 340, 336, 40), rect(1200, 410, 336, 42), rect(1200, 480, 336, 0)]
    );
    let none = DaemonCfg { max_length: 8, left: 0, cell_width: 42, rows: vec![] };
    assert!(none.is_placeable());
    assert!(none.regions().is_empty());
}

#[test]
fn settings_beyond_the_coordinates_are_told() {
    let wide = DaemonCfg { max_length: 65536, left: 0, cell_width: 32768, rows: vec![] };
    assert!(!wide.is_placeable());
    let narrow = DaemonCfg { max_length: 65535, left: 0, cell_width: 32768, rows: vec![] };
    assert!(narrow.is_placeable());
    let tall = DaemonCfg {
        max_length: 1,
        left: 0,
        cell_width: 1,
        rows: vec![DaemonRow { top: 0, bottom: 5 }, DaemonRow { top: -2, bottom: i32::MAX }],
    };
    assert!(!tall.is_placeable());
    let deep = DaemonCfg {
        max_length: 1,
        left: 0,
        cell_width: 1,
        rows: vec![DaemonRow { top: i32::MAX, bottom: -1 }],
    };
    assert!(deep.is_placeable());
    assert_eq!(deep.regions(), vec![rect(0, i32::MAX, 1, i32::MIN)]);
}
