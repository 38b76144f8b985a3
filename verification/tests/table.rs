use terrainbasic::entities::table_reader::{Corner, TableError, TriangulationTable};

/// A table text of 256 lines: `N` everywhere but on the lines given.
fn table_text(rows: &[(usize, &str)]) -> String {
    let mut text = String::new();
    for line in 0..256 {
        let mut row = "N";
        for (at, what) in rows {
            if *at == line {
                row = what;
            }
        }
        text.push_str(row);
        text.push('\n');
    }
    text
}

fn corner(x: usize, y: usize, z: usize) -> Corner {
    Corner { x, y, z }
}

#[test]
fn reads_a_table_of_sentinels() {
    let table = TriangulationTable::new(table_text(&[]).as_bytes()).unwrap();
    for config in 0..=255u8 {
        assert!(table.lookup(config).is_empty());
    }
    assert_eq!(table.longest_run(), 0);
}

#[test]
fn reads_rows_in_line_order() {
    let text = table_text(&[(1, "0,8,3"), (2, "0,1,9"), (3, "1,8,3,9,8,1"), (254, "0,3,8")]);
    let table = TriangulationTable::new(text.as_bytes()).unwrap();
    assert_eq!(table.lookup(1), &vec![0u16, 8, 3]);
    assert_eq!(table.lookup(2), &vec![0u16, 1, 9]);
    assert_eq!(table.lookup(3), &vec![1u16, 8, 3, 9, 8, 1]);
    assert_eq!(table.lookup(254), &vec![0u16, 3, 8]);
    assert!(table.lookup(4).is_empty());
    assert_eq!(table.longest_run(), 6);
}

#[test]
fn uniform_cubes_have_no_triangles_whatever_the_text_says() {
    let text = table_text(&[(0, "0,1,2"), (255, "3,4,5"), (7, "9,10,11")]);
    let table = TriangulationTable::new(text.as_bytes()).unwrap();
    assert!(table.lookup(0).is_empty());
    assert!(table.lookup(255).is_empty());
    assert_eq!(table.lookup(7), &vec![9u16, 10, 11]);
}

#[test]
fn every_row_is_whole_triangles() {
    let text = table_text(&[(1, "0,8,3"), (77, "0,1,2,3,4,5,6,7,8"), (200, "11,10,9,8,7,6")]);
    let table = TriangulationTable::new(text.as_bytes()).unwrap();
    for config in 0..=255u8 {
        let row = table.lookup(config);
        assert_eq!(row.len() % 3, 0);
        assert!(row.iter().all(|e| *e < 12));
        assert!(row.len() <= table.longest_run());
    }
}

#[test]
fn last_line_may_lack_its_newline() {
    let mut text = table_text(&[(255, "1,2,3")]);
    text.pop();
    let table = TriangulationTable::new(text.as_bytes()).unwrap();
    assert_eq!(table.longest_run(), 3);
}

#[test]
fn carriage_returns_before_newlines_are_dropped() {
    let text = table_text(&[(9, "4,5,6")]).replace('\n', "\r\n");
    let table = TriangulationTable::new(text.as_bytes()).unwrap();
    assert_eq!(table.lookup(9), &vec![4u16, 5, 6]);
}

#[test]
fn carriage_return_without_newline_is_part_of_the_line() {
    let mut text = table_text(&[]);
    text.pop();
    text.push('\r');
    assert_eq!(
        TriangulationTable::new(text.as_bytes()).err(),
        Some(TableError::MalformedLine { line: 255 })
    );
}

#[test]
fn plus_signs_and_leading_zeros_are_read() {
    let text = table_text(&[(5, "+1,007,0000000000000000000000011")]);
    let table = TriangulationTable::new(text.as_bytes()).unwrap();
    assert_eq!(table.lookup(5), &vec![1u16, 7, 11]);
}

#[test]
fn malformed_lines_are_refused() {
    let bad = [
        "", " ", "n", "N ", " N", "NN", "0,1,", ",0,1", "0,,1", "0, 1, 2", "0,1,12", "0,1,-2",
        "0,1,+", "0,1,1+", "0,1,x", "0,1,2.0", "0;1;2", "65536,0,0", "99999999999999999999,0,0",
        "N,N,N", "0,1,2\t", "++1,2,3", "\u{663}, 1, 2",
    ];
    for row in bad {
        let text = table_text(&[(17, row)]);
        assert_eq!(
            TriangulationTable::new(text.as_bytes()).err(),
            Some(TableError::MalformedLine { line: 17 }),
            "{:?}",
            row
        );
    }
}

#[test]
fn bytes_that_are_no_text_are_refused() {
    let mut bytes = table_text(&[]).into_bytes();
    bytes[0] = 0xff;
    assert_eq!(
        TriangulationTable::new(&bytes).err(),
        Some(TableError::MalformedLine { line: 0 })
    );
}

#[test]
fn incomplete_triangles_are_refused() {
    for row in ["0", "0,1", "0,1,2,3", "0,1,2,3,4", "11,11,11,11,11,11,11"] {
        let text = table_text(&[(100, row)]);
        assert_eq!(
            TriangulationTable::new(text.as_bytes()).err(),
            Some(TableError::IncompleteTriangle { line: 100 }),
            "{:?}",
            row
        );
    }
}

#[test]
fn the_first_faulty_line_is_reported() {
    let text = table_text(&[(30, "0,1"), (20, "x"), (40, "")]);
    assert_eq!(
        TriangulationTable::new(text.as_bytes()).err(),
        Some(TableError::MalformedLine { line: 20 })
    );
    let text = table_text(&[(30, "0,1"), (31, "x")]);
    assert_eq!(
        TriangulationTable::new(text.as_bytes()).err(),
        Some(TableError::IncompleteTriangle { line: 30 })
    );
}

#[test]
fn wrong_line_counts_are_refused() {
    assert_eq!(
        TriangulationTable::new(b"").err(),
        Some(TableError::WrongLineCount { found: 0 })
    );
    assert_eq!(
        TriangulationTable::new(b"N\nN\n").err(),
        Some(TableError::WrongLineCount { found: 2 })
    );
    let mut text = table_text(&[]);
    text.push_str("N\n");
    assert_eq!(
        TriangulationTable::new(text.as_bytes()).err(),
        Some(TableError::WrongLineCount { found: 257 })
    );
    let text = table_text(&[]);
    let short = &text.as_bytes()[..text.len() - 2];
    assert_eq!(
        TriangulationTable::new(short).err(),
        Some(TableError::WrongLineCount { found: 255 })
    );
}

#[test]
fn a_fault_is_reported_before_the_line_count() {
    assert_eq!(
        TriangulationTable::new(b"N\n0,1\nN\n").err(),
        Some(TableError::IncompleteTriangle { line: 1 })
    );
    let mut text = table_text(&[]);
    text.push_str("oops\n");
    assert_eq!(
        TriangulationTable::new(text.as_bytes()).err(),
        Some(TableError::MalformedLine { line: 256 })
    );
}

#[test]
fn an_empty_line_at_the_end_counts_as_a_line() {
    let mut text = table_text(&[]);
    text.push('\n');
    assert_eq!(
        TriangulationTable::new(text.as_bytes()).err(),
        Some(TableError::MalformedLine { line: 256 })
    );
}

#[test]
fn corner_offsets_of_the_twelve_edges() {
    let table = TriangulationTable::new(table_text(&[]).as_bytes()).unwrap();
    let expected = [
        (corner(0, 0, 0), corner(1, 0, 0)),
        (corner(1, 0, 0), corner(1, 0, 1)),
        (corner(1, 0, 1), corner(0, 0, 1)),
        (corner(0, 0, 1), corner(0, 0, 0)),
        (corner(0, 1, 0), corner(1, 1, 0)),
        (corner(1, 1, 0), corner(1, 1, 1)),
        (corner(1, 1, 1), corner(0, 1, 1)),
        (corner(0, 1, 1), corner(0, 1, 0)),
        (corner(0, 0, 0), corner(0, 1, 0)),
        (corner(1, 0, 0), corner(1, 1, 0)),
        (corner(1, 0, 1), corner(1, 1, 1)),
        (corner(0, 0, 1), corner(0, 1, 1)),
    ];
    for edge in 0..12u16 {
        assert_eq!(table.corner_offsets(edge), expected[edge as usize], "edge {}", edge);
    }
}

#[test]
fn edges_join_neighbouring_corners() {
    let table = TriangulationTable::new(table_text(&[]).as_bytes()).unwrap();
    for edge in 0..12u16 {
        let (a, b) = table.corner_offsets(edge);
        let steps = a.x.abs_diff(b.x) + a.y.abs_diff(b.y) + a.z.abs_diff(b.z);
        assert_eq!(steps, 1);
        if edge < 4 {
            assert_eq!((a.y, b.y), (0, 0));
        } else if edge < 8 {
            assert_eq!((a.y, b.y), (1, 1));
        } else {
            assert_eq!((a.y, b.y), (0, 1));
        }
    }
}
