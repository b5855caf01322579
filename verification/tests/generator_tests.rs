use htot_conv::generator::sheet::{CellWrite, MergeWrite, SheetOps};
use htot_conv::generator::xlsx_type0::{XlsxType0Generator, XlsxType0GeneratorOptions};
use htot_conv::generator::xlsx_type1::{XlsxType1Generator, XlsxType1GeneratorOptions};
use htot_conv::generator::xlsx_type2::{XlsxType2Generator, XlsxType2GeneratorOptions};
use htot_conv::generator::xlsx_type3::{XlsxType3Generator, XlsxType3GeneratorOptions};
use htot_conv::generator::xlsx_type4::{XlsxType4Generator, XlsxType4GeneratorOptions};
use htot_conv::generator::xlsx_type5::{XlsxType5Generator, XlsxType5GeneratorOptions};
use htot_conv::generator::IntegrateCellsOption;
use htot_conv::outline::{Outline, OutlineItem};
use rust_xlsxwriter::Workbook;

/// The last write of the cell wins, as it does on a worksheet.
fn cell(ops: &SheetOps, row: u32, col: u16) -> CellWrite {
    ops.cells
        .iter()
        .filter(|c| c.row == row && c.col == col)
        .last()
        .unwrap_or_else(|| panic!("no write at row {} col {}", row, col))
        .clone()
}

fn cell_text(ops: &SheetOps, row: u32, col: u16) -> String {
    cell(ops, row, col).text
}

fn merge_tuples(ops: &SheetOps) -> Vec<(u32, u16, u32, u16)> {
    ops.merges
        .iter()
        .map(|m: &MergeWrite| (m.first_row, m.first_col, m.last_row, m.last_col))
        .collect()
}

#[test]
fn test_find_intervals_hierarchical() {
    let data = vec![1, 1, 2, 3, 3, 1, 2, 3];
    let result = XlsxType1Generator::find_intervals_hierarchical(&data);

    let expected: Vec<Vec<(usize, usize)>> = vec![
        vec![(0, 7)],         // threshold = 1
        vec![(2, 4), (6, 7)], // threshold = 2
        vec![(3, 4), (7, 7)], // threshold = 3
    ];
    assert_eq!(result, expected);
}

#[test]
fn test_find_intervals() {
    let data = vec![1, 1, 2, 3, 3, 1, 2, 3];
    assert_eq!(XlsxType2Generator::find_intervals(&data, 1), vec![(0, 7)]);
    assert_eq!(
        XlsxType3Generator::find_intervals(&data, 2),
        vec![(2, 4), (6, 7)]
    );
    assert_eq!(
        XlsxType1Generator::find_intervals(&data, 3),
        vec![(3, 4), (7, 7)]
    );
}

#[test]
fn test_xlsx_type0_generator() {
    let outline = Outline {
        key_header: vec!["Key".to_string()],
        value_header: vec!["Value1".to_string(), "Value2".to_string()],
        item: vec![
            OutlineItem::new("Item 1", 1, vec!["Val1A".to_string(), "Val1B".to_string()]),
            OutlineItem::new("Item 2", 2, vec!["Val2A".to_string()]),
            OutlineItem::new(
                "Item 3",
                1,
                vec![
                    "Val3A".to_string(),
                    "Val3B".to_string(),
                    "Val3C".to_string(),
                ],
            ),
        ],
    };

    let generator = XlsxType0Generator::new(outline, XlsxType0GeneratorOptions::default());
    let ops = generator.sheet_ops();

    // Header row
    assert_eq!(cell_text(&ops, 0, 0), "Key");
    assert_eq!(cell_text(&ops, 0, 1), "Outline Level");
    assert_eq!(cell_text(&ops, 0, 2), "Value1");
    assert_eq!(cell_text(&ops, 0, 3), "Value2");

    // Header row borders
    let h = cell(&ops, 0, 0).style;
    assert!(h.top);
    assert!(h.bottom);
    assert!(h.left);
    assert!(h.right);

    // Data row 1
    assert_eq!(cell_text(&ops, 1, 0), "Item 1");
    assert_eq!(cell_text(&ops, 1, 1), "1");
    assert_eq!(cell_text(&ops, 1, 2), "Val1A");
    assert_eq!(cell_text(&ops, 1, 3), "Val1B");

    // Data row 2
    assert_eq!(cell_text(&ops, 2, 0), "Item 2");
    assert_eq!(cell_text(&ops, 2, 1), "2");
    assert_eq!(cell_text(&ops, 2, 2), "Val2A");

    // Data row 3
    assert_eq!(cell_text(&ops, 3, 0), "Item 3");
    assert_eq!(cell_text(&ops, 3, 1), "1");
    assert_eq!(cell_text(&ops, 3, 2), "Val3A");
    assert_eq!(cell_text(&ops, 3, 3), "Val3B");
    assert_eq!(cell_text(&ops, 3, 4), "Val3C");

    // Data row borders
    let d = cell(&ops, 1, 0).style;
    assert!(d.top);
    assert!(d.bottom);
    assert!(d.left);
    assert!(d.right);
}

#[test]
fn test_xlsx_type0_generator_shironuri_enabled() {
    let outline = Outline {
        key_header: vec!["Key".to_string()],
        value_header: vec!["Value1".to_string(), "Value2".to_string()],
        item: vec![OutlineItem::new(
            "Item 1",
            1,
            vec!["Val1A".to_string(), "Val1B".to_string()],
        )],
    };

    let options = XlsxType0GeneratorOptions { shironuri: true };
    let generator = XlsxType0Generator::new(outline, options);
    let ops = generator.sheet_ops();

    assert!(cell(&ops, 0, 0).style.white);
    assert!(ops.whitewash);
}

#[test]
fn test_xlsx_type0_generator_shironuri_disabled() {
    let outline = Outline {
        key_header: vec!["Key".to_string()],
        value_header: vec!["Value1".to_string(), "Value2".to_string()],
        item: vec![OutlineItem::new(
            "Item 1",
            1,
            vec!["Val1A".to_string(), "Val1B".to_string()],
        )],
    };

    let options = XlsxType0GeneratorOptions { shironuri: false };
    let generator = XlsxType0Generator::new(outline, options);
    let ops = generator.sheet_ops();

    assert!(!cell(&ops, 0, 0).style.white);
    assert!(!ops.whitewash);
}

#[test]
fn test_xlsx_type1_generator_basic() {
    let outline = Outline {
        key_header: vec!["Key".to_string()],
        value_header: vec!["Value1".to_string(), "Value2".to_string()],
        item: vec![
            OutlineItem::new("Item 1", 1, vec!["Val1A".to_string(), "Val1B".to_string()]),
            OutlineItem::new("Item 2", 2, vec!["Val2A".to_string()]),
            OutlineItem::new(
                "Item 3",
                1,
                vec![
                    "Val3A".to_string(),
                    "Val3B".to_string(),
                    "Val3C".to_string(),
                ],
            ),
        ],
    };

    let generator = XlsxType1Generator::new(
        outline,
        XlsxType1GeneratorOptions {
            outline_rows: false,
            shironuri: false,
        },
    );
    let ops = generator.sheet_ops();

    // Header row
    assert_eq!(cell_text(&ops, 0, 0), "Key");
    assert_eq!(cell_text(&ops, 0, 1), "Value1");
    assert_eq!(cell_text(&ops, 0, 2), "Value2");

    // Data rows
    assert_eq!(cell_text(&ops, 1, 0), "Item 1");
    assert_eq!(cell_text(&ops, 1, 1), "Val1A");
    assert_eq!(cell_text(&ops, 1, 2), "Val1B");
    assert_eq!(cell_text(&ops, 2, 0), "Item 2");
    assert_eq!(cell_text(&ops, 2, 1), "Val2A");
    assert_eq!(cell_text(&ops, 3, 0), "Item 3");
    assert_eq!(cell_text(&ops, 3, 1), "Val3A");
    assert_eq!(cell_text(&ops, 3, 2), "Val3B");
    assert_eq!(cell_text(&ops, 3, 3), "Val3C");

    // Borders: header and first data cell carry a full thin border.
    let h = cell(&ops, 0, 0).style;
    assert!(h.top && h.bottom && h.left && h.right);
    let d = cell(&ops, 1, 0).style;
    assert!(d.top && d.bottom && d.left && d.right);
}

#[test]
fn test_xlsx_type1_generator_outline_rows() {
    let outline = Outline {
        item: vec![
            OutlineItem::new("Item 1", 1, vec![]),
            OutlineItem::new("Subitem 1.1", 2, vec![]),
            OutlineItem::new("Subitem 1.2", 2, vec![]),
            OutlineItem::new("Item 2", 1, vec![]),
            OutlineItem::new("Subitem 2.1", 2, vec![]),
        ],
        ..Default::default()
    };

    let generator = XlsxType1Generator::new(
        outline,
        XlsxType1GeneratorOptions {
            outline_rows: true,
            shironuri: false,
        },
    );
    let ops = generator.sheet_ops();

    // Rows of the level-2 runs, offset past the header row.
    let groups: Vec<(u32, u32)> = ops.groups.iter().map(|g| (g.first_row, g.last_row)).collect();
    assert_eq!(groups, vec![(2, 3), (5, 5)]);
}

#[test]
fn test_xlsx_type1_generator_shironuri_enabled() {
    let outline = Outline {
        key_header: vec!["Key".to_string()],
        value_header: vec!["Value1".to_string(), "Value2".to_string()],
        item: vec![OutlineItem::new(
            "Item 1",
            1,
            vec!["Val1A".to_string(), "Val1B".to_string()],
        )],
    };

    let options = XlsxType1GeneratorOptions {
        outline_rows: false,
        shironuri: true,
    };
    let generator = XlsxType1Generator::new(outline, options);
    let ops = generator.sheet_ops();

    assert!(cell(&ops, 0, 0).style.white);
    assert!(ops.whitewash);
}

#[test]
fn test_xlsx_type1_generator_shironuri_disabled() {
    let outline = Outline {
        key_header: vec!["Key".to_string()],
        value_header: vec!["Value1".to_string(), "Value2".to_string()],
        item: vec![OutlineItem::new(
            "Item 1",
            1,
            vec!["Val1A".to_string(), "Val1B".to_string()],
        )],
    };

    let options = XlsxType1GeneratorOptions {
        outline_rows: false,
        shironuri: false,
    };
    let generator = XlsxType1Generator::new(outline, options);
    let ops = generator.sheet_ops();

    assert!(!cell(&ops, 0, 0).style.white);
    assert!(!ops.whitewash);
}

#[test]
fn test_xlsx_type2_generator_basic() {
    let outline = Outline {
        key_header: vec!["Key Header 1".to_string(), "Key Header 2".to_string()],
        value_header: vec!["Value Header 1".to_string(), "Value Header 2".to_string()],
        item: vec![
            OutlineItem::new("Item 1", 1, vec!["Val1A".to_string(), "Val1B".to_string()]),
            OutlineItem::new("Item 1.1", 2, vec!["Val1.1A".to_string()]),
            OutlineItem::new("Item 2", 1, vec!["Val2A".to_string()]),
        ],
    };

    let generator = XlsxType2Generator::new(
        outline,
        XlsxType2GeneratorOptions {
            outline_rows: false,
            integrate_cells: None,
            shironuri: false,
        },
    );
    let ops = generator.sheet_ops();

    // Header row
    assert_eq!(cell_text(&ops, 0, 0), "Key Header 1");
    assert_eq!(cell_text(&ops, 0, 1), "Key Header 2");
    assert_eq!(cell_text(&ops, 0, 2), "Value Header 1");
    assert_eq!(cell_text(&ops, 0, 3), "Value Header 2");

    // Data row 1 (Item 1)
    assert_eq!(cell_text(&ops, 1, 0), "Item 1");
    assert_eq!(cell_text(&ops, 1, 2), "Val1A");
    assert_eq!(cell_text(&ops, 1, 3), "Val1B");

    // Data row 2 (Item 1.1)
    assert_eq!(cell_text(&ops, 2, 1), "Item 1.1");
    assert_eq!(cell_text(&ops, 2, 2), "Val1.1A");

    // Data row 3 (Item 2)
    assert_eq!(cell_text(&ops, 3, 0), "Item 2");
    assert_eq!(cell_text(&ops, 3, 2), "Val2A");

    // Header borders: all thin.
    let h = cell(&ops, 0, 0).style;
    assert!(h.top);
    assert!(h.bottom);
    assert!(h.left);
    assert!(h.right);

    // Data cell of "Item 1": top and left thin, bottom and right none.
    let d = cell(&ops, 1, 0).style;
    assert!(d.top);
    assert!(!d.bottom);
    assert!(d.left);
    assert!(!d.right);
}

#[test]
fn test_xlsx_type2_generator_shironuri_enabled() {
    let outline = Outline {
        key_header: vec!["Key".to_string()],
        value_header: vec!["Value1".to_string(), "Value2".to_string()],
        item: vec![OutlineItem::new(
            "Item 1",
            1,
            vec!["Val1A".to_string(), "Val1B".to_string()],
        )],
    };

    let options = XlsxType2GeneratorOptions {
        outline_rows: false,
        integrate_cells: None,
        shironuri: true,
    };
    let generator = XlsxType2Generator::new(outline, options);
    let ops = generator.sheet_ops();

    assert!(cell(&ops, 0, 0).style.white);
    assert!(ops.whitewash);
}

#[test]
fn test_xlsx_type2_generator_shironuri_disabled() {
    let outline = Outline {
        key_header: vec!["Key".to_string()],
        value_header: vec!["Value1".to_string(), "Value2".to_string()],
        item: vec![OutlineItem::new(
            "Item 1",
            1,
            vec!["Val1A".to_string(), "Val1B".to_string()],
        )],
    };

    let options = XlsxType2GeneratorOptions {
        outline_rows: false,
        integrate_cells: None,
        shironuri: false,
    };
    let generator = XlsxType2Generator::new(outline, options);
    let ops = generator.sheet_ops();

    assert!(!cell(&ops, 0, 0).style.white);
    assert!(!ops.whitewash);
}

#[test]
fn test_xlsx_type2_generator_outline_rows() {
    let mut outline = Outline::default();
    outline.add_item("Item 1", 1, vec![]);
    outline.add_item("Subitem 1.1", 2, vec![]);
    outline.add_item("Subitem 1.2", 2, vec![]);
    outline.add_item("Item 2", 1, vec![]);
    outline.add_item("Subitem 2.1", 2, vec![]);

    let generator = XlsxType2Generator::new(
        outline,
        XlsxType2GeneratorOptions {
            outline_rows: true,
            integrate_cells: None,
            shironuri: false,
        },
    );
    let ops = generator.sheet_ops();

    assert_eq!(ops.merges.len(), 0);
}

#[test]
fn test_xlsx_type2_generator_integrate_cells_colspan() {
    let outline = Outline {
        key_header: vec![
            "Key Header 1".to_string(),
            "Key Header 2".to_string(),
            "Key Header 3".to_string(),
        ],
        value_header: vec!["Value Header 1".to_string()],
        item: vec![
            OutlineItem::new("Item 1", 1, vec!["Val1A".to_string()]),
            OutlineItem::new("Item 1.1", 2, vec!["Val1.1A".to_string()]),
            OutlineItem::new("Item 1.1.1", 3, vec!["Val1.1.1A".to_string()]),
            OutlineItem::new("Item 2", 1, vec!["Val2A".to_string()]),
        ],
    };

    let generator = XlsxType2Generator::new(
        outline,
        XlsxType2GeneratorOptions {
            outline_rows: false,
            integrate_cells: Some(IntegrateCellsOption::Colspan),
            shironuri: false,
        },
    );
    let ops = generator.sheet_ops();

    // A2:C2, B3:C3, A5:C5 in 0-based rows and columns.
    assert_eq!(
        merge_tuples(&ops),
        vec![(1, 0, 1, 2), (2, 1, 2, 2), (4, 0, 4, 2)]
    );
    assert_eq!(cell_text(&ops, 1, 0), "Item 1");
    assert_eq!(cell_text(&ops, 2, 1), "Item 1.1");
    assert_eq!(cell_text(&ops, 4, 0), "Item 2");
    assert_eq!(ops.merges[0].text, "Item 1");
    assert_eq!(ops.merges[1].text, "Item 1.1");
    assert_eq!(ops.merges[2].text, "Item 2");
}

#[test]
fn test_xlsx_type2_generator_integrate_cells_rowspan() {
    let outline = Outline {
        key_header: vec![
            "Key Header 1".to_string(),
            "Key Header 2".to_string(),
            "Key Header 3".to_string(),
        ],
        value_header: vec!["Value Header 1".to_string()],
        item: vec![
            OutlineItem::new("Item 1", 1, vec!["Val1A".to_string()]),
            OutlineItem::new("Item 1.1", 2, vec!["Val1.1A".to_string()]),
            OutlineItem::new("Item 1.1.1", 3, vec!["Val1.1.1A".to_string()]),
            OutlineItem::new("Item 1.2", 2, vec!["Val1.2A".to_string()]),
            OutlineItem::new("Item 2", 1, vec!["Val2A".to_string()]),
        ],
    };

    let generator = XlsxType2Generator::new(
        outline,
        XlsxType2GeneratorOptions {
            outline_rows: false,
            integrate_cells: Some(IntegrateCellsOption::Rowspan),
            shironuri: false,
        },
    );
    let ops = generator.sheet_ops();

    // A2:A5 and B3:B4 in 0-based rows and columns.
    assert_eq!(merge_tuples(&ops), vec![(1, 0, 4, 0), (2, 1, 3, 1)]);
    assert_eq!(cell_text(&ops, 1, 0), "Item 1");
    assert_eq!(cell_text(&ops, 2, 1), "Item 1.1");
}

#[test]
fn test_xlsx_type3_generator_basic() {
    let mut outline = Outline::default();
    outline.key_header = vec!["Key Header 1".to_string()];
    outline.value_header = vec!["Value Header 1".to_string(), "Value Header 2".to_string()];
    outline.add_item("Item 1", 1, vec!["Val1A".to_string(), "Val1B".to_string()]);
    outline.add_item("Item 1.1", 2, vec!["Val1.1A".to_string()]);
    outline.add_item("Item 2", 1, vec!["Val2A".to_string()]);

    let generator = XlsxType3Generator::new(
        outline,
        XlsxType3GeneratorOptions {
            outline_rows: false,
            integrate_cells: None,
        },
    );
    let ops = generator.sheet_ops();

    // Header row
    assert_eq!(cell_text(&ops, 0, 0), "Key Header 1");
    assert_eq!(cell_text(&ops, 0, 1), "Value Header 1");
    assert_eq!(cell_text(&ops, 0, 3), "Value Header 2");

    // Data row 1 (Item 1)
    assert_eq!(cell_text(&ops, 1, 0), "Item 1");
    assert_eq!(cell_text(&ops, 1, 1), "Val1A");
    assert_eq!(cell_text(&ops, 1, 3), "Val1B");

    // Data row 2 (Item 1.1)
    assert_eq!(cell_text(&ops, 2, 1), "Item 1.1");
    assert_eq!(cell_text(&ops, 2, 2), "Val1.1A");

    // Data row 3 (Item 2)
    assert_eq!(cell_text(&ops, 3, 0), "Item 2");
    assert_eq!(cell_text(&ops, 3, 1), "Val2A");
}

#[test]
fn test_xlsx_type3_generator_outline_rows() {
    let mut outline = Outline::default();
    outline.add_item("Item 1", 1, vec![]);
    outline.add_item("Subitem 1.1", 2, vec![]);
    outline.add_item("Subitem 1.2", 2, vec![]);
    outline.add_item("Item 2", 1, vec![]);
    outline.add_item("Subitem 2.1", 2, vec![]);

    let generator = XlsxType3Generator::new(
        outline,
        XlsxType3GeneratorOptions {
            outline_rows: true,
            integrate_cells: None,
        },
    );
    let ops = generator.sheet_ops();

    assert_eq!(ops.merges.len(), 0);
}

#[test]
fn test_xlsx_type3_generator_integrate_cells_colspan() {
    let mut outline = Outline::default();
    outline.key_header = vec!["Key Header 1".to_string()];
    outline.value_header = vec!["Value Header 1".to_string(), "Value Header 2".to_string()];
    outline.add_item("Item 1", 1, vec!["Val1A".to_string(), "Val1B".to_string()]);
    outline.add_item("Item 1.1", 2, vec!["Val1.1A".to_string()]);
    outline.add_item(
        "Item 1.1.1",
        3,
        vec!["Val1.1.1A".to_string(), "Val1.1.1B".to_string()],
    );
    outline.add_item("Item 2", 1, vec!["Val2A".to_string()]);

    let generator = XlsxType3Generator::new(
        outline,
        XlsxType3GeneratorOptions {
            outline_rows: false,
            integrate_cells: Some(
                htot_conv::generator::base::IntegrateCellsOption::Colspan,
            ),
        },
    );
    let ops = generator.sheet_ops();

    // B1:D1, B2:D2, C3:D3, B5:D5 in 0-based rows and columns.
    assert_eq!(
        merge_tuples(&ops),
        vec![(0, 1, 0, 3), (1, 1, 1, 3), (2, 2, 2, 3), (4, 1, 4, 3)]
    );
    assert_eq!(cell_text(&ops, 1, 0), "Item 1");
    assert_eq!(cell_text(&ops, 2, 1), "Item 1.1");
    assert_eq!(cell_text(&ops, 3, 2), "Item 1.1.1");
    assert_eq!(cell_text(&ops, 4, 0), "Item 2");
}

#[test]
fn test_xlsx_type3_generator_integrate_cells_rowspan() {
    let mut outline = Outline::default();
    outline.key_header = vec!["Key Header 1".to_string()];
    outline.value_header = vec!["Value Header 1".to_string()];
    outline.add_item("Item 1", 1, vec!["Val1A".to_string()]);
    outline.add_item("Item 1.1", 2, vec!["Val1.1A".to_string()]);
    outline.add_item("Item 1.1.1", 3, vec!["Val1.1.1A".to_string()]);
    outline.add_item("Item 1.2", 2, vec!["Val1.2A".to_string()]);
    outline.add_item("Item 2", 1, vec!["Val2A".to_string()]);

    let generator = XlsxType3Generator::new(
        outline,
        XlsxType3GeneratorOptions {
            outline_rows: false,
            integrate_cells: Some(
                htot_conv::generator::base::IntegrateCellsOption::Rowspan,
            ),
        },
    );
    let ops = generator.sheet_ops();

    // A2:A5 and B3:B4 in 0-based rows and columns.
    assert_eq!(merge_tuples(&ops), vec![(1, 0, 4, 0), (2, 1, 3, 1)]);
    assert_eq!(cell_text(&ops, 1, 0), "Item 1");
    assert_eq!(cell_text(&ops, 2, 1), "Item 1.1");
    assert_eq!(cell_text(&ops, 3, 2), "Item 1.1.1");
    assert_eq!(cell_text(&ops, 4, 1), "Item 1.2");
    assert_eq!(cell_text(&ops, 5, 0), "Item 2");
}

#[test]
fn test_output_worksheet_basic_and_no_merge() {
    let outline = Outline {
        key_header: vec!["H1".into(), "H2".into(), "H3".into()],
        value_header: vec!["H(1)".into(), "H(2)".into()],
        item: vec![
            OutlineItem::new("1", 1, vec![]),
            OutlineItem::new("1.1", 2, vec!["1.1(1)".into(), "1.1(2)".into()]),
            OutlineItem::new("1.2", 2, vec![]),
            OutlineItem::new("1.2.1", 3, vec!["1.2.1(1)".into(), "1.2.1(2)".into()]),
        ],
    };

    let gen = XlsxType4Generator::new(
        outline.clone(),
        XlsxType4GeneratorOptions {
            integrate_cells: None,
        },
    );
    let ops = gen.sheet_ops();

    // Header row values
    assert_eq!(cell_text(&ops, 0, 0), "H1");
    assert_eq!(cell_text(&ops, 0, 1), "H2");
    assert_eq!(cell_text(&ops, 0, 2), "H3");
    assert_eq!(cell_text(&ops, 0, 3), "H(1)");
    assert_eq!(cell_text(&ops, 0, 4), "H(2)");

    // First data row: ["1", "1.1", "", "1.1(1)", "1.1(2)"]
    assert_eq!(cell_text(&ops, 1, 0), "1");
    assert_eq!(cell_text(&ops, 1, 1), "1.1");
    assert_eq!(cell_text(&ops, 1, 2), "");
    assert_eq!(cell_text(&ops, 1, 3), "1.1(1)");
    assert_eq!(cell_text(&ops, 1, 4), "1.1(2)");

    // Second data row: ["", "1.2", "1.2.1", "1.2.1(1)", "1.2.1(2)"]
    assert_eq!(cell_text(&ops, 2, 0), "");
    assert_eq!(cell_text(&ops, 2, 1), "1.2");
    assert_eq!(cell_text(&ops, 2, 2), "1.2.1");
    assert_eq!(cell_text(&ops, 2, 3), "1.2.1(1)");
    assert_eq!(cell_text(&ops, 2, 4), "1.2.1(2)");

    assert_eq!(ops.merges.len(), 0);

    // Only keys, no merges.
    let outline2 = Outline {
        key_header: vec!["H1".into(), "H2".into(), "H3".into()],
        value_header: vec![],
        item: vec![
            OutlineItem::new("1", 1, vec![]),
            OutlineItem::new("1.1", 2, vec![]),
            OutlineItem::new("1.2", 2, vec![]),
            OutlineItem::new("1.2.1", 3, vec![]),
        ],
    };

    let gen2 = XlsxType4Generator::new(
        outline2.clone(),
        XlsxType4GeneratorOptions {
            integrate_cells: None,
        },
    );
    let ops2 = gen2.sheet_ops();

    assert_eq!(cell_text(&ops2, 0, 0), "H1");
    assert_eq!(cell_text(&ops2, 0, 1), "H2");
    assert_eq!(cell_text(&ops2, 0, 2), "H3");

    assert_eq!(cell_text(&ops2, 1, 0), "1");
    assert_eq!(cell_text(&ops2, 1, 1), "1.1");
    assert_eq!(cell_text(&ops2, 1, 2), "");

    assert_eq!(cell_text(&ops2, 2, 0), "");
    assert_eq!(cell_text(&ops2, 2, 1), "1.2");
    assert_eq!(cell_text(&ops2, 2, 2), "1.2.1");

    assert_eq!(ops2.merges.len(), 0);
}

#[test]
fn test_output_worksheet_with_integrate_cells() {
    let outline = {
        let mut o = Outline::new();
        o.key_header = vec!["H1".into(), "H2".into(), "H3".into()];
        o.value_header = vec!["H(1)".into(), "H(2)".into()];
        o.add_item("1", 1, vec![]);
        o.add_item("1.1", 2, vec!["1.1(1)".into(), "1.1(2)".into()]);
        o.add_item("1.2", 2, vec![]);
        o.add_item("1.2.1", 3, vec!["1.2.1(1)".into(), "1.2.1(2)".into()]);
        o
    };

    // Colspan: B2:C2
    let gen_col = XlsxType4Generator::new(
        outline.clone(),
        XlsxType4GeneratorOptions {
            integrate_cells: Some(htot_conv::generator::base::IntegrateCellsOption::Colspan),
        },
    );
    let ops1 = gen_col.sheet_ops();
    assert_eq!(merge_tuples(&ops1), vec![(1, 1, 1, 2)]);

    // Rowspan: A2:A3
    let gen_row = XlsxType4Generator::new(
        outline.clone(),
        XlsxType4GeneratorOptions {
            integrate_cells: Some(htot_conv::generator::base::IntegrateCellsOption::Rowspan),
        },
    );
    let ops2 = gen_row.sheet_ops();
    assert_eq!(merge_tuples(&ops2), vec![(1, 0, 2, 0)]);

    // Both, on a key-only outline: A2:A3 and B2:B3 (in sorted order).
    let outline2 = {
        let mut o = Outline::new();
        o.key_header = vec!["H1".into(), "H2".into(), "H3".into()];
        o.value_header = vec![];
        o.add_item("1", 1, vec![]);
        o.add_item("1.1", 2, vec![]);
        o.add_item("1.1.1", 3, vec![]);
        o.add_item("1.1.2", 3, vec![]);
        o
    };
    let gen_both = XlsxType4Generator::new(
        outline2,
        XlsxType4GeneratorOptions {
            integrate_cells: Some(htot_conv::generator::base::IntegrateCellsOption::Both),
        },
    );
    let ops3 = gen_both.sheet_ops();
    let mut merged3 = merge_tuples(&ops3);
    merged3.sort();
    assert_eq!(merged3, vec![(1, 0, 2, 0), (1, 1, 2, 1)]);
}

fn create_reference_outline() -> Outline {
    let mut outline = Outline::new();
    outline.key_header = vec!["H1".into(), "H2".into(), "H3".into()];
    outline.value_header = vec!["H(1)".into(), "H(2)".into()];
    outline.add_item("1", 1, vec![]);
    outline.add_item("1.1", 2, vec!["1.1(1)".into(), "1.1(2)".into()]);
    outline.add_item("1.2", 2, vec![]);
    outline.add_item("1.2.1", 3, vec!["1.2.1(1)".into(), "1.2.1(2)".into()]);
    outline
}

#[test]
fn test_output_worksheet_basic() {
    let outline = create_reference_outline();
    let gen = XlsxType5Generator::new(
        outline,
        XlsxType5GeneratorOptions {
            integrate_cells: None,
            shironuri: false,
        },
    );
    let ops = gen.sheet_ops();

    // Header row values
    assert_eq!(cell_text(&ops, 0, 0), "H1");
    assert_eq!(cell_text(&ops, 0, 1), "H2");
    assert_eq!(cell_text(&ops, 0, 2), "H3");
    assert_eq!(cell_text(&ops, 0, 3), "H(1)");
    assert_eq!(cell_text(&ops, 0, 4), "H(2)");

    // Data row 1: parent keys repeated.
    assert_eq!(cell_text(&ops, 1, 0), "1");
    assert_eq!(cell_text(&ops, 1, 1), "1.1");
    assert_eq!(cell_text(&ops, 1, 2), "");
    assert_eq!(cell_text(&ops, 1, 3), "1.1(1)");
    assert_eq!(cell_text(&ops, 1, 4), "1.1(2)");

    // Data row 2: full path shown.
    assert_eq!(cell_text(&ops, 2, 0), "1");
    assert_eq!(cell_text(&ops, 2, 1), "1.2");
    assert_eq!(cell_text(&ops, 2, 2), "1.2.1");
    assert_eq!(cell_text(&ops, 2, 3), "1.2.1(1)");
    assert_eq!(cell_text(&ops, 2, 4), "1.2.1(2)");

    assert_eq!(ops.merges.len(), 0);
}

#[test]
fn test_xlsx_type5_generator_shironuri_enabled() {
    let outline = create_reference_outline();
    let options = XlsxType5GeneratorOptions {
        integrate_cells: None,
        shironuri: true,
    };
    let generator = XlsxType5Generator::new(outline, options);
    let ops = generator.sheet_ops();

    assert!(cell(&ops, 0, 0).style.white);
    assert!(ops.whitewash);
}

#[test]
fn test_xlsx_type5_generator_shironuri_disabled() {
    let outline = create_reference_outline();
    let options = XlsxType5GeneratorOptions {
        integrate_cells: None,
        shironuri: false,
    };
    let generator = XlsxType5Generator::new(outline, options);
    let ops = generator.sheet_ops();

    assert!(!cell(&ops, 0, 0).style.white);
    assert!(!ops.whitewash);
}

#[test]
fn test_output_worksheet_with_integrate_cells_colspan() {
    let outline = create_reference_outline();
    let gen = XlsxType5Generator::new(
        outline,
        XlsxType5GeneratorOptions {
            integrate_cells: Some(IntegrateCellsOption::Colspan),
            shironuri: false,
        },
    );
    let ops = gen.sheet_ops();

    // B2:C2 in 0-based rows and columns.
    assert_eq!(merge_tuples(&ops), vec![(1, 1, 1, 2)]);
}

#[test]
fn test_generators_write_to_worksheet() {
    // The full path: every generator plays its sheet onto a real worksheet
    // and the workbook serializes.
    let outline = create_reference_outline();

    let mut wb = Workbook::new();
    let g0 = XlsxType0Generator::new(outline.clone(), XlsxType0GeneratorOptions { shironuri: true });
    assert!(g0.output_to_worksheet(wb.add_worksheet()).is_ok());
    let g1 = XlsxType1Generator::new(
        outline.clone(),
        XlsxType1GeneratorOptions { outline_rows: true, shironuri: false },
    );
    assert!(g1.output_to_worksheet(wb.add_worksheet()).is_ok());
    let g2 = XlsxType2Generator::new(
        outline.clone(),
        XlsxType2GeneratorOptions {
            outline_rows: true,
            integrate_cells: Some(IntegrateCellsOption::Rowspan),
            shironuri: false,
        },
    );
    assert!(g2.output_to_worksheet(wb.add_worksheet()).is_ok());
    let g3 = XlsxType3Generator::new(
        outline.clone(),
        XlsxType3GeneratorOptions {
            outline_rows: false,
            integrate_cells: Some(htot_conv::generator::base::IntegrateCellsOption::Both),
        },
    );
    assert!(g3.output_to_worksheet(wb.add_worksheet()).is_ok());
    let g4 = XlsxType4Generator::new(
        outline.clone(),
        XlsxType4GeneratorOptions {
            integrate_cells: Some(htot_conv::generator::base::IntegrateCellsOption::Both),
        },
    );
    assert!(g4.output_to_worksheet(wb.add_worksheet()).is_ok());
    let g5 = XlsxType5Generator::new(
        outline.clone(),
        XlsxType5GeneratorOptions {
            integrate_cells: Some(IntegrateCellsOption::Colspan),
            shironuri: true,
        },
    );
    assert!(g5.output_to_worksheet(wb.add_worksheet()).is_ok());

    let bytes = wb.save_to_buffer().unwrap();
    assert!(!bytes.is_empty());
}

#[test]
fn test_empty_outline_header_row_only() {
    // An empty outline yields a header row only: no data rows, no merges,
    // no groups.
    let outline = Outline::new();
    let g0 = XlsxType0Generator::new(outline.clone(), XlsxType0GeneratorOptions::default());
    let ops = g0.sheet_ops();
    assert!(ops.cells.iter().all(|c| c.row == 0));
    assert_eq!(cell_text(&ops, 0, 1), "Outline Level");
    assert_eq!(ops.merges.len(), 0);
    assert_eq!(ops.groups.len(), 0);

    let g1 = XlsxType1Generator::new(
        outline.clone(),
        XlsxType1GeneratorOptions { outline_rows: true, shironuri: false },
    );
    let ops = g1.sheet_ops();
    assert!(ops.cells.iter().all(|c| c.row == 0));
    assert_eq!(ops.merges.len(), 0);
    assert_eq!(ops.groups.len(), 0);

    let g2 = XlsxType2Generator::new(
        outline.clone(),
        XlsxType2GeneratorOptions {
            outline_rows: true,
            integrate_cells: Some(IntegrateCellsOption::Colspan),
            shironuri: false,
        },
    );
    let ops = g2.sheet_ops();
    assert!(ops.cells.iter().all(|c| c.row == 0));
    assert_eq!(ops.merges.len(), 0);
    assert_eq!(ops.groups.len(), 0);
}

#[test]
fn test_level_written_in_decimal() {
    let mut outline = Outline::new();
    outline.add_item("deep", 1234567890, vec![]);
    // Keep the layout narrow: the flat layout shows the raw level number.
    let g0 = XlsxType0Generator::new(outline, XlsxType0GeneratorOptions::default());
    let ops = g0.sheet_ops();
    assert_eq!(cell_text(&ops, 1, 1), "1234567890");
}

fn assert_same_ops(a: &SheetOps, b: &SheetOps) {
    assert_eq!(a.whitewash, b.whitewash);
    assert_eq!(a.cells.len(), b.cells.len());
    for (x, y) in a.cells.iter().zip(b.cells.iter()) {
        assert_eq!((x.row, x.col, &x.text, x.style), (y.row, y.col, &y.text, y.style));
    }
    assert_eq!(a.formats, b.formats);
    assert_eq!(a.merges.len(), b.merges.len());
    for (x, y) in a.merges.iter().zip(b.merges.iter()) {
        assert_eq!(
            (x.first_row, x.first_col, x.last_row, x.last_col, &x.text, x.style),
            (y.first_row, y.first_col, y.last_row, y.last_col, &y.text, y.style)
        );
    }
    assert_eq!(a.groups, b.groups);
}

#[test]
fn test_rendering_is_idempotent() {
    // Re-rendering the same outline with the same options gives an identical
    // operation sequence.
    let outline = create_reference_outline();
    let g2 = XlsxType2Generator::new(
        outline.clone(),
        XlsxType2GeneratorOptions {
            outline_rows: true,
            integrate_cells: Some(IntegrateCellsOption::Rowspan),
            shironuri: true,
        },
    );
    assert_same_ops(&g2.sheet_ops(), &g2.sheet_ops());

    let g4 = XlsxType4Generator::new(
        outline.clone(),
        XlsxType4GeneratorOptions {
            integrate_cells: Some(htot_conv::generator::base::IntegrateCellsOption::Both),
        },
    );
    assert_same_ops(&g4.sheet_ops(), &g4.sheet_ops());

    let g5 = XlsxType5Generator::new(
        outline,
        XlsxType5GeneratorOptions {
            integrate_cells: Some(IntegrateCellsOption::Colspan),
            shironuri: false,
        },
    );
    assert_same_ops(&g5.sheet_ops(), &g5.sheet_ops());
}

#[test]
fn test_pad_array() {
    let arr = vec![Some("a".to_string()), None];
    let padded = htot_conv::generator::xlsx_type5::pad_array(arr, 4);
    assert_eq!(
        padded,
        vec![Some("a".to_string()), None, None, None]
    );
    let arr = vec![Some("a".to_string()), Some("b".to_string())];
    let padded = htot_conv::generator::xlsx_type5::pad_array(arr, 1);
    assert_eq!(padded, vec![Some("a".to_string()), Some("b".to_string())]);
}

#[test]
fn test_empty_outline_writes_ok() {
    // An empty outline with no headers asks nothing of the writer, so the
    // layouts without a header floor succeed outright.
    let outline = Outline::new();
    let mut wb = Workbook::new();
    let g2 = XlsxType2Generator::new(
        outline.clone(),
        XlsxType2GeneratorOptions {
            outline_rows: true,
            integrate_cells: Some(IntegrateCellsOption::Rowspan),
            shironuri: false,
        },
    );
    assert!(g2.output_to_worksheet(wb.add_worksheet()).is_ok());
    let g4 = XlsxType4Generator::new(
        outline.clone(),
        XlsxType4GeneratorOptions {
            integrate_cells: Some(htot_conv::generator::base::IntegrateCellsOption::Both),
        },
    );
    assert!(g4.output_to_worksheet(wb.add_worksheet()).is_ok());
    let g5 = XlsxType5Generator::new(
        outline,
        XlsxType5GeneratorOptions {
            integrate_cells: Some(IntegrateCellsOption::Colspan),
            shironuri: false,
        },
    );
    assert!(g5.output_to_worksheet(wb.add_worksheet()).is_ok());
}
