use texttable::cell::{Cell, CellType};
use texttable::table::{ColSchema, Column, Table};

fn sample_table() -> Table {
    let mut table = Table::new(vec![
        ColSchema::new("c1", CellType::Str),
        ColSchema::new("c2", CellType::Int),
        ColSchema::new("c3", CellType::Str),
    ]);
    table.add_row(&mut vec![
        Cell::new("A", CellType::Str),
        Cell::new("12", CellType::Int),
        Cell::new("XX", CellType::Str),
    ]);
    table.add_row(&mut vec![
        Cell::new("B", CellType::Str),
        Cell::new("10", CellType::Int),
        Cell::new("XX", CellType::Str),
    ]);
    table.add_row(&mut vec![
        Cell::new("A", CellType::Str),
        Cell::new("21", CellType::Int),
        Cell::new("YY", CellType::Str),
    ]);
    table
}

#[test]
fn fresh_table_has_height_zero() {
    let empty = Table::new(vec![]);
    assert_eq!(empty.height(), 0);
    assert_eq!(empty.width(), 0);
    let one = Table::new(vec![ColSchema::new("a", CellType::Str)]);
    assert_eq!(one.height(), 0);
    assert_eq!(one.width(), 1);
    let three = Table::new(vec![
        ColSchema::new("a", CellType::Str),
        ColSchema::new("b", CellType::Int),
        ColSchema::new("c", CellType::Date),
    ]);
    assert_eq!(three.height(), 0);
    assert_eq!(three.width(), 3);
}

#[test]
fn filled_table_renders() {
    let table = sample_table();
    assert_eq!(table.height(), 3);
    assert_eq!(table.width(), 3);
    let rendered = table.to_display_string();
    let first_line_end = rendered.find('\n').unwrap();
    assert_eq!(&rendered[..first_line_end + 1], "|c1:Str | c2:Int | c3:Str | \n");
    assert_eq!(
        rendered,
        "|c1:Str | c2:Int | c3:Str | \n|A | 12 | XX | \n|B | 10 | XX | \n|A | 21 | YY | \n"
    );
}

#[test]
fn add_row_drains_the_buffer() {
    let mut table = Table::new(vec![
        ColSchema::new("a", CellType::Str),
        ColSchema::new("b", CellType::Str),
    ]);
    let mut row = vec![
        Cell::new("x", CellType::Str),
        Cell::new("y", CellType::Str),
    ];
    table.add_row(&mut row);
    assert!(row.is_empty());
    assert_eq!(table.height(), 1);
}

#[test]
fn wrong_width_row_is_refused_without_mutation() {
    let mut table = sample_table();
    let before = table.to_display_string();
    let mut short_row = vec![Cell::new("Z", CellType::Str)];
    assert!(!table.try_add_row(&mut short_row));
    assert_eq!(short_row.len(), 1);
    assert_eq!(short_row[0].value, "Z");
    let mut long_row = vec![
        Cell::new("1", CellType::Str),
        Cell::new("2", CellType::Str),
        Cell::new("3", CellType::Str),
        Cell::new("4", CellType::Str),
    ];
    assert!(!table.try_add_row(&mut long_row));
    assert_eq!(long_row.len(), 4);
    assert_eq!(table.height(), 3);
    assert_eq!(table.width(), 3);
    assert_eq!(table.to_display_string(), before);
}

#[test]
fn matching_width_row_is_accepted() {
    let mut table = Table::new(vec![ColSchema::new("n", CellType::Int)]);
    let mut row = vec![Cell::new("5", CellType::Int)];
    assert!(table.try_add_row(&mut row));
    assert!(row.is_empty());
    assert_eq!(table.height(), 1);
    assert_eq!(table.to_display_string(), "|n:Int | \n|5 | \n");
}

#[test]
fn rendering_is_idempotent_and_read_only() {
    let table = sample_table();
    let h = table.height();
    let w = table.width();
    let first = table.to_display_string();
    let second = table.to_display_string();
    assert_eq!(first, second);
    assert_eq!(table.height(), h);
    assert_eq!(table.width(), w);
}

#[test]
fn empty_schema_table_renders_bare_lines() {
    let table = Table::new(vec![]);
    assert_eq!(table.to_display_string(), "|\n");
}

#[test]
fn column_accepts_cells_in_order() {
    let mut col = Column::new(ColSchema::new("vals", CellType::Int));
    col.add_cell(Cell::new("1", CellType::Int));
    col.add_cell(Cell::new("2", CellType::Int));
    assert_eq!(col.cells.len(), 2);
    assert_eq!(col.cells[0].value, "1");
    assert_eq!(col.cells[1].value, "2");
    assert_eq!(col.schema.name, "vals");
}

#[test]
fn schema_holds_name_and_type() {
    let s = ColSchema::new("count", CellType::Int);
    assert_eq!(s.name, "count");
    assert!(matches!(s.col_type, CellType::Int));
}
