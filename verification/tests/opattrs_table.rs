use kiss_conformance::opattrs_schema::{parse_table, FieldWidth, TableDecline};

const DOC: &str = "# Ops\n#### 6.19.2 Other\n| `early` | `a`:`u8`:mandatory |\n\
#### 6.19.3 OpAttrs schema (canonical field order = ABI)\n| op | fields |\n|---|---|\n\
| `reduce` | `monoid`:enum `u8`:mandatory (x) — `reduce_axes`:`u16` LE:mandatory (y) |\n\
| `pool` | `kernel`:`vec`:mandatory — `stride`:`u8`:mandatory |\r\nnot a row\n\
#### 6.19.4 Next\n| `late` | `z`:`u8` |\n";

#[test]
fn the_schema_table_is_read_from_its_section() {
    let t = parse_table(DOC).expect("the section has rows");
    assert_eq!(t.len(), 2);
    assert_eq!(t[0].op, "reduce");
    assert_eq!(t[0].fields.len(), 2);
    assert_eq!(t[0].fields[0].name, "monoid");
    assert_eq!(t[0].fields[0].encoding, "enum `u8`:mandatory (x)");
    assert_eq!(t[0].fields[0].width, FieldWidth::U8);
    assert_eq!(t[0].fields[1].name, "reduce_axes");
    assert_eq!(t[0].fields[1].width, FieldWidth::U16Le);
    assert_eq!(t[0].fixed_width(), Some(3));
    assert_eq!(t[1].op, "pool");
    assert_eq!(t[1].fields[0].width, FieldWidth::Variable);
    assert_eq!(t[1].fields[1].encoding, "`u8`:mandatory");
    assert_eq!(t[1].fixed_width(), None);
}

#[test]
fn a_missing_or_empty_section_is_declined() {
    assert_eq!(parse_table("#### 6.19.2\n| `a` | `b`:`u8` |\n"), Err(TableDecline::NoSection));
    assert_eq!(parse_table("#### 6.19.3\nno rows\n#### 6.19.4\n| `a` | `b`:`u8` |"), Err(TableDecline::EmptyTable));
}
