use atlast::dims::{parse_dim, parse_dims, parse_u32};
use atlast::index::{
    decimal_string, glyph_path, html_encoded_char, padded3_string,
    write_html_encoded_attribute_value, Index, IndexGlyph,
};

fn glyph(path: &str, descent: u32) -> IndexGlyph {
    IndexGlyph { path: path.to_string(), descent }
}

#[test]
fn decimal_strings() {
    assert_eq!(decimal_string(0), "0");
    assert_eq!(decimal_string(7), "7");
    assert_eq!(decimal_string(10), "10");
    assert_eq!(decimal_string(305), "305");
    assert_eq!(decimal_string(4294967295), "4294967295");
}

#[test]
fn padded_identifiers() {
    assert_eq!(padded3_string(0), "000");
    assert_eq!(padded3_string(7), "007");
    assert_eq!(padded3_string(45), "045");
    assert_eq!(padded3_string(999), "999");
    assert_eq!(padded3_string(1234), "1234");
    assert_eq!(glyph_path(0), "000.png");
    assert_eq!(glyph_path(12), "012.png");
    assert_eq!(glyph_path(1000), "1000.png");
}

#[test]
fn html_encoding() {
    assert_eq!(html_encoded_char('&'), Some("&amp;"));
    assert_eq!(html_encoded_char('<'), Some("&lt;"));
    assert_eq!(html_encoded_char('>'), Some("&gt;"));
    assert_eq!(html_encoded_char('"'), Some("&quot;"));
    assert_eq!(html_encoded_char('\''), Some("&#x27;"));
    assert_eq!(html_encoded_char('a'), None);

    let mut s = String::new();
    write_html_encoded_attribute_value(&mut s, "a&b<c>'d\"e.png");
    assert_eq!(s, "a&amp;b&lt;c&gt;&#x27;d&quot;e.png");
}

#[test]
fn img_tags() {
    assert_eq!(glyph("003.png", 0).to_img_tag(), "<img src='003.png'>");
    assert_eq!(
        glyph("003.png", 12).to_img_tag(),
        "<img src='003.png' data-descent=12>"
    );
    assert_eq!(
        glyph("a&b.png", 2).to_img_tag(),
        "<img src='a&amp;b.png' data-descent=2>"
    );
}

#[test]
fn whole_document() {
    let ix = Index {
        rows: vec![
            vec![glyph("000.png", 2), glyph("001.png", 0)],
            vec![glyph("002.png", 0)],
        ],
    };
    assert_eq!(ix.len(), 3);
    let html = ix.to_html();
    assert!(html.starts_with("\n<!DOCTYPE html>"));
    let listing = "<div data-atlas>\n  <div data-atlas=row>\n    <img src='000.png' data-descent=2>\n    <img src='001.png'>\n  </div>\n  <div data-atlas=row>\n    <img src='002.png'>\n  </div>\n</div>\n";
    assert!(html.ends_with(listing));
}

#[test]
fn document_of_empty_index() {
    let ix = Index { rows: vec![] };
    assert_eq!(ix.len(), 0);
    let html = ix.to_html();
    assert!(html.ends_with("<div data-atlas>\n</div>\n"));
}

#[test]
fn parse_numbers() {
    assert_eq!(parse_u32("0"), Some(0));
    assert_eq!(parse_u32("37"), Some(37));
    assert_eq!(parse_u32("+37"), Some(37));
    assert_eq!(parse_u32(""), None);
    assert_eq!(parse_u32("+"), None);
    assert_eq!(parse_u32("-1"), None);
    assert_eq!(parse_u32("3a"), None);
    assert_eq!(parse_u32(" 3"), None);
    assert_eq!(parse_u32("4294967295"), Some(u32::MAX));
    assert_eq!(parse_u32("4294967296"), None);
    assert_eq!(parse_u32("99999999999999999999"), None);
}

#[test]
fn parse_dimensions() {
    assert_eq!(parse_dim(""), Some(0));
    assert_eq!(parse_dim("64"), Some(64));
    assert_eq!(parse_dim("x"), None);
    assert_eq!(parse_dims("10x20"), Some((10, 20)));
    assert_eq!(parse_dims("x"), Some((0, 0)));
    assert_eq!(parse_dims("128x"), Some((128, 0)));
    assert_eq!(parse_dims("x256"), Some((0, 256)));
    assert_eq!(parse_dims("1020"), None);
    assert_eq!(parse_dims("3x4x5"), None);
    assert_eq!(parse_dims("ax4"), None);
}

#[test]
fn records_from_attributes() {
    let g = IndexGlyph::from_attrs("000.png".to_string(), None).unwrap();
    assert_eq!(g.path, "000.png");
    assert_eq!(g.descent, 0);

    let g = IndexGlyph::from_attrs("001.png".to_string(), Some("5")).unwrap();
    assert_eq!(g.descent, 5);

    let e = IndexGlyph::from_attrs("002.png".to_string(), Some("-1")).unwrap_err();
    assert_eq!(e.found, "-1");
    let e = IndexGlyph::from_attrs("003.png".to_string(), Some("4294967296")).unwrap_err();
    assert_eq!(e.found, "4294967296");
}
