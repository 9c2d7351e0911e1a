//! Metadata records for the glyphs of an atlas, and the composition of
//! loaded glyph images back into one atlas buffer.

use crate::bitmap::{Bitmap, Pixel};
use crate::point::Point;
use vstd::prelude::*;

verus! {

/// Width in pixels of the sentinel frame along the right and bottom edge
/// of every glyph.
pub const FRAME_WIDTH: u32 = 1;

/// The frame sentinel color, reserved for glyph borders.
pub open spec fn frame_color() -> Pixel {
    Pixel { r: 255, g: 0, b: 255, a: 0 }
}

/// The baseline marker color, reserved for the single pixel on a glyph's
/// right frame column that marks its baseline.
pub open spec fn baseline_color() -> Pixel {
    Pixel { r: 0, g: 255, b: 255, a: 0 }
}

/// The frame sentinel color as a value.
#[verifier::when_used_as_spec(frame_color)]
pub fn frame() -> (p: Pixel)
    ensures
        p == frame_color(),
{
    Pixel { r: 255, g: 0, b: 255, a: 0 }
}

/// The baseline marker color as a value.
#[verifier::when_used_as_spec(baseline_color)]
pub fn baseline() -> (p: Pixel)
    ensures
        p == baseline_color(),
{
    Pixel { r: 0, g: 255, b: 255, a: 0 }
}

/// True of the two reserved colors that may stand on a glyph's frame.
pub open spec fn spec_frameish(p: Pixel) -> bool {
    p == frame_color() || p == baseline_color()
}

/// True of the two reserved colors that may stand on a glyph's frame.
#[verifier::when_used_as_spec(spec_frameish)]
pub fn is_frameish(rgba: Pixel) -> (r: bool)
    ensures
        r == spec_frameish(rgba),
{
    rgba == frame() || rgba == baseline()
}

/// One manifest record: the identifier of a glyph's standalone image and
/// the glyph's descent.
#[derive(Debug, Clone)]
pub struct IndexGlyph {
    pub path: String,
    pub descent: u32,
}

/// The manifest of an atlas: ordered rows of records, top to bottom and
/// left to right, matching the glyph grid of the atlas.
#[derive(Debug, Clone)]
pub struct Index {
    pub rows: Vec<Vec<IndexGlyph>>,
}

/// A manifest record paired with the glyph's pixels.
#[derive(Debug)]
pub struct LoadedGlyph {
    pub glyph: IndexGlyph,
    pub image: Bitmap,
}

/// A manifest whose records all carry their glyph's pixels, ready to be
/// composed into an atlas.
#[derive(Debug)]
pub struct LoadedIndex {
    pub rows: Vec<Vec<LoadedGlyph>>,
}

impl LoadedIndex {
    /// The rows of loaded glyphs as mathematical sequences.
    pub open spec fn spec_rows(&self) -> Seq<Seq<LoadedGlyph>> {
        self.rows@.map_values(|r: Vec<LoadedGlyph>| r@)
    }

    /// Every loaded glyph carries a well-formed image.
    pub open spec fn wf(&self) -> bool {
        forall|i: int, j: int|
            0 <= i < self.spec_rows().len() && 0 <= j < self.spec_rows()[i].len() ==> (
            #[trigger] self.spec_rows()[i][j]).image.wf()
    }

    /// The manifest of this loaded index: the same records, without the
    /// pixels.
    pub fn to_index(&self) -> (ix: Index)
        ensures
            ix.spec_rows().len() == self.spec_rows().len(),
            forall|i: int|
                0 <= i < self.spec_rows().len() ==> #[trigger] ix.spec_rows()[i].len()
                    == self.spec_rows()[i].len(),
            forall|i: int, j: int|
                0 <= i < self.spec_rows().len() && 0 <= j < self.spec_rows()[i].len() ==> {
                    &&& (#[trigger] ix.spec_rows()[i][j]).path@ == self.spec_rows()[i][j].glyph.path@
                    &&& ix.spec_rows()[i][j].descent == self.spec_rows()[i][j].glyph.descent
                },
    {
        let mut rows: Vec<Vec<IndexGlyph>> = Vec::new();
        let mut i: usize = 0;
        while i < self.rows.len()
            invariant
                i <= self.rows@.len(),
                rows@.len() == i,
                forall|a: int|
                    0 <= a < i ==> #[trigger] rows@[a]@.len() == self.spec_rows()[a].len(),
                forall|a: int, b: int|
                    0 <= a < i && 0 <= b < rows@[a]@.len() ==> {
                        &&& (#[trigger] rows@[a]@[b]).path@ == self.spec_rows()[a][b].glyph.path@
                        &&& rows@[a]@[b].descent == self.spec_rows()[a][b].glyph.descent
                    },
            decreases self.rows@.len() - i,
        {
            let src = &self.rows[i];
            let mut row: Vec<IndexGlyph> = Vec::new();
            let mut j: usize = 0;
            while j < src.len()
                invariant
                    i < self.rows@.len(),
                    src == &self.rows@[i as int],
                    j <= src@.len(),
                    row@.len() == j,
                    forall|b: int|
                        0 <= b < j ==> {
                            &&& (#[trigger] row@[b]).path@ == src@[b].glyph.path@
                            &&& row@[b].descent == src@[b].glyph.descent
                        },
                decreases src@.len() - j,
            {
                let g = &src[j].glyph;
                row.push(IndexGlyph { path: g.path.clone(), descent: g.descent });
                j = j + 1;
            }
            rows.push(row);
            i = i + 1;
        }
        Index { rows }
    }
}

/// A `data-descent` attribute that does not read as a non-negative
/// integer; carries the offending text.
#[derive(Debug)]
pub struct DescentParseError {
    pub found: String,
}

impl IndexGlyph {
    /// Builds a record from the attribute values of its `<img>` element:
    /// the identifier from `src`, and the descent from `data-descent`,
    /// 0 when the attribute is absent. A `data-descent` value that is
    /// not a non-negative decimal integer is a fatal parse error,
    /// reported with the offending text.
    pub fn from_attrs(path: String, descent: Option<&str>) -> (r: Result<IndexGlyph, DescentParseError>)
        ensures
            match r {
                Ok(g) => {
                    &&& g.path@ == path@
                    &&& match descent {
                        None => g.descent == 0,
                        Some(s) => crate::dims::spec_parse_u32(s@) == Some(g.descent),
                    }
                },
                Err(e) => {
                    &&& descent is Some
                    &&& crate::dims::spec_parse_u32(descent->0@) is None
                    &&& e.found@ == descent->0@
                },
            },
    {
        match descent {
            None => Ok(IndexGlyph { path, descent: 0 }),
            Some(s) => match crate::dims::parse_u32(s) {
                Some(d) => Ok(IndexGlyph { path, descent: d }),
                None => Err(DescentParseError { found: s.to_owned() }),
            },
        }
    }
}

/// Total number of entries in ordered rows.
pub open spec fn spec_entry_count<T>(rows: Seq<Seq<T>>) -> int
    decreases rows.len(),
{
    if rows.len() == 0 {
        0
    } else {
        rows[0].len() + spec_entry_count(rows.drop_first())
    }
}

/// `n` clamped to the greatest representable `usize`.
pub open spec fn clamp_usize(n: int) -> int {
    if n > usize::MAX {
        usize::MAX as int
    } else {
        n
    }
}


/// The decimal digit character for `d` in 0 ..= 9.
pub open spec fn spec_digit(d: int) -> char {
    if d == 0 { '0' } else if d == 1 { '1' } else if d == 2 { '2' } else if d == 3 { '3' }
    else if d == 4 { '4' } else if d == 5 { '5' } else if d == 6 { '6' } else if d == 7 { '7' }
    else if d == 8 { '8' } else { '9' }
}

/// The decimal digits of `n` (which must not be negative), most
/// significant first, with no sign and no padding.
pub open spec fn spec_decimal(n: int) -> Seq<char>
    decreases n,
{
    if n < 10 {
        seq![spec_digit(n)]
    } else {
        spec_decimal(n / 10).push(spec_digit(n % 10))
    }
}

/// The decimal digits of `n`, left-padded with zeros to width 3.
pub open spec fn spec_padded3(n: int) -> Seq<char> {
    if n < 10 {
        seq!['0', '0'] + spec_decimal(n)
    } else if n < 100 {
        seq!['0'] + spec_decimal(n)
    } else {
        spec_decimal(n)
    }
}

/// The identifier of the glyph at row-major position `i`: its decimal
/// digits padded to width 3, with the image suffix.
pub open spec fn spec_glyph_path(i: int) -> Seq<char> {
    spec_padded3(i) + ".png"@
}

fn digit_str(d: u64) -> (s: &'static str)
    requires
        d < 10,
    ensures
        s@ == seq![spec_digit(d as int)],
{
    proof {
        reveal_strlit("0");
        reveal_strlit("1");
        reveal_strlit("2");
        reveal_strlit("3");
        reveal_strlit("4");
        reveal_strlit("5");
        reveal_strlit("6");
        reveal_strlit("7");
        reveal_strlit("8");
        reveal_strlit("9");
    }
    let s: &'static str = match d {
        0 => "0",
        1 => "1",
        2 => "2",
        3 => "3",
        4 => "4",
        5 => "5",
        6 => "6",
        7 => "7",
        8 => "8",
        _ => "9",
    };
    proof {
        assert(s@ =~= seq![spec_digit(d as int)]);
    }
    s
}

/// The decimal digits of `n` as a string, most significant first.
pub fn decimal_string(n: u64) -> (s: String)
    ensures
        s@ == spec_decimal(n as int),
    decreases n,
{
    if n < 10 {
        digit_str(n).to_owned()
    } else {
        let mut s = decimal_string(n / 10);
        s.append(digit_str(n % 10));
        proof {
            assert(spec_decimal(n as int / 10) + seq![spec_digit(n as int % 10)] =~= spec_decimal(
                n as int / 10,
            ).push(spec_digit(n as int % 10)));
        }
        s
    }
}

/// The decimal digits of `n` as a string, left-padded with zeros to
/// width 3.
pub fn padded3_string(n: u64) -> (s: String)
    ensures
        s@ == spec_padded3(n as int),
{
    proof {
        reveal_strlit("00");
        reveal_strlit("0");
        reveal_strlit("");
    }
    let mut s = String::from_str(
        if n < 10 {
            "00"
        } else if n < 100 {
            "0"
        } else {
            ""
        },
    );
    let d = decimal_string(n);
    s.append(d.as_str());
    proof {
        if n < 10 {
            assert("00"@ =~= seq!['0', '0']);
        } else if n < 100 {
            assert("0"@ =~= seq!['0']);
        } else {
            assert(""@ + spec_decimal(n as int) =~= spec_decimal(n as int));
        }
    }
    s
}

/// The identifier of the glyph at row-major position `i`.
pub fn glyph_path(i: usize) -> (s: String)
    ensures
        s@ == spec_glyph_path(i as int),
{
    let mut s = padded3_string(i as u64);
    s.append(".png");
    s
}

/// How one character reads inside an HTML attribute value: the five
/// delimiter characters as entities, every other character as itself.
pub open spec fn spec_enc_char(c: char) -> Seq<char> {
    if c == '&' {
        "&amp;"@
    } else if c == '<' {
        "&lt;"@
    } else if c == '>' {
        "&gt;"@
    } else if c == '"' {
        "&quot;"@
    } else if c == '\'' {
        "&#x27;"@
    } else {
        seq![c]
    }
}

/// `s` with every character encoded for an HTML attribute value.
pub open spec fn spec_html_encoded(s: Seq<char>) -> Seq<char>
    decreases s.len(),
{
    if s.len() == 0 {
        Seq::empty()
    } else {
        spec_enc_char(s[0]) + spec_html_encoded(s.drop_first())
    }
}

/// Encoding one more character extends the encoding of a prefix.
proof fn lemma_html_encoded_step(s: Seq<char>, i: int)
    requires
        0 <= i < s.len(),
    ensures
        spec_html_encoded(s.take(i + 1)) == spec_html_encoded(s.take(i)) + spec_enc_char(s[i]),
    decreases i,
{
    let a = s.take(i + 1);
    if i == 0 {
        assert(a.drop_first() =~= s.take(0));
        assert(spec_html_encoded(s.take(0)) =~= Seq::<char>::empty());
        assert(spec_enc_char(s[0]) + Seq::<char>::empty() =~= spec_enc_char(s[0]));
        assert(Seq::<char>::empty() + spec_enc_char(s[0]) =~= spec_enc_char(s[0]));
    } else {
        assert(a.drop_first() =~= s.drop_first().take(i));
        assert(s.take(i).drop_first() =~= s.drop_first().take(i - 1));
        lemma_html_encoded_step(s.drop_first(), i - 1);
        assert(spec_enc_char(s[0]) + (spec_html_encoded(s.drop_first().take(i - 1)) + spec_enc_char(
            s[i],
        )) =~= (spec_enc_char(s[0]) + spec_html_encoded(s.drop_first().take(i - 1))) + spec_enc_char(
            s[i],
        ));
    }
}

/// The entity for an HTML attribute delimiter character, or nothing for
/// a character that stands for itself.
pub fn html_encoded_char(c: char) -> (r: Option<&'static str>)
    ensures
        match r {
            Some(e) => e@ == spec_enc_char(c) && spec_enc_char(c) != seq![c],
            None => spec_enc_char(c) == seq![c],
        },
{
    proof {
        reveal_strlit("&amp;");
        reveal_strlit("&lt;");
        reveal_strlit("&gt;");
        reveal_strlit("&quot;");
        reveal_strlit("&#x27;");
    }
    match c {
        '&' => Some("&amp;"),
        '<' => Some("&lt;"),
        '>' => Some("&gt;"),
        '"' => Some("&quot;"),
        '\'' => Some("&#x27;"),
        _ => None,
    }
}

/// Appends `s` to `out`, encoding each character for use inside a
/// single-quoted HTML attribute value.
pub fn write_html_encoded_attribute_value(out: &mut String, s: &str)
    ensures
        final(out)@ == old(out)@ + spec_html_encoded(s@),
{
    let len = s.unicode_len();
    let mut i: usize = 0;
    proof {
        assert(s@.take(0) =~= Seq::<char>::empty());
        assert(old(out)@ + Seq::<char>::empty() =~= old(out)@);
    }
    while i < len
        invariant
            len == s@.len(),
            i <= len,
            out@ == old(out)@ + spec_html_encoded(s@.take(i as int)),
        decreases len - i,
    {
        let c = s.get_char(i);
        proof {
            lemma_html_encoded_step(s@, i as int);
        }
        match html_encoded_char(c) {
            Some(e) => {
                out.append(e);
            },
            None => {
                let piece = s.substring_char(i, i + 1);
                proof {
                    assert(s@.subrange(i as int, i as int + 1) =~= seq![s@[i as int]]);
                }
                out.append(piece);
            },
        }
        proof {
            assert(old(out)@ + (spec_html_encoded(s@.take(i as int)) + spec_enc_char(s@[i as int]))
                =~= (old(out)@ + spec_html_encoded(s@.take(i as int))) + spec_enc_char(
                s@[i as int],
            ));
        }
        i = i + 1;
    }
    proof {
        assert(s@.take(len as int) =~= s@);
    }
}


/// The HTML page header that precedes the atlas listing in a manifest.
pub open spec fn spec_html_header() -> Seq<char> {
    "
<!DOCTYPE html>
<head>
<meta name=\"viewport\" content=\"width=device-width,initial-scale=1\">
<script>
/* Browsers seem to scale up images based on the desktop's pixel ratio thing.
 * So try to reverse that so the images display accurately...? */
document.querySelector(':root')
	.style
	.setProperty('--ppiUnscale', 1.0 / window.devicePixelRatio)
</script>
<style>
body
  { background: #282828 }
[data-atlas]
  { display: flex; grid-gap: 1px }
[data-atlas='']
  { flex-direction: column;
    transform-origin: top left;
    scale: var(--ppiUnscale) }
</style>
</head>
"@
}

/// One glyph record as an `<img>` element: the identifier in the `src`
/// attribute, the descent, when positive, in `data-descent`.
pub open spec fn spec_img_tag(g: IndexGlyph) -> Seq<char> {
    "<img src='"@ + spec_html_encoded(g.path@) + (if g.descent > 0 {
        "' data-descent="@ + spec_decimal(g.descent as int) + ">"@
    } else {
        "'>"@
    })
}

/// The lines of one manifest row: each glyph's element, indented.
pub open spec fn spec_row_html(row: Seq<IndexGlyph>) -> Seq<char>
    decreases row.len(),
{
    if row.len() == 0 {
        Seq::empty()
    } else {
        "    "@ + spec_img_tag(row[0]) + "\n"@ + spec_row_html(row.drop_first())
    }
}

/// The row containers of a manifest, in order.
pub open spec fn spec_rows_html(rows: Seq<Seq<IndexGlyph>>) -> Seq<char>
    decreases rows.len(),
{
    if rows.len() == 0 {
        Seq::empty()
    } else {
        "  <div data-atlas=row>\n"@ + spec_row_html(rows[0]) + "  </div>\n"@ + spec_rows_html(
            rows.drop_first(),
        )
    }
}

/// The whole manifest document for ordered rows of records.
pub open spec fn spec_to_html(rows: Seq<Seq<IndexGlyph>>) -> Seq<char> {
    spec_html_header() + "<div data-atlas>\n"@ + spec_rows_html(rows) + "</div>\n"@
}

/// One more glyph extends the lines of a row prefix.
proof fn lemma_row_html_step(row: Seq<IndexGlyph>, i: int)
    requires
        0 <= i < row.len(),
    ensures
        spec_row_html(row.take(i + 1)) == spec_row_html(row.take(i)) + ("    "@ + spec_img_tag(
            row[i],
        ) + "\n"@),
    decreases i,
{
    let piece = "    "@ + spec_img_tag(row[i]) + "\n"@;
    let a = row.take(i + 1);
    if i == 0 {
        assert(a.drop_first() =~= row.take(0));
        assert(spec_row_html(row.take(0)) =~= Seq::<char>::empty());
        assert(piece + Seq::<char>::empty() =~= piece);
        assert(Seq::<char>::empty() + piece =~= piece);
    } else {
        assert(a.drop_first() =~= row.drop_first().take(i));
        assert(row.take(i).drop_first() =~= row.drop_first().take(i - 1));
        lemma_row_html_step(row.drop_first(), i - 1);
        let head = "    "@ + spec_img_tag(row[0]) + "\n"@;
        assert(head + (spec_row_html(row.drop_first().take(i - 1)) + piece) =~= (head
            + spec_row_html(row.drop_first().take(i - 1))) + piece);
    }
}

/// One more row extends the row containers of a prefix.
proof fn lemma_rows_html_step(rows: Seq<Seq<IndexGlyph>>, i: int)
    requires
        0 <= i < rows.len(),
    ensures
        spec_rows_html(rows.take(i + 1)) == spec_rows_html(rows.take(i)) + (
        "  <div data-atlas=row>\n"@ + spec_row_html(rows[i]) + "  </div>\n"@),
    decreases i,
{
    let piece = "  <div data-atlas=row>\n"@ + spec_row_html(rows[i]) + "  </div>\n"@;
    let a = rows.take(i + 1);
    if i == 0 {
        assert(a.drop_first() =~= rows.take(0));
        assert(spec_rows_html(rows.take(0)) =~= Seq::<char>::empty());
        assert(piece + Seq::<char>::empty() =~= piece);
        assert(Seq::<char>::empty() + piece =~= piece);
    } else {
        assert(a.drop_first() =~= rows.drop_first().take(i));
        assert(rows.take(i).drop_first() =~= rows.drop_first().take(i - 1));
        lemma_rows_html_step(rows.drop_first(), i - 1);
        let head = "  <div data-atlas=row>\n"@ + spec_row_html(rows[0]) + "  </div>\n"@;
        assert(head + (spec_rows_html(rows.drop_first().take(i - 1)) + piece) =~= (head
            + spec_rows_html(rows.drop_first().take(i - 1))) + piece);
    }
}

impl IndexGlyph {
    /// Renders this record as its `<img>` element.
    pub fn to_img_tag(&self) -> (r: String)
        ensures
            r@ == spec_img_tag(*self),
    {
        let mut s = String::from_str("<img src='");
        write_html_encoded_attribute_value(&mut s, self.path.as_str());
        if self.descent > 0 {
            s.append("' data-descent=");
            let d = decimal_string(self.descent as u64);
            s.append(d.as_str());
            s.append(">");
            proof {
                assert(((("<img src='"@ + spec_html_encoded(self.path@)) + "' data-descent="@)
                    + spec_decimal(self.descent as int)) + ">"@ =~= spec_img_tag(*self));
            }
        } else {
            s.append("'>");
            proof {
                assert(("<img src='"@ + spec_html_encoded(self.path@)) + "'>"@ =~= spec_img_tag(
                    *self,
                ));
            }
        }
        s
    }
}

impl Index {
    /// The rows of records as mathematical sequences.
    pub open spec fn spec_rows(&self) -> Seq<Seq<IndexGlyph>> {
        self.rows@.map_values(|r: Vec<IndexGlyph>| r@)
    }

    /// Total number of records, saturating at the greatest representable
    /// count.
    pub fn len(&self) -> (r: usize)
        ensures
            r == clamp_usize(spec_entry_count(self.spec_rows())),
    {
        let mut total: usize = 0;
        let mut i: usize = 0;
        proof {
            lemma_entry_count_take(self.spec_rows(), 0);
        }
        while i < self.rows.len()
            invariant
                i <= self.rows@.len(),
                total == clamp_usize(spec_entry_count(self.spec_rows().take(i as int))),
            decreases self.rows@.len() - i,
        {
            proof {
                lemma_entry_count_take_step(self.spec_rows(), i as int);
                lemma_entry_count_nonneg(self.spec_rows().take(i as int));
            }
            total = total.saturating_add(self.rows[i].len());
            i = i + 1;
        }
        proof {
            assert(self.spec_rows().take(self.rows@.len() as int) =~= self.spec_rows());
        }
        total
    }

    /// Renders the manifest as an HTML document: the fixed header, then
    /// one container per row holding one `<img>` element per record.
    pub fn to_html(&self) -> (r: String)
        ensures
            r@ == spec_to_html(self.spec_rows()),
    {
        // This literal must stay character for character the one in
        // `spec_html_header`: two equal literals have equal views.
        let mut s = String::from_str(
            "
<!DOCTYPE html>
<head>
<meta name=\"viewport\" content=\"width=device-width,initial-scale=1\">
<script>
/* Browsers seem to scale up images based on the desktop's pixel ratio thing.
 * So try to reverse that so the images display accurately...? */
document.querySelector(':root')
	.style
	.setProperty('--ppiUnscale', 1.0 / window.devicePixelRatio)
</script>
<style>
body
  { background: #282828 }
[data-atlas]
  { display: flex; grid-gap: 1px }
[data-atlas='']
  { flex-direction: column;
    transform-origin: top left;
    scale: var(--ppiUnscale) }
</style>
</head>
",
        );
        s.append("<div data-atlas>\n");

        let ghost rows = self.spec_rows();
        proof {
            assert(rows.take(0) =~= Seq::<Seq<IndexGlyph>>::empty());
            assert(spec_rows_html(rows.take(0)) =~= Seq::<char>::empty());
            assert(s@ + Seq::<char>::empty() =~= s@);
        }
        let ghost base = s@;
        let mut i: usize = 0;
        while i < self.rows.len()
            invariant
                rows == self.spec_rows(),
                rows.len() == self.rows@.len(),
                i <= self.rows@.len(),
                base == spec_html_header() + "<div data-atlas>\n"@,
                s@ == base + spec_rows_html(rows.take(i as int)),
            decreases self.rows@.len() - i,
        {
            s.append("  <div data-atlas=row>\n");
            let ghost row = rows[i as int];
            proof {
                assert(row.take(0) =~= Seq::<IndexGlyph>::empty());
                assert(spec_row_html(row.take(0)) =~= Seq::<char>::empty());
                assert(s@ + Seq::<char>::empty() =~= s@);
            }
            let ghost rowbase = s@;
            let mut j: usize = 0;
            while j < self.rows[i].len()
                invariant
                    rows == self.spec_rows(),
                    rows.len() == self.rows@.len(),
                    i < self.rows@.len(),
                    row == rows[i as int],
                    row.len() == self.rows@[i as int]@.len(),
                    j <= row.len(),
                    s@ == rowbase + spec_row_html(row.take(j as int)),
                decreases self.rows@[i as int]@.len() - j,
            {
                s.append("    ");
                let tag = self.rows[i][j].to_img_tag();
                s.append(tag.as_str());
                s.append("\n");
                proof {
                    lemma_row_html_step(row, j as int);
                    assert((((rowbase + spec_row_html(row.take(j as int))) + "    "@)
                        + spec_img_tag(row[j as int])) + "\n"@ =~= rowbase + spec_row_html(
                        row.take(j as int + 1),
                    ));
                }
                j = j + 1;
            }
            s.append("  </div>\n");
            proof {
                assert(row.take(row.len() as int) =~= row);
                lemma_rows_html_step(rows, i as int);
                assert((rowbase + spec_row_html(row)) + "  </div>\n"@ =~= (base + spec_rows_html(
                    rows.take(i as int),
                )) + ("  <div data-atlas=row>\n"@ + spec_row_html(row) + "  </div>\n"@));
                assert((base + spec_rows_html(rows.take(i as int))) + (
                "  <div data-atlas=row>\n"@ + spec_row_html(row) + "  </div>\n"@) =~= base
                    + spec_rows_html(rows.take(i as int + 1)));
            }
            i = i + 1;
        }
        s.append("</div>\n");
        proof {
            assert(rows.take(rows.len() as int) =~= rows);
            assert((base + spec_rows_html(rows)) + "</div>\n"@ =~= spec_to_html(rows));
        }
        s
    }
}

/// The entry count of a prefix grows by the length of the next row.
pub proof fn lemma_entry_count_take_step<T>(rows: Seq<Seq<T>>, i: int)
    requires
        0 <= i < rows.len(),
    ensures
        spec_entry_count(rows.take(i + 1)) == spec_entry_count(rows.take(i)) + rows[i].len(),
    decreases i,
{
    let a = rows.take(i + 1);
    if i == 0 {
        assert(a.drop_first() =~= rows.take(0));
    } else {
        assert(a.drop_first() =~= rows.drop_first().take(i));
        assert(rows.take(i).drop_first() =~= rows.drop_first().take(i - 1));
        lemma_entry_count_take_step(rows.drop_first(), i - 1);
    }
}

/// An entry count is never negative.
pub proof fn lemma_entry_count_nonneg<T>(rows: Seq<Seq<T>>)
    ensures
        spec_entry_count(rows) >= 0,
    decreases rows.len(),
{
    if rows.len() > 0 {
        lemma_entry_count_nonneg(rows.drop_first());
    }
}

/// The entry count of a prefix never exceeds the whole count.
pub proof fn lemma_entry_count_mono<T>(rows: Seq<Seq<T>>, i: int)
    requires
        0 <= i <= rows.len(),
    ensures
        spec_entry_count(rows.take(i)) <= spec_entry_count(rows),
    decreases rows.len() - i,
{
    if i == rows.len() {
        assert(rows.take(i) =~= rows);
    } else {
        lemma_entry_count_take_step(rows, i);
        lemma_entry_count_mono(rows, i + 1);
    }
}

pub proof fn lemma_entry_count_take<T>(rows: Seq<Seq<T>>, i: int)
    requires
        i == 0,
    ensures
        spec_entry_count(rows.take(i)) == 0,
{
    assert(rows.take(0).len() == 0);
}


/// `n` clamped to the greatest representable `u32`.
pub open spec fn clamp_u32(n: int) -> int {
    if n > u32::MAX {
        u32::MAX as int
    } else {
        n
    }
}

/// The width a row occupies: each glyph image plus its one-pixel frame
/// column.
pub open spec fn spec_row_width(row: Seq<LoadedGlyph>) -> int
    decreases row.len(),
{
    if row.len() == 0 {
        0
    } else {
        spec_row_width(row.take(row.len() - 1)) + row.last().image.spec_width() + FRAME_WIDTH
    }
}

/// The width of the widest row.
pub open spec fn spec_widest(rows: Seq<Seq<LoadedGlyph>>) -> int
    decreases rows.len(),
{
    if rows.len() == 0 {
        0
    } else {
        vstd::math::max(spec_widest(rows.take(rows.len() - 1)), spec_row_width(rows.last()))
    }
}

/// The height a row occupies: its tallest glyph image plus the one-pixel
/// frame row; 0 for an empty row.
pub open spec fn spec_row_height(row: Seq<LoadedGlyph>) -> int
    decreases row.len(),
{
    if row.len() == 0 {
        0
    } else {
        vstd::math::max(
            spec_row_height(row.take(row.len() - 1)),
            row.last().image.spec_height() + FRAME_WIDTH,
        )
    }
}

/// The height all rows occupy together.
pub open spec fn spec_total_height(rows: Seq<Seq<LoadedGlyph>>) -> int
    decreases rows.len(),
{
    if rows.len() == 0 {
        0
    } else {
        spec_total_height(rows.take(rows.len() - 1)) + spec_row_height(rows.last())
    }
}

/// The width of a row, read from its first glyph: that glyph's image
/// and frame column, then the rest.
pub proof fn lemma_row_width_cons(row: Seq<LoadedGlyph>)
    requires
        row.len() > 0,
    ensures
        spec_row_width(row) == row[0].image.spec_width() + FRAME_WIDTH + spec_row_width(
            row.drop_first(),
        ),
    decreases row.len(),
{
    if row.len() == 1 {
        assert(row.take(0) =~= Seq::<LoadedGlyph>::empty());
        assert(row.drop_first() =~= Seq::<LoadedGlyph>::empty());
    } else {
        let head = row.take(row.len() - 1);
        lemma_row_width_cons(head);
        assert(head.drop_first() =~= row.drop_first().take(row.len() - 2));
        assert(row.drop_first().last() == row.last());
        assert(head[0] == row[0]);
    }
}

pub proof fn lemma_row_width_step(row: Seq<LoadedGlyph>, j: int)
    requires
        0 <= j < row.len(),
    ensures
        spec_row_width(row.take(j + 1)) == spec_row_width(row.take(j)) + row[j].image.spec_width()
            + FRAME_WIDTH,
{
    let t = row.take(j + 1);
    assert(t.take(j) =~= row.take(j));
    assert(t.last() == row[j]);
}

pub proof fn lemma_row_width_nonneg(row: Seq<LoadedGlyph>)
    ensures
        spec_row_width(row) >= 0,
    decreases row.len(),
{
    broadcast use crate::bitmap::lemma_bitmap_dims;

    if row.len() > 0 {
        lemma_row_width_nonneg(row.take(row.len() - 1));
    }
}

/// A row whose first glyph is its tallest occupies that glyph's image
/// height plus the frame row.
pub proof fn lemma_row_height_of_first(row: Seq<LoadedGlyph>)
    requires
        row.len() > 0,
        forall|k: int|
            0 <= k < row.len() ==> (#[trigger] row[k]).image.spec_height()
                <= row[0].image.spec_height(),
    ensures
        spec_row_height(row) == row[0].image.spec_height() + FRAME_WIDTH,
    decreases row.len(),
{
    broadcast use crate::bitmap::lemma_bitmap_dims;

    if row.len() == 1 {
        assert(row.take(0) =~= Seq::<LoadedGlyph>::empty());
        assert(spec_row_height(Seq::<LoadedGlyph>::empty()) == 0);
        assert(row.last() == row[0]);
    } else {
        let head = row.take(row.len() - 1);
        assert(head[0] == row[0]);
        assert forall|k: int| 0 <= k < head.len() implies (#[trigger] head[k]).image.spec_height()
            <= head[0].image.spec_height() by {
            assert(head[k] == row[k]);
        }
        lemma_row_height_of_first(head);
        assert(row.last().image.spec_height() <= row[0].image.spec_height());
    }
}

/// No row is wider than the widest.
pub proof fn lemma_widest_bounds(rows: Seq<Seq<LoadedGlyph>>, i: int)
    requires
        0 <= i < rows.len(),
    ensures
        spec_row_width(rows[i]) <= spec_widest(rows),
    decreases rows.len(),
{
    let head = rows.take(rows.len() - 1);
    if i == rows.len() - 1 {
        assert(rows.last() == rows[i]);
        lemma_widest_nonneg(head);
    } else {
        assert(head[i] == rows[i]);
        lemma_widest_bounds(head, i);
        lemma_row_width_nonneg(rows.last());
    }
}

/// No row is taller than all rows together.
pub proof fn lemma_total_height_bounds(rows: Seq<Seq<LoadedGlyph>>, i: int)
    requires
        0 <= i < rows.len(),
    ensures
        spec_row_height(rows[i]) <= spec_total_height(rows),
    decreases rows.len(),
{
    let head = rows.take(rows.len() - 1);
    if i == rows.len() - 1 {
        assert(rows.last() == rows[i]);
        lemma_total_height_nonneg(head);
    } else {
        assert(head[i] == rows[i]);
        lemma_total_height_bounds(head, i);
        lemma_row_height_nonneg(rows.last());
    }
}

/// The heights of all rows, read from the first row: that row's
/// height, then the rest.
pub proof fn lemma_total_height_cons(rows: Seq<Seq<LoadedGlyph>>)
    requires
        rows.len() > 0,
    ensures
        spec_total_height(rows) == spec_row_height(rows[0]) + spec_total_height(
            rows.drop_first(),
        ),
    decreases rows.len(),
{
    if rows.len() == 1 {
        assert(rows.take(0) =~= Seq::<Seq<LoadedGlyph>>::empty());
        assert(rows.drop_first() =~= Seq::<Seq<LoadedGlyph>>::empty());
        assert(spec_total_height(Seq::<Seq<LoadedGlyph>>::empty()) == 0);
        assert(rows.last() == rows[0]);
    } else {
        let head = rows.take(rows.len() - 1);
        lemma_total_height_cons(head);
        assert(head.drop_first() =~= rows.drop_first().take(rows.len() - 2));
        assert(rows.drop_first().last() == rows.last());
        assert(head[0] == rows[0]);
    }
}

/// A row is taller than every glyph image in it.
pub proof fn lemma_row_height_bounds(row: Seq<LoadedGlyph>, k: int)
    requires
        0 <= k < row.len(),
    ensures
        row[k].image.spec_height() + FRAME_WIDTH <= spec_row_height(row),
    decreases row.len(),
{
    let head = row.take(row.len() - 1);
    if k == row.len() - 1 {
        assert(row.last() == row[k]);
        lemma_row_height_nonneg(head);
    } else {
        assert(head[k] == row[k]);
        lemma_row_height_bounds(head, k);
    }
}

proof fn lemma_widest_step(rows: Seq<Seq<LoadedGlyph>>, i: int)
    requires
        0 <= i < rows.len(),
    ensures
        spec_widest(rows.take(i + 1)) == vstd::math::max(
            spec_widest(rows.take(i)),
            spec_row_width(rows[i]),
        ),
{
    let t = rows.take(i + 1);
    assert(t.take(i) =~= rows.take(i));
    assert(t.last() == rows[i]);
}

pub proof fn lemma_widest_nonneg(rows: Seq<Seq<LoadedGlyph>>)
    ensures
        spec_widest(rows) >= 0,
    decreases rows.len(),
{
    if rows.len() > 0 {
        lemma_widest_nonneg(rows.take(rows.len() - 1));
        lemma_row_width_nonneg(rows.last());
    }
}

proof fn lemma_row_height_step(row: Seq<LoadedGlyph>, j: int)
    requires
        0 <= j < row.len(),
    ensures
        spec_row_height(row.take(j + 1)) == vstd::math::max(
            spec_row_height(row.take(j)),
            row[j].image.spec_height() + FRAME_WIDTH,
        ),
{
    let t = row.take(j + 1);
    assert(t.take(j) =~= row.take(j));
    assert(t.last() == row[j]);
}

pub proof fn lemma_row_height_nonneg(row: Seq<LoadedGlyph>)
    ensures
        spec_row_height(row) >= 0,
    decreases row.len(),
{
    if row.len() > 0 {
        lemma_row_height_nonneg(row.take(row.len() - 1));
    }
}

proof fn lemma_total_height_step(rows: Seq<Seq<LoadedGlyph>>, i: int)
    requires
        0 <= i < rows.len(),
    ensures
        spec_total_height(rows.take(i + 1)) == spec_total_height(rows.take(i)) + spec_row_height(
            rows[i],
        ),
{
    let t = rows.take(i + 1);
    assert(t.take(i) =~= rows.take(i));
    assert(t.last() == rows[i]);
}

pub proof fn lemma_total_height_nonneg(rows: Seq<Seq<LoadedGlyph>>)
    ensures
        spec_total_height(rows) >= 0,
    decreases rows.len(),
{
    if rows.len() > 0 {
        lemma_total_height_nonneg(rows.take(rows.len() - 1));
        lemma_row_height_nonneg(rows.last());
    }
}

/// What one pixel of a canvas of width `cw` reads after glyph image `g`
/// is copied with its top-left pixel at (tx, ty) and, for a positive
/// `descent`, the baseline marker is stamped one column right of the
/// image, `descent` rows above its bottom.
pub open spec fn spec_copy_pixel(
    c: Seq<Pixel>,
    cw: int,
    g: Bitmap,
    tx: int,
    ty: int,
    descent: int,
    x: int,
    y: int,
) -> Pixel {
    if descent > 0 && x == tx + g.spec_width() && y == ty + (if descent <= g.spec_height() {
        g.spec_height() - descent
    } else {
        0
    }) {
        baseline_color()
    } else if tx <= x < tx + g.spec_width() && ty <= y < ty + g.spec_height() {
        g.at(x - tx, y - ty)
    } else {
        c[y * cw + x]
    }
}

/// A canvas of width `cw` after one glyph copy, pixel for pixel; parts
/// of the glyph outside the canvas are clipped silently.
pub open spec fn spec_copy(
    cw: int,
    c: Seq<Pixel>,
    g: Bitmap,
    tx: int,
    ty: int,
    descent: int,
) -> Seq<Pixel> {
    Seq::new(c.len(), |k: int| spec_copy_pixel(c, cw, g, tx, ty, descent, k % cw, k / cw))
}

/// A canvas after the glyphs of one row are copied left to right from
/// origin (x, y), each advancing the origin by its width plus the frame
/// column; an advance past the greatest coordinate stops the row.
pub open spec fn spec_place_row(
    cw: int,
    c: Seq<Pixel>,
    row: Seq<LoadedGlyph>,
    x: int,
    y: int,
) -> Seq<Pixel>
    decreases row.len(),
{
    if row.len() == 0 {
        c
    } else {
        let g = row[0];
        let c2 = spec_copy(cw, c, g.image, x, y, g.glyph.descent as int);
        let nx = x + g.image.spec_width() + FRAME_WIDTH;
        if nx > u32::MAX {
            c2
        } else {
            spec_place_row(cw, c2, row.drop_first(), nx, y)
        }
    }
}

/// A canvas after all rows are copied top to bottom from row origin
/// `y`, each advancing the origin by its height plus the frame row; an
/// advance past the greatest coordinate stops the walk.
pub open spec fn spec_place_rows(
    cw: int,
    c: Seq<Pixel>,
    rows: Seq<Seq<LoadedGlyph>>,
    y: int,
) -> Seq<Pixel>
    decreases rows.len(),
{
    if rows.len() == 0 {
        c
    } else {
        let c2 = spec_place_row(cw, c, rows[0], 0, y);
        let ny = y + clamp_u32(spec_row_height(rows[0]));
        if ny > u32::MAX {
            c2
        } else {
            spec_place_rows(cw, c2, rows.drop_first(), ny)
        }
    }
}

/// A `w` by `h` canvas with every pixel set to the frame sentinel.
pub open spec fn spec_frame_canvas(w: int, h: int) -> Seq<Pixel> {
    Seq::new((w * h) as nat, |k: int| frame_color())
}

/// The canvas a compose of `rows` produces at size `w` by `h`.
pub open spec fn spec_compose(rows: Seq<Seq<LoadedGlyph>>, w: int, h: int) -> Seq<Pixel> {
    spec_place_rows(w, spec_frame_canvas(w, h), rows, 0)
}

/// The atlas width used for a requested width: 0 means automatic, the
/// width of the widest row.
pub open spec fn spec_atlas_width(rows: Seq<Seq<LoadedGlyph>>, req: u32) -> int {
    if req == 0 {
        if rows.len() == 0 {
            0
        } else {
            clamp_u32(spec_widest(rows))
        }
    } else {
        req as int
    }
}

/// The atlas height used for a requested height: 0 means automatic, the
/// heights of all rows together.
pub open spec fn spec_atlas_height(rows: Seq<Seq<LoadedGlyph>>, req: u32) -> int {
    if req == 0 {
        clamp_u32(spec_total_height(rows))
    } else {
        req as int
    }
}

/// A refused atlas size: a zero dimension, or more pixels than the
/// address space can hold.
#[derive(Debug, Clone, Copy, PartialEq, Eq, Structural)]
pub struct SizeError {
    pub width: u32,
    pub height: u32,
}

/// Copies `glyph_image` into `atlas` with its top-left pixel at
/// `topleft`, clipping silently wherever the image runs past the canvas;
/// when `descent` is positive, additionally stamps the baseline marker
/// pixel one column right of the image, `descent` rows above its bottom,
/// provided that pixel lies on the canvas.
#[verifier::loop_isolation(false)]
pub fn copy_glyph_to_atlas(atlas: &mut Bitmap, topleft: Point, glyph_image: &Bitmap, descent: u32)
    requires
        old(atlas).wf(),
        glyph_image.wf(),
    ensures
        final(atlas).wf(),
        final(atlas).spec_width() == old(atlas).spec_width(),
        final(atlas).spec_height() == old(atlas).spec_height(),
        final(atlas).flat() == spec_copy(
            old(atlas).spec_width(),
            old(atlas).flat(),
            *glyph_image,
            topleft.x as int,
            topleft.y as int,
            descent as int,
        ),
{
    broadcast use crate::bitmap::lemma_bitmap_dims;
    broadcast use crate::bitmap::lemma_bitmap_flat_len;
    broadcast use crate::bitmap::lemma_bitmap_flat_at;

    let ghost cw = old(atlas).spec_width();
    let ghost ch = old(atlas).spec_height();
    let tx = topleft.x;
    let ty = topleft.y;
    let gw = glyph_image.width();
    let gh = glyph_image.height();
    let mut dy: u32 = 0;
    while dy < gh
        invariant
            atlas.wf(),
            glyph_image.wf(),
            atlas.spec_width() == cw,
            atlas.spec_height() == ch,
            gw == glyph_image.spec_width(),
            gh == glyph_image.spec_height(),
            dy <= gh,
            forall|x: int, y: int|
                atlas.in_bounds(x, y) ==> #[trigger] atlas.at(x, y) == (if tx <= x < tx + gw && ty
                    <= y < ty + dy {
                    glyph_image.at(x - tx, y - ty)
                } else {
                    old(atlas).at(x, y)
                }),
        decreases gh - dy,
    {
        let mut dx: u32 = 0;
        while dx < gw
            invariant
                atlas.wf(),
                glyph_image.wf(),
                atlas.spec_width() == cw,
                atlas.spec_height() == ch,
                gw == glyph_image.spec_width(),
                gh == glyph_image.spec_height(),
                dx <= gw,
                dy < gh,
                forall|x: int, y: int|
                    atlas.in_bounds(x, y) ==> #[trigger] atlas.at(x, y) == (if tx <= x < tx + gw
                        && ty <= y < ty + dy {
                        glyph_image.at(x - tx, y - ty)
                    } else if y == ty + dy && tx <= x < tx + dx {
                        glyph_image.at(x - tx, y - ty)
                    } else {
                        old(atlas).at(x, y)
                    }),
            decreases gw - dx,
        {
            let px = match glyph_image.get(dx, dy) {
                Some(p) => p,
                None => vstd::pervasive::unreached(),
            };
            match tx.checked_add(dx) {
                Some(cx) => match ty.checked_add(dy) {
                    Some(cy) => {
                        atlas.put(cx, cy, px);
                    },
                    None => {},
                },
                None => {},
            }
            dx = dx + 1;
        }
        dy = dy + 1;
    }
    if descent > 0 {
        let my = gh.saturating_sub(descent);
        match tx.checked_add(gw) {
            Some(mx) => match ty.checked_add(my) {
                Some(myy) => {
                    atlas.put(mx, myy, baseline());
                },
                None => {},
            },
            None => {},
        }
    }
    proof {
        let res = spec_copy(cw, old(atlas).flat(), *glyph_image, tx as int, ty as int, descent as int);
        assert forall|k: int| 0 <= k < atlas.flat().len() implies atlas.flat()[k] == res[k] by {
            crate::bitmap::lemma_flat_coords(cw, ch, k);
            let x = k % cw;
            let y = k / cw;
            assert(atlas.at(x, y) == atlas.flat()[y * cw + x]);
            assert(old(atlas).at(x, y) == old(atlas).flat()[y * cw + x]);
        }
        assert(atlas.flat() =~= res);
    }
}

impl LoadedIndex {
    /// The width of the widest row, measuring each glyph image plus its
    /// frame column; nothing when there are no rows. Saturates at the
    /// greatest representable width.
    pub fn widest_row_width(&self) -> (r: Option<u32>)
        ensures
            self.spec_rows().len() == 0 ==> r is None,
            self.spec_rows().len() > 0 ==> r == Some(
                (clamp_u32(spec_widest(self.spec_rows())) as u32),
            ),
    {
        broadcast use crate::bitmap::lemma_bitmap_dims;

        if self.rows.len() == 0 {
            return None;
        }
        let ghost rows = self.spec_rows();
        let mut best: u32 = 0;
        let mut i: usize = 0;
        proof {
            assert(rows.take(0) =~= Seq::<Seq<LoadedGlyph>>::empty());
        }
        while i < self.rows.len()
            invariant
                rows == self.spec_rows(),
                rows.len() == self.rows@.len(),
                i <= rows.len(),
                best == clamp_u32(spec_widest(rows.take(i as int))),
        decreases rows.len() - i,
        {
            let row = &self.rows[i];
            let ghost rseq = rows[i as int];
            let mut sum: u32 = 0;
            let mut j: usize = 0;
            proof {
                assert(rseq.take(0) =~= Seq::<LoadedGlyph>::empty());
            }
            while j < row.len()
                invariant
                    rseq == rows[i as int],
                    i < rows.len(),
                    row == &self.rows@[i as int],
                    row@ == rseq,
                    j <= rseq.len(),
                    sum == clamp_u32(spec_row_width(rseq.take(j as int))),
                decreases rseq.len() - j,
            {
                proof {
                    lemma_row_width_step(rseq, j as int);
                    lemma_row_width_nonneg(rseq.take(j as int));
                }
                sum = sum.saturating_add(row[j].image.width().saturating_add(FRAME_WIDTH));
                j = j + 1;
            }
            proof {
                assert(rseq.take(rseq.len() as int) =~= rseq);
                lemma_widest_step(rows, i as int);
                lemma_widest_nonneg(rows.take(i as int));
                lemma_row_width_nonneg(rseq);
            }
            if sum > best {
                best = sum;
            }
            i = i + 1;
        }
        proof {
            assert(rows.take(rows.len() as int) =~= rows);
        }
        Some(best)
    }

    /// The height each row occupies: its tallest glyph image plus the
    /// frame row, 0 for an empty row. Each saturates at the greatest
    /// representable height.
    pub fn row_heights(&self) -> (r: Vec<u32>)
        ensures
            r@.len() == self.spec_rows().len(),
            forall|i: int|
                0 <= i < self.spec_rows().len() ==> #[trigger] r@[i] == clamp_u32(
                    spec_row_height(self.spec_rows()[i]),
                ),
    {
        broadcast use crate::bitmap::lemma_bitmap_dims;

        let ghost rows = self.spec_rows();
        let mut out: Vec<u32> = Vec::new();
        let mut i: usize = 0;
        while i < self.rows.len()
            invariant
                rows == self.spec_rows(),
                rows.len() == self.rows@.len(),
                i <= rows.len(),
                out@.len() == i,
                forall|a: int|
                    0 <= a < i ==> #[trigger] out@[a] == clamp_u32(spec_row_height(rows[a])),
            decreases rows.len() - i,
        {
            let row = &self.rows[i];
            let ghost rseq = rows[i as int];
            let mut m: u32 = 0;
            let mut j: usize = 0;
            proof {
                assert(rseq.take(0) =~= Seq::<LoadedGlyph>::empty());
            }
            while j < row.len()
                invariant
                    rseq == rows[i as int],
                    i < rows.len(),
                    row == &self.rows@[i as int],
                    row@ == rseq,
                    j <= rseq.len(),
                    m == clamp_u32(spec_row_height(rseq.take(j as int))),
                decreases rseq.len() - j,
            {
                proof {
                    lemma_row_height_step(rseq, j as int);
                    lemma_row_height_nonneg(rseq.take(j as int));
                }
                let c = row[j].image.height().saturating_add(FRAME_WIDTH);
                if c > m {
                    m = c;
                }
                j = j + 1;
            }
            proof {
                assert(rseq.take(rseq.len() as int) =~= rseq);
            }
            out.push(m);
            i = i + 1;
        }
        out
    }

    /// Composes the loaded glyphs into one atlas: a canvas of the
    /// requested size (0 meaning automatic in either dimension), filled
    /// with the frame sentinel, with every row's glyphs copied in walk
    /// order and their baseline markers stamped. A size smaller than the
    /// content clips silently; only a zero dimension, or a canvas too
    /// large for the address space, is refused.
    #[verifier::loop_isolation(false)]
    pub fn to_atlas_image(&self, size: (u32, u32)) -> (r: Result<Bitmap, SizeError>)
        requires
            self.wf(),
        ensures
            ({
                let w = spec_atlas_width(self.spec_rows(), size.0);
                let h = spec_atlas_height(self.spec_rows(), size.1);
                match r {
                    Ok(b) => {
                        &&& !(w == 0 || h == 0 || w * h > usize::MAX)
                        &&& b.wf()
                        &&& b.spec_width() == w
                        &&& b.spec_height() == h
                        &&& b.flat() == spec_compose(self.spec_rows(), w, h)
                    },
                    Err(e) => {
                        &&& w == 0 || h == 0 || w * h > usize::MAX
                        &&& e.width == w
                        &&& e.height == h
                    },
                }
            }),
    {
        broadcast use crate::bitmap::lemma_bitmap_dims;
        broadcast use crate::bitmap::lemma_bitmap_flat_len;
        broadcast use crate::bitmap::lemma_bitmap_flat_at;

        let ghost rows = self.spec_rows();
        let width: u32 = if size.0 == 0 {
            match self.widest_row_width() {
                Some(w) => w,
                None => 0,
            }
        } else {
            size.0
        };
        let heights = self.row_heights();
        let height: u32 = if size.1 == 0 {
            let mut total: u32 = 0;
            let mut i: usize = 0;
            proof {
                assert(rows.take(0) =~= Seq::<Seq<LoadedGlyph>>::empty());
            }
            while i < heights.len()
                invariant
                    rows == self.spec_rows(),
                    heights@.len() == rows.len(),
                    forall|a: int|
                        0 <= a < rows.len() ==> #[trigger] heights@[a] == clamp_u32(
                            spec_row_height(rows[a]),
                        ),
                    i <= rows.len(),
                    total == clamp_u32(spec_total_height(rows.take(i as int))),
                decreases rows.len() - i,
            {
                proof {
                    lemma_total_height_step(rows, i as int);
                    lemma_total_height_nonneg(rows.take(i as int));
                    lemma_row_height_nonneg(rows[i as int]);
                }
                total = total.saturating_add(heights[i]);
                i = i + 1;
            }
            proof {
                assert(rows.take(rows.len() as int) =~= rows);
            }
            total
        } else {
            size.1
        };

        proof {
            lemma_widest_nonneg(rows);
            lemma_total_height_nonneg(rows);
            assert(width as int == spec_atlas_width(rows, size.0));
            assert(height as int == spec_atlas_height(rows, size.1));
        }
        if width == 0 || height == 0 {
            return Err(SizeError { width, height });
        }

        let mut atlas = match Bitmap::new(width, height, frame()) {
            Some(b) => b,
            None => {
                return Err(SizeError { width, height });
            },
        };

        let ghost cw = width as int;
        let ghost target = spec_compose(rows, width as int, height as int);
        proof {
            assert forall|k: int| 0 <= k < atlas.flat().len() implies atlas.flat()[k]
                == spec_frame_canvas(width as int, height as int)[k] by {
                crate::bitmap::lemma_flat_coords(width as int, height as int, k);
                let x = k % cw;
                let y = k / cw;
                assert(atlas.at(x, y) == atlas.flat()[y * cw + x]);
            }
            assert(atlas.flat() =~= spec_frame_canvas(width as int, height as int));
            assert(rows.skip(0) =~= rows);
        }

        let mut y: u32 = 0;
        let mut y_ok = true;
        let mut i: usize = 0;
        while i < self.rows.len()
            invariant
                self.wf(),
                rows == self.spec_rows(),
                rows.len() == self.rows@.len(),
                heights@.len() == rows.len(),
                forall|a: int|
                    0 <= a < rows.len() ==> #[trigger] heights@[a] == clamp_u32(
                        spec_row_height(rows[a]),
                    ),
                i <= rows.len(),
                atlas.wf(),
                atlas.spec_width() == width,
                atlas.spec_height() == height,
                cw == width as int,
                y_ok ==> spec_place_rows(cw, atlas.flat(), rows.skip(i as int), y as int)
                    == target,
                !y_ok ==> atlas.flat() == target,
            decreases rows.len() - i,
        {
            if y_ok {
                let row = &self.rows[i];
                let ghost rseq = rows[i as int];
                let ghost row_target = spec_place_row(cw, atlas.flat(), rseq, 0, y as int);
                let ghost flat0 = atlas.flat();
                let mut x: u32 = 0;
                let mut x_ok = true;
                let mut j: usize = 0;
                proof {
                    assert(rseq.skip(0) =~= rseq);
                }
                while j < row.len()
                    invariant
                        self.wf(),
                        rows == self.spec_rows(),
                        rseq == rows[i as int],
                        i < rows.len(),
                        row == &self.rows@[i as int],
                        row@ == rseq,
                        j <= rseq.len(),
                        atlas.wf(),
                        atlas.spec_width() == width,
                        atlas.spec_height() == height,
                        cw == width as int,
                        row_target == spec_place_row(cw, flat0, rseq, 0, y as int),
                        x_ok ==> spec_place_row(cw, atlas.flat(), rseq.skip(j as int), x as int, y as int)
                            == row_target,
                        !x_ok ==> atlas.flat() == row_target,
                    decreases rseq.len() - j,
                {
                    if x_ok {
                        let lg = &row[j];
                        proof {
                            assert(self.spec_rows()[i as int][j as int].image.wf());
                        }
                        let ghost pre = atlas.flat();
                        copy_glyph_to_atlas(&mut atlas, Point { x, y }, &lg.image, lg.glyph.descent);
                        proof {
                            assert(rseq.skip(j as int).drop_first() =~= rseq.skip(j as int + 1));
                            assert(rseq.skip(j as int)[0] == rseq[j as int]);
                        }
                        match lg.image.width().checked_add(FRAME_WIDTH) {
                            Some(step) => match x.checked_add(step) {
                                Some(nx) => {
                                    x = nx;
                                },
                                None => {
                                    x_ok = false;
                                },
                            },
                            None => {
                                x_ok = false;
                            },
                        }
                    }
                    j = j + 1;
                }
                proof {
                    if x_ok {
                        assert(rseq.skip(rseq.len() as int) =~= Seq::<LoadedGlyph>::empty());
                    }
                    assert(atlas.flat() == row_target);
                    assert(rows.skip(i as int).drop_first() =~= rows.skip(i as int + 1));
                    assert(rows.skip(i as int)[0] == rows[i as int]);
                }
                let rh = heights[i];
                match y.checked_add(rh) {
                    Some(ny) => {
                        y = ny;
                    },
                    None => {
                        y_ok = false;
                    },
                }
            }
            i = i + 1;
        }
        proof {
            if y_ok {
                assert(rows.skip(rows.len() as int) =~= Seq::<Seq<LoadedGlyph>>::empty());
            }
        }
        Ok(atlas)
    }
}

} // verus!
