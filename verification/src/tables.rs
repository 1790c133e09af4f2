//! The tables of a set and of a layer as rows of text fields: the records
//! of the glyphs of a set, and the color marks of a layer.

use vstd::prelude::*;
use crate::errors::{LoadGlyphDataError, LoadLayerError};
use crate::metadata::{
    category_name, category_named, codepoints_of_text, format_codepoints, parse_codepoints,
    text_of_codepoints, GlyphRecord, GlyphRecordView, OpenTypeCategory,
};
use crate::name_map::{ascending_keys, NameMap};
use crate::names::{same_name, NameView};
use crate::ufo::{canonical_color, canonical_rgba, is_valid_name, valid_name};

verus! {

/// A row of a table: its fields.
pub type RowView = Seq<Seq<char>>;

/// The titles of the columns of the table of records.
pub open spec fn record_header() -> RowView {
    seq!["name"@, "postscript_name"@, "codepoints"@, "opentype_category"@, "export"@]
}

/// The titles of the columns of the table of color marks.
pub open spec fn color_header() -> RowView {
    seq!["name"@, "color"@]
}

/// The text of a flag.
pub open spec fn flag_text(flag: bool) -> Seq<char> {
    if flag {
        "true"@
    } else {
        "false"@
    }
}

/// The row of the record of the glyph `name`.
pub open spec fn record_row(name: NameView, record: GlyphRecordView) -> RowView {
    seq![
        name,
        match record.postscript_name {
            Some(text) => text,
            None => Seq::empty(),
        },
        text_of_codepoints(record.codepoints),
        category_name(record.opentype_category),
        flag_text(record.export),
    ]
}

/// The rows of the records of a set, in the order of the names of the
/// glyphs.
pub open spec fn record_rows(records: Map<NameView, GlyphRecordView>) -> Seq<RowView> {
    let keys = ascending_keys(records.dom());
    Seq::new(keys.len(), |i: int| record_row(keys[i], records[keys[i]]))
}

/// The rows of the color marks of a layer, in the order of the names of
/// the glyphs.
pub open spec fn color_rows(marks: Map<NameView, Seq<char>>) -> Seq<RowView> {
    let keys = ascending_keys(marks.dom());
    Seq::new(keys.len(), |i: int| seq![keys[i], marks[keys[i]]])
}

/// What is wrong with a row of the table of records.
pub enum RowFault {
    /// It has fewer than four or more than five fields, or its fifth field
    /// is neither `true` nor `false`.
    Shape,
    /// Its first field is no valid name.
    Name,
    /// Its third field lists no code points.
    Codepoints,
    /// Its fourth field names no category.
    Category,
}

/// The flag that the row gives: that of its fifth field, and `true` where
/// it has no fifth field. `None` where the field is no flag.
pub open spec fn row_flag(row: RowView) -> Option<bool> {
    if row.len() < 5 {
        Some(true)
    } else if row[4] == "true"@ {
        Some(true)
    } else if row[4] == "false"@ {
        Some(false)
    } else {
        None
    }
}

/// What is wrong with a row of the table of records, if anything: the
/// first of the faults in the order of [`RowFault`].
pub open spec fn row_fault(row: RowView) -> Option<RowFault> {
    if row.len() < 4 || row.len() > 5 || row_flag(row) is None {
        Some(RowFault::Shape)
    } else if !valid_name(row[0]) {
        Some(RowFault::Name)
    } else if row[2].len() > 0 && codepoints_of_text(row[2]) is None {
        Some(RowFault::Codepoints)
    } else if row[3].len() > 0 && category_named(row[3]) is None {
        Some(RowFault::Category)
    } else {
        None
    }
}

/// The record that a row without fault gives. An empty field gives what
/// the record of a glyph has of which nothing is known.
pub open spec fn row_record(row: RowView) -> GlyphRecordView {
    GlyphRecordView {
        postscript_name: if row[1].len() == 0 {
            None
        } else {
            Some(row[1])
        },
        codepoints: if row[2].len() == 0 {
            Seq::empty()
        } else {
            codepoints_of_text(row[2])->0
        },
        opentype_category: if row[3].len() == 0 {
            OpenTypeCategory::Unassigned
        } else {
            category_named(row[3])->0
        },
        export: row_flag(row)->0,
    }
}

/// Whether the error tells the fault of the row.
pub open spec fn tells_fault(error: LoadGlyphDataError, row: RowView) -> bool {
    match error {
        LoadGlyphDataError::Csv(fields) => row_fault(row) == Some(RowFault::Shape) && fields.deep_view()
            == row,
        LoadGlyphDataError::InvalidGlyphName(name) => row_fault(row) == Some(RowFault::Name) && name@
            == row[0],
        LoadGlyphDataError::InvalidCodepoint(name, text) => row_fault(row) == Some(
            RowFault::Codepoints,
        ) && name@ == row[0] && text@ == row[2],
        LoadGlyphDataError::InvalidOpenTypeCategory(name, text) => row_fault(row) == Some(
            RowFault::Category,
        ) && name@ == row[0] && text@ == row[3],
    }
}

/// The records that rows without fault give. Of two rows for one glyph the
/// later counts.
pub open spec fn records_of_rows(rows: Seq<RowView>) -> Map<NameView, GlyphRecordView>
    decreases rows.len(),
{
    if rows.len() == 0 {
        Map::empty()
    } else {
        records_of_rows(rows.drop_last()).insert(rows.last()[0], row_record(rows.last()))
    }
}

/// Whether the row of a color mark is without fault: it has two fields, a
/// valid name and a color.
pub open spec fn color_row_sound(row: RowView) -> bool {
    row.len() == 2 && valid_name(row[0]) && canonical_rgba(row[1]) is Some
}

/// The color marks that rows without fault give, each color in its
/// canonical form. Of two rows for one glyph the later counts.
pub open spec fn marks_of_rows(rows: Seq<RowView>) -> Map<NameView, Seq<char>>
    decreases rows.len(),
{
    if rows.len() == 0 {
        Map::empty()
    } else {
        marks_of_rows(rows.drop_last()).insert(rows.last()[0], canonical_rgba(rows.last()[1])->0)
    }
}

/// The rows as contracts see them.
pub open spec fn row_views(rows: Seq<Vec<String>>) -> Seq<RowView> {
    Seq::new(rows.len(), |i: int| rows[i].deep_view())
}

/// A copy of a row.
fn clone_row(row: &Vec<String>) -> (copy: Vec<String>)
    ensures
        copy.deep_view() == row.deep_view(),
{
    crate::glyph::clone_names(row)
}

impl GlyphRecord {
    /// The titles of the columns of the table of records.
    pub fn write_header_to_csv() -> (row: Vec<String>)
        ensures
            row.deep_view() == record_header(),
    {
        let mut row: Vec<String> = Vec::new();
        row.push("name".to_string());
        row.push("postscript_name".to_string());
        row.push("codepoints".to_string());
        row.push("opentype_category".to_string());
        row.push("export".to_string());
        proof {
            assert(row.deep_view() =~= record_header());
        }
        row
    }

    /// The row of the record, which is that of the glyph `glyph_name`.
    pub fn write_row_to_csv(&self, glyph_name: &str) -> (row: Vec<String>)
        ensures
            row.deep_view() == record_row(glyph_name@, self@),
    {
        let mut row: Vec<String> = Vec::new();
        row.push(glyph_name.to_string());
        row.push(
            match &self.postscript_name {
                Some(text) => text.clone(),
                None => String::new(),
            },
        );
        row.push(format_codepoints(&self.codepoints));
        row.push(self.opentype_category.name().to_string());
        row.push(
            if self.export {
                "true".to_string()
            } else {
                "false".to_string()
            },
        );
        proof {
            assert(row.deep_view() =~= record_row(glyph_name@, self@));
        }
        row
    }

    /// The glyph and the record that a row gives.
    pub fn from_row(row: &Vec<String>) -> (r: Result<(String, GlyphRecord), LoadGlyphDataError>)
        ensures
            r is Ok <==> row_fault(row.deep_view()) is None,
            r matches Ok(pair) ==> pair.0@ == row.deep_view()[0] && pair.1@ == row_record(
                row.deep_view(),
            ),
            r matches Err(e) ==> tells_fault(e, row.deep_view()),
    {
        let ghost fields = row.deep_view();
        proof {
            assert(forall|i: int| 0 <= i < row.len() ==> #[trigger] fields[i] == row[i]@);
        }
        if row.len() < 4 || row.len() > 5 {
            return Err(LoadGlyphDataError::Csv(clone_row(row)));
        }
        let export = if row.len() < 5 {
            true
        } else if same_name(row[4].as_str(), "true") {
            true
        } else if same_name(row[4].as_str(), "false") {
            false
        } else {
            return Err(LoadGlyphDataError::Csv(clone_row(row)));
        };
        if !is_valid_name(row[0].as_str()) {
            return Err(LoadGlyphDataError::InvalidGlyphName(row[0].clone()));
        }
        let codepoints = if row[2].as_str().unicode_len() == 0 {
            Vec::new()
        } else {
            match parse_codepoints(row[2].as_str()) {
                Ok(codepoints) => codepoints,
                Err(_) => {
                    return Err(LoadGlyphDataError::InvalidCodepoint(row[0].clone(), row[2].clone()));
                },
            }
        };
        let opentype_category = if row[3].as_str().unicode_len() == 0 {
            OpenTypeCategory::Unassigned
        } else {
            match OpenTypeCategory::from_str(row[3].as_str()) {
                Ok(category) => category,
                Err(_) => {
                    return Err(
                        LoadGlyphDataError::InvalidOpenTypeCategory(row[0].clone(), row[3].clone()),
                    );
                },
            }
        };
        let postscript_name = if row[1].as_str().unicode_len() == 0 {
            None
        } else {
            Some(row[1].clone())
        };
        let record = GlyphRecord { postscript_name, codepoints, opentype_category, export };
        proof {
            assert(record@.codepoints =~= row_record(fields).codepoints);
            assert(record@ == row_record(fields));
        }
        Ok((row[0].clone(), record))
    }
}

/// The flag of a record of which the table says nothing.
pub fn default_true() -> (flag: bool)
    ensures
        flag,
{
    true
}

/// The rows of the records of a set, in the order of the names of the
/// glyphs. The titles of the columns are not among them.
pub fn write_glyph_data(glyph_data: &NameMap<GlyphRecord>) -> (rows: Vec<Vec<String>>)
    ensures
        row_views(rows@) == record_rows(glyph_data@),
{
    let n = glyph_data.len();
    let mut rows: Vec<Vec<String>> = Vec::new();
    let ghost goal = record_rows(glyph_data@);
    proof {
        glyph_data.lemma_keys_in_order();
    }
    let mut i: usize = 0;
    while i < n
        invariant
            i <= n,
            n == glyph_data.keys().len(),
            glyph_data.wf(),
            glyph_data.keys() == ascending_keys(glyph_data@.dom()),
            goal == record_rows(glyph_data@),
            row_views(rows@) =~= goal.take(i as int),
        decreases n - i,
    {
        let ghost before = row_views(rows@);
        let row = glyph_data.value_at(i).write_row_to_csv(glyph_data.key_at(i).as_str());
        rows.push(row);
        proof {
            assert(row_views(rows@) =~= before.push(row.deep_view()));
            assert(goal[i as int] == row.deep_view());
            assert(goal.take(i as int + 1) =~= goal.take(i as int).push(goal[i as int]));
        }
        i += 1;
    }
    proof {
        assert(goal.take(n as int) =~= goal);
    }
    rows
}

/// The records that the rows of a table give. Fails at the first row with
/// a fault, and tells the fault.
pub fn load_glyph_data(rows: &Vec<Vec<String>>) -> (r: Result<NameMap<GlyphRecord>, LoadGlyphDataError>)
    ensures
        r is Ok <==> forall|i: int| 0 <= i < rows.len() ==> row_fault(#[trigger] row_views(rows@)[i]) is None,
        r matches Ok(records) ==> records@ == records_of_rows(row_views(rows@)),
        r matches Err(e) ==> exists|i: int|
            0 <= i < rows.len() && tells_fault(e, #[trigger] row_views(rows@)[i]) && forall|j: int|
                0 <= j < i ==> row_fault(#[trigger] row_views(rows@)[j]) is None,
{
    let mut records: NameMap<GlyphRecord> = NameMap::new();
    let ghost views = row_views(rows@);
    let mut i: usize = 0;
    proof {
        assert(views.take(0) =~= Seq::<RowView>::empty());
    }
    while i < rows.len()
        invariant
            i <= rows.len(),
            views == row_views(rows@),
            records.wf(),
            records@ == records_of_rows(views.take(i as int)),
            forall|j: int| 0 <= j < i ==> row_fault(#[trigger] views[j]) is None,
        decreases rows.len() - i,
    {
        proof {
            let upto = views.take(i as int + 1);
            assert(upto.last() == views[i as int]);
            assert(upto.drop_last() =~= views.take(i as int));
            assert(views[i as int] == rows[i as int].deep_view());
        }
        match GlyphRecord::from_row(&rows[i]) {
            Ok((name, record)) => {
                records.insert(name, record);
            },
            Err(e) => {
                proof {
                    assert(tells_fault(e, views[i as int]));
                    assert(row_fault(views[i as int]) is Some);
                }
                return Err(e);
            },
        }
        i += 1;
    }
    proof {
        assert(views.take(i as int) =~= views);
    }
    Ok(records)
}

/// The rows of the color marks of a layer, in the order of the names of
/// the glyphs. The titles of the columns are not among them.
pub fn write_color_marks(color_marks: &NameMap<String>) -> (rows: Vec<Vec<String>>)
    ensures
        row_views(rows@) == color_rows(color_marks@),
{
    let n = color_marks.len();
    let mut rows: Vec<Vec<String>> = Vec::new();
    let ghost goal = color_rows(color_marks@);
    proof {
        color_marks.lemma_keys_in_order();
    }
    let mut i: usize = 0;
    while i < n
        invariant
            i <= n,
            n == color_marks.keys().len(),
            color_marks.wf(),
            color_marks.keys() == ascending_keys(color_marks@.dom()),
            goal == color_rows(color_marks@),
            row_views(rows@) =~= goal.take(i as int),
        decreases n - i,
    {
        let ghost before = row_views(rows@);
        let mut row: Vec<String> = Vec::new();
        row.push(color_marks.key_at(i).clone());
        row.push(color_marks.value_at(i).clone());
        proof {
            assert(row.deep_view() =~= seq![color_marks.keys()[i as int], color_marks.values()[i as int]@]);
        }
        rows.push(row);
        proof {
            assert(row_views(rows@) =~= before.push(row.deep_view()));
            assert(goal[i as int] == row.deep_view());
            assert(goal.take(i as int + 1) =~= goal.take(i as int).push(goal[i as int]));
        }
        i += 1;
    }
    proof {
        assert(goal.take(n as int) =~= goal);
    }
    rows
}

/// The color marks that the rows of a table give. Fails at the first row
/// with a fault, and gives the fields of that row.
pub fn load_color_marks(rows: &Vec<Vec<String>>) -> (r: Result<NameMap<String>, LoadLayerError>)
    ensures
        r is Ok <==> forall|i: int| 0 <= i < rows.len() ==> color_row_sound(#[trigger] row_views(rows@)[i]),
        r matches Ok(marks) ==> marks@ == marks_of_rows(row_views(rows@)),
        r matches Err(e) ==> exists|i: int|
            0 <= i < rows.len() && !color_row_sound(#[trigger] row_views(rows@)[i]) && (e matches LoadLayerError::LoadColorMarks(
                fields,
            ) && fields.deep_view() == row_views(rows@)[i]) && forall|j: int|
                0 <= j < i ==> color_row_sound(#[trigger] row_views(rows@)[j]),
{
    let mut marks: NameMap<String> = NameMap::new();
    let ghost views = row_views(rows@);
    let mut i: usize = 0;
    proof {
        assert(views.take(0) =~= Seq::<RowView>::empty());
    }
    while i < rows.len()
        invariant
            i <= rows.len(),
            views == row_views(rows@),
            marks.wf(),
            marks@ == marks_of_rows(views.take(i as int)),
            forall|j: int| 0 <= j < i ==> color_row_sound(#[trigger] views[j]),
        decreases rows.len() - i,
    {
        let row = &rows[i];
        proof {
            let upto = views.take(i as int + 1);
            assert(upto.last() == views[i as int]);
            assert(upto.drop_last() =~= views.take(i as int));
            assert(views[i as int] == row.deep_view());
            assert(forall|k: int| 0 <= k < row.len() ==> #[trigger] row.deep_view()[k] == row[k]@);
        }
        if row.len() != 2 || !is_valid_name(row[0].as_str()) {
            return Err(LoadLayerError::LoadColorMarks(clone_row(row)));
        }
        match canonical_color(row[1].as_str()) {
            Some(color) => {
                marks.insert(row[0].clone(), color);
            },
            None => {
                return Err(LoadLayerError::LoadColorMarks(clone_row(row)));
            },
        }
        i += 1;
    }
    proof {
        assert(views.take(i as int) =~= views);
    }
    Ok(marks)
}

} // verus!
