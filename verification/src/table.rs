//! The text of a stored table: rows of fields with semicolons between them,
//! one row to a line, the first row naming the columns. A field may stand in
//! double quotes; it can then hold semicolons, line breaks and, written twice,
//! double quotes. A byte order mark before the first row is passed over.

use vstd::prelude::*;

use crate::loader::{outcome_view, LoadError};
use crate::records::{release_views, Dataset, ReleaseRecord, ReleaseView};
use crate::text::{chars_of, joined, lemma_split_joins, same_text, split, string_of, texts_of};

verus! {

/// Where a reader stands in the field it is reading.
#[derive(Clone, Copy, PartialEq, Eq, Structural, Debug)]
pub enum Place {
    /// Before the first character of a field.
    Start,
    /// Inside a field that is not quoted.
    Bare,
    /// Inside a quoted field, after its opening quote.
    Quoted,
    /// After a quote inside a quoted field: the field is closed, unless
    /// another quote follows.
    Closed,
}

/// What a reader has made of the text it has read so far.
pub struct Scan {
    /// The rows that are complete.
    pub rows: Seq<Seq<Seq<char>>>,
    /// The complete fields of the row that is being read.
    pub row: Seq<Seq<char>>,
    /// The field that is being read, as far as it has come.
    pub field: Seq<char>,
    /// Where the reader stands in that field.
    pub place: Place,
}

/// A reader that has read nothing.
pub open spec fn fresh() -> Scan {
    Scan { rows: Seq::empty(), row: Seq::empty(), field: Seq::empty(), place: Place::Start }
}

/// The reader after the end of a field.
pub open spec fn end_field(scan: Scan) -> Scan {
    Scan {
        rows: scan.rows,
        row: scan.row.push(scan.field),
        field: Seq::empty(),
        place: Place::Start,
    }
}

/// The last field of a line as it counts: a field that is not quoted loses the
/// carriage return at the end of the line.
pub open spec fn last_field(scan: Scan) -> Seq<char> {
    if scan.place == Place::Bare && scan.field.len() > 0 && scan.field.last() == '\r' {
        scan.field.drop_last()
    } else {
        scan.field
    }
}

/// Whether the line that ends here is empty and so holds no row.
pub open spec fn is_blank(scan: Scan) -> bool {
    &&& scan.row.len() == 0
    &&& last_field(scan).len() == 0
    &&& (scan.place == Place::Start || scan.place == Place::Bare)
}

/// The reader after the end of a line, or of the text.
pub open spec fn end_row(scan: Scan) -> Scan {
    Scan {
        rows: if is_blank(scan) {
            scan.rows
        } else {
            scan.rows.push(scan.row.push(last_field(scan)))
        },
        row: Seq::empty(),
        field: Seq::empty(),
        place: Place::Start,
    }
}

/// The reader after one more character. Inside quotes every character but the
/// quote belongs to the field; a quote there closes the field, unless it is
/// followed by a second one, which stands for a quote in the field. Elsewhere
/// a semicolon ends the field, a line feed ends the row, and a quote at the
/// start of a field opens a quoted field.
pub open spec fn step(scan: Scan, c: char) -> Scan {
    if scan.place == Place::Quoted {
        if c == '"' {
            Scan { rows: scan.rows, row: scan.row, field: scan.field, place: Place::Closed }
        } else {
            Scan { rows: scan.rows, row: scan.row, field: scan.field.push(c), place: Place::Quoted }
        }
    } else if scan.place == Place::Closed && c == '"' {
        Scan { rows: scan.rows, row: scan.row, field: scan.field.push(c), place: Place::Quoted }
    } else if c == ';' {
        end_field(scan)
    } else if c == '\n' {
        end_row(scan)
    } else if scan.place == Place::Start && c == '"' {
        Scan { rows: scan.rows, row: scan.row, field: scan.field, place: Place::Quoted }
    } else {
        Scan { rows: scan.rows, row: scan.row, field: scan.field.push(c), place: Place::Bare }
    }
}

/// The reader after the whole of `text`.
pub open spec fn scanned(text: Seq<char>) -> Scan
    decreases text.len(),
{
    if text.len() == 0 {
        fresh()
    } else {
        step(scanned(text.drop_last()), text.last())
    }
}

/// A text without the byte order mark at its start, if it has one.
pub open spec fn without_mark(text: Seq<char>) -> Seq<char> {
    if text.len() > 0 && text.first() == '\u{feff}' {
        text.drop_first()
    } else {
        text
    }
}

/// The rows that a stored text holds, the header row first. A byte order mark
/// at the start of the text is passed over.
pub open spec fn rows_of(text: Seq<char>) -> Seq<Seq<Seq<char>>> {
    end_row(scanned(without_mark(text))).rows
}

/// A line without the carriage return at its end, if it has one.
pub open spec fn without_return(line: Seq<char>) -> Seq<char> {
    if line.len() > 0 && line.last() == '\r' {
        line.drop_last()
    } else {
        line
    }
}

/// The rows that lines without quotes hold: each line that is not empty,
/// without the carriage return at its end, split at the semicolons.
pub open spec fn rows_in(lines: Seq<Seq<char>>) -> Seq<Seq<Seq<char>>> {
    lines.map_values(|line: Seq<char>| without_return(line)).filter(
        |line: Seq<char>| line.len() > 0,
    ).map_values(|line: Seq<char>| split(line, ';'))
}

/// A text is split into the one empty part exactly where it is empty.
proof fn lemma_split_of_nothing(text: Seq<char>, separator: char)
    ensures
        split(text, separator) == seq![Seq::<char>::empty()] <==> text.len() == 0,
{
    lemma_split_joins(text, separator);
    if split(text, separator) == seq![Seq::<char>::empty()] {
        assert(joined(split(text, separator), separator) =~= Seq::<char>::empty());
    }
}

/// The rows in some lines and one more line are the rows in the lines, and the
/// row of that line unless it is empty.
proof fn lemma_rows_in_push(lines: Seq<Seq<char>>, line: Seq<char>)
    ensures
        rows_in(lines.push(line)) == if without_return(line).len() > 0 {
            rows_in(lines).push(split(without_return(line), ';'))
        } else {
            rows_in(lines)
        },
{
    let cleaned = lines.map_values(|line: Seq<char>| without_return(line));
    let kept = cleaned.filter(|line: Seq<char>| line.len() > 0);
    assert(lines.push(line).map_values(|line: Seq<char>| without_return(line)) =~= cleaned.push(
        without_return(line),
    ));
    cleaned.lemma_filter_push(without_return(line), |line: Seq<char>| line.len() > 0);
    if without_return(line).len() > 0 {
        assert(kept.push(without_return(line)).map_values(|line: Seq<char>| split(line, ';'))
            =~= kept.map_values(|line: Seq<char>| split(line, ';')).push(
            split(without_return(line), ';'),
        ));
    }
}

/// Where the reader holds the fields of a line without quotes, the end of the
/// row adds the row of that line, unless the line is empty.
proof fn lemma_end_row_plain(scan: Scan, line: Seq<char>)
    requires
        scan.row.push(scan.field) == split(line, ';'),
        scan.place == if scan.field.len() == 0 {
            Place::Start
        } else {
            Place::Bare
        },
    ensures
        end_row(scan).rows == if without_return(line).len() > 0 {
            scan.rows.push(split(without_return(line), ';'))
        } else {
            scan.rows
        },
{
    let parts = split(line, ';');
    assert(parts.last() == scan.field);
    assert(parts.drop_last() =~= scan.row);
    if line.len() > 0 && line.last() == '\r' {
        let shorter = split(line.drop_last(), ';');
        lemma_split_joins(line.drop_last(), ';');
        assert(parts == shorter.drop_last().push(shorter.last().push('\r')));
        assert(scan.field == shorter.last().push('\r'));
        assert(last_field(scan) =~= shorter.last());
        assert(shorter.drop_last() =~= scan.row);
        assert(scan.row.push(last_field(scan)) =~= shorter);
        lemma_split_of_nothing(line.drop_last(), ';');
        if is_blank(scan) {
            assert(shorter =~= seq![Seq::<char>::empty()]);
        }
    } else {
        if line.len() > 0 {
            if line.last() == ';' {
                assert(scan.field.len() == 0);
            } else {
                assert(scan.field.last() == line.last());
            }
        }
        assert(last_field(scan) == scan.field);
        lemma_split_of_nothing(line, ';');
        if is_blank(scan) {
            assert(parts =~= seq![Seq::<char>::empty()]);
        }
    }
}

/// What the reader holds after a text without quotes: the rows of the lines
/// that have ended, and the fields of the line that has not.
proof fn lemma_plain_scan(text: Seq<char>)
    requires
        forall|i: int| 0 <= i < text.len() ==> (#[trigger] text[i]) != '"',
    ensures
        scanned(text).rows == rows_in(split(text, '\n').drop_last()),
        scanned(text).row.push(scanned(text).field) == split(split(text, '\n').last(), ';'),
        scanned(text).place == if scanned(text).field.len() == 0 {
            Place::Start
        } else {
            Place::Bare
        },
    decreases text.len(),
{
    if text.len() == 0 {
        reveal(Seq::filter);
        assert(split(text, '\n').drop_last() =~= Seq::<Seq<char>>::empty());
        assert(rows_in(Seq::<Seq<char>>::empty()) =~= Seq::<Seq<Seq<char>>>::empty());
        assert(fresh().row.push(fresh().field) =~= split(Seq::<char>::empty(), ';'));
    } else {
        let shorter = text.drop_last();
        let c = text.last();
        let before = scanned(shorter);
        let lines = split(shorter, '\n');
        let open = lines.last();
        assert forall|i: int| 0 <= i < shorter.len() implies (#[trigger] shorter[i]) != '"' by {
            assert(shorter[i] == text[i]);
        }
        lemma_plain_scan(shorter);
        lemma_split_joins(shorter, '\n');
        assert(c == text[text.len() - 1]);
        assert(lines =~= lines.drop_last().push(open));
        if c == '\n' {
            assert(split(text, '\n').drop_last() =~= lines);
            lemma_end_row_plain(before, open);
            lemma_rows_in_push(lines.drop_last(), open);
            assert(scanned(text).row.push(scanned(text).field) =~= split(
                Seq::<char>::empty(),
                ';',
            ));
        } else {
            assert(split(text, '\n').drop_last() =~= lines.drop_last());
            assert(split(text, '\n').last() == open.push(c));
            assert(open.push(c).drop_last() =~= open);
            let fields = split(open, ';');
            assert(fields.last() == before.field);
            assert(fields.drop_last() =~= before.row);
            if c == ';' {
                assert(split(open.push(c), ';') == fields.push(Seq::<char>::empty()));
            } else {
                assert(split(open.push(c), ';') == fields.drop_last().push(
                    fields.last().push(c),
                ));
            }
        }
    }
}

/// A text without quotes holds the rows of its lines: each line that is not
/// empty, without the carriage return at its end, split at the semicolons.
pub proof fn lemma_plain_rows(text: Seq<char>)
    requires
        forall|i: int| 0 <= i < text.len() ==> (#[trigger] text[i]) != '"',
    ensures
        rows_of(text) == rows_in(split(without_mark(text), '\n')),
{
    let plain = without_mark(text);
    let lines = split(plain, '\n');
    assert forall|i: int| 0 <= i < plain.len() implies (#[trigger] plain[i]) != '"' by {
        if plain.len() < text.len() {
            assert(plain[i] == text[i + 1]);
        }
    }
    lemma_plain_scan(plain);
    lemma_split_joins(plain, '\n');
    assert(lines =~= lines.drop_last().push(lines.last()));
    lemma_end_row_plain(scanned(plain), lines.last());
    lemma_rows_in_push(lines.drop_last(), lines.last());
}

/// The place of the first field of `header` that reads `name`; the length of
/// `header` where there is none.
pub open spec fn column_of(header: Seq<Seq<char>>, name: Seq<char>) -> int
    decreases header.len(),
{
    if header.len() == 0 || header.first() == name {
        0
    } else {
        1 + column_of(header.drop_first(), name)
    }
}

/// Whether `rows` are a table of releases: there is a header row, it names the
/// three columns of a release, and no row has more fields than the header.
pub open spec fn is_table(rows: Seq<Seq<Seq<char>>>) -> bool {
    &&& rows.len() > 0
    &&& column_of(rows[0], "Name"@) < rows[0].len()
    &&& column_of(rows[0], "Release_Date"@) < rows[0].len()
    &&& column_of(rows[0], "Steam_Link"@) < rows[0].len()
    &&& forall|i: int| 0 <= i < rows.len() ==> (#[trigger] rows[i]).len() <= rows[0].len()
}

/// The field of `row` in the column `column`; empty where the row ends before it.
pub open spec fn field_of(row: Seq<Seq<char>>, column: int) -> Seq<char> {
    if 0 <= column < row.len() {
        row[column]
    } else {
        Seq::empty()
    }
}

/// The release that `row` holds under `header`.
pub open spec fn record_of(header: Seq<Seq<char>>, row: Seq<Seq<char>>) -> ReleaseView {
    ReleaseView {
        name: field_of(row, column_of(header, "Name"@)),
        release_date: field_of(row, column_of(header, "Release_Date"@)),
        link: field_of(row, column_of(header, "Steam_Link"@)),
    }
}

/// The releases of a table: one for each row after the header, in their order.
pub open spec fn records_of(rows: Seq<Seq<Seq<char>>>) -> Seq<ReleaseView> {
    Seq::new((rows.len() - 1) as nat, |i: int| record_of(rows[0], rows[i + 1]))
}

/// What a stored text holds: the releases of its table, or the finding that it
/// is no table.
pub open spec fn table_of(text: Seq<char>) -> Result<Seq<ReleaseView>, LoadError> {
    if is_table(rows_of(text)) {
        Ok(records_of(rows_of(text)))
    } else {
        Err(LoadError::Malformed)
    }
}

/// What a sequence of rows holds.
pub open spec fn rows_texts(rows: Seq<Vec<Vec<char>>>) -> Seq<Seq<Seq<char>>> {
    rows.map_values(|row: Vec<Vec<char>>| texts_of(row@))
}

/// Ends the row that `row` and `field` make up, and adds it to `rows` unless
/// its line was empty.
fn close_row(rows: &mut Vec<Vec<Vec<char>>>, row: Vec<Vec<char>>, field: Vec<char>, place: Place)
    ensures
        rows_texts(final(rows)@) == end_row(
            Scan { rows: rows_texts(old(rows)@), row: texts_of(row@), field: field@, place },
        ).rows,
{
    let ghost scan = Scan { rows: rows_texts(rows@), row: texts_of(row@), field: field@, place };
    let mut row = row;
    let mut field = field;
    let bare = place == Place::Start || place == Place::Bare;
    if place == Place::Bare && field.len() > 0 && field[field.len() - 1] == '\r' {
        field.pop();
    }
    proof {
        assert(field@ =~= last_field(scan));
    }
    if !(bare && row.len() == 0 && field.len() == 0) {
        proof {
            assert(texts_of(row@.push(field)) =~= texts_of(row@).push(field@));
        }
        row.push(field);
        proof {
            assert(rows_texts(rows@.push(row)) =~= rows_texts(rows@).push(texts_of(row@)));
        }
        rows.push(row);
    }
}

/// Reads the rows out of a stored text.
pub fn read_rows(text: &str) -> (rows: Vec<Vec<Vec<char>>>)
    ensures
        rows_texts(rows@) == rows_of(text@),
{
    let mut rows: Vec<Vec<Vec<char>>> = Vec::new();
    let mut row: Vec<Vec<char>> = Vec::new();
    let mut field: Vec<char> = Vec::new();
    let mut place = Place::Start;
    let mut at_start = true;
    proof {
        assert(rows_texts(rows@) =~= fresh().rows);
        assert(texts_of(row@) =~= fresh().row);
        assert(text@.take(0).len() == 0);
    }
    for c in it: text.chars()
        invariant
            it.seq() == text@,
            at_start == (it.index() == 0),
            (Scan { rows: rows_texts(rows@), row: texts_of(row@), field: field@, place })
                == scanned(without_mark(text@.take(it.index() as int))),
    {
        proof {
            let before = text@.take(it.index() as int);
            let seen = text@.take(it.index() as int + 1);
            assert(seen.drop_last() =~= before);
            assert(seen.last() == c);
            if it.index() > 0 {
                assert(seen.first() == before.first());
                if before.first() == '\u{feff}' {
                    assert(without_mark(seen).drop_last() =~= without_mark(before));
                    assert(without_mark(seen).last() == c);
                }
            } else if c == '\u{feff}' {
                assert(without_mark(seen).len() == 0);
            }
        }
        let mark = at_start && c == '\u{feff}';
        at_start = false;
        if mark {
            // the byte order mark is passed over
        } else if place == Place::Quoted {
            if c == '"' {
                place = Place::Closed;
            } else {
                field.push(c);
            }
        } else if place == Place::Closed && c == '"' {
            field.push(c);
            place = Place::Quoted;
        } else if c == ';' {
            proof {
                assert(texts_of(row@.push(field)) =~= texts_of(row@).push(field@));
            }
            row.push(field);
            field = Vec::new();
            place = Place::Start;
        } else if c == '\n' {
            close_row(&mut rows, row, field, place);
            row = Vec::new();
            field = Vec::new();
            place = Place::Start;
            proof {
                assert(texts_of(row@) =~= Seq::<Seq<char>>::empty());
            }
        } else if place == Place::Start && c == '"' {
            place = Place::Quoted;
        } else {
            field.push(c);
            place = Place::Bare;
        }
    }
    proof {
        assert(text@.take(text@.len() as int) =~= text@);
    }
    close_row(&mut rows, row, field, place);
    rows
}

/// Finds the first field of `header` that reads `name`.
fn find_column(header: &Vec<Vec<char>>, name: &str) -> (at: usize)
    ensures
        at == column_of(texts_of(header@), name@),
        at <= header.len(),
{
    let wanted = chars_of(name);
    let ghost fields = texts_of(header@);
    let mut at: usize = 0;
    proof {
        assert(fields.skip(0) =~= fields);
    }
    while at < header.len() && !same_text(&header[at], &wanted)
        invariant
            at <= header.len(),
            wanted@ == name@,
            fields == texts_of(header@),
            column_of(fields, name@) == at + column_of(fields.skip(at as int), name@),
        decreases header.len() - at,
    {
        proof {
            assert(fields.skip(at as int).first() == header@[at as int]@);
            assert(fields.skip(at as int).drop_first() =~= fields.skip(at as int + 1));
        }
        at += 1;
    }
    proof {
        if at < header.len() {
            assert(fields.skip(at as int).first() == header@[at as int]@);
        }
    }
    at
}

/// The field of `row` in the column `column` as a string.
fn field_text(row: &Vec<Vec<char>>, column: usize) -> (text: String)
    ensures
        text@ == field_of(texts_of(row@), column as int),
{
    if column < row.len() {
        proof {
            assert(texts_of(row@)[column as int] == row@[column as int]@);
        }
        string_of(&row[column])
    } else {
        String::new()
    }
}

/// Reads a stored text as a table of releases. The text is a table where its
/// first row names the columns `Name`, `Release_Date` and `Steam_Link` and no
/// row has more fields than that first row; the fields that a shorter row
/// lacks are empty.
pub fn parse_table(text: &str) -> (outcome: Result<Dataset, LoadError>)
    ensures
        outcome_view(outcome) == table_of(text@),
{
    let rows = read_rows(text);
    let ghost table = rows_texts(rows@);
    if rows.len() == 0 {
        return Err(LoadError::Malformed);
    }
    let width = rows[0].len();
    let name = find_column(&rows[0], "Name");
    let date = find_column(&rows[0], "Release_Date");
    let link = find_column(&rows[0], "Steam_Link");
    proof {
        assert(table[0] == texts_of(rows@[0]@));
    }
    if name >= width || date >= width || link >= width {
        return Err(LoadError::Malformed);
    }
    let mut records: Vec<ReleaseRecord> = Vec::new();
    let mut i: usize = 1;
    while i < rows.len()
        invariant
            1 <= i <= rows.len(),
            table == rows_texts(rows@),
            table == rows_of(text@),
            width == table[0].len(),
            name == column_of(table[0], "Name"@),
            date == column_of(table[0], "Release_Date"@),
            link == column_of(table[0], "Steam_Link"@),
            name < width && date < width && link < width,
            forall|k: int| 0 <= k < i ==> (#[trigger] table[k]).len() <= width,
            records.len() == i - 1,
            forall|k: int|
                0 <= k < i - 1 ==> (#[trigger] records@[k])@ == record_of(table[0], table[k + 1]),
        decreases rows.len() - i,
    {
        let row = &rows[i];
        proof {
            assert(table[i as int] == texts_of(row@));
        }
        if row.len() > width {
            return Err(LoadError::Malformed);
        }
        let record = ReleaseRecord {
            name: field_text(row, name),
            release_date: field_text(row, date),
            link: field_text(row, link),
        };
        proof {
            assert(record@ == record_of(table[0], table[i as int]));
        }
        records.push(record);
        i += 1;
    }
    proof {
        assert(is_table(table));
        assert(release_views(records@) =~= records_of(table));
    }
    Ok(Dataset { records })
}

} // verus!
