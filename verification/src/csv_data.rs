//! The delimited tabular input format: records are lines, fields are
//! comma-separated, and a field may be written in double quotes, inside
//! which commas are literal and a doubled quote stands for one quote.
//! The header row maps column names to positions; each data row becomes a
//! typed `WasteWaterCsvRow` or a `ParseError`, in input order.

use vstd::prelude::*;
use vstd::std_specs::iter::IteratorSpec;

use crate::civil::{parse_civil, parse_civil_chars, resolve_pacific};
use crate::date::{parse_date, parse_date_chars, Date};
use crate::decimal::{parse_decimal, parse_decimal_chars, Decimal};

verus! {

/// The characters of `s`, as a vector.
pub fn str_to_chars(s: &str) -> (v: Vec<char>)
    ensures
        v@ == s@,
{
    broadcast use vstd::string::group_string_axioms;

    let mut it = s.chars();
    let mut v: Vec<char> = Vec::new();
    let mut done = false;
    while !done
        invariant
            it.obeys_prophetic_iter_laws(),
            it.decrease() is Some,
            v@ + it.remaining() =~= s@,
            done ==> it.remaining().len() == 0,
        decreases (if done { 0int } else { 1int }), it.decrease().unwrap(),
    {
        match it.next() {
            Some(c) => {
                v.push(c);
            },
            None => {
                done = true;
            },
        }
    }
    proof {
        assert(v@ + it.remaining() =~= v@);
        assert(v@ =~= s@);
    }
    v
}

/// Relies on `String: FromIterator<char>`: collecting characters builds the
/// string of exactly those characters.
#[verifier::external_body]
pub(crate) fn chars_to_string(v: &Vec<char>) -> (s: String)
    ensures
        s@ == v@,
{
    v.iter().collect()
}

/// Drops one trailing carriage return, so that lines ended by `\r\n` and by
/// `\n` read the same.
pub open spec fn strip_cr(l: Seq<char>) -> Seq<char> {
    if l.len() > 0 && l.last() == '\r' {
        l.drop_last()
    } else {
        l
    }
}

/// The non-empty lines of `s`, reading from position `i` with `cur` the
/// line begun so far and `acc` the lines already complete.
pub open spec fn lines_fold(s: Seq<char>, i: int, cur: Seq<char>, acc: Seq<Seq<char>>) -> Seq<
    Seq<char>,
>
    decreases s.len() - i,
{
    if i < 0 || i >= s.len() {
        if strip_cr(cur).len() > 0 {
            acc.push(strip_cr(cur))
        } else {
            acc
        }
    } else if s[i] == '\n' {
        if strip_cr(cur).len() > 0 {
            lines_fold(s, i + 1, Seq::empty(), acc.push(strip_cr(cur)))
        } else {
            lines_fold(s, i + 1, Seq::empty(), acc)
        }
    } else {
        lines_fold(s, i + 1, cur.push(s[i]), acc)
    }
}

/// The lines of `s`: split at `\n`, one trailing `\r` stripped from each,
/// empty lines dropped.
pub open spec fn split_lines(s: Seq<char>) -> Seq<Seq<char>> {
    lines_fold(s, 0, Seq::empty(), Seq::empty())
}

/// Splits `s` into lines, matching `split_lines` exactly.
pub fn split_lines_exec(s: &Vec<char>) -> (r: Vec<Vec<char>>)
    ensures
        r.deep_view() == split_lines(s@),
{
    let mut i: usize = 0;
    let mut cur: Vec<char> = Vec::new();
    let mut acc: Vec<Vec<char>> = Vec::new();
    proof {
        assert(acc.deep_view() =~~= Seq::<Seq<char>>::empty());
    }
    while i < s.len()
        invariant
            i <= s.len(),
            split_lines(s@) == lines_fold(s@, i as int, cur@, acc.deep_view()),
        decreases s.len() - i,
    {
        let c = s[i];
        if c == '\n' {
            let stripped_len = strip_cr_len(&cur);
            if stripped_len > 0 {
                cur.truncate(stripped_len);
                let ghost old_acc = acc.deep_view();
                acc.push(cur);
                cur = Vec::new();
                proof {
                    assert(acc.deep_view() =~~= old_acc.push(acc@.last()@));
                }
            } else {
                cur = Vec::new();
            }
        } else {
            cur.push(c);
        }
        i = i + 1;
    }
    let stripped_len = strip_cr_len(&cur);
    if stripped_len > 0 {
        cur.truncate(stripped_len);
        let ghost old_acc = acc.deep_view();
        acc.push(cur);
        proof {
            assert(acc.deep_view() =~~= old_acc.push(acc@.last()@));
        }
    }
    acc
}

/// Length of `l` once one trailing carriage return is dropped.
fn strip_cr_len(l: &Vec<char>) -> (n: usize)
    ensures
        n == strip_cr(l@).len(),
        strip_cr(l@) == l@.subrange(0, n as int),
{
    proof {
        if l@.len() > 0 && l@.last() == '\r' {
            assert(l@.drop_last() =~= l@.subrange(0, l@.len() - 1));
        } else {
            assert(l@ =~= l@.subrange(0, l@.len() as int));
        }
    }
    if l.len() > 0 && l[l.len() - 1] == '\r' {
        l.len() - 1
    } else {
        l.len()
    }
}

/// Where the field scanner stands within one line.
#[derive(Clone, Copy, Debug, PartialEq, Eq, Structural)]
pub enum FieldMode {
    /// At the beginning of a field.
    Start,
    /// Inside an unquoted field.
    Plain,
    /// Inside a quoted field.
    Quoted,
    /// Just past the closing quote of a quoted field.
    Closed,
}

/// The fields of line `l` from position `i`, with `cur` the field begun so
/// far, `acc` the fields already complete, and the scanner in `mode`;
/// `None` when the quoting is malformed.
pub open spec fn scan_fields(
    l: Seq<char>,
    i: int,
    mode: FieldMode,
    cur: Seq<char>,
    acc: Seq<Seq<char>>,
) -> Option<Seq<Seq<char>>>
    decreases l.len() - i,
{
    if i < 0 || i >= l.len() {
        match mode {
            FieldMode::Quoted => None,
            _ => Some(acc.push(cur)),
        }
    } else {
        let c = l[i];
        match mode {
            FieldMode::Start => if c == '"' {
                scan_fields(l, i + 1, FieldMode::Quoted, cur, acc)
            } else if c == ',' {
                scan_fields(l, i + 1, FieldMode::Start, Seq::empty(), acc.push(cur))
            } else {
                scan_fields(l, i + 1, FieldMode::Plain, cur.push(c), acc)
            },
            FieldMode::Plain => if c == ',' {
                scan_fields(l, i + 1, FieldMode::Start, Seq::empty(), acc.push(cur))
            } else {
                scan_fields(l, i + 1, FieldMode::Plain, cur.push(c), acc)
            },
            FieldMode::Quoted => if c == '"' {
                scan_fields(l, i + 1, FieldMode::Closed, cur, acc)
            } else {
                scan_fields(l, i + 1, FieldMode::Quoted, cur.push(c), acc)
            },
            FieldMode::Closed => if c == '"' {
                scan_fields(l, i + 1, FieldMode::Quoted, cur.push('"'), acc)
            } else if c == ',' {
                scan_fields(l, i + 1, FieldMode::Start, Seq::empty(), acc.push(cur))
            } else {
                None
            },
        }
    }
}

/// The fields of one line, or `None` when its quoting is malformed.
pub open spec fn parse_line_fields(l: Seq<char>) -> Option<Seq<Seq<char>>> {
    scan_fields(l, 0, FieldMode::Start, Seq::empty(), Seq::empty())
}

/// Splits one line into fields, matching `parse_line_fields` exactly.
pub fn parse_line_fields_exec(l: &Vec<char>) -> (r: Option<Vec<Vec<char>>>)
    ensures
        match r {
            Some(fields) => parse_line_fields(l@) == Some(fields.deep_view()),
            None => parse_line_fields(l@) is None,
        },
{
    let mut i: usize = 0;
    let mut mode = FieldMode::Start;
    let mut cur: Vec<char> = Vec::new();
    let mut acc: Vec<Vec<char>> = Vec::new();
    proof {
        assert(acc.deep_view() =~~= Seq::<Seq<char>>::empty());
    }
    while i < l.len()
        invariant
            i <= l.len(),
            parse_line_fields(l@) == scan_fields(l@, i as int, mode, cur@, acc.deep_view()),
        decreases l.len() - i,
    {
        let c = l[i];
        let ghost old_acc = acc.deep_view();
        let ghost old_cur = cur@;
        match mode {
            FieldMode::Start => {
                if c == '"' {
                    mode = FieldMode::Quoted;
                } else if c == ',' {
                    acc.push(cur);
                    cur = Vec::new();
                    proof {
                        assert(acc.deep_view() =~~= old_acc.push(old_cur));
                    }
                } else {
                    mode = FieldMode::Plain;
                    cur.push(c);
                }
            },
            FieldMode::Plain => {
                if c == ',' {
                    mode = FieldMode::Start;
                    acc.push(cur);
                    cur = Vec::new();
                    proof {
                        assert(acc.deep_view() =~~= old_acc.push(old_cur));
                    }
                } else {
                    cur.push(c);
                }
            },
            FieldMode::Quoted => {
                if c == '"' {
                    mode = FieldMode::Closed;
                } else {
                    cur.push(c);
                }
            },
            FieldMode::Closed => {
                if c == '"' {
                    mode = FieldMode::Quoted;
                    cur.push('"');
                } else if c == ',' {
                    mode = FieldMode::Start;
                    acc.push(cur);
                    cur = Vec::new();
                    proof {
                        assert(acc.deep_view() =~~= old_acc.push(old_cur));
                    }
                } else {
                    return None;
                }
            },
        }
        i = i + 1;
    }
    match mode {
        FieldMode::Quoted => None,
        _ => {
            let ghost old_acc = acc.deep_view();
            acc.push(cur);
            proof {
                assert(acc.deep_view() =~~= old_acc.push(acc@.last()@));
            }
            Some(acc)
        },
    }
}


/// Whether the characters of `v` spell exactly `s`.
pub fn chars_eq_str(v: &Vec<char>, s: &str) -> (r: bool)
    ensures
        r == (v@ == s@),
{
    let n = s.unicode_len();
    if n != v.len() {
        return false;
    }
    let mut i: usize = 0;
    while i < n
        invariant
            i <= n,
            n == v@.len() == s@.len(),
            forall|j: int| 0 <= j < i ==> v@[j] == s@[j],
        decreases n - i,
    {
        if s.get_char(i) != v[i] {
            return false;
        }
        i = i + 1;
    }
    proof {
        assert(v@ =~= s@);
    }
    true
}

/// Index of the first field of `hdr` that spells `name`, if any.
pub open spec fn find_col(hdr: Seq<Seq<char>>, name: Seq<char>) -> Option<int>
    decreases hdr.len(),
{
    if hdr.len() == 0 {
        None
    } else if hdr[0] == name {
        Some(0)
    } else {
        match find_col(hdr.drop_first(), name) {
            Some(i) => Some(i + 1),
            None => None,
        }
    }
}

/// `find_col` names the first occurrence, and `None` means no occurrence.
pub proof fn lemma_find_col(hdr: Seq<Seq<char>>, name: Seq<char>)
    ensures
        match find_col(hdr, name) {
            Some(i) => 0 <= i < hdr.len() && hdr[i] == name && forall|j: int|
                0 <= j < i ==> hdr[j] != name,
            None => forall|j: int| 0 <= j < hdr.len() ==> hdr[j] != name,
        },
    decreases hdr.len(),
{
    if hdr.len() > 0 && hdr[0] != name {
        lemma_find_col(hdr.drop_first(), name);
        match find_col(hdr.drop_first(), name) {
            Some(i) => {
                assert(hdr[i + 1] == hdr.drop_first()[i]);
                assert forall|j: int| 0 <= j < i + 1 implies hdr[j] != name by {
                    if j > 0 {
                        assert(hdr.drop_first()[j - 1] == hdr[j]);
                    }
                }
            },
            None => {
                assert forall|j: int| 0 <= j < hdr.len() implies hdr[j] != name by {
                    if j > 0 {
                        assert(hdr.drop_first()[j - 1] == hdr[j]);
                    }
                }
            },
        }
    }
}

/// First field of `hdr` that spells `name`, matching `find_col`.
pub fn find_col_exec(hdr: &Vec<Vec<char>>, name: &str) -> (r: Option<usize>)
    ensures
        match r {
            Some(i) => find_col(hdr.deep_view(), name@) == Some(i as int) && i < hdr@.len(),
            None => find_col(hdr.deep_view(), name@) is None,
        },
{
    proof {
        lemma_find_col(hdr.deep_view(), name@);
    }
    let mut i: usize = 0;
    while i < hdr.len()
        invariant
            i <= hdr@.len(),
            hdr.deep_view().len() == hdr@.len(),
            forall|j: int| 0 <= j < i ==> hdr.deep_view()[j] != name@,
        decreases hdr@.len() - i,
    {
        if chars_eq_str(&hdr[i], name) {
            proof {
                assert(hdr.deep_view()[i as int] == hdr@[i as int]@);
                lemma_find_col(hdr.deep_view(), name@);
                if let Some(k) = find_col(hdr.deep_view(), name@) {
                    if k < i {
                        assert(hdr.deep_view()[k] != name@);
                    }
                } else {
                    assert(hdr.deep_view()[i as int] != name@);
                }
            }
            return Some(i);
        }
        proof {
            assert(hdr.deep_view()[i as int] == hdr@[i as int]@);
        }
        i = i + 1;
    }
    proof {
        lemma_find_col(hdr.deep_view(), name@);
    }
    None
}

/// Positions of the seven required columns within the header row.
#[derive(Clone, Copy, Debug, PartialEq, Eq, Structural)]
pub struct ColumnMap {
    pub date: usize,
    pub site: usize,
    pub county: usize,
    pub pathogen: usize,
    pub gene: usize,
    pub concentration: usize,
    pub updated: usize,
}

/// The column positions that the header row assigns to the seven required
/// names, or `None` when one of the names is missing.
pub open spec fn locate_columns(hdr: Seq<Seq<char>>) -> Option<ColumnMap> {
    if find_col(hdr, "Sample Collection Date"@) is Some && find_col(hdr, "Site Name"@) is Some
        && find_col(hdr, "County"@) is Some && find_col(hdr, "PCR Pathogen Target"@) is Some
        && find_col(hdr, "PCR Gene Target"@) is Some && find_col(
        hdr,
        "Normalized Pathogen Concentration (gene copies/person/day)"@,
    ) is Some && find_col(hdr, "Date/Time Updated"@) is Some {
        Some(
            ColumnMap {
                date: find_col(hdr, "Sample Collection Date"@).unwrap() as usize,
                site: find_col(hdr, "Site Name"@).unwrap() as usize,
                county: find_col(hdr, "County"@).unwrap() as usize,
                pathogen: find_col(hdr, "PCR Pathogen Target"@).unwrap() as usize,
                gene: find_col(hdr, "PCR Gene Target"@).unwrap() as usize,
                concentration: find_col(
                    hdr,
                    "Normalized Pathogen Concentration (gene copies/person/day)"@,
                ).unwrap() as usize,
                updated: find_col(hdr, "Date/Time Updated"@).unwrap() as usize,
            },
        )
    } else {
        None
    }
}

/// Finds the seven required columns, matching `locate_columns`; every found
/// position lies inside the header row.
pub fn locate_columns_exec(hdr: &Vec<Vec<char>>) -> (r: Option<ColumnMap>)
    ensures
        r == locate_columns(hdr.deep_view()),
        r is Some ==> r.unwrap().date < hdr.deep_view().len() && r.unwrap().site
            < hdr.deep_view().len() && r.unwrap().county < hdr.deep_view().len()
            && r.unwrap().pathogen < hdr.deep_view().len() && r.unwrap().gene
            < hdr.deep_view().len() && r.unwrap().concentration < hdr.deep_view().len()
            && r.unwrap().updated < hdr.deep_view().len(),
{
    let date = find_col_exec(hdr, "Sample Collection Date");
    let site = find_col_exec(hdr, "Site Name");
    let county = find_col_exec(hdr, "County");
    let pathogen = find_col_exec(hdr, "PCR Pathogen Target");
    let gene = find_col_exec(hdr, "PCR Gene Target");
    let concentration = find_col_exec(
        hdr,
        "Normalized Pathogen Concentration (gene copies/person/day)",
    );
    let updated = find_col_exec(hdr, "Date/Time Updated");
    proof {
        assert(hdr.deep_view().len() == hdr@.len());
    }
    match (date, site, county, pathogen, gene, concentration, updated) {
        (
            Some(date),
            Some(site),
            Some(county),
            Some(pathogen),
            Some(gene),
            Some(concentration),
            Some(updated),
        ) => Some(ColumnMap { date, site, county, pathogen, gene, concentration, updated }),
        _ => None,
    }
}

/// Why one row, or the whole input, could not be decoded.
#[derive(Debug, Clone)]
pub enum ParseError {
    /// The header row lacks one of the seven required column names.
    MissingColumn,
    /// A line has malformed quoting, or text after a closing quote.
    MalformedLine,
    /// A data row has a different number of fields than the header row.
    WrongFieldCount,
    /// The sample collection date is not a real `YYYY-MM-DD` date.
    BadDate,
    /// The concentration is not a plain decimal number.
    BadConcentration,
    /// The updated timestamp is not a `YYYY-MM-DD HH:MM:SS.ffffff` time.
    BadTimestamp,
    /// The updated timestamp, carried here, falls in a spring-forward gap
    /// of the US Pacific zone and so denotes no instant.
    InvalidLocalTime(String),
}

/// `ParseError` with its text payload as a character string.
pub enum SpecParseError {
    MissingColumn,
    MalformedLine,
    WrongFieldCount,
    BadDate,
    BadConcentration,
    BadTimestamp,
    InvalidLocalTime(Seq<char>),
}

impl View for ParseError {
    type V = SpecParseError;

    open spec fn view(&self) -> SpecParseError {
        match self {
            ParseError::MissingColumn => SpecParseError::MissingColumn,
            ParseError::MalformedLine => SpecParseError::MalformedLine,
            ParseError::WrongFieldCount => SpecParseError::WrongFieldCount,
            ParseError::BadDate => SpecParseError::BadDate,
            ParseError::BadConcentration => SpecParseError::BadConcentration,
            ParseError::BadTimestamp => SpecParseError::BadTimestamp,
            ParseError::InvalidLocalTime(s) => SpecParseError::InvalidLocalTime(s@),
        }
    }
}

/// One decoded data row of the dataset.
#[derive(Debug, Clone)]
pub struct WasteWaterCsvRow {
    /// Date the sample was collected.
    pub sample_collection_date: Date,
    /// Name of the site where the sample was collected.
    pub site_name: String,
    /// County where the sample was collected.
    pub county: String,
    /// Pathogen target of the PCR test.
    pub pcr_pathogen_target: String,
    /// Gene target of the PCR test.
    pub pcr_gene_target: String,
    /// Normalized pathogen concentration (gene copies/person/day).
    /// Sites normalize differently, so values are not comparable across sites.
    pub normalized_pathogen_concentration: Decimal,
    /// Instant the dataset was last updated: the upstream civil Pacific
    /// time, resolved to microseconds since the Unix epoch.
    pub date_updated: i64,
}

/// `WasteWaterCsvRow` with its strings as character strings.
pub struct CsvRowView {
    pub sample_collection_date: Date,
    pub site_name: Seq<char>,
    pub county: Seq<char>,
    pub pcr_pathogen_target: Seq<char>,
    pub pcr_gene_target: Seq<char>,
    pub normalized_pathogen_concentration: Decimal,
    pub date_updated: int,
}

impl View for WasteWaterCsvRow {
    type V = CsvRowView;

    open spec fn view(&self) -> CsvRowView {
        CsvRowView {
            sample_collection_date: self.sample_collection_date,
            site_name: self.site_name@,
            county: self.county@,
            pcr_pathogen_target: self.pcr_pathogen_target@,
            pcr_gene_target: self.pcr_gene_target@,
            normalized_pathogen_concentration: self.normalized_pathogen_concentration,
            date_updated: self.date_updated as int,
        }
    }
}

/// The row that the fields of one data row decode to, under the header's
/// column positions: the date, concentration and updated timestamp parsed
/// and checked in that order, the timestamp resolved to the single or later
/// Pacific instant, and a gap reported as `InvalidLocalTime`.
pub open spec fn parse_row(fields: Seq<Seq<char>>, cols: ColumnMap, ncols: int) -> Result<
    CsvRowView,
    SpecParseError,
> {
    if fields.len() != ncols {
        Err(SpecParseError::WrongFieldCount)
    } else {
        match parse_date(fields[cols.date as int]) {
            None => Err(SpecParseError::BadDate),
            Some(date) => match parse_decimal(fields[cols.concentration as int]) {
                None => Err(SpecParseError::BadConcentration),
                Some(concentration) => match parse_civil(fields[cols.updated as int]) {
                    None => Err(SpecParseError::BadTimestamp),
                    Some(civil) => if civil.instants().len() == 0 {
                        Err(SpecParseError::InvalidLocalTime(fields[cols.updated as int]))
                    } else {
                        Ok(
                            CsvRowView {
                                sample_collection_date: date,
                                site_name: fields[cols.site as int],
                                county: fields[cols.county as int],
                                pcr_pathogen_target: fields[cols.pathogen as int],
                                pcr_gene_target: fields[cols.gene as int],
                                normalized_pathogen_concentration: concentration,
                                date_updated: civil.instants().last(),
                            },
                        )
                    },
                },
            },
        }
    }
}

/// Decodes one data row, matching `parse_row` exactly.
pub fn parse_row_exec(fields: &Vec<Vec<char>>, cols: &ColumnMap, ncols: usize) -> (r: Result<
    WasteWaterCsvRow,
    ParseError,
>)
    requires
        cols.date < ncols,
        cols.site < ncols,
        cols.county < ncols,
        cols.pathogen < ncols,
        cols.gene < ncols,
        cols.concentration < ncols,
        cols.updated < ncols,
    ensures
        match r {
            Ok(row) => parse_row(fields.deep_view(), *cols, ncols as int) == Ok::<
                CsvRowView,
                SpecParseError,
            >(row@) && row.sample_collection_date.wf()
                && row.normalized_pathogen_concentration.compact(),
            Err(e) => parse_row(fields.deep_view(), *cols, ncols as int) == Err::<
                CsvRowView,
                SpecParseError,
            >(e@),
        },
{
    proof {
        assert(fields.deep_view().len() == fields@.len());
    }
    if fields.len() != ncols {
        return Err(ParseError::WrongFieldCount);
    }
    proof {
        assert(fields.deep_view()[cols.date as int] == fields@[cols.date as int]@);
        assert(fields.deep_view()[cols.site as int] == fields@[cols.site as int]@);
        assert(fields.deep_view()[cols.county as int] == fields@[cols.county as int]@);
        assert(fields.deep_view()[cols.pathogen as int] == fields@[cols.pathogen as int]@);
        assert(fields.deep_view()[cols.gene as int] == fields@[cols.gene as int]@);
        assert(fields.deep_view()[cols.concentration as int] == fields@[cols.concentration as int]@);
        assert(fields.deep_view()[cols.updated as int] == fields@[cols.updated as int]@);
    }
    let date = match parse_date_chars(&fields[cols.date]) {
        Some(d) => d,
        None => {
            return Err(ParseError::BadDate);
        },
    };
    let concentration = match parse_decimal_chars(&fields[cols.concentration]) {
        Some(c) => c,
        None => {
            return Err(ParseError::BadConcentration);
        },
    };
    let civil = match parse_civil_chars(&fields[cols.updated]) {
        Some(c) => c,
        None => {
            return Err(ParseError::BadTimestamp);
        },
    };
    let updated = match resolve_pacific(&civil) {
        Some(t) => t,
        None => {
            return Err(ParseError::InvalidLocalTime(chars_to_string(&fields[cols.updated])));
        },
    };
    Ok(
        WasteWaterCsvRow {
            sample_collection_date: date,
            site_name: chars_to_string(&fields[cols.site]),
            county: chars_to_string(&fields[cols.county]),
            pcr_pathogen_target: chars_to_string(&fields[cols.pathogen]),
            pcr_gene_target: chars_to_string(&fields[cols.gene]),
            normalized_pathogen_concentration: concentration,
            date_updated: updated,
        },
    )
}

/// The decode of one data line: its fields, then `parse_row`.
pub open spec fn parse_data_line(l: Seq<char>, cols: ColumnMap, ncols: int) -> Result<
    CsvRowView,
    SpecParseError,
> {
    match parse_line_fields(l) {
        None => Err(SpecParseError::MalformedLine),
        Some(fields) => parse_row(fields, cols, ncols),
    }
}

/// What the whole input decodes to: the first non-empty line is the header
/// row and assigns column positions by name; every further non-empty line
/// decodes on its own, in input order, to a row or to a row error.
/// The whole decode fails only when there is no header row, its quoting is
/// malformed, or a required column name is missing.
pub open spec fn spec_parse_data(s: Seq<char>) -> Result<
    Seq<Result<CsvRowView, SpecParseError>>,
    SpecParseError,
> {
    let lines = split_lines(s);
    if lines.len() == 0 {
        Err(SpecParseError::MissingColumn)
    } else {
        match parse_line_fields(lines[0]) {
            None => Err(SpecParseError::MalformedLine),
            Some(hdr) => match locate_columns(hdr) {
                None => Err(SpecParseError::MissingColumn),
                Some(cols) => Ok(
                    Seq::new(
                        (lines.len() - 1) as nat,
                        |i: int| parse_data_line(lines[i + 1], cols, hdr.len() as int),
                    ),
                ),
            },
        }
    }
}

/// The rows of `rows`, each as its model.
pub open spec fn rows_view(rows: Seq<Result<WasteWaterCsvRow, ParseError>>) -> Seq<
    Result<CsvRowView, SpecParseError>,
> {
    Seq::new(
        rows.len(),
        |i: int|
            match rows[i] {
                Ok(row) => Ok(row@),
                Err(e) => Err(e@),
            },
    )
}

/// Decodes the dataset text: one `Result` per data row, in input order,
/// matching `spec_parse_data` exactly. Every returned row has a real
/// collection date and a concentration small enough for exact arithmetic.
pub fn parse_data(input: &str) -> (r: Result<Vec<Result<WasteWaterCsvRow, ParseError>>, ParseError>)
    ensures
        match r {
            Ok(rows) => spec_parse_data(input@) == Ok::<_, SpecParseError>(rows_view(rows@)),
            Err(e) => spec_parse_data(input@) == Err::<Seq<Result<CsvRowView, SpecParseError>>, _>(
                e@,
            ),
        },
        r is Ok ==> forall|i: int|
            0 <= i < r->Ok_0@.len() && r->Ok_0@[i] is Ok ==> (#[trigger] r->Ok_0@[i])
                ->Ok_0.sample_collection_date.wf()
                && r->Ok_0@[i]->Ok_0.normalized_pathogen_concentration.compact(),
{
    let chars = str_to_chars(input);
    let lines = split_lines_exec(&chars);
    if lines.len() == 0 {
        return Err(ParseError::MissingColumn);
    }
    proof {
        assert(lines.deep_view()[0] == lines@[0]@);
    }
    let hdr = match parse_line_fields_exec(&lines[0]) {
        Some(h) => h,
        None => {
            return Err(ParseError::MalformedLine);
        },
    };
    let cols = match locate_columns_exec(&hdr) {
        Some(c) => c,
        None => {
            return Err(ParseError::MissingColumn);
        },
    };
    let ncols = hdr.len();
    let mut rows: Vec<Result<WasteWaterCsvRow, ParseError>> = Vec::new();
    let mut i: usize = 1;
    proof {
        assert(hdr.deep_view().len() == hdr@.len());
    }
    while i < lines.len()
        invariant
            1 <= i <= lines@.len(),
            chars@ == input@,
            lines.deep_view() == split_lines(chars@),
            lines.deep_view().len() == lines@.len(),
            lines.deep_view()[0] == lines@[0]@,
            parse_line_fields(lines.deep_view()[0]) == Some(hdr.deep_view()),
            locate_columns(hdr.deep_view()) == Some(cols),
            ncols == hdr.deep_view().len(),
            cols.date < ncols && cols.site < ncols && cols.county < ncols && cols.pathogen < ncols
                && cols.gene < ncols && cols.concentration < ncols && cols.updated < ncols,
            spec_parse_data(chars@) is Ok,
            rows@.len() == i - 1,
            forall|j: int| 0 <= j < i - 1 ==> rows_view(rows@)[j] == spec_parse_data(
                chars@,
            )->Ok_0[j],
            forall|j: int|
                0 <= j < rows@.len() && rows@[j] is Ok ==> (#[trigger] rows@[j])
                    ->Ok_0.sample_collection_date.wf()
                    && rows@[j]->Ok_0.normalized_pathogen_concentration.compact(),
        decreases lines@.len() - i,
    {
        proof {
            assert(lines.deep_view()[i as int] == lines@[i as int]@);
        }
        let row = match parse_line_fields_exec(&lines[i]) {
            Some(fields) => parse_row_exec(&fields, &cols, ncols),
            None => Err(ParseError::MalformedLine),
        };
        let ghost old_rows = rows@;
        rows.push(row);
        proof {
            let sp = spec_parse_data(chars@)->Ok_0;
            assert(sp[i - 1] == parse_data_line(
                split_lines(chars@)[i as int],
                cols,
                ncols as int,
            ));
            assert(rows@ == old_rows.push(row));
            assert forall|j: int| 0 <= j < rows@.len() implies rows_view(rows@)[j] == sp[j] by {
                if j < rows@.len() - 1 {
                    assert(rows@[j] == old_rows[j]);
                    assert(rows_view(old_rows)[j] == sp[j]);
                } else {
                    assert(rows@[j] == row);
                }
            }
        }
        i = i + 1;
    }
    proof {
        assert(rows_view(rows@) =~= spec_parse_data(chars@)->Ok_0);
    }
    Ok(rows)
}

} // verus!
