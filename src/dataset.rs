use vstd::prelude::*;

verus! {

/// The header record of the delimited text `data`, as the csv crate reads it,
/// or the message of the error it reports.
pub uninterp spec fn csv_header(data: Seq<u8>) -> Result<Seq<Seq<char>>, Seq<char>>;

/// The records after the header of the delimited text `data`, as the csv crate
/// reads them: the fields of each, or the message of the error it reports.
pub uninterp spec fn csv_records(data: Seq<u8>) -> Seq<Result<Seq<Seq<char>>, Seq<char>>>;

/// A row that gave no value: its 1-based record number, and the reader's
/// message where the record itself was malformed (none where it simply had no
/// field at the column's position).
pub struct RowSkip {
    pub record: usize,
    pub reason: Option<String>,
}

/// The values of one column, one per usable row in file order, and the rows
/// that were skipped.
pub struct ColumnStream {
    pub values: Vec<String>,
    pub skipped: Vec<RowSkip>,
}

/// Why a column could not be read at all.
pub enum DatasetError {
    /// The dataset could not be read; the reader's message.
    Open { reason: String },
    /// No header names the column; the header as read.
    ColumnNotFound { column: String, headers: Vec<String> },
}

/// Strings as character sequences.
pub open spec fn texts(v: Seq<String>) -> Seq<Seq<char>> {
    v.map_values(|s: String| s@)
}

/// Read records as plain values.
pub open spec fn records_view(r: Seq<Result<Vec<String>, String>>) -> Seq<
    Result<Seq<Seq<char>>, Seq<char>>,
> {
    r.map_values(
        |x: Result<Vec<String>, String>|
            match x {
                Ok(f) => Ok(texts(f@)),
                Err(m) => Err(m@),
            },
    )
}

/// A skipped row as its record number and message.
pub open spec fn skip_view(s: RowSkip) -> (nat, Option<Seq<char>>) {
    (
        s.record as nat,
        match s.reason {
            Some(m) => Some(m@),
            None => None,
        },
    )
}

/// Skipped rows as plain values.
pub open spec fn skips_view(s: Seq<RowSkip>) -> Seq<(nat, Option<Seq<char>>)> {
    s.map_values(|x: RowSkip| skip_view(x))
}

/// The position of the first header equal to `name`.
pub open spec fn position_of(header: Seq<Seq<char>>, name: Seq<char>) -> Option<nat>
    decreases header.len(),
{
    if header.len() == 0 {
        None
    } else {
        match position_of(header.drop_last(), name) {
            Some(i) => Some(i),
            None => if header.last() == name {
                Some((header.len() - 1) as nat)
            } else {
                None
            },
        }
    }
}

/// The field at `col` of each record that read well and has one, in order.
pub open spec fn column_of(rows: Seq<Result<Seq<Seq<char>>, Seq<char>>>, col: nat) -> Seq<
    Seq<char>,
>
    decreases rows.len(),
{
    if rows.len() == 0 {
        Seq::empty()
    } else {
        let prev = column_of(rows.drop_last(), col);
        match rows.last() {
            Ok(f) => if col < f.len() {
                prev.push(f[col as int])
            } else {
                prev
            },
            Err(_) => prev,
        }
    }
}

/// The records that give no value at `col`, numbered from 1.
pub open spec fn skipped_of(rows: Seq<Result<Seq<Seq<char>>, Seq<char>>>, col: nat) -> Seq<
    (nat, Option<Seq<char>>),
>
    decreases rows.len(),
{
    if rows.len() == 0 {
        Seq::empty()
    } else {
        let prev = skipped_of(rows.drop_last(), col);
        match rows.last() {
            Ok(f) => if col < f.len() {
                prev
            } else {
                prev.push((rows.len(), None))
            },
            Err(m) => prev.push((rows.len(), Some(m))),
        }
    }
}

/// `r` is what reading column `column` of `data` gives.
pub open spec fn column_read_as(data: Seq<u8>, column: Seq<char>, r: Result<ColumnStream, DatasetError>) -> bool {
    match csv_header(data) {
        Err(m) => match r {
            Err(DatasetError::Open { reason }) => reason@ == m,
            _ => false,
        },
        Ok(h) => match position_of(h, column) {
            None => match r {
                Err(DatasetError::ColumnNotFound { column: c, headers }) => c@ == column && texts(
                    headers@,
                ) == h,
                _ => false,
            },
            Some(i) => match r {
                Ok(s) => texts(s.values@) == column_of(csv_records(data), i) && skips_view(
                    s.skipped@,
                ) == skipped_of(csv_records(data), i),
                _ => false,
            },
        },
    }
}

/// Relies on csv::Reader::headers over an in-memory reader: the first record,
/// or the error (a malformed UTF-8 header) that the reader reports.
#[verifier::external_body]
fn read_header(data: &[u8]) -> (r: Result<Vec<String>, String>)
    ensures
        match r {
            Ok(h) => csv_header(data@) == Ok::<Seq<Seq<char>>, Seq<char>>(texts(h@)),
            Err(m) => csv_header(data@) == Err::<Seq<Seq<char>>, Seq<char>>(m@),
        },
{
    let mut rdr = csv::Reader::from_reader(data);
    match rdr.headers() {
        Ok(h) => Ok(h.iter().map(String::from).collect()),
        Err(e) => Err(e.to_string()),
    }
}

/// Relies on csv::Reader::records over an in-memory reader: each record after
/// the header, or the error that the reader reports for it; reading goes on
/// after an error.
#[verifier::external_body]
fn read_records(data: &[u8]) -> (r: Vec<Result<Vec<String>, String>>)
    ensures
        records_view(r@) == csv_records(data@),
{
    let mut rdr = csv::Reader::from_reader(data);
    let mut out = Vec::new();
    for res in rdr.records() {
        out.push(res.map(|rec| rec.iter().map(String::from).collect()).map_err(|e| e.to_string()));
    }
    out
}

/// The position of the first header equal to `column`.
pub fn find_column(headers: &Vec<String>, column: &str) -> (r: Option<usize>)
    ensures
        match r {
            Some(i) => position_of(texts(headers@), column@) == Some(i as nat),
            None => position_of(texts(headers@), column@).is_none(),
        },
{
    let ghost h = texts(headers@);
    let name = column.to_owned();
    let mut i: usize = 0;
    while i < headers.len()
        invariant
            i <= headers@.len(),
            h == texts(headers@),
            name@ == column@,
            position_of(h.take(i as int), column@).is_none(),
        decreases headers@.len() - i,
    {
        proof {
            assert(h.take(i + 1).drop_last() =~= h.take(i as int));
        }
        if headers[i] == name {
            proof {
                lemma_position_extends(h, column@, (i + 1) as nat);
            }
            return Some(i);
        }
        i = i + 1;
    }
    proof {
        assert(h.take(i as int) =~= h);
    }
    None
}

/// A position found in a prefix is the position in the whole.
proof fn lemma_position_extends(h: Seq<Seq<char>>, name: Seq<char>, n: nat)
    requires
        n <= h.len(),
        position_of(h.take(n as int), name).is_some(),
    ensures
        position_of(h, name) == position_of(h.take(n as int), name),
    decreases h.len() - n,
{
    if n < h.len() {
        assert(h.take((n + 1) as int).drop_last() =~= h.take(n as int));
        lemma_position_extends(h, name, n + 1);
    } else {
        assert(h.take(n as int) =~= h);
    }
}

/// Splits records into the values at `col` and the rows that give none.
pub fn column_values(rows: &Vec<Result<Vec<String>, String>>, col: usize) -> (r: ColumnStream)
    ensures
        texts(r.values@) == column_of(records_view(rows@), col as nat),
        skips_view(r.skipped@) == skipped_of(records_view(rows@), col as nat),
{
    let ghost all = records_view(rows@);
    let mut values: Vec<String> = Vec::new();
    let mut skipped: Vec<RowSkip> = Vec::new();
    let mut i: usize = 0;
    proof {
        assert(all.take(0) =~= Seq::<Result<Seq<Seq<char>>, Seq<char>>>::empty());
        assert(texts(values@) =~= Seq::empty());
        assert(skips_view(skipped@) =~= Seq::empty());
    }
    while i < rows.len()
        invariant
            i <= rows@.len(),
            all == records_view(rows@),
            texts(values@) == column_of(all.take(i as int), col as nat),
            skips_view(skipped@) == skipped_of(all.take(i as int), col as nat),
        decreases rows@.len() - i,
    {
        let ghost pre = all.take(i + 1);
        proof {
            assert(pre.drop_last() =~= all.take(i as int));
            assert(pre.last() == all[i as int]);
        }
        match &rows[i] {
            Ok(fields) => {
                if col < fields.len() {
                    values.push(fields[col].clone());
                    proof {
                        assert(texts(values@) =~= column_of(pre, col as nat));
                    }
                } else {
                    skipped.push(RowSkip { record: i + 1, reason: None });
                    proof {
                        assert(skips_view(skipped@) =~= skipped_of(pre, col as nat));
                    }
                }
            },
            Err(m) => {
                skipped.push(RowSkip { record: i + 1, reason: Some(m.clone()) });
                proof {
                    assert(skips_view(skipped@) =~= skipped_of(pre, col as nat));
                }
            },
        }
        i = i + 1;
    }
    proof {
        assert(all.take(i as int) =~= all);
    }
    ColumnStream { values, skipped }
}

/// Reads column `column` of the delimited text `data`: fails where the header
/// cannot be read or names no such column (exact, case-sensitive match);
/// otherwise gives the column's values and the rows skipped.
pub fn read_column(data: &[u8], column: &str) -> (r: Result<ColumnStream, DatasetError>)
    ensures
        column_read_as(data@, column@, r),
{
    let headers = match read_header(data) {
        Ok(h) => h,
        Err(reason) => {
            return Err(DatasetError::Open { reason });
        },
    };
    match find_column(&headers, column) {
        None => Err(DatasetError::ColumnNotFound { column: column.to_owned(), headers }),
        Some(i) => {
            let rows = read_records(data);
            Ok(column_values(&rows, i))
        },
    }
}

} // verus!
