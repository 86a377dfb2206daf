//! The in-memory table: parsing delimited text into a rectangular grid
//! of raw string cells, appending derived columns, and serializing the
//! grid back to text.
use vstd::prelude::*;
use crate::errors::CalcError;
use crate::ops::{op_of, parse_operator, Op};
use crate::resolve::{
    ambiguous_col_match, any_col_match, col_match, column_index, lists_matches, re_match,
    regex_ok, resolves, unique_col_match,
};
use crate::text::{
    clean_text, join_seq, join_with, lemma_join_split, lemma_unlines_concat, lemma_unlines_lines,
    lemma_unlines_push, lines_spec, split_field, split_lines, split_seq, unlines,
};

verus! {

/// The mathematical content of a table: its preamble lines, delimiter,
/// header names and grid of cells, each as sequences of characters.
pub ghost struct TableModel {
    pub preamble: Seq<Seq<char>>,
    pub delim: Seq<char>,
    pub headers: Seq<Seq<char>>,
    pub rows: Seq<Seq<Seq<char>>>,
}

/// `text`, cut into lines, has a header line after `k` preamble lines,
/// and every later line yields exactly as many fields as the header.
pub open spec fn parse_ok(text: Seq<char>, d: Seq<char>, k: int) -> bool {
    let ls = lines_spec(text);
    &&& 0 <= k < ls.len()
    &&& forall|i: int|
        k < i < ls.len() ==> #[trigger] split_seq(ls[i], d).len() == split_seq(ls[k], d).len()
}

/// The table that parsing well-formed `text` denotes: `k` preamble
/// lines kept verbatim, the next line cut into headers, every later
/// line cut into one row of cells.
pub open spec fn parse_spec(text: Seq<char>, d: Seq<char>, k: int) -> TableModel {
    let ls = lines_spec(text);
    TableModel {
        preamble: ls.take(k),
        delim: d,
        headers: split_seq(ls[k], d),
        rows: ls.skip(k + 1).map_values(|l: Seq<char>| split_seq(l, d)),
    }
}

/// Each row joined back into one line with the delimiter.
pub open spec fn joined_rows(rows: Seq<Seq<Seq<char>>>, d: Seq<char>) -> Seq<Seq<char>> {
    rows.map_values(|row: Seq<Seq<char>>| join_seq(row, d))
}

/// The serialized text: every preamble line, then the joined header
/// line, then every joined row, each followed by one line feed.
pub open spec fn serialize_spec(t: TableModel) -> Seq<char> {
    unlines(t.preamble) + join_seq(t.headers, t.delim) + seq!['\n'] + unlines(
        joined_rows(t.rows, t.delim),
    )
}

/// The table after appending a derived column: one more header, one
/// more cell on every row, everything else unchanged.
pub open spec fn append_model(t: TableModel, name: Seq<char>, vals: Seq<Seq<char>>) -> TableModel {
    TableModel {
        preamble: t.preamble,
        delim: t.delim,
        headers: t.headers.push(name),
        rows: Seq::new(t.rows.len(), |i: int| t.rows[i].push(vals[i])),
    }
}

/// A delimited table held in memory: preamble lines kept verbatim, the
/// delimiter used both to parse and to serialize, the column headers,
/// and the rectangular grid of raw string cells.
pub struct SpreadSheet2D {
    preamble: Vec<String>,
    col_delimeter: String,
    data: Vec<Vec<String>>,
    column_headers: Vec<String>,
}

impl View for SpreadSheet2D {
    type V = TableModel;

    closed spec fn view(&self) -> TableModel {
        TableModel {
            preamble: self.preamble.deep_view(),
            delim: self.col_delimeter@,
            headers: self.column_headers.deep_view(),
            rows: self.data.deep_view(),
        }
    }
}

impl SpreadSheet2D {
    /// Every data row has exactly one cell per header: the rectangular
    /// shape that parsing establishes and every mutation preserves.
    pub open spec fn wf(&self) -> bool {
        forall|i: int|
            0 <= i < self@.rows.len() ==> (#[trigger] self@.rows[i]).len() == self@.headers.len()
    }

    /// Parses delimited text: the first `line_offset` lines are kept as
    /// preamble, the next line is cut into headers, and every later
    /// line must yield exactly one field per header. Fails with
    /// `MalformedInput` when no header line is left, and with
    /// `RowWidthMismatch` on the first row of the wrong width.
    pub fn from_string(s: String, col_delimeter: &str, line_offset: usize) -> (r: Result<
        SpreadSheet2D,
        CalcError,
    >)
        ensures
            r is Ok <==> parse_ok(s@, col_delimeter@, line_offset as int),
            r matches Ok(tbl) ==> tbl@ == parse_spec(s@, col_delimeter@, line_offset as int)
                && tbl.wf(),
            lines_spec(s@).len() <= line_offset <==> r matches Err(CalcError::MalformedInput),
            line_offset < lines_spec(s@).len() && !parse_ok(s@, col_delimeter@, line_offset as int)
                ==> (r matches Err(CalcError::RowWidthMismatch { expected, found }) && expected
                == split_seq(lines_spec(s@)[line_offset as int], col_delimeter@).len() && exists|
                i: int,
            |
                line_offset < i < lines_spec(s@).len() && (#[trigger] split_seq(
                    lines_spec(s@)[i],
                    col_delimeter@,
                )).len() == found && found != expected && (forall|j: int|
                    line_offset < j < i ==> (#[trigger] split_seq(
                        lines_spec(s@)[j],
                        col_delimeter@,
                    )).len() == expected)),
    {
        let ghost ls = lines_spec(s@);
        let lines = split_lines(s.as_str());
        let mut preamble: Vec<String> = Vec::new();
        let mut li: usize = 0;
        while li < line_offset && li < lines.len()
            invariant
                ls == lines_spec(s@),
                lines.deep_view() == ls,
                li <= line_offset,
                li <= lines.len(),
                preamble.deep_view() == ls.take(li as int),
            decreases line_offset - li,
        {
            let ghost prev = preamble.deep_view();
            preamble.push(lines[li].clone());
            proof {
                assert(preamble.deep_view() =~= prev.push(ls[li as int]));
                assert(ls.take(li as int).push(ls[li as int]) =~= ls.take(li + 1));
            }
            li += 1;
        }
        if li >= lines.len() {
            proof {
                assert(lines.len() <= line_offset);
                assert(!parse_ok(s@, col_delimeter@, line_offset as int));
            }
            return Err(CalcError::MalformedInput);
        }
        proof {
            assert(li == line_offset);
        }
        let column_headers = split_field(lines[li].as_str(), col_delimeter);
        let c = column_headers.len();
        let mut data: Vec<Vec<String>> = Vec::new();
        let mut ri: usize = li + 1;
        while ri < lines.len()
            invariant
                ls == lines_spec(s@),
                lines.deep_view() == ls,
                line_offset < lines.len(),
                li == line_offset,
                lines.len() == ls.len(),
                line_offset + 1 <= ri <= lines.len(),
                c == split_seq(ls[line_offset as int], col_delimeter@).len(),
                column_headers.deep_view() == split_seq(ls[line_offset as int], col_delimeter@),
                data.deep_view().len() == ri - line_offset - 1,
                forall|j: int|
                    0 <= j < data.deep_view().len() ==> #[trigger] data.deep_view()[j] == split_seq(
                        ls[line_offset + 1 + j],
                        col_delimeter@,
                    ),
                forall|j: int|
                    line_offset < j < ri ==> (#[trigger] split_seq(ls[j], col_delimeter@)).len()
                        == c,
            decreases lines.len() - ri,
        {
            let ghost prev = data.deep_view();
            let row = split_field(lines[ri].as_str(), col_delimeter);
            if row.len() != c {
                proof {
                    assert(split_seq(ls[ri as int], col_delimeter@).len() != c);
                    assert(!parse_ok(s@, col_delimeter@, line_offset as int));
                }
                return Err(CalcError::RowWidthMismatch { expected: c, found: row.len() });
            }
            data.push(row);
            proof {
                assert(data.deep_view() =~= prev.push(
                    split_seq(ls[ri as int], col_delimeter@),
                ));
            }
            ri += 1;
        }
        let tbl = SpreadSheet2D {
            preamble,
            col_delimeter: col_delimeter.to_owned(),
            data,
            column_headers,
        };
        proof {
            assert(parse_ok(s@, col_delimeter@, line_offset as int));
            let m = parse_spec(s@, col_delimeter@, line_offset as int);
            assert(tbl@.rows =~= m.rows) by {
                assert(m.rows.len() == ls.len() - line_offset - 1);
                assert forall|j: int| 0 <= j < m.rows.len() implies tbl@.rows[j] == m.rows[j] by {
                    assert(ls.skip(line_offset + 1)[j] == ls[line_offset + 1 + j]);
                    assert(tbl@.rows[j] == split_seq(ls[line_offset + 1 + j], col_delimeter@));
                }
            }
            assert(tbl@ == m);
            assert forall|i: int| 0 <= i < tbl@.rows.len() implies (#[trigger] tbl@.rows[i]).len()
                == tbl@.headers.len() by {
                assert(tbl@.rows[i] == split_seq(ls[line_offset + 1 + i], col_delimeter@));
            }
        }
        Ok(tbl)
    }

    /// Serializes the table: preamble, header line, data rows, every
    /// line followed by one line feed and fields joined with the
    /// table's delimiter.
    pub fn to_string(&self) -> (r: String)
        ensures
            r@ == serialize_spec(self@),
    {
        let mut out = String::new();
        let mut i: usize = 0;
        while i < self.preamble.len()
            invariant
                i <= self.preamble.len(),
                out@ == unlines(self@.preamble.take(i as int)),
            decreases self.preamble.len() - i,
        {
            out.append(self.preamble[i].as_str());
            out.append("\n");
            proof {
                reveal_strlit("\n");
                assert(("\n")@ =~= seq!['\n']);
                lemma_unlines_push(self@.preamble.take(i as int), self@.preamble[i as int]);
                assert(self@.preamble.take(i as int).push(self@.preamble[i as int])
                    =~= self@.preamble.take(i + 1));
            }
            i += 1;
        }
        proof {
            assert(self@.preamble.take(self.preamble.len() as int) =~= self@.preamble);
        }
        let hdr = join_with(&self.column_headers, self.col_delimeter.as_str());
        out.append(hdr.as_str());
        out.append("\n");
        proof {
            reveal_strlit("\n");
            assert(("\n")@ =~= seq!['\n']);
        }
        let ghost mid = out@;
        proof {
            assert(mid == unlines(self@.preamble) + join_seq(self@.headers, self@.delim)
                + seq!['\n']);
            assert(joined_rows(self@.rows.take(0), self@.delim) =~= Seq::<Seq<char>>::empty());
            assert(mid + unlines(joined_rows(self@.rows.take(0), self@.delim)) =~= mid);
        }
        let mut rj: usize = 0;
        while rj < self.data.len()
            invariant
                rj <= self.data.len(),
                mid == unlines(self@.preamble) + join_seq(self@.headers, self@.delim)
                    + seq!['\n'],
                out@ == mid + unlines(joined_rows(self@.rows.take(rj as int), self@.delim)),
            decreases self.data.len() - rj,
        {
            let line = join_with(&self.data[rj], self.col_delimeter.as_str());
            out.append(line.as_str());
            out.append("\n");
            proof {
                reveal_strlit("\n");
                assert(("\n")@ =~= seq!['\n']);
                let jr = joined_rows(self@.rows.take(rj as int), self@.delim);
                assert(line@ == join_seq(self@.rows[rj as int], self@.delim));
                lemma_unlines_push(jr, line@);
                assert(jr.push(line@) =~= joined_rows(self@.rows.take(rj + 1), self@.delim));
                assert(mid + unlines(jr) + line@ + seq!['\n'] =~= mid + (unlines(jr) + line@
                    + seq!['\n']));
            }
            rj += 1;
        }
        proof {
            assert(self@.rows.take(self.data.len() as int) =~= self@.rows);
        }
        out
    }

    /// Appends a derived column: the new header name and one stringified
    /// value per row, preserving row order. Fails with
    /// `RowCountMismatch`, leaving the table unchanged, when the value
    /// count differs from the row count.
    pub fn append_column(&mut self, name: &str, values: &Vec<String>) -> (r: Result<
        (),
        CalcError,
    >)
        ensures
            r is Ok <==> values.len() == old(self)@.rows.len(),
            r is Ok ==> final(self)@ == append_model(old(self)@, name@, values.deep_view()),
            r matches Err(e) ==> final(self)@ == old(self)@ && (e matches
                CalcError::RowCountMismatch { expected, found } && expected == old(
                self,
            )@.rows.len() && found == values.len()),
            old(self).wf() ==> final(self).wf(),
    {
        if values.len() != self.data.len() {
            return Err(
                CalcError::RowCountMismatch { expected: self.data.len(), found: values.len() },
            );
        }
        let n = self.data.len();
        let mut i: usize = 0;
        while i < n
            invariant
                n == self.data.len(),
                n == values.len(),
                i <= n,
                self.preamble == old(self).preamble,
                self.col_delimeter == old(self).col_delimeter,
                self.column_headers == old(self).column_headers,
                self.data@.len() == old(self).data@.len(),
                forall|j: int|
                    0 <= j < i ==> #[trigger] self.data.deep_view()[j] == old(
                        self,
                    ).data.deep_view()[j].push(values.deep_view()[j]),
                forall|j: int|
                    i <= j < n ==> #[trigger] self.data.deep_view()[j] == old(
                        self,
                    ).data.deep_view()[j],
            decreases n - i,
        {
            let ghost d0 = self.data.deep_view();
            let ghost r0 = self.data@[i as int];
            let cell = values[i].clone();
            self.data[i].push(cell);
            proof {
                assert(self.data@[i as int]@ == r0@.push(values@[i as int]));
                assert(self.data.deep_view()[i as int] =~= d0[i as int].push(
                    values.deep_view()[i as int],
                ));
                assert forall|j: int| 0 <= j < n && j != i implies #[trigger] self.data.deep_view()[j]
                    == d0[j] by {
                    assert(self.data.deep_view()[j] == self.data@[j].deep_view());
                }
            }
            i += 1;
        }
        self.column_headers.push(name.to_owned());
        proof {
            let m = append_model(old(self)@, name@, values.deep_view());
            assert(final(self)@.rows =~= m.rows);
            assert(final(self)@.headers =~= m.headers);
            assert(final(self)@ == m);
            if old(self).wf() {
                assert forall|j: int| 0 <= j < final(self)@.rows.len() implies (
                #[trigger] final(self)@.rows[j]).len() == final(self)@.headers.len() by {
                    assert(old(self)@.rows[j].len() == old(self)@.headers.len());
                }
            }
        }
        Ok(())
    }

    /// Resolves the two column selectors and the operator symbol of one
    /// configured operation, left selector first, then right, then the
    /// operator, failing with the first selector's or the operator's
    /// error.
    pub fn plan_operation(&self, col1: &str, operation: &str, col2: &str) -> (r: Result<
        (usize, usize, Op),
        CalcError,
    >)
        ensures
            r matches Ok((i, j, o)) ==> unique_col_match(self@.headers, col1@, i as int)
                && unique_col_match(self@.headers, col2@, j as int) && op_of(operation@) == Some(
                o,
            ),
            r is Ok <==> resolves(self@.headers, col1@) && resolves(self@.headers, col2@) && op_of(
                operation@,
            ) is Some,
            !regex_ok(col1@) ==> (r matches Err(CalcError::InvalidPattern { pattern, message })
                && pattern@ == col1@),
            regex_ok(col1@) && !any_col_match(self@.headers, col1@) ==> (r matches Err(
                CalcError::ColumnNotFound { pattern },
            ) && pattern@ == col1@),
            regex_ok(col1@) && ambiguous_col_match(self@.headers, col1@) ==> (r matches Err(
                CalcError::AmbiguousColumn { pattern, candidates },
            ) && pattern@ == col1@ && candidates@.len() >= 2 && lists_matches(
                candidates@,
                self@.headers,
                col1@,
            )),
            resolves(self@.headers, col1@) && !regex_ok(col2@) ==> (r matches Err(
                CalcError::InvalidPattern { pattern, message },
            ) && pattern@ == col2@),
            resolves(self@.headers, col1@) && regex_ok(col2@) && !any_col_match(
                self@.headers,
                col2@,
            ) ==> (r matches Err(CalcError::ColumnNotFound { pattern }) && pattern@ == col2@),
            resolves(self@.headers, col1@) && regex_ok(col2@) && ambiguous_col_match(
                self@.headers,
                col2@,
            ) ==> (r matches Err(CalcError::AmbiguousColumn { pattern, candidates }) && pattern@
                == col2@ && candidates@.len() >= 2 && lists_matches(
                candidates@,
                self@.headers,
                col2@,
            )),
            resolves(self@.headers, col1@) && resolves(self@.headers, col2@) && op_of(operation@)
                is None ==> (r matches Err(CalcError::UnsupportedOperator { op }) && op@
                == operation@),
    {
        let idx1 = match column_index(&self.column_headers, col1) {
            Ok(i) => i,
            Err(e) => {
                return Err(e);
            },
        };
        let idx2 = match column_index(&self.column_headers, col2) {
            Ok(j) => j,
            Err(e) => {
                return Err(e);
            },
        };
        let o = match parse_operator(operation) {
            Ok(o) => o,
            Err(e) => {
                return Err(e);
            },
        };
        Ok((idx1, idx2, o))
    }

    /// The column headers, in order.
    pub fn column_headers(&self) -> (r: &Vec<String>)
        ensures
            r.deep_view() == self@.headers,
    {
        &self.column_headers
    }

    /// The number of data rows.
    pub fn n_rows(&self) -> (r: usize)
        ensures
            r == self@.rows.len(),
    {
        self.data.len()
    }

    /// The number of columns, as the header row defines it.
    pub fn n_columns(&self) -> (r: usize)
        ensures
            r == self@.headers.len(),
    {
        self.column_headers.len()
    }

    /// The raw cells of the column at `idx`, top to bottom.
    pub fn column_cells(&self, idx: usize) -> (r: Vec<String>)
        requires
            self.wf(),
            idx < self@.headers.len(),
        ensures
            r.deep_view().len() == self@.rows.len(),
            forall|i: int|
                0 <= i < self@.rows.len() ==> #[trigger] r.deep_view()[i] == self@.rows[i][idx as int],
    {
        let mut out: Vec<String> = Vec::new();
        let mut i: usize = 0;
        while i < self.data.len()
            invariant
                self.wf(),
                idx < self@.headers.len(),
                i <= self.data.len(),
                out.deep_view().len() == i,
                forall|j: int|
                    0 <= j < i ==> #[trigger] out.deep_view()[j] == self@.rows[j][idx as int],
            decreases self.data.len() - i,
        {
            let ghost prev = out.deep_view();
            let row = &self.data[i];
            proof {
                assert(self@.rows[i as int].len() == self@.headers.len());
                assert(row.deep_view() == self@.rows[i as int]);
            }
            out.push(row[idx].clone());
            proof {
                assert(out.deep_view() =~= prev.push(self@.rows[i as int][idx as int]));
            }
            i += 1;
        }
        out
    }
}

/// Operations depend on their order: a selector that matches the name
/// of a derived column, and no header already present, resolves to no
/// column at all before the operation that creates it, and to exactly
/// the new column after it. A sequence of operations therefore cannot
/// be reordered around one that creates a column a later one reads.
pub proof fn lemma_dependency_order(
    t: TableModel,
    name: Seq<char>,
    vals: Seq<Seq<char>>,
    p: Seq<char>,
)
    requires
        re_match(p, name),
        forall|i: int| 0 <= i < t.headers.len() ==> !re_match(p, #[trigger] t.headers[i]),
    ensures
        !any_col_match(t.headers, p),
        unique_col_match(
            append_model(t, name, vals).headers,
            p,
            t.headers.len() as int,
        ),
{
    let h2 = append_model(t, name, vals).headers;
    assert(h2 == t.headers.push(name));
    assert(h2[t.headers.len() as int] == name);
    assert(col_match(h2, p, t.headers.len() as int));
    assert forall|j: int| #[trigger] col_match(h2, p, j) implies j == t.headers.len() as int by {
        if j < t.headers.len() {
            assert(h2[j] == t.headers[j]);
        }
    }
    assert forall|i: int| !col_match(t.headers, p, i) by {
        if 0 <= i < t.headers.len() {
            assert(!re_match(p, t.headers[i]));
        }
    }
}

/// Round trip: serializing a freshly parsed table reproduces the input
/// text exactly, for any text that parses, ends with a line feed and
/// has no carriage return before a line feed (texts without those two
/// normalizations re-serialize with them applied).
pub proof fn lemma_round_trip(text: Seq<char>, d: Seq<char>, k: int)
    requires
        parse_ok(text, d, k),
        text.len() > 0,
        text[text.len() - 1] == '\n',
        clean_text(text),
    ensures
        serialize_spec(parse_spec(text, d, k)) == text,
{
    let ls = lines_spec(text);
    let t = parse_spec(text, d, k);
    lemma_unlines_lines(text);
    lemma_join_split(ls[k], d);
    assert(joined_rows(t.rows, d) =~= ls.skip(k + 1)) by {
        assert forall|j: int| 0 <= j < t.rows.len() implies joined_rows(t.rows, d)[j] == ls.skip(
            k + 1,
        )[j] by {
            assert(t.rows[j] == split_seq(ls.skip(k + 1)[j], d));
            lemma_join_split(ls.skip(k + 1)[j], d);
        }
    }
    assert(ls.skip(k)[0] == ls[k]);
    assert(ls.skip(k).skip(1) =~= ls.skip(k + 1));
    assert(unlines(ls.skip(k)) == ls[k] + seq!['\n'] + unlines(ls.skip(k + 1)));
    lemma_unlines_concat(ls.take(k), ls.skip(k));
    assert(ls.take(k) + ls.skip(k) =~= ls);
    assert(t.delim == d);
    assert(t.preamble == ls.take(k));
    assert(serialize_spec(t) == unlines(ls.take(k)) + ls[k] + seq!['\n'] + unlines(ls.skip(k + 1)));
    assert(unlines(ls.take(k)) + ls[k] + seq!['\n'] + unlines(ls.skip(k + 1)) =~= unlines(
        ls.take(k),
    ) + unlines(ls.skip(k)));
}

} // verus!
