//! Column batches: equal-length typed columns, the schema that declares
//! them with its dataset metadata, and slicing a batch into row groups and
//! joining row groups back.
use vstd::prelude::*;

verus! {

/// The type of the values of one column.
#[derive(Clone, Copy, Debug, PartialEq, Eq, Structural)]
pub enum DataType {
    Int64,
    UInt64,
    Boolean,
    Utf8,
}

/// Why a batch could not be built, written or joined.
#[derive(Clone, Copy, Debug, PartialEq, Eq, Structural)]
pub enum BatchError {
    /// The columns given for one batch differ in length.
    ShapeMismatch,
    /// A column's type differs from the type its schema field declares.
    EncodingError,
    /// Batches to be joined differ in their columns.
    FormatError,
}

/// What a column holds, as mathematical sequences.
pub enum ColumnData {
    Int64(Seq<i64>),
    UInt64(Seq<u64>),
    Boolean(Seq<bool>),
    Utf8(Seq<Seq<char>>),
}

impl ColumnData {
    pub open spec fn len(self) -> nat {
        match self {
            ColumnData::Int64(v) => v.len(),
            ColumnData::UInt64(v) => v.len(),
            ColumnData::Boolean(v) => v.len(),
            ColumnData::Utf8(v) => v.len(),
        }
    }

    pub open spec fn data_type(self) -> DataType {
        match self {
            ColumnData::Int64(_) => DataType::Int64,
            ColumnData::UInt64(_) => DataType::UInt64,
            ColumnData::Boolean(_) => DataType::Boolean,
            ColumnData::Utf8(_) => DataType::Utf8,
        }
    }

    /// Rows `start` up to `end` (exclusive).
    pub open spec fn slice(self, start: int, end: int) -> ColumnData {
        match self {
            ColumnData::Int64(v) => ColumnData::Int64(v.subrange(start, end)),
            ColumnData::UInt64(v) => ColumnData::UInt64(v.subrange(start, end)),
            ColumnData::Boolean(v) => ColumnData::Boolean(v.subrange(start, end)),
            ColumnData::Utf8(v) => ColumnData::Utf8(v.subrange(start, end)),
        }
    }

    /// The rows of `self` followed by those of `other`, when both have one
    /// type.
    pub open spec fn concat(self, other: ColumnData) -> ColumnData {
        match (self, other) {
            (ColumnData::Int64(a), ColumnData::Int64(b)) => ColumnData::Int64(a + b),
            (ColumnData::UInt64(a), ColumnData::UInt64(b)) => ColumnData::UInt64(a + b),
            (ColumnData::Boolean(a), ColumnData::Boolean(b)) => ColumnData::Boolean(a + b),
            (ColumnData::Utf8(a), ColumnData::Utf8(b)) => ColumnData::Utf8(a + b),
            _ => self,
        }
    }
}

pub open spec fn strings_view(v: Seq<String>) -> Seq<Seq<char>> {
    v.map_values(|s: String| s@)
}

/// A column of non-null values of one type.
#[derive(Debug)]
pub enum Column {
    Int64(Vec<i64>),
    UInt64(Vec<u64>),
    Boolean(Vec<bool>),
    Utf8(Vec<String>),
}

impl View for Column {
    type V = ColumnData;

    open spec fn view(&self) -> ColumnData {
        match self {
            Column::Int64(v) => ColumnData::Int64(v@),
            Column::UInt64(v) => ColumnData::UInt64(v@),
            Column::Boolean(v) => ColumnData::Boolean(v@),
            Column::Utf8(v) => ColumnData::Utf8(strings_view(v@)),
        }
    }
}

fn copy_range<T: Copy>(v: &Vec<T>, start: usize, end: usize) -> (r: Vec<T>)
    requires
        start <= end <= v@.len(),
    ensures
        r@ == v@.subrange(start as int, end as int),
{
    let mut r: Vec<T> = Vec::new();
    let mut i = start;
    while i < end
        invariant
            start <= i <= end <= v@.len(),
            r@ == v@.subrange(start as int, i as int),
        decreases end - i,
    {
        r.push(v[i]);
        assert(r@ =~= v@.subrange(start as int, i + 1));
        i = i + 1;
    }
    r
}

fn copy_string_range(v: &Vec<String>, start: usize, end: usize) -> (r: Vec<String>)
    requires
        start <= end <= v@.len(),
    ensures
        strings_view(r@) == strings_view(v@).subrange(start as int, end as int),
{
    let mut r: Vec<String> = Vec::new();
    let mut i = start;
    while i < end
        invariant
            start <= i <= end <= v@.len(),
            strings_view(r@) == strings_view(v@).subrange(start as int, i as int),
        decreases end - i,
    {
        let ghost prev = r@;
        let s = v[i].clone();
        r.push(s);
        assert(strings_view(r@) =~= strings_view(prev).push(v@[i as int]@));
        assert(strings_view(r@) =~= strings_view(v@).subrange(start as int, i + 1));
        i = i + 1;
    }
    r
}

fn join_copies<T: Copy>(a: &Vec<T>, b: &Vec<T>) -> (r: Vec<T>)
    ensures
        r@ == a@ + b@,
{
    let mut r = copy_range(a, 0, a.len());
    let mut i: usize = 0;
    assert(a@.subrange(0, a@.len() as int) =~= a@);
    while i < b.len()
        invariant
            i <= b@.len(),
            r@ == a@ + b@.take(i as int),
        decreases b@.len() - i,
    {
        r.push(b[i]);
        assert(r@ =~= a@ + b@.take(i + 1));
        i = i + 1;
    }
    assert(b@.take(b@.len() as int) =~= b@);
    r
}

fn join_strings(a: &Vec<String>, b: &Vec<String>) -> (r: Vec<String>)
    ensures
        strings_view(r@) == strings_view(a@) + strings_view(b@),
{
    let mut r = copy_string_range(a, 0, a.len());
    assert(strings_view(a@).subrange(0, a@.len() as int) =~= strings_view(a@));
    let mut i: usize = 0;
    while i < b.len()
        invariant
            i <= b@.len(),
            strings_view(r@) == strings_view(a@) + strings_view(b@).take(i as int),
        decreases b@.len() - i,
    {
        let ghost prev = r@;
        let s = b[i].clone();
        r.push(s);
        assert(strings_view(r@) =~= strings_view(prev).push(b@[i as int]@));
        assert(strings_view(r@) =~= strings_view(a@) + strings_view(b@).take(i + 1));
        i = i + 1;
    }
    assert(strings_view(b@).take(b@.len() as int) =~= strings_view(b@));
    r
}

impl Column {
    /// Number of rows.
    pub fn len(&self) -> (r: usize)
        ensures
            r == self@.len(),
    {
        match self {
            Column::Int64(v) => v.len(),
            Column::UInt64(v) => v.len(),
            Column::Boolean(v) => v.len(),
            Column::Utf8(v) => v.len(),
        }
    }

    /// The type of the values.
    pub fn data_type(&self) -> (r: DataType)
        ensures
            r == self@.data_type(),
    {
        match self {
            Column::Int64(_) => DataType::Int64,
            Column::UInt64(_) => DataType::UInt64,
            Column::Boolean(_) => DataType::Boolean,
            Column::Utf8(_) => DataType::Utf8,
        }
    }

    /// A new column of rows `start` up to `end` (exclusive).
    pub fn slice(&self, start: usize, end: usize) -> (r: Column)
        requires
            start <= end <= self@.len(),
        ensures
            r@ == self@.slice(start as int, end as int),
    {
        match self {
            Column::Int64(v) => Column::Int64(copy_range(v, start, end)),
            Column::UInt64(v) => Column::UInt64(copy_range(v, start, end)),
            Column::Boolean(v) => Column::Boolean(copy_range(v, start, end)),
            Column::Utf8(v) => Column::Utf8(copy_string_range(v, start, end)),
        }
    }

    /// A new column of the rows of `self` followed by those of `other`.
    pub fn concat(&self, other: &Column) -> (r: Column)
        requires
            self@.data_type() == other@.data_type(),
        ensures
            r@ == self@.concat(other@),
    {
        match (self, other) {
            (Column::Int64(a), Column::Int64(b)) => Column::Int64(join_copies(a, b)),
            (Column::UInt64(a), Column::UInt64(b)) => Column::UInt64(join_copies(a, b)),
            (Column::Boolean(a), Column::Boolean(b)) => Column::Boolean(join_copies(a, b)),
            (Column::Utf8(a), Column::Utf8(b)) => Column::Utf8(join_strings(a, b)),
            _ => Column::Int64(Vec::new()),
        }
    }
}

/// The columns of a batch as mathematical values.
pub open spec fn columns_view(cols: Seq<Column>) -> Seq<ColumnData> {
    cols.map_values(|c: Column| c@)
}

/// All columns have `rows` rows.
pub open spec fn has_rows(b: Seq<ColumnData>, rows: nat) -> bool {
    forall|i: int| 0 <= i < b.len() ==> (#[trigger] b[i]).len() == rows
}

pub open spec fn row_count(b: Seq<ColumnData>) -> nat {
    if b.len() == 0 {
        0
    } else {
        b[0].len()
    }
}

/// Rows `start` up to `end` of every column.
pub open spec fn batch_slice(b: Seq<ColumnData>, start: int, end: int) -> Seq<ColumnData> {
    b.map_values(|c: ColumnData| c.slice(start, end))
}

/// The rows of `a` followed by those of `b`, column by column.
pub open spec fn batch_concat(a: Seq<ColumnData>, b: Seq<ColumnData>) -> Seq<ColumnData> {
    Seq::new(a.len(), |i: int| a[i].concat(b[i]))
}

/// Batches joined in order; no batches join to no columns.
pub open spec fn concat_all(parts: Seq<Seq<ColumnData>>) -> Seq<ColumnData>
    decreases parts.len(),
{
    if parts.len() == 0 {
        seq![]
    } else if parts.len() == 1 {
        parts[0]
    } else {
        batch_concat(concat_all(parts.drop_last()), parts.last())
    }
}

/// Both batches have the same number of columns, of the same types.
pub open spec fn same_shape(a: Seq<ColumnData>, b: Seq<ColumnData>) -> bool {
    a.len() == b.len() && forall|i: int| 0 <= i < a.len() ==> (#[trigger] a[i]).data_type()
        == b[i].data_type()
}

/// Number of row groups of at most `k` rows that `n` rows make; no rows make
/// one empty group.
pub open spec fn chunk_count(n: nat, k: nat) -> nat {
    if n == 0 {
        1
    } else {
        ((n + k - 1) as nat / k) as nat
    }
}

pub open spec fn min(a: int, b: int) -> int {
    if a < b {
        a
    } else {
        b
    }
}

/// The row groups of at most `k` rows each, in order, that `b` splits into.
pub open spec fn split_view(b: Seq<ColumnData>, k: nat) -> Seq<Seq<ColumnData>> {
    let n = row_count(b);
    Seq::new(chunk_count(n, k), |i: int| batch_slice(b, i * k, min((i + 1) * k, n as int)))
}

/// An ordered set of equal-length columns.
#[derive(Debug)]
pub struct ColumnBatch {
    pub columns: Vec<Column>,
}

impl View for ColumnBatch {
    type V = Seq<ColumnData>;

    open spec fn view(&self) -> Seq<ColumnData> {
        columns_view(self.columns@)
    }
}

impl ColumnBatch {
    /// Every column has the batch's number of rows.
    pub open spec fn wf(&self) -> bool {
        has_rows(self@, row_count(self@))
    }

    /// Assembles a batch; fails when the columns differ in length.
    pub fn try_new(columns: Vec<Column>) -> (r: Result<ColumnBatch, BatchError>)
        ensures
            match r {
                Ok(b) => b@ == columns_view(columns@) && b.wf(),
                Err(e) => e == BatchError::ShapeMismatch && !has_rows(
                    columns_view(columns@),
                    row_count(columns_view(columns@)),
                ),
            },
    {
        if columns.len() == 0 {
            return Ok(ColumnBatch { columns });
        }
        let n = columns[0].len();
        let mut i: usize = 1;
        while i < columns.len()
            invariant
                1 <= i <= columns@.len(),
                n == columns@[0]@.len(),
                forall|j: int| 0 <= j < i ==> (#[trigger] columns@[j])@.len() == n,
            decreases columns@.len() - i,
        {
            if columns[i].len() != n {
                assert(columns_view(columns@)[i as int] == columns@[i as int]@);
                return Err(BatchError::ShapeMismatch);
            }
            i = i + 1;
        }
        let b = ColumnBatch { columns };
        assert(has_rows(b@, row_count(b@))) by {
            assert forall|j: int| 0 <= j < b@.len() implies (#[trigger] b@[j]).len() == row_count(
                b@,
            ) by {
                assert(b@[j] == b.columns@[j]@);
                assert(b@[0] == b.columns@[0]@);
            }
        }
        Ok(b)
    }

    /// Number of rows.
    pub fn num_rows(&self) -> (r: usize)
        ensures
            r == row_count(self@),
    {
        if self.columns.len() == 0 {
            0
        } else {
            self.columns[0].len()
        }
    }

    /// A new batch of rows `start` up to `end` (exclusive).
    pub fn slice(&self, start: usize, end: usize) -> (r: ColumnBatch)
        requires
            self.wf(),
            start <= end <= row_count(self@),
        ensures
            r@ == batch_slice(self@, start as int, end as int),
            r.wf(),
            row_count(r@) == end - start,
    {
        let mut cols: Vec<Column> = Vec::new();
        let mut i: usize = 0;
        while i < self.columns.len()
            invariant
                self.wf(),
                start <= end <= row_count(self@),
                i <= self.columns@.len(),
                columns_view(cols@) == batch_slice(self@, start as int, end as int).take(i as int),
            decreases self.columns@.len() - i,
        {
            assert(self@[i as int] == self.columns@[i as int]@);
            let c = self.columns[i].slice(start, end);
            let ghost prev = cols@;
            cols.push(c);
            assert(columns_view(cols@) =~= columns_view(prev).push(c@));
            assert(columns_view(cols@) =~= batch_slice(self@, start as int, end as int).take(i + 1));
            i = i + 1;
        }
        let r = ColumnBatch { columns: cols };
        assert(batch_slice(self@, start as int, end as int).take(self.columns@.len() as int)
            =~= batch_slice(self@, start as int, end as int));
        assert(has_rows(r@, (end - start) as nat)) by {
            assert forall|j: int| 0 <= j < r@.len() implies (#[trigger] r@[j]).len() == end
                - start by {
                assert(self@[j].len() == row_count(self@));
            }
        }
        r
    }
}

pub open spec fn batches_view(parts: Seq<ColumnBatch>) -> Seq<Seq<ColumnData>> {
    parts.map_values(|b: ColumnBatch| b@)
}

/// Every batch has the columns, by number and type, of the first.
pub open spec fn joinable(parts: Seq<Seq<ColumnData>>) -> bool {
    parts.len() >= 1 && forall|i: int| 0 <= i < parts.len() ==> same_shape(parts[0], #[trigger] parts[i])
}

fn concat_pair(a: &ColumnBatch, b: &ColumnBatch) -> (r: ColumnBatch)
    requires
        a.wf(),
        b.wf(),
        same_shape(a@, b@),
    ensures
        r@ == batch_concat(a@, b@),
        r.wf(),
        row_count(r@) == (if a@.len() == 0 { 0 } else { row_count(a@) + row_count(b@) }),
        same_shape(r@, a@),
{
    let mut cols: Vec<Column> = Vec::new();
    let mut i: usize = 0;
    while i < a.columns.len()
        invariant
            a.wf(),
            b.wf(),
            same_shape(a@, b@),
            i <= a.columns@.len(),
            columns_view(cols@) == batch_concat(a@, b@).take(i as int),
        decreases a.columns@.len() - i,
    {
        assert(a@[i as int] == a.columns@[i as int]@);
        assert(b@[i as int] == b.columns@[i as int]@);
        let c = a.columns[i].concat(&b.columns[i]);
        let ghost prev = cols@;
        cols.push(c);
        assert(columns_view(cols@) =~= columns_view(prev).push(c@));
        assert(columns_view(cols@) =~= batch_concat(a@, b@).take(i + 1));
        i = i + 1;
    }
    let r = ColumnBatch { columns: cols };
    assert(batch_concat(a@, b@).take(a.columns@.len() as int) =~= batch_concat(a@, b@));
    assert(has_rows(r@, row_count(r@))) by {
        assert forall|j: int| 0 <= j < r@.len() implies (#[trigger] r@[j]).len() == row_count(
            r@,
        ) by {
            assert(a@[j].len() == row_count(a@));
            assert(b@[j].len() == row_count(b@));
            assert(a@[0].len() == row_count(a@));
            assert(b@[0].len() == row_count(b@));
        }
    }
    assert(same_shape(r@, a@)) by {
        assert forall|j: int| 0 <= j < r@.len() implies (#[trigger] r@[j]).data_type()
            == a@[j].data_type() by {
            assert(a@[j].data_type() == b@[j].data_type());
        }
    }
    r
}

impl ColumnBatch {
    /// Splits the batch, in order, into row groups of `chunk_rows` rows;
    /// the last may hold fewer, and a batch without rows gives one empty
    /// group.
    pub fn split_rows(&self, chunk_rows: usize) -> (r: Vec<ColumnBatch>)
        requires
            self.wf(),
            chunk_rows >= 1,
        ensures
            batches_view(r@) == split_view(self@, chunk_rows as nat),
            forall|i: int| 0 <= i < r@.len() ==> (#[trigger] r@[i]).wf(),
    {
        let n = self.num_rows();
        let k = chunk_rows;
        let ghost b = self@;
        let mut out: Vec<ColumnBatch> = Vec::new();
        if n == 0 {
            let e = self.slice(0, 0);
            out.push(e);
            assert(chunk_count(0, k as nat) == 1);
            assert(0 * (k as int) == 0 && (0 + 1) * (k as int) == k) by (nonlinear_arith);
            assert(batches_view(out@) =~= split_view(self@, k as nat));
            return out;
        }
        let mut start: usize = 0;
        assert(out@.len() == 0);
        assert(out@.len() * k == 0) by (nonlinear_arith)
            requires
                out@.len() == 0,
        ;
        assert(batches_view(out@) =~= Seq::new(
            out@.len(),
            |j: int| batch_slice(b, j * k, min((j + 1) * k, n as int)),
        ));
        while start < n
            invariant
                self.wf(),
                b == self@,
                n == row_count(b),
                n > 0,
                k >= 1,
                start <= n,
                start == min(out@.len() * k, n as int),
                out@.len() > 0 ==> (out@.len() - 1) * k < n,
                batches_view(out@) == Seq::new(
                    out@.len(),
                    |j: int| batch_slice(b, j * k, min((j + 1) * k, n as int)),
                ),
                forall|i: int| 0 <= i < out@.len() ==> (#[trigger] out@[i]).wf(),
            decreases n - start,
        {
            let ghost i = out@.len();
            assert(start == i * k) by (nonlinear_arith)
                requires
                    start == min(i * k, n as int),
                    start < n,
            ;
            let end = if n - start > k { start + k } else { n };
            assert(end == min((i + 1) * k, n as int)) by (nonlinear_arith)
                requires
                    start == i * k,
                    end == (if n - start > k { start + k } else { n as int }),
            ;
            let c = self.slice(start, end);
            let ghost prev = out@;
            out.push(c);
            assert(batches_view(out@) =~= batches_view(prev).push(c@));
            assert(batches_view(out@) =~= Seq::new(
                out@.len(),
                |j: int| batch_slice(b, j * k, min((j + 1) * k, n as int)),
            ));
            start = end;
        }
        let ghost i = out@.len();
        assert(i == chunk_count(n as nat, k as nat)) by {
            assert(i * k >= n) by (nonlinear_arith)
                requires
                    n == min(i * k, n as int),
            ;
            assert(((n + k - 1) as nat / k as nat) == i) by (nonlinear_arith)
                requires
                    (i - 1) * k < n,
                    i * k >= n,
                    k >= 1,
                    i >= 1,
            ;
        }
        assert(batches_view(out@) =~= split_view(self@, k as nat));
        out
    }

    /// Joins batches, in order, into one; fails unless there is at least
    /// one batch and all have the columns, by number and type, of the first.
    pub fn concat(parts: &Vec<ColumnBatch>) -> (r: Result<ColumnBatch, BatchError>)
        requires
            forall|i: int| 0 <= i < parts@.len() ==> (#[trigger] parts@[i]).wf(),
        ensures
            match r {
                Ok(b) => joinable(batches_view(parts@)) && b@ == concat_all(batches_view(parts@))
                    && b.wf(),
                Err(e) => e == BatchError::FormatError && !joinable(batches_view(parts@)),
            },
    {
        let ghost views = batches_view(parts@);
        if parts.len() == 0 {
            return Err(BatchError::FormatError);
        }
        let first = &parts[0];
        let mut acc = first.slice(0, first.num_rows());
        assert(acc@ =~= views[0]) by {
            assert forall|j: int| 0 <= j < acc@.len() implies #[trigger] acc@[j] == views[0][j] by {
                assert(views[0][j].len() == row_count(views[0]));
                match views[0][j] {
                    ColumnData::Int64(v) => assert(v.subrange(0, v.len() as int) =~= v),
                    ColumnData::UInt64(v) => assert(v.subrange(0, v.len() as int) =~= v),
                    ColumnData::Boolean(v) => assert(v.subrange(0, v.len() as int) =~= v),
                    ColumnData::Utf8(v) => assert(v.subrange(0, v.len() as int) =~= v),
                }
            }
        }
        assert(views.take(1) =~= seq![views[0]]);
        let mut i: usize = 1;
        while i < parts.len()
            invariant
                1 <= i <= parts@.len(),
                views == batches_view(parts@),
                forall|j: int| 0 <= j < parts@.len() ==> (#[trigger] parts@[j]).wf(),
                acc.wf(),
                acc@ == concat_all(views.take(i as int)),
                same_shape(acc@, views[0]),
                forall|j: int| 0 <= j < i ==> same_shape(views[0], #[trigger] views[j]),
            decreases parts@.len() - i,
        {
            let p = &parts[i];
            assert(views[i as int] == p@);
            let mut same = acc.columns.len() == p.columns.len();
            let mut c: usize = 0;
            while same && c < acc.columns.len()
                invariant
                    c <= acc.columns@.len(),
                    same ==> acc.columns@.len() == p.columns@.len(),
                    same ==> forall|j: int| 0 <= j < c ==> (#[trigger] acc@[j]).data_type() == p@[j].data_type(),
                    !same ==> !same_shape(acc@, p@),
                decreases acc.columns@.len() - c + (if same { 1int } else { 0int }),
            {
                assert(acc@[c as int] == acc.columns@[c as int]@);
                assert(p@[c as int] == p.columns@[c as int]@);
                if acc.columns[c].data_type() != p.columns[c].data_type() {
                    same = false;
                } else {
                    c = c + 1;
                }
            }
            if !same {
                assert(!same_shape(views[0], views[i as int])) by {
                    if same_shape(views[0], views[i as int]) {
                        assert forall|j: int| 0 <= j < acc@.len() implies (#[trigger] acc@[j]).data_type()
                            == p@[j].data_type() by {
                            assert(acc@[j].data_type() == views[0][j].data_type());
                        }
                    }
                }
                return Err(BatchError::FormatError);
            }
            assert(same_shape(views[0], views[i as int])) by {
                assert forall|j: int| 0 <= j < views[0].len() implies (#[trigger] views[0][j]).data_type()
                    == views[i as int][j].data_type() by {
                    assert(acc@[j].data_type() == views[0][j].data_type());
                }
            }
            acc = concat_pair(&acc, p);
            assert(views.take(i + 1).drop_last() =~= views.take(i as int));
            i = i + 1;
        }
        assert(views.take(parts@.len() as int) =~= views);
        Ok(acc)
    }
}

/// A named, typed column declaration.
#[derive(Debug)]
pub struct Field {
    pub name: String,
    pub data_type: DataType,
    pub nullable: bool,
}

impl Field {
    pub fn new(name: &str, data_type: DataType, nullable: bool) -> (r: Field)
        ensures
            r.name@ == name@,
            r.data_type == data_type,
            r.nullable == nullable,
    {
        Field { name: name.to_string(), data_type, nullable }
    }
}

pub open spec fn field_types(fields: Seq<Field>) -> Seq<DataType> {
    fields.map_values(|f: Field| f.data_type)
}

pub open spec fn field_names(fields: Seq<Field>) -> Seq<Seq<char>> {
    fields.map_values(|f: Field| f.name@)
}

/// No field admits nulls.
pub open spec fn all_non_nullable(fields: Seq<Field>) -> bool {
    forall|i: int| 0 <= i < fields.len() ==> !(#[trigger] fields[i]).nullable
}

pub open spec fn metadata_view(m: Seq<(String, String)>) -> Seq<(Seq<char>, Seq<char>)> {
    m.map_values(|e: (String, String)| (e.0@, e.1@))
}

/// The value that metadata entries give `key`: the latest entry for it wins.
pub open spec fn lookup(m: Seq<(Seq<char>, Seq<char>)>, key: Seq<char>) -> Option<Seq<char>>
    decreases m.len(),
{
    if m.len() == 0 {
        None
    } else if m.last().0 == key {
        Some(m.last().1)
    } else {
        lookup(m.drop_last(), key)
    }
}

/// The declared columns of a dataset, with string metadata on the whole
/// dataset.
#[derive(Debug)]
pub struct Schema {
    pub fields: Vec<Field>,
    pub metadata: Vec<(String, String)>,
}

impl Schema {
    /// A schema of the given fields and no metadata.
    pub fn from_fields(fields: Vec<Field>) -> (r: Schema)
        ensures
            r.fields@ == fields@,
            r.metadata@.len() == 0,
    {
        Schema { fields, metadata: Vec::new() }
    }

    /// Sets the metadata entry `key` to `value`.
    pub fn insert_metadata(&mut self, key: &str, value: String)
        ensures
            final(self).fields@ == old(self).fields@,
            metadata_view(final(self).metadata@) == metadata_view(old(self).metadata@).push(
                (key@, value@),
            ),
    {
        let ghost prev = self.metadata@;
        self.metadata.push((key.to_string(), value));
        assert(metadata_view(self.metadata@) =~= metadata_view(prev).push((key@, value@)));
    }

    /// The metadata value of `key`, if there is one.
    pub fn metadata_value(&self, key: &str) -> (r: Option<String>)
        ensures
            match r {
                Some(v) => lookup(metadata_view(self.metadata@), key@) == Some(v@),
                None => lookup(metadata_view(self.metadata@), key@) is None,
            },
    {
        let k = key.to_string();
        let ghost m = metadata_view(self.metadata@);
        let mut i = self.metadata.len();
        assert(m.take(i as int) =~= m);
        while i > 0
            invariant
                i <= self.metadata@.len(),
                m == metadata_view(self.metadata@),
                k@ == key@,
                lookup(m.take(i as int), key@) == lookup(m, key@),
            decreases i,
        {
            assert(m.take(i as int).drop_last() =~= m.take(i - 1));
            if self.metadata[i - 1].0 == k {
                return Some(self.metadata[i - 1].1.clone());
            }
            i = i - 1;
        }
        None
    }

    /// Checks that `batch` has one column per field, of the field's type.
    pub fn check_batch(&self, batch: &ColumnBatch) -> (r: Result<(), BatchError>)
        ensures
            match r {
                Ok(_) => field_types(self.fields@) == batch@.map_values(
                    |c: ColumnData| c.data_type(),
                ),
                Err(e) => e == BatchError::EncodingError && field_types(self.fields@)
                    != batch@.map_values(|c: ColumnData| c.data_type()),
            },
    {
        let ghost want = field_types(self.fields@);
        let ghost have = batch@.map_values(|c: ColumnData| c.data_type());
        if self.fields.len() != batch.columns.len() {
            assert(want.len() != have.len());
            return Err(BatchError::EncodingError);
        }
        let mut i: usize = 0;
        while i < self.fields.len()
            invariant
                i <= self.fields@.len(),
                self.fields@.len() == batch.columns@.len(),
                want == field_types(self.fields@),
                have == batch@.map_values(|c: ColumnData| c.data_type()),
                forall|j: int| 0 <= j < i ==> want[j] == have[j],
            decreases self.fields@.len() - i,
        {
            assert(batch@[i as int] == batch.columns@[i as int]@);
            if self.fields[i].data_type != batch.columns[i].data_type() {
                assert(want[i as int] != have[i as int]);
                return Err(BatchError::EncodingError);
            }
            i = i + 1;
        }
        assert(want =~= have);
        Ok(())
    }
}

/// A metadata entry just set is the value that its key reads, whatever
/// entries came before it; other keys read as before.
pub proof fn lemma_metadata_set_then_read(
    m: Seq<(Seq<char>, Seq<char>)>,
    key: Seq<char>,
    value: Seq<char>,
    other: Seq<char>,
)
    requires
        other != key,
    ensures
        lookup(m.push((key, value)), key) == Some(value),
        lookup(m.push((key, value)), other) == lookup(m, other),
{
    assert(m.push((key, value)).drop_last() =~= m);
}

proof fn lemma_column_slices_join(c: ColumnData, x: int, y: int)
    requires
        0 <= x <= y <= c.len(),
    ensures
        c.slice(0, x).concat(c.slice(x, y)) == c.slice(0, y),
{
    match c {
        ColumnData::Int64(v) => assert(v.subrange(0, x) + v.subrange(x, y) =~= v.subrange(0, y)),
        ColumnData::UInt64(v) => assert(v.subrange(0, x) + v.subrange(x, y) =~= v.subrange(0, y)),
        ColumnData::Boolean(v) => assert(v.subrange(0, x) + v.subrange(x, y) =~= v.subrange(0, y)),
        ColumnData::Utf8(v) => assert(v.subrange(0, x) + v.subrange(x, y) =~= v.subrange(0, y)),
    }
}

proof fn lemma_column_whole(c: ColumnData)
    ensures
        c.slice(0, c.len() as int) == c,
{
    match c {
        ColumnData::Int64(v) => assert(v.subrange(0, v.len() as int) =~= v),
        ColumnData::UInt64(v) => assert(v.subrange(0, v.len() as int) =~= v),
        ColumnData::Boolean(v) => assert(v.subrange(0, v.len() as int) =~= v),
        ColumnData::Utf8(v) => assert(v.subrange(0, v.len() as int) =~= v),
    }
}

proof fn lemma_chunk_count(n: nat, k: nat)
    requires
        k >= 1,
    ensures
        chunk_count(n, k) >= 1,
        chunk_count(n, k) * k >= n,
        n > 0 ==> (chunk_count(n, k) - 1) * k < n,
{
    if n > 0 {
        let q = ((n + k - 1) as nat / k) as int;
        vstd::arithmetic::div_mod::lemma_fundamental_div_mod((n + k - 1) as int, k as int);
        let r = (n + k - 1) as int % (k as int);
        assert(0 <= r < k);
        assert(q * k == n + k - 1 - r) by (nonlinear_arith)
            requires
                n + k - 1 == k * q + r,
        ;
        assert((q - 1) * k == q * k - k) by (nonlinear_arith);
        assert(q >= 1) by (nonlinear_arith)
            requires
                q * k >= n,
                n > 0,
                k >= 1,
        ;
        assert(chunk_count(n, k) == q);
    }
}

proof fn lemma_split_prefix(b: Seq<ColumnData>, k: nat, j: int)
    requires
        has_rows(b, row_count(b)),
        k >= 1,
        1 <= j <= chunk_count(row_count(b), k),
    ensures
        concat_all(split_view(b, k).take(j)) == batch_slice(b, 0, min(j * k, row_count(b) as int)),
    decreases j,
{
    let n = row_count(b) as int;
    let parts = split_view(b, k);
    if j == 1 {
        assert(parts.take(1) =~= seq![parts[0]]);
    } else {
        let i = j - 1;
        lemma_split_prefix(b, k, i);
        let cc = chunk_count(n as nat, k) as int;
        lemma_chunk_count(n as nat, k);
        assert(i * k <= (cc - 1) * k) by (nonlinear_arith)
            requires
                i <= cc - 1,
                k >= 1,
        ;
        assert(parts.take(j).drop_last() =~= parts.take(i));
        let left = batch_slice(b, 0, i * k);
        let right = parts[i];
        assert(right == batch_slice(b, i * k, min(j * k, n)));
        assert(min(i * k, n) == i * k);
        assert(i * k <= min(j * k, n) <= n) by (nonlinear_arith)
            requires
                i * k < n,
                j == i + 1,
                k >= 1,
        ;
        assert(batch_concat(left, right) =~= batch_slice(b, 0, min(j * k, n))) by {
            assert forall|c: int| 0 <= c < b.len() implies #[trigger] batch_concat(left, right)[c]
                == batch_slice(b, 0, min(j * k, n))[c] by {
                assert(b[c].len() == n);
                lemma_column_slices_join(b[c], i * k, min(j * k, n));
            }
        }
    }
}

/// Splitting a batch into row groups of any size of at least one row and
/// joining the groups back in order gives the batch that was split.
pub proof fn lemma_split_then_concat(b: Seq<ColumnData>, k: nat)
    requires
        has_rows(b, row_count(b)),
        k >= 1,
    ensures
        concat_all(split_view(b, k)) == b,
{
    let n = row_count(b) as int;
    let parts = split_view(b, k);
    let cc = chunk_count(n as nat, k) as int;
    lemma_chunk_count(n as nat, k);
    lemma_split_prefix(b, k, cc);
    assert(parts.take(cc) =~= parts);
    assert(batch_slice(b, 0, n) =~= b) by {
        assert forall|i: int| 0 <= i < b.len() implies #[trigger] batch_slice(b, 0, n)[i] == b[i] by {
            assert(b[i].len() == n);
            lemma_column_whole(b[i]);
        }
    }
}

} // verus!
