use vstd::prelude::*;

use crate::environment::Environment;
use crate::errors::ErrorKind;
use crate::value::{Value, ValueModel, ValueType};

verus! {

/// One heap entry: the extents, the cells in row-major order, and the mark
/// bit the collector uses.
pub struct Table {
    pub dimensions: Vec<usize>,
    pub data: Vec<Value>,
    pub is_marked: bool,
}

/// The mathematical reading of a heap entry.
pub ghost struct TableModel {
    pub dims: Seq<usize>,
    pub cells: Seq<Value>,
    pub marked: bool,
}

impl View for Table {
    type V = TableModel;

    open spec fn view(&self) -> TableModel {
        TableModel { dims: self.dimensions@, cells: self.data@, marked: self.is_marked }
    }
}

/// The number of cells a table with the given extents holds.
pub open spec fn dims_product(dims: Seq<usize>) -> int
    decreases dims.len(),
{
    if dims.len() == 0 {
        1
    } else {
        dims_product(dims.drop_last()) * dims.last()
    }
}

impl Table {
    pub open spec fn wf(self) -> bool {
        &&& self.data@.len() == dims_product(self.dimensions@)
        &&& forall|i: int| 0 <= i < self.data@.len() ==> (#[trigger] self.data@[i]).wf()
    }
}

/// The per-dimension positions an access reaches: the supplied indices with
/// the view's offsets added.
pub open spec fn shifted(off: Seq<usize>, idx: Seq<usize>) -> Seq<int> {
    Seq::new(idx.len() as nat, |i: int| off[i] + idx[i])
}

/// Whether every position lies inside the extents.
pub open spec fn pos_in_bounds(dims: Seq<usize>, pos: Seq<int>) -> bool {
    &&& pos.len() == dims.len()
    &&& forall|i: int| 0 <= i < dims.len() ==> 0 <= #[trigger] pos[i] < dims[i]
}

/// Row-major flattening of the first n positions.
pub open spec fn flat_prefix(dims: Seq<usize>, pos: Seq<int>, n: int) -> int
    decreases n,
{
    if n <= 0 {
        0
    } else {
        flat_prefix(dims, pos, n - 1) * dims[n - 1] + pos[n - 1]
    }
}

/// Row-major flattening of a full position vector.
pub open spec fn flat_index(dims: Seq<usize>, pos: Seq<int>) -> int {
    flat_prefix(dims, pos, dims.len() as int)
}

pub proof fn lemma_dims_product_nonneg(dims: Seq<usize>)
    ensures
        dims_product(dims) >= 0,
    decreases dims.len(),
{
    if dims.len() > 0 {
        lemma_dims_product_nonneg(dims.drop_last());
        assert(dims_product(dims.drop_last()) * dims.last() >= 0) by (nonlinear_arith)
            requires
                dims_product(dims.drop_last()) >= 0,
                dims.last() >= 0,
        ;
    }
}

pub proof fn lemma_flat_prefix_bound(dims: Seq<usize>, pos: Seq<int>, n: int)
    requires
        pos_in_bounds(dims, pos),
        0 <= n <= dims.len(),
    ensures
        0 <= flat_prefix(dims, pos, n) < dims_product(dims.subrange(0, n)) || (n == 0
            && flat_prefix(dims, pos, n) == 0),
        0 <= flat_prefix(dims, pos, n),
        n > 0 ==> flat_prefix(dims, pos, n) < dims_product(dims.subrange(0, n)),
    decreases n,
{
    if n > 0 {
        lemma_flat_prefix_bound(dims, pos, n - 1);
        let p = dims.subrange(0, n);
        assert(p.drop_last() =~= dims.subrange(0, n - 1));
        let prior = flat_prefix(dims, pos, n - 1);
        let prior_cap = dims_product(dims.subrange(0, n - 1));
        if n == 1 {
            assert(dims.subrange(0, 0) =~= Seq::<usize>::empty());
            assert(prior == 0 && prior_cap == 1);
        }
        assert(prior < prior_cap);
        assert(0 <= prior * dims[n - 1] + pos[n - 1] < prior_cap * dims[n - 1])
            by (nonlinear_arith)
            requires
                0 <= prior < prior_cap,
                0 <= pos[n - 1] < dims[n - 1],
        ;
    }
}

pub proof fn lemma_dims_product_prefix_le(dims: Seq<usize>, n: int)
    requires
        0 <= n <= dims.len(),
        forall|i: int| 0 <= i < dims.len() ==> #[trigger] dims[i] >= 1,
    ensures
        dims_product(dims.subrange(0, n)) <= dims_product(dims),
    decreases dims.len() - n,
{
    if n < dims.len() {
        let p = dims.subrange(0, n + 1);
        assert(p.drop_last() =~= dims.subrange(0, n));
        lemma_dims_product_nonneg(dims.subrange(0, n));
        assert(dims_product(dims.subrange(0, n)) <= dims_product(p)) by (nonlinear_arith)
            requires
                dims_product(p) == dims_product(dims.subrange(0, n)) * p.last(),
                dims_product(dims.subrange(0, n)) >= 0,
                p.last() >= 1,
        ;
        lemma_dims_product_prefix_le(dims, n + 1);
    } else {
        assert(dims.subrange(0, n) =~= dims);
    }
}

/// The mathematical reading of the heap: handles to table models, later
/// entries winning.
pub open spec fn heap_map(s: Seq<(usize, Table)>) -> Map<int, TableModel>
    decreases s.len(),
{
    if s.len() == 0 {
        Map::empty()
    } else {
        heap_map(s.drop_last()).insert(s.last().0 as int, s.last().1@)
    }
}

pub open spec fn distinct_handles(s: Seq<(usize, Table)>) -> bool {
    forall|i: int, j: int| 0 <= i < j < s.len() ==> (#[trigger] s[i]).0 != (#[trigger] s[j]).0
}

pub proof fn lemma_heap_map_contains(s: Seq<(usize, Table)>, h: int)
    ensures
        heap_map(s).contains_key(h) <==> exists|i: int|
            0 <= i < s.len() && (#[trigger] s[i]).0 as int == h,
    decreases s.len(),
{
    if s.len() > 0 {
        lemma_heap_map_contains(s.drop_last(), h);
        if s.last().0 as int == h {
            assert(s[s.len() - 1].0 as int == h);
        } else {
            if exists|i: int| 0 <= i < s.len() && (#[trigger] s[i]).0 as int == h {
                let i = choose|i: int| 0 <= i < s.len() && (#[trigger] s[i]).0 as int == h;
                assert(s.drop_last()[i] == s[i]);
            }
            if exists|i: int| 0 <= i < s.len() - 1 && (#[trigger] s.drop_last()[i]).0 as int == h {
                let i = choose|i: int|
                    0 <= i < s.len() - 1 && (#[trigger] s.drop_last()[i]).0 as int == h;
                assert(s[i] == s.drop_last()[i]);
            }
        }
    }
}

pub proof fn lemma_heap_map_get(s: Seq<(usize, Table)>, i: int)
    requires
        distinct_handles(s),
        0 <= i < s.len(),
    ensures
        heap_map(s).contains_key(s[i].0 as int),
        heap_map(s)[s[i].0 as int] == s[i].1@,
    decreases s.len(),
{
    if i == s.len() - 1 {
        assert(s.last() == s[i]);
    } else {
        assert(distinct_handles(s.drop_last())) by {
            assert(forall|a: int, b: int|
                0 <= a < b < s.len() - 1 ==> (#[trigger] s.drop_last()[a]) == s[a]
                    && (#[trigger] s.drop_last()[b]) == s[b]);
        }
        assert(s.drop_last()[i] == s[i]);
        lemma_heap_map_get(s.drop_last(), i);
        assert(s[i].0 != s.last().0);
    }
}

pub proof fn lemma_heap_map_update(s: Seq<(usize, Table)>, i: int, entry: (usize, Table))
    requires
        distinct_handles(s),
        0 <= i < s.len(),
        entry.0 == s[i].0,
    ensures
        heap_map(s.update(i, entry)) =~= heap_map(s).insert(entry.0 as int, entry.1@),
        distinct_handles(s.update(i, entry)),
    decreases s.len(),
{
    let t = s.update(i, entry);
    assert(distinct_handles(t)) by {
        assert(forall|a: int| 0 <= a < s.len() ==> (#[trigger] t[a]).0 == s[a].0);
    }
    if i == s.len() - 1 {
        assert(t.drop_last() =~= s.drop_last());
        assert(t.last() == entry);
    } else {
        assert(distinct_handles(s.drop_last())) by {
            assert(forall|a: int, b: int|
                0 <= a < b < s.len() - 1 ==> (#[trigger] s.drop_last()[a]) == s[a]
                    && (#[trigger] s.drop_last()[b]) == s[b]);
        }
        assert(t.drop_last() =~= s.drop_last().update(i, entry));
        assert(s.drop_last()[i] == s[i]);
        lemma_heap_map_update(s.drop_last(), i, entry);
        assert(t.last() == s.last());
        assert(s.last().0 != entry.0);
    }
}

/// The single-threaded owner of the table heap.
pub struct TableManager {
    pub table_id: usize,
    pub tables: Vec<(usize, Table)>,
}

impl TableManager {
    /// The heap invariant: handles are distinct, below the sentinel, and
    /// every entry is well formed.
    pub open spec fn wf(self) -> bool {
        &&& distinct_handles(self.tables@)
        &&& forall|i: int|
            0 <= i < self.tables@.len() ==> (#[trigger] self.tables@[i]).1.wf()
        &&& forall|i: int|
            0 <= i < self.tables@.len() ==> (#[trigger] self.tables@[i]).0 < usize::MAX
    }

    /// The heap as a map from handles to table models.
    pub open spec fn heap(self) -> Map<int, TableModel> {
        heap_map(self.tables@)
    }

    pub fn new() -> (r: TableManager)
        ensures
            r.wf(),
            r.heap() =~= Map::<int, TableModel>::empty(),
    {
        TableManager { table_id: 0, tables: Vec::new() }
    }

    /// The position of a handle's entry in the backing vector.
    fn find_entry(&self, handle: usize) -> (r: Option<usize>)
        requires
            self.wf(),
        ensures
            match r {
                Some(i) => i < self.tables@.len() && self.tables@[i as int].0 == handle
                    && self.heap().contains_key(handle as int) && self.heap()[handle as int]
                    == self.tables@[i as int].1@,
                None => !self.heap().contains_key(handle as int),
            },
    {
        proof {
            lemma_heap_map_contains(self.tables@, handle as int);
        }
        let n = self.tables.len();
        let mut i: usize = 0;
        while i < n
            invariant
                i <= n,
                n == self.tables@.len(),
                self.wf(),
                forall|j: int| 0 <= j < i ==> (#[trigger] self.tables@[j]).0 != handle,
            decreases n - i,
        {
            if self.tables[i].0 == handle {
                proof {
                    lemma_heap_map_get(self.tables@, i as int);
                }
                return Some(i);
            }
            i = i + 1;
        }
        proof {
            lemma_heap_map_contains(self.tables@, handle as int);
        }
        None
    }
}

/// The error an access through a table view yields before any cell is read,
/// or nothing when the access is legal.
pub open spec fn access_error(heap: Map<int, TableModel>, tv: Value, idx: Seq<usize>) -> Option<
    ErrorKind,
> {
    match tv@ {
        ValueModel::Tbl { handle, offset } => {
            if !heap.contains_key(handle) {
                Some(ErrorKind::InternalInvariant)
            } else if idx.len() != heap[handle].dims.len() || offset.len()
                != heap[handle].dims.len() {
                Some(ErrorKind::DimensionMismatch)
            } else if !pos_in_bounds(heap[handle].dims, shifted(offset, idx)) {
                Some(ErrorKind::OutOfBounds)
            } else {
                None
            }
        },
        _ => Some(ErrorKind::TypeMismatch),
    }
}

/// The cell a legal access reaches.
pub open spec fn cell_at(heap: Map<int, TableModel>, tv: Value, idx: Seq<usize>) -> Value {
    match tv@ {
        ValueModel::Tbl { handle, offset } => heap[handle].cells[flat_index(
            heap[handle].dims,
            shifted(offset, idx),
        )],
        _ => tv,
    }
}

/// The heap after a legal write through a table view.
pub open spec fn heap_after_put(
    heap: Map<int, TableModel>,
    tv: Value,
    idx: Seq<usize>,
    value: Value,
) -> Map<int, TableModel> {
    match tv@ {
        ValueModel::Tbl { handle, offset } => heap.insert(
            handle,
            TableModel {
                dims: heap[handle].dims,
                cells: heap[handle].cells.update(
                    flat_index(heap[handle].dims, shifted(offset, idx)),
                    value,
                ),
                marked: heap[handle].marked,
            },
        ),
        _ => heap,
    }
}

impl TableManager {
    /// Checks an access and computes the row-major cell index it reaches.
    fn calculate_data_index(table: &Table, table_value: &Value, indices: &Vec<usize>) -> (r: Result<
        usize,
        ErrorKind,
    >)
        requires
            table.wf(),
            table_value.wf(),
            table_value@ is Tbl,
        ensures
            match r {
                Ok(n) => {
                    &&& table_value@ matches ValueModel::Tbl { handle, offset }
                    &&& indices@.len() == table.dimensions@.len()
                    &&& offset.len() == table.dimensions@.len()
                    &&& pos_in_bounds(table.dimensions@, shifted(offset, indices@))
                    &&& n as int == flat_index(table.dimensions@, shifted(offset, indices@))
                    &&& n < table.data@.len()
                },
                Err(k) => {
                    &&& (table_value@ matches ValueModel::Tbl { handle, offset } ==> {
                        if indices@.len() != table.dimensions@.len() || offset.len()
                            != table.dimensions@.len() {
                            k == ErrorKind::DimensionMismatch
                        } else {
                            k == ErrorKind::OutOfBounds && !pos_in_bounds(
                                table.dimensions@,
                                shifted(offset, indices@),
                            )
                        }
                    })
                },
            },
    {
        let offsets = match &table_value.slice_offset {
            Some(v) => v,
            None => {
                return Err(ErrorKind::DimensionMismatch);
            },
        };
        let ndims = table.dimensions.len();
        if indices.len() != ndims || offsets.len() != ndims {
            return Err(ErrorKind::DimensionMismatch);
        }
        let ghost dims = table.dimensions@;
        let ghost pos = shifted(offsets@, indices@);
        let ghost model = (ValueModel::Tbl {
            handle: table_value.table_index as int,
            offset: offsets@,
        });
        proof {
            assert(table_value@ == model);
        }
        // Every reached position must lie inside the extents.
        let mut i: usize = 0;
        while i < ndims
            invariant
                i <= ndims,
                ndims == dims.len(),
                dims == table.dimensions@,
                indices@.len() == ndims,
                offsets@.len() == ndims,
                table_value@ == (ValueModel::Tbl {
                    handle: table_value.table_index as int,
                    offset: offsets@,
                }),
                pos == shifted(offsets@, indices@),
                forall|j: int| 0 <= j < i ==> 0 <= #[trigger] pos[j] < dims[j],
            decreases ndims - i,
        {
            match indices[i].checked_add(offsets[i]) {
                Some(p) => {
                    if p >= table.dimensions[i] {
                        proof {
                            assert(pos[i as int] >= dims[i as int]);
                            assert(!pos_in_bounds(dims, pos));
                        }
                        return Err(ErrorKind::OutOfBounds);
                    }
                },
                None => {
                    proof {
                        assert(pos[i as int] > usize::MAX as int);
                        assert(dims[i as int] <= usize::MAX as int);
                        assert(!pos_in_bounds(dims, pos));
                    }
                    return Err(ErrorKind::OutOfBounds);
                },
            }
            i = i + 1;
        }
        proof {
            assert(pos_in_bounds(dims, pos));
            lemma_flat_prefix_bound(dims, pos, dims.len() as int);
            assert forall|j: int| 0 <= j < dims.len() implies #[trigger] dims[j] >= 1 by {
                assert(0 <= pos[j] < dims[j]);
            }
        }
        // Row-major flattening, overflow-free because the running value stays
        // below the cell count.
        let mut acc: usize = 0;
        let mut k: usize = 0;
        let cap = table.data.len();
        while k < ndims
            invariant
                k <= ndims,
                ndims == dims.len(),
                indices@.len() == ndims,
                offsets@.len() == ndims,
                pos == shifted(offsets@, indices@),
                pos_in_bounds(dims, pos),
                table.wf(),
                dims == table.dimensions@,
                cap == table.data@.len(),
                acc as int == flat_prefix(dims, pos, k as int),
                forall|j: int| 0 <= j < dims.len() ==> #[trigger] dims[j] >= 1,
            decreases ndims - k,
        {
            proof {
                lemma_flat_prefix_bound(dims, pos, k + 1);
                lemma_dims_product_prefix_le(dims, k + 1);
                assert(flat_prefix(dims, pos, k + 1) < dims_product(dims.subrange(0, k + 1)));
                assert(dims_product(dims) == table.data@.len());
                assert(flat_prefix(dims, pos, k + 1) == acc * dims[k as int] + pos[k as int]);
                assert(pos[k as int] == offsets@[k as int] + indices@[k as int]);
                assert(0 <= pos[k as int] < dims[k as int]);
                assert(acc * dims[k as int] + pos[k as int] < table.data@.len());
                assert(acc * dims[k as int] >= 0) by (nonlinear_arith)
                    requires
                        acc >= 0,
                        dims[k as int] >= 0,
                ;
            }
            acc = acc * table.dimensions[k] + (indices[k] + offsets[k]);
            k = k + 1;
        }
        proof {
            lemma_flat_prefix_bound(dims, pos, dims.len() as int);
            lemma_dims_product_nonneg(dims);
            if dims.len() == 0 {
                assert(dims.subrange(0, 0) =~= dims);
            } else {
                assert(dims.subrange(0, dims.len() as int) =~= dims);
            }
        }
        Ok(acc)
    }

    pub fn get_dimensions(&self, table_value: &Value) -> (r: Result<&Vec<usize>, ErrorKind>)
        requires
            self.wf(),
            table_value.wf(),
        ensures
            match r {
                Ok(d) => table_value@ matches ValueModel::Tbl { handle, offset }
                    && self.heap().contains_key(handle) && d@ == self.heap()[handle].dims,
                Err(k) => {
                    if !(table_value@ is Tbl) {
                        k == ErrorKind::TypeMismatch
                    } else {
                        k == ErrorKind::InternalInvariant && !self.heap().contains_key(
                            table_value.table_index as int,
                        )
                    }
                },
            },
    {
        if table_value.is_uninitialized() || !matches!(table_value.value_type, ValueType::Table) {
            return Err(ErrorKind::TypeMismatch);
        }
        match self.find_entry(table_value.table_index) {
            Some(i) => Ok(&self.tables[i].1.dimensions),
            None => Err(ErrorKind::InternalInvariant),
        }
    }

    /// Reads a cell through a table view.
    pub fn get(&self, table_value: &Value, indices: &Vec<usize>) -> (r: Result<&Value, ErrorKind>)
        requires
            self.wf(),
            table_value.wf(),
        ensures
            match r {
                Ok(v) => {
                    &&& access_error(self.heap(), *table_value, indices@) is None
                    &&& *v == cell_at(self.heap(), *table_value, indices@)
                    &&& !(v@ is Uninit)
                },
                Err(k) => match access_error(self.heap(), *table_value, indices@) {
                    Some(k0) => k == k0,
                    None => k == ErrorKind::UninitCell && cell_at(
                        self.heap(),
                        *table_value,
                        indices@,
                    )@ is Uninit,
                },
            },
    {
        if table_value.is_uninitialized() || !matches!(table_value.value_type, ValueType::Table) {
            return Err(ErrorKind::TypeMismatch);
        }
        let i = match self.find_entry(table_value.table_index) {
            Some(i) => i,
            None => {
                return Err(ErrorKind::InternalInvariant);
            },
        };
        let table = &self.tables[i].1;
        let index = match Self::calculate_data_index(table, table_value, indices) {
            Ok(n) => n,
            Err(k) => {
                return Err(k);
            },
        };
        let candidate = &table.data[index];
        if candidate.is_uninitialized() {
            Err(ErrorKind::UninitCell)
        } else {
            Ok(candidate)
        }
    }

    /// Writes a cell through a table view.
    pub fn put(&mut self, table_value: &Value, indices: &Vec<usize>, value: Value) -> (r: Result<
        (),
        ErrorKind,
    >)
        requires
            old(self).wf(),
            table_value.wf(),
            value.wf(),
        ensures
            final(self).wf(),
            final(self).table_id == old(self).table_id,
            match r {
                Ok(()) => {
                    &&& access_error(old(self).heap(), *table_value, indices@) is None
                    &&& final(self).heap() =~= heap_after_put(
                        old(self).heap(),
                        *table_value,
                        indices@,
                        value,
                    )
                },
                Err(k) => {
                    &&& access_error(old(self).heap(), *table_value, indices@) == Some(k)
                    &&& final(self).heap() =~= old(self).heap()
                    &&& final(self).tables@ == old(self).tables@
                },
            },
    {
        if table_value.is_uninitialized() || !matches!(table_value.value_type, ValueType::Table) {
            return Err(ErrorKind::TypeMismatch);
        }
        let i = match self.find_entry(table_value.table_index) {
            Some(i) => i,
            None => {
                return Err(ErrorKind::InternalInvariant);
            },
        };
        let index = match Self::calculate_data_index(&self.tables[i].1, table_value, indices) {
            Ok(n) => n,
            Err(k) => {
                return Err(k);
            },
        };
        let ghost pre = self.tables@;
        let entry = &mut self.tables[i];
        entry.1.data[index] = value;
        let ghost post_entry = *entry;
        proof {
            assert(self.tables@ == pre.update(i as int, post_entry));
            lemma_heap_map_update(pre, i as int, post_entry);
            lemma_heap_map_get(pre, i as int);
        }
        Ok(())
    }

    /// Copies a literal's values into the leading cells of a table.
    pub fn write_raw(&mut self, table_value: &Value, data: Vec<Value>) -> (r: Result<
        (),
        ErrorKind,
    >)
        requires
            old(self).wf(),
            table_value.wf(),
            forall|i: int| 0 <= i < data@.len() ==> (#[trigger] data@[i]).wf(),
        ensures
            final(self).wf(),
            final(self).table_id == old(self).table_id,
            match r {
                Ok(()) => {
                    &&& table_value@ matches ValueModel::Tbl { handle, offset }
                    &&& old(self).heap().contains_key(handle)
                    &&& data@.len() <= old(self).heap()[handle].cells.len()
                    &&& final(self).heap() =~= old(self).heap().insert(
                        handle,
                        TableModel {
                            dims: old(self).heap()[handle].dims,
                            cells: data@ + old(self).heap()[handle].cells.skip(data@.len() as int),
                            marked: old(self).heap()[handle].marked,
                        },
                    )
                },
                Err(k) => {
                    &&& final(self).heap() =~= old(self).heap()
                    &&& final(self).tables@ == old(self).tables@
                    &&& if !(table_value@ is Tbl) {
                        k == ErrorKind::TypeMismatch
                    } else if !old(self).heap().contains_key(table_value.table_index as int) {
                        k == ErrorKind::InternalInvariant
                    } else {
                        k == ErrorKind::BadTableLiteral && data@.len() > old(self).heap().index(
                            table_value.table_index as int,
                        ).cells.len()
                    }
                },
            },
    {
        if table_value.is_uninitialized() || !matches!(table_value.value_type, ValueType::Table) {
            return Err(ErrorKind::TypeMismatch);
        }
        let i = match self.find_entry(table_value.table_index) {
            Some(i) => i,
            None => {
                return Err(ErrorKind::InternalInvariant);
            },
        };
        if data.len() > self.tables[i].1.data.len() {
            return Err(ErrorKind::BadTableLiteral);
        }
        let ghost pre = self.tables@;
        let ghost incoming = data@;
        let mut data = data;
        let entry = &mut self.tables[i];
        let total = data.len();
        let mut j: usize = total;
        while j > 0
            invariant
                j <= total,
                total == incoming.len(),
                data@ == incoming.subrange(0, j as int),
                0 <= i < pre.len(),
                forall|m: int| 0 <= m < incoming.len() ==> (#[trigger] incoming[m]).wf(),
                entry.0 == pre[i as int].0,
                entry.1.dimensions@ == pre[i as int].1.dimensions@,
                entry.1.is_marked == pre[i as int].1.is_marked,
                entry.1.data@.len() == pre[i as int].1.data@.len(),
                total <= entry.1.data@.len(),
                forall|m: int| 0 <= m < j ==> entry.1.data@[m] == pre[i as int].1.data@[m],
                forall|m: int| j <= m < total ==> entry.1.data@[m] == incoming[m],
                forall|m: int|
                    total <= m < entry.1.data@.len() ==> entry.1.data@[m] == pre[i as int].1.data@[m],
                forall|m: int| 0 <= m < entry.1.data@.len() ==> (#[trigger] entry.1.data@[m]).wf(),
            decreases j,
        {
            let v = match data.pop() {
                Some(v) => v,
                None => {
                    return Err(ErrorKind::InternalInvariant);
                },
            };
            entry.1.data[j - 1] = v;
            j = j - 1;
        }
        let ghost post_entry = *entry;
        proof {
            assert(self.tables@ == pre.update(i as int, post_entry));
            assert(post_entry.1.data@ =~= incoming + pre[i as int].1.data@.skip(
                incoming.len() as int,
            ));
            lemma_heap_map_update(pre, i as int, post_entry);
            lemma_heap_map_get(pre, i as int);
        }
        Ok(())
    }
}

/// The set of handles the heap vector uses.
pub open spec fn key_set(s: Seq<(usize, Table)>) -> Set<int>
    decreases s.len(),
{
    if s.len() == 0 {
        Set::empty()
    } else {
        key_set(s.drop_last()).insert(s.last().0 as int)
    }
}

pub proof fn lemma_key_set(s: Seq<(usize, Table)>)
    ensures
        key_set(s).finite(),
        key_set(s).len() <= s.len(),
        forall|h: int|
            key_set(s).contains(h) <==> exists|i: int|
                0 <= i < s.len() && (#[trigger] s[i]).0 as int == h,
    decreases s.len(),
{
    if s.len() > 0 {
        lemma_key_set(s.drop_last());
        assert forall|h: int|
            key_set(s).contains(h) <==> exists|i: int|
                0 <= i < s.len() && (#[trigger] s[i]).0 as int == h by {
            if key_set(s).contains(h) {
                if s.last().0 as int == h {
                    assert(s[s.len() - 1].0 as int == h);
                } else {
                    let i = choose|i: int|
                        0 <= i < s.len() - 1 && (#[trigger] s.drop_last()[i]).0 as int == h;
                    assert(s[i] == s.drop_last()[i]);
                }
            }
            if exists|i: int| 0 <= i < s.len() && (#[trigger] s[i]).0 as int == h {
                let i = choose|i: int| 0 <= i < s.len() && (#[trigger] s[i]).0 as int == h;
                if i < s.len() - 1 {
                    assert(s.drop_last()[i] == s[i]);
                }
            }
        }
    }
}

/// If every handle below c is taken, the heap holds at least c entries.
proof fn lemma_scan_bound(s: Seq<(usize, Table)>, c: int)
    requires
        c >= 0,
        forall|x: int| 0 <= x < c ==> heap_map(s).contains_key(x),
    ensures
        c <= s.len(),
{
    lemma_key_set(s);
    assert forall|x: int| vstd::set_lib::set_int_range(0, c).contains(x) implies key_set(
        s,
    ).contains(x) by {
        lemma_heap_map_contains(s, x);
    }
    vstd::set_lib::lemma_int_range(0, c);
    vstd::set_lib::lemma_len_subset(vstd::set_lib::set_int_range(0, c), key_set(s));
}

pub proof fn lemma_dims_product_zero(dims: Seq<usize>, i: int)
    requires
        0 <= i < dims.len(),
        dims[i] == 0,
    ensures
        dims_product(dims) == 0,
    decreases dims.len(),
{
    if i == dims.len() - 1 {
        assert(dims.last() == 0);
    } else {
        assert(dims.drop_last()[i] == dims[i]);
        lemma_dims_product_zero(dims.drop_last(), i);
    }
}

/// The all-zero offset vector of a fresh table.
pub open spec fn zero_offsets(n: int) -> Seq<usize> {
    Seq::new(n as nat, |i: int| 0usize)
}

impl TableManager {
    /// A handle no live table uses: the running counter where it is free,
    /// otherwise the smallest unused one.
    fn fresh_handle(&self) -> (r: Result<usize, ErrorKind>)
        requires
            self.wf(),
        ensures
            match r {
                Ok(id) => !self.heap().contains_key(id as int) && id < usize::MAX,
                Err(k) => k == ErrorKind::TableTooLarge && self.tables@.len() >= usize::MAX,
            },
    {
        if self.table_id < usize::MAX {
            match self.find_entry(self.table_id) {
                None => {
                    return Ok(self.table_id);
                },
                Some(_) => {},
            }
        }
        let mut c: usize = 0;
        while c < usize::MAX
            invariant
                self.wf(),
                forall|x: int| 0 <= x < c ==> #[trigger] heap_map(self.tables@).contains_key(x),
            decreases usize::MAX - c,
        {
            match self.find_entry(c) {
                None => {
                    return Ok(c);
                },
                Some(_) => {
                    proof {
                        assert(heap_map(self.tables@).contains_key(c as int));
                    }
                    c = c + 1;
                },
            }
        }
        proof {
            lemma_scan_bound(self.tables@, c as int);
        }
        Err(ErrorKind::TableTooLarge)
    }

    /// Allocates a table with the given extents, every cell uninitialized,
    /// and hands back a fresh view of it with zero offsets.
    pub fn create_table(&mut self, dimensions: &Vec<usize>) -> (r: Result<Value, ErrorKind>)
        requires
            old(self).wf(),
        ensures
            final(self).wf(),
            dims_product(dimensions@) <= usize::MAX && old(self).tables@.len() < usize::MAX
                ==> r is Ok,
            match r {
                Ok(v) => {
                    &&& v.wf()
                    &&& v@ matches ValueModel::Tbl { handle, offset }
                    &&& v@->Tbl_offset == zero_offsets(dimensions@.len() as int)
                    &&& !old(self).heap().contains_key(v@->Tbl_handle)
                    &&& final(self).heap().dom() =~= old(self).heap().dom().insert(v@->Tbl_handle)
                    &&& forall|k: int|
                        old(self).heap().contains_key(k) ==> final(self).heap()[k] == old(self).heap()[k]
                    &&& final(self).heap()[v@->Tbl_handle].dims == dimensions@
                    &&& final(self).heap()[v@->Tbl_handle].cells.len() == dims_product(dimensions@)
                    &&& forall|c: int|
                        0 <= c < final(self).heap()[v@->Tbl_handle].cells.len() ==> (
                        #[trigger] final(self).heap()[v@->Tbl_handle].cells[c])@ is Uninit
                    &&& !final(self).heap()[v@->Tbl_handle].marked
                },
                Err(k) => {
                    &&& k == ErrorKind::TableTooLarge
                    &&& dims_product(dimensions@) > usize::MAX || old(self).tables@.len()
                        >= usize::MAX
                    &&& final(self).tables@ == old(self).tables@
                },
            },
    {
        let ndims = dimensions.len();
        let ghost dseq = dimensions@;
        // The cell count: zero if any extent is zero, else the product of the
        // extents, refused when it cannot fit an allocation size.
        let mut has_zero = false;
        let mut i: usize = 0;
        while i < ndims
            invariant
                i <= ndims,
                ndims == dseq.len(),
                dseq == dimensions@,
                self.wf(),
                self.tables@ == old(self).tables@,
                self.table_id == old(self).table_id,
                has_zero ==> dims_product(dseq) == 0,
                !has_zero ==> forall|j: int| 0 <= j < i ==> #[trigger] dseq[j] >= 1,
            decreases ndims - i,
        {
            if dimensions[i] == 0 {
                proof {
                    lemma_dims_product_zero(dseq, i as int);
                }
                has_zero = true;
            }
            i = i + 1;
        }
        let length: usize = if has_zero {
            0
        } else {
            let mut acc: usize = 1;
            let mut k: usize = 0;
            while k < ndims
                invariant
                    k <= ndims,
                    ndims == dseq.len(),
                    dseq == dimensions@,
                    self.wf(),
                    self.tables@ == old(self).tables@,
                    self.table_id == old(self).table_id,
                    forall|j: int| 0 <= j < ndims ==> #[trigger] dseq[j] >= 1,
                    acc as int == dims_product(dseq.subrange(0, k as int)),
                decreases ndims - k,
            {
                proof {
                    assert(dseq.subrange(0, k + 1).drop_last() =~= dseq.subrange(0, k as int));
                }
                acc = match acc.checked_mul(dimensions[k]) {
                    Some(m) => m,
                    None => {
                        proof {
                            lemma_dims_product_nonneg(dseq.subrange(0, k as int));
                            assert(dims_product(dseq.subrange(0, k + 1)) > usize::MAX)
                                by (nonlinear_arith)
                                requires
                                    dims_product(dseq.subrange(0, k + 1)) == dims_product(
                                        dseq.subrange(0, k as int),
                                    ) * dseq[k as int],
                                    dims_product(dseq.subrange(0, k as int)) * dseq[k as int]
                                        > usize::MAX,
                            ;
                            lemma_dims_product_prefix_le(dseq, k + 1);
                        }
                        return Err(ErrorKind::TableTooLarge);
                    },
                };
                k = k + 1;
            }
            proof {
                assert(dseq.subrange(0, ndims as int) =~= dseq);
            }
            acc
        };
        // Fresh cells, all uninitialized.
        let mut cells: Vec<Value> = Vec::new();
        let mut c: usize = 0;
        while c < length
            invariant
                c <= length,
                cells@.len() == c,
                self.wf(),
                self.tables@ == old(self).tables@,
                self.table_id == old(self).table_id,
                forall|m: int| 0 <= m < c ==> (#[trigger] cells@[m])@ is Uninit,
                forall|m: int| 0 <= m < c ==> (#[trigger] cells@[m]).wf(),
            decreases length - c,
        {
            cells.push(Value::uninitialized());
            c = c + 1;
        }
        let table = Table {
            dimensions: crate::value::copy_usize_vec(dimensions),
            data: cells,
            is_marked: false,
        };
        // A fresh handle: the running counter where it is free, otherwise the
        // smallest unused handle, which exists while the heap stays below the
        // sentinel.
        let id: usize = match self.fresh_handle() {
            Ok(id) => id,
            Err(k) => {
                return Err(k);
            },
        };
        self.table_id = id + 1;
        let ghost pre = self.tables@;
        self.tables.push((id, table));
        proof {
            assert(self.tables@.drop_last() =~= pre);
            lemma_heap_map_contains(pre, id as int);
            assert(distinct_handles(self.tables@)) by {
                assert(forall|j: int| 0 <= j < pre.len() ==> (#[trigger] self.tables@[j]) == pre[j]);
            }
            assert(self.heap() =~= heap_map(pre).insert(id as int, table@));
        }
        let ghost after_push = self.tables@;
        let ghost after_id = self.table_id;
        let mut offset: Vec<usize> = Vec::new();
        let mut z: usize = 0;
        while z < ndims
            invariant
                z <= ndims,
                offset@.len() == z,
                self.tables@ == after_push,
                self.table_id == after_id,
                forall|m: int| 0 <= m < z ==> (#[trigger] offset@[m]) == 0,
            decreases ndims - z,
        {
            offset.push(0);
            z = z + 1;
        }
        proof {
            assert(offset@ =~= zero_offsets(dimensions@.len() as int));
        }
        Ok(
            Value {
                value_type: ValueType::Table,
                string_value: None,
                number_value: 0,
                table_index: id,
                slice_offset: Some(offset),
            },
        )
    }
}

/// The heap handle a value holds, for values of table kind.
pub open spec fn value_handle(v: Value) -> Option<int> {
    match v@ {
        ValueModel::Tbl { handle, offset } => Some(handle),
        _ => None,
    }
}

/// Whether a handle is held by some binding of some frame: the collector's
/// root set.
pub open spec fn is_root(envs: Seq<Environment>, h: int) -> bool {
    exists|i: int, j: int|
        0 <= i < envs.len() && 0 <= j < envs[i].variables@.len() && value_handle(
            #[trigger] envs[i].variables@[j].1,
        ) == Some(h)
}

/// Whether marks are closed under the cell edges: every live table handle
/// inside a marked table's cells is marked too.
pub open spec fn marked_closed(heap: Map<int, TableModel>) -> bool {
    forall|k: int, c: int|
        heap.contains_key(k) && heap[k].marked && 0 <= c < heap[k].cells.len() ==> match value_handle(
            #[trigger] heap[k].cells[c],
        ) {
            Some(h2) => heap.contains_key(h2) ==> heap[h2].marked,
            None => true,
        }
}

/// Whether a handle is reachable from the frames' bindings in at most n
/// steps through live table cells.
pub open spec fn reach_n(
    heap: Map<int, TableModel>,
    envs: Seq<Environment>,
    k: int,
    n: nat,
) -> bool
    decreases n,
{
    if is_root(envs, k) {
        true
    } else if n == 0 {
        false
    } else {
        exists|h2: int, c: int|
            reach_n(heap, envs, h2, (n - 1) as nat) && heap.contains_key(h2) && 0 <= c
                < heap.index(h2).cells.len() && value_handle(#[trigger] heap[h2].cells[c])
                == Some(k)
    }
}

/// Whether a handle is reachable from the frames' bindings, transitively
/// through live table cells.
pub open spec fn reachable(heap: Map<int, TableModel>, envs: Seq<Environment>, k: int) -> bool {
    exists|n: nat| reach_n(heap, envs, k, n)
}

/// A reachable surviving handle is reachable within the collected heap:
/// every node on its path survives too.
pub proof fn lemma_reach_in_survivors(
    pre: Map<int, TableModel>,
    post: Map<int, TableModel>,
    envs: Seq<Environment>,
    k: int,
    n: nat,
)
    requires
        forall|k2: int|
            post.contains_key(k2) <==> (pre.contains_key(k2) && reachable(pre, envs, k2)),
        forall|k2: int|
            post.contains_key(k2) ==> (#[trigger] post[k2]).cells == pre[k2].cells,
        reach_n(pre, envs, k, n),
        post.contains_key(k),
    ensures
        reach_n(post, envs, k, n),
    decreases n,
{
    if is_root(envs, k) {
    } else {
        let (h2, c) = choose|h2: int, c: int|
            reach_n(pre, envs, h2, (n - 1) as nat) && pre.contains_key(h2) && 0 <= c
                < pre.index(h2).cells.len() && value_handle(#[trigger] pre[h2].cells[c]) == Some(
                k,
            );
        assert(reachable(pre, envs, h2)) by {
            assert(reach_n(pre, envs, h2, (n - 1) as nat));
        }
        assert(post.contains_key(h2));
        lemma_reach_in_survivors(pre, post, envs, h2, (n - 1) as nat);
        assert(post[h2].cells == pre[h2].cells);
        assert(value_handle(post[h2].cells[c]) == Some(k));
    }
}

/// Under the mark phase's guarantees, every reachable present handle is
/// marked.
pub proof fn lemma_reachable_marked(
    pre: Map<int, TableModel>,
    mid: Map<int, TableModel>,
    envs: Seq<Environment>,
    k: int,
    n: nat,
)
    requires
        mid.dom() =~= pre.dom(),
        forall|k2: int|
            pre.contains_key(k2) ==> (#[trigger] mid[k2]).dims == pre[k2].dims && mid[k2].cells
                == pre[k2].cells,
        forall|h: int|
            is_root(envs, h) && pre.contains_key(h) ==> (#[trigger] mid[h]).marked,
        marked_closed(mid),
        reach_n(pre, envs, k, n),
        pre.contains_key(k),
    ensures
        mid[k].marked,
    decreases n,
{
    if is_root(envs, k) {
    } else {
        let (h2, c) = choose|h2: int, c: int|
            reach_n(pre, envs, h2, (n - 1) as nat) && pre.contains_key(h2) && 0 <= c
                < pre.index(h2).cells.len() && value_handle(#[trigger] pre[h2].cells[c])
                == Some(k);
        lemma_reachable_marked(pre, mid, envs, h2, (n - 1) as nat);
        assert(mid[h2].cells[c] == pre[h2].cells[c]);
        assert(mid.contains_key(h2) && mid[h2].marked);
        assert(mid.contains_key(k));
    }
}

/// Whether a worklist holds a handle.
pub open spec fn wl_has(wl: Seq<usize>, h: int) -> bool {
    exists|m: int| 0 <= m < wl.len() && (#[trigger] wl[m]) as int == h
}

/// How many heap entries are still unmarked; the mark loop's termination
/// measure.
pub open spec fn count_unmarked(s: Seq<(usize, Table)>) -> int
    decreases s.len(),
{
    if s.len() == 0 {
        0
    } else {
        count_unmarked(s.drop_last()) + if s.last().1.is_marked {
            0int
        } else {
            1int
        }
    }
}

proof fn lemma_count_unmarked_nonneg(s: Seq<(usize, Table)>)
    ensures
        count_unmarked(s) >= 0,
    decreases s.len(),
{
    if s.len() > 0 {
        lemma_count_unmarked_nonneg(s.drop_last());
    }
}

proof fn lemma_count_unmarked_update(s: Seq<(usize, Table)>, i: int, entry: (usize, Table))
    requires
        0 <= i < s.len(),
        !s[i].1.is_marked,
        entry.1.is_marked,
    ensures
        count_unmarked(s.update(i, entry)) == count_unmarked(s) - 1,
    decreases s.len(),
{
    let t = s.update(i, entry);
    if i == s.len() - 1 {
        assert(t.drop_last() =~= s.drop_last());
        assert(t.last() == entry);
        assert(s.last() == s[i]);
    } else {
        assert(t.drop_last() =~= s.drop_last().update(i, entry));
        assert(s.drop_last()[i] == s[i]);
        lemma_count_unmarked_update(s.drop_last(), i, entry);
        assert(t.last() == s.last());
    }
}

impl TableManager {
    /// The mark phase: clears every mark, then marks everything reachable
    /// from the environments' bindings through table cells.
    pub fn mark(&mut self, environments: &Vec<Environment>)
        requires
            old(self).wf(),
        ensures
            final(self).wf(),
            final(self).table_id == old(self).table_id,
            final(self).heap().dom() =~= old(self).heap().dom(),
            forall|k: int|
                old(self).heap().contains_key(k) ==> (#[trigger] final(self).heap()[k]).dims == old(self).heap()[k].dims && final(self).heap()[k].cells == old(self).heap()[k].cells,
            forall|h: int|
                is_root(environments@, h) && old(self).heap().contains_key(h) ==> (#[trigger] final(self).heap()[h]).marked,
            marked_closed(final(self).heap()),
            forall|k: int|
                final(self).heap().contains_key(k) && (#[trigger] final(self).heap()[k]).marked
                    ==> reachable(old(self).heap(), environments@, k),
    {
        let ghost orig = self.tables@;
        // Clear the marks.
        let n = self.tables.len();
        let mut i: usize = 0;
        while i < n
            invariant
                i <= n,
                n == self.tables@.len(),
                self.tables@.len() == orig.len(),
                self.table_id == old(self).table_id,
                forall|j: int|
                    0 <= j < orig.len() ==> (#[trigger] self.tables@[j]).0 == orig[j].0
                        && self.tables@[j].1.dimensions@ == orig[j].1.dimensions@
                        && self.tables@[j].1.data@ == orig[j].1.data@,
                forall|j: int| 0 <= j < i ==> !(#[trigger] self.tables@[j]).1.is_marked,
                self.wf(),
            decreases n - i,
        {
            let entry = &mut self.tables[i];
            entry.1.is_marked = false;
            i = i + 1;
        }
        // Seed the worklist with the root handles.
        let mut worklist: Vec<usize> = Vec::new();
        let en = environments.len();
        let mut ei: usize = 0;
        while ei < en
            invariant
                ei <= en,
                en == environments@.len(),
                forall|a: int, b: int|
                    0 <= a < ei && 0 <= b < environments@[a].variables@.len() && value_handle(
                        #[trigger] environments@[a].variables@[b].1,
                    ) is Some ==> wl_has(
                        worklist@,
                        value_handle(environments@[a].variables@[b].1)->0,
                    ),
                forall|m: int|
                    0 <= m < worklist@.len() ==> reachable(
                        old(self).heap(),
                        environments@,
                        (#[trigger] worklist@[m]) as int,
                    ),
            decreases en - ei,
        {
            let vars = &environments[ei].variables;
            let vn = vars.len();
            let mut vj: usize = 0;
            while vj < vn
                invariant
                    vj <= vn,
                    ei < en,
                    en == environments@.len(),
                    vn == environments@[ei as int].variables@.len(),
                    vars == &environments@[ei as int].variables,
                    forall|a: int, b: int|
                        0 <= a < ei && 0 <= b < environments@[a].variables@.len() && value_handle(
                            #[trigger] environments@[a].variables@[b].1,
                        ) is Some ==> wl_has(
                            worklist@,
                            value_handle(environments@[a].variables@[b].1)->0,
                        ),
                    forall|b: int|
                        0 <= b < vj && value_handle(
                            #[trigger] environments@[ei as int].variables@[b].1,
                        ) is Some ==> wl_has(
                            worklist@,
                            value_handle(environments@[ei as int].variables@[b].1)->0,
                        ),
                    forall|m: int|
                        0 <= m < worklist@.len() ==> reachable(
                            old(self).heap(),
                            environments@,
                            (#[trigger] worklist@[m]) as int,
                        ),
                decreases vn - vj,
            {
                let ghost prior_wl = worklist@;
                let value = &vars[vj].1;
                if !value.is_uninitialized() && matches!(value.value_type, ValueType::Table) {
                    worklist.push(value.table_index);
                    proof {
                        assert(worklist@[worklist@.len() - 1] == value.table_index);
                        assert(is_root(environments@, value.table_index as int)) by {
                            assert(value_handle(environments@[ei as int].variables@[vj as int].1)
                                == Some(value.table_index as int));
                        }
                        assert(reach_n(
                            old(self).heap(),
                            environments@,
                            value.table_index as int,
                            0,
                        ));
                        assert forall|h: int|
                            wl_has(prior_wl, h) implies #[trigger] wl_has(worklist@, h) by {
                            let m = choose|m: int|
                                0 <= m < prior_wl.len() && (#[trigger] prior_wl[m]) as int == h;
                            assert(worklist@[m] as int == h);
                        }
                    }
                }
                vj = vj + 1;
            }
            ei = ei + 1;
        }
        let ghost base = self.tables@;
        proof {
            assert(forall|h: int|
                is_root(environments@, h) ==> #[trigger] wl_has(worklist@, h));
            assert(forall|j: int|
                0 <= j < base.len() ==> !(#[trigger] base[j]).1.is_marked);
            assert(forall|k: int|
                self.heap().contains_key(k) ==> !(#[trigger] self.heap()[k]).marked) by {
                assert(forall|k: int|
                    heap_map(base).contains_key(k) ==> exists|j: int|
                        0 <= j < base.len() && (#[trigger] base[j]).0 as int == k) by {
                    assert forall|k: int| heap_map(base).contains_key(k) implies exists|j: int|
                        0 <= j < base.len() && (#[trigger] base[j]).0 as int == k by {
                        lemma_heap_map_contains(base, k);
                    }
                }
                assert forall|k: int| self.heap().contains_key(k) implies !(
                #[trigger] self.heap()[k]).marked by {
                    let j = choose|j: int|
                        0 <= j < base.len() && (#[trigger] base[j]).0 as int == k;
                    lemma_heap_map_get(base, j);
                }
            }
            assert(marked_closed(self.heap()));
        }
        // Process the grey set.
        loop
            invariant
                self.wf(),
                self.table_id == old(self).table_id,
                self.tables@.len() == orig.len(),
                forall|j: int|
                    0 <= j < orig.len() ==> (#[trigger] self.tables@[j]).0 == orig[j].0
                        && self.tables@[j].1.dimensions@ == orig[j].1.dimensions@
                        && self.tables@[j].1.data@ == orig[j].1.data@,
                forall|h: int|
                    is_root(environments@, h) && self.heap().contains_key(h) ==> (
                #[trigger] self.heap()[h]).marked || wl_has(worklist@, h),
                forall|k: int, c: int|
                    self.heap().contains_key(k) && self.heap()[k].marked && 0 <= c
                        < self.heap()[k].cells.len() ==> match value_handle(
                        #[trigger] self.heap()[k].cells[c],
                    ) {
                        Some(h2) => self.heap().contains_key(h2) ==> self.heap()[h2].marked
                            || wl_has(worklist@, h2),
                        None => true,
                    },
                forall|m: int|
                    0 <= m < worklist@.len() ==> reachable(
                        old(self).heap(),
                        environments@,
                        (#[trigger] worklist@[m]) as int,
                    ),
                forall|k: int|
                    self.heap().contains_key(k) && (#[trigger] self.heap()[k]).marked
                        ==> reachable(old(self).heap(), environments@, k),
                orig == old(self).tables@,
                distinct_handles(orig),
            ensures
                worklist@.len() == 0,
            decreases count_unmarked(self.tables@), worklist@.len(),
        {
            proof {
                lemma_count_unmarked_nonneg(self.tables@);
            }
            let ghost prior_wl = worklist@;
            let h = match worklist.pop() {
                Some(h) => h,
                None => {
                    break ;
                },
            };
            proof {
                assert(prior_wl[prior_wl.len() - 1] == h);
                assert(reachable(old(self).heap(), environments@, h as int)) by {
                    assert(prior_wl[prior_wl.len() - 1] == h);
                }
                assert(forall|x: int|
                    wl_has(prior_wl, x) && x != h as int ==> #[trigger] wl_has(worklist@, x)) by {
                    assert forall|x: int|
                        wl_has(prior_wl, x) && x != h as int implies #[trigger] wl_has(
                        worklist@,
                        x,
                    ) by {
                        let m = choose|m: int|
                            0 <= m < prior_wl.len() && (#[trigger] prior_wl[m]) as int == x;
                        assert(m < prior_wl.len() - 1);
                        assert(worklist@[m] as int == x);
                    }
                }
            }
            let i = match self.find_entry(h) {
                Some(i) => i,
                None => {
                    continue ;
                },
            };
            if self.tables[i].1.is_marked {
                continue ;
            }
            let ghost pre = self.tables@;
            let entry = &mut self.tables[i];
            entry.1.is_marked = true;
            let ghost post_entry = *entry;
            proof {
                assert(self.tables@ == pre.update(i as int, post_entry));
                lemma_heap_map_update(pre, i as int, post_entry);
                lemma_heap_map_get(pre, i as int);
                lemma_count_unmarked_update(pre, i as int, post_entry);
            }
            let ghost snap = self.tables@;
            // Enqueue every live table handle inside the cells.
            let cn = self.tables[i].1.data.len();
            let mut cj: usize = 0;
            while cj < cn
                invariant
                    cj <= cn,
                    i < self.tables@.len(),
                    self.wf(),
                    self.tables@ == snap,
                    self.table_id == old(self).table_id,
                    self.tables@.len() == orig.len(),
                    cn == self.tables@[i as int].1.data@.len(),
                    self.tables@[i as int].0 == h,
                    self.tables@[i as int].1.is_marked,
                    self.heap().contains_key(h as int),
                    self.heap()[h as int] == self.tables@[i as int].1@,
                    forall|j: int|
                        0 <= j < orig.len() ==> (#[trigger] self.tables@[j]).0 == orig[j].0
                            && self.tables@[j].1.dimensions@ == orig[j].1.dimensions@
                            && self.tables@[j].1.data@ == orig[j].1.data@,
                    forall|x: int|
                        is_root(environments@, x) && self.heap().contains_key(x) ==> (
                    #[trigger] self.heap()[x]).marked || wl_has(worklist@, x),
                    forall|k: int, c: int|
                        self.heap().contains_key(k) && self.heap()[k].marked && k != h as int && 0
                            <= c < self.heap()[k].cells.len() ==> match value_handle(
                            #[trigger] self.heap()[k].cells[c],
                        ) {
                            Some(h2) => self.heap().contains_key(h2) ==> self.heap()[h2].marked
                                || wl_has(worklist@, h2),
                            None => true,
                        },
                    forall|c: int|
                        0 <= c < cj ==> match value_handle(
                            #[trigger] self.tables@[i as int].1.data@[c],
                        ) {
                            Some(h2) => self.heap().contains_key(h2) ==> self.heap()[h2].marked
                                || wl_has(worklist@, h2),
                            None => true,
                        },
                    reachable(old(self).heap(), environments@, h as int),
                    forall|m: int|
                        0 <= m < worklist@.len() ==> reachable(
                            old(self).heap(),
                            environments@,
                            (#[trigger] worklist@[m]) as int,
                        ),
                    forall|k: int|
                        self.heap().contains_key(k) && (#[trigger] self.heap()[k]).marked
                            ==> reachable(old(self).heap(), environments@, k),
                    orig == old(self).tables@,
                    distinct_handles(orig),
                decreases cn - cj,
            {
                let ghost prior_inner = worklist@;
                let cell_is_table = {
                    let cell = &self.tables[i].1.data[cj];
                    !cell.is_uninitialized() && matches!(cell.value_type, ValueType::Table)
                };
                if cell_is_table {
                    let idx = self.tables[i].1.data[cj].table_index;
                    worklist.push(idx);
                    proof {
                        assert(worklist@[worklist@.len() - 1] == idx);
                        assert forall|x: int|
                            wl_has(prior_inner, x) implies #[trigger] wl_has(worklist@, x) by {
                            let m = choose|m: int|
                                0 <= m < prior_inner.len() && (#[trigger] prior_inner[m]) as int
                                    == x;
                            assert(worklist@[m] as int == x);
                        }
                        assert(reachable(old(self).heap(), environments@, idx as int)) by {
                            let n0 = choose|n: nat|
                                reach_n(old(self).heap(), environments@, h as int, n);
                            assert(reach_n(old(self).heap(), environments@, h as int, n0));
                            lemma_heap_map_get(orig, i as int);
                            assert(old(self).heap().contains_key(h as int));
                            assert(old(self).heap().index(h as int).cells
                                == self.tables@[i as int].1.data@);
                            assert(value_handle(
                                old(self).heap().index(h as int).cells[cj as int],
                            ) == Some(idx as int));
                            assert(reach_n(
                                old(self).heap(),
                                environments@,
                                idx as int,
                                (n0 + 1) as nat,
                            ));
                        }
                    }
                }
                cj = cj + 1;
            }
            proof {
                lemma_count_unmarked_nonneg(self.tables@);
            }
        }
        proof {
            assert(self.heap().dom() =~= old(self).heap().dom()) by {
                assert forall|k: int|
                    self.heap().contains_key(k) == old(self).heap().contains_key(k) by {
                    lemma_heap_map_contains(self.tables@, k);
                    lemma_heap_map_contains(orig, k);
                    if self.heap().contains_key(k) {
                        let i = choose|i: int|
                            0 <= i < self.tables@.len() && (#[trigger] self.tables@[i]).0 as int
                                == k;
                        assert(orig[i].0 as int == k);
                    }
                    if old(self).heap().contains_key(k) {
                        let i = choose|i: int|
                            0 <= i < orig.len() && (#[trigger] orig[i]).0 as int == k;
                        assert(self.tables@[i].0 as int == k);
                    }
                }
            }
            assert forall|k: int| old(self).heap().contains_key(k) implies (
            #[trigger] self.heap()[k]).dims == old(self).heap()[k].dims && self.heap()[k].cells
                == old(self).heap()[k].cells by {
                lemma_heap_map_contains(orig, k);
                let j = choose|j: int| 0 <= j < orig.len() && (#[trigger] orig[j]).0 as int == k;
                lemma_heap_map_get(orig, j);
                lemma_heap_map_get(self.tables@, j);
            }
        }
    }

    /// The sweep phase: drops every unmarked table, keeping marked entries
    /// untouched.
    pub fn sweep(&mut self)
        requires
            old(self).wf(),
        ensures
            final(self).wf(),
            final(self).table_id == old(self).table_id,
            swept_heap(old(self).heap(), final(self).heap()),
    {
        let ghost orig = self.tables@;
        let n = self.tables.len();
        let mut drained: Vec<(usize, Table)> = Vec::new();
        core::mem::swap(&mut self.tables, &mut drained);
        let ghost total = orig.len();
        proof {
            assert(n == total);
            assert(drained@ =~= orig.subrange(0, total as int));
        }
        let mut p: usize = 0;
        while drained.len() > 0
            invariant
                p <= total,
                total <= usize::MAX,
                orig.len() == total,
                drained@ =~= orig.subrange(p as int, total as int),
                distinct_handles(orig),
                distinct_handles(self.tables@),
                forall|j: int|
                    0 <= j < orig.len() ==> (#[trigger] orig[j]).1.wf() && orig[j].0 < usize::MAX,
                forall|j: int|
                    0 <= j < self.tables@.len() ==> exists|m: int|
                        0 <= m < p && (#[trigger] self.tables@[j]) == orig[m],
                forall|k: int|
                    heap_map(self.tables@).contains_key(k) <==> exists|m: int|
                        0 <= m < p && (#[trigger] orig[m]).0 as int == k && orig[m].1.is_marked,
                forall|k: int|
                    heap_map(self.tables@).contains_key(k) ==> heap_map(self.tables@)[k]
                        == heap_map(orig)[k],
                self.table_id == old(self).table_id,
                self.wf(),
            decreases drained@.len(),
        {
            let entry = drained.remove(0);
            proof {
                assert(entry == orig[p as int]);
                assert(drained@ =~= orig.subrange(p + 1, total as int));
            }
            if entry.1.is_marked {
                let ghost kept = self.tables@;
                proof {
                    lemma_heap_map_contains(kept, entry.0 as int);
                    if heap_map(kept).contains_key(entry.0 as int) {
                        let j = choose|j: int|
                            0 <= j < kept.len() && (#[trigger] kept[j]).0 as int == entry.0 as int;
                        let m = choose|m: int| 0 <= m < p && (#[trigger] kept[j]) == orig[m];
                        assert(orig[m].0 == orig[p as int].0);
                        assert(false);
                    }
                    lemma_heap_map_get(orig, p as int);
                }
                self.tables.push(entry);
                proof {
                    assert(self.tables@.drop_last() =~= kept);
                    assert(distinct_handles(self.tables@)) by {
                        assert(forall|j: int|
                            0 <= j < kept.len() ==> (#[trigger] self.tables@[j]) == kept[j]);
                        assert(forall|j: int|
                            0 <= j < kept.len() ==> (#[trigger] kept[j]).0 != entry.0) by {
                            assert forall|j: int|
                                0 <= j < kept.len() implies (#[trigger] kept[j]).0 != entry.0 by {
                                lemma_heap_map_get(kept, j);
                            }
                        }
                    }
                    assert(heap_map(self.tables@) =~= heap_map(kept).insert(
                        entry.0 as int,
                        entry.1@,
                    ));
                    assert(forall|j: int|
                        0 <= j < kept.len() ==> (#[trigger] self.tables@[j]) == kept[j]);
                }
                proof {
                    let now = self.tables@;
                    assert(now[now.len() - 1] == entry);
                    assert forall|k: int| heap_map(now).contains_key(k) implies exists|m: int|
                        0 <= m < p + 1 && (#[trigger] orig[m]).0 as int == k
                            && orig[m].1.is_marked by {
                        if k == entry.0 as int {
                            assert(orig[p as int].0 as int == k && orig[p as int].1.is_marked);
                        } else {
                            assert(heap_map(kept).contains_key(k));
                        }
                    }
                    assert forall|k: int|
                        (exists|m: int|
                            0 <= m < p + 1 && (#[trigger] orig[m]).0 as int == k
                                && orig[m].1.is_marked) implies heap_map(now).contains_key(k)
                            && heap_map(now)[k] == heap_map(orig)[k] by {
                        let m = choose|m: int|
                            0 <= m < p + 1 && (#[trigger] orig[m]).0 as int == k
                                && orig[m].1.is_marked;
                        if m == p {
                            assert(k == entry.0 as int);
                            assert(heap_map(now)[k] == entry.1@);
                        } else {
                            assert(heap_map(kept).contains_key(k));
                            assert(k != entry.0 as int) by {
                                if k == entry.0 as int {
                                    assert(orig[m].0 == orig[p as int].0);
                                }
                            }
                        }
                    }
                }
            } else {
                proof {
                    let now = self.tables@;
                    assert forall|k: int| heap_map(now).contains_key(k) implies exists|m: int|
                        0 <= m < p + 1 && (#[trigger] orig[m]).0 as int == k
                            && orig[m].1.is_marked by {
                        let m = choose|m: int|
                            0 <= m < p && (#[trigger] orig[m]).0 as int == k
                                && orig[m].1.is_marked;
                        assert(0 <= m < p + 1);
                    }
                    assert forall|k: int|
                        (exists|m: int|
                            0 <= m < p + 1 && (#[trigger] orig[m]).0 as int == k
                                && orig[m].1.is_marked) implies heap_map(now).contains_key(k) by {
                        let m = choose|m: int|
                            0 <= m < p + 1 && (#[trigger] orig[m]).0 as int == k
                                && orig[m].1.is_marked;
                        assert(m != p) by {
                            if m == p {
                                assert(orig[p as int].1.is_marked);
                            }
                        }
                    }
                }
            }
            p = p + 1;
        }
        proof {
            assert(p == total);
            assert forall|k: int|
                #[trigger] self.heap().contains_key(k) <== (old(self).heap().contains_key(k) && old(
                    self,
                ).heap()[k].marked) by {
                if old(self).heap().contains_key(k) && old(self).heap()[k].marked {
                    lemma_heap_map_contains(orig, k);
                    let m = choose|m: int|
                        0 <= m < orig.len() && (#[trigger] orig[m]).0 as int == k;
                    lemma_heap_map_get(orig, m);
                    assert(heap_map(self.tables@).contains_key(k));
                }
            }
            assert forall|k: int|
                #[trigger] self.heap().contains_key(k) implies (old(self).heap().contains_key(k)
                    && old(self).heap()[k].marked) by {
                let m = choose|m: int|
                    0 <= m < p && (#[trigger] orig[m]).0 as int == k && orig[m].1.is_marked;
                lemma_heap_map_get(orig, m);
                assert(old(self).heap().contains_key(k) && old(self).heap()[k].marked);
            }
            assert forall|k: int|
                self.heap().contains_key(k) implies (#[trigger] self.heap()[k]) == old(
                self,
            ).heap()[k] by {
                assert(heap_map(self.tables@)[k] == heap_map(orig)[k]);
            }
            assert(swept_heap(old(self).heap(), self.heap()));
        }
    }
}

/// What the sweep phase leaves behind: exactly the marked entries, untouched.
pub open spec fn swept_heap(pre: Map<int, TableModel>, post: Map<int, TableModel>) -> bool {
    &&& forall|k: int|
        (#[trigger] post.contains_key(k)) <==> (pre.contains_key(k) && pre[k].marked)
    &&& forall|k: int|
        (#[trigger] pre.contains_key(k)) && pre[k].marked ==> post.contains_key(k)
    &&& forall|k: int| #[trigger] post.contains_key(k) ==> post[k] == pre[k]
}

/// What survives a sweep: a present entry was present and marked before, and
/// is unchanged.
pub proof fn lemma_swept_facts(
    pre: Map<int, TableModel>,
    post: Map<int, TableModel>,
    k: int,
)
    requires
        swept_heap(pre, post),
        post.contains_key(k),
    ensures
        pre.contains_key(k),
        pre[k].marked,
        post[k] == pre[k],
{
    assert(post.contains_key(k) <==> (pre.contains_key(k) && pre[k].marked));
    assert(post.contains_key(k) ==> post[k] == pre[k]);
}

/// What a sweep keeps: every marked entry survives unchanged.
pub proof fn lemma_swept_keeps(
    pre: Map<int, TableModel>,
    post: Map<int, TableModel>,
    k: int,
)
    requires
        swept_heap(pre, post),
        pre.contains_key(k),
        pre[k].marked,
    ensures
        post.contains_key(k),
        post[k] == pre[k],
{
}

/// Reading a cell right after writing it through the same view and the same
/// indices yields the value written.
pub proof fn lemma_get_after_put(
    heap: Map<int, TableModel>,
    tv: Value,
    idx: Seq<usize>,
    value: Value,
)
    requires
        access_error(heap, tv, idx) is None,
        tv@ is Tbl,
        heap[tv@->Tbl_handle].cells.len() == dims_product(heap[tv@->Tbl_handle].dims),
    ensures
        access_error(heap_after_put(heap, tv, idx, value), tv, idx) is None,
        cell_at(heap_after_put(heap, tv, idx, value), tv, idx) == value,
{
    let h = tv@->Tbl_handle;
    let off = tv@->Tbl_offset;
    let dims = heap[h].dims;
    let pos = shifted(off, idx);
    lemma_flat_prefix_bound(dims, pos, dims.len() as int);
    assert(dims.subrange(0, dims.len() as int) =~= dims);
    let heap2 = heap_after_put(heap, tv, idx, value);
    assert(heap2[h].dims == dims);
    assert(heap2[h].cells == heap[h].cells.update(flat_index(dims, pos), value));
}

/// Reading through a shifted view is reading the base view at the indices
/// with the shift added.
pub proof fn lemma_slice_get(heap: Map<int, TableModel>, tv: Value, sv: Value, extra: Seq<usize>, idx: Seq<usize>)
    requires
        tv@ is Tbl,
        sv@ is Tbl,
        sv@->Tbl_handle == tv@->Tbl_handle,
        sv@->Tbl_offset.len() == tv@->Tbl_offset.len(),
        idx.len() == tv@->Tbl_offset.len(),
        extra.len() == tv@->Tbl_offset.len(),
        forall|i: int|
            0 <= i < idx.len() ==> (#[trigger] sv@->Tbl_offset[i]) as int == tv@->Tbl_offset[i]
                + extra[i],
        forall|i: int|
            0 <= i < idx.len() ==> (#[trigger] extra[i]) + idx[i] <= usize::MAX,
    ensures
        shifted(sv@->Tbl_offset, idx) =~= shifted(
            tv@->Tbl_offset,
            Seq::new(idx.len() as nat, |i: int| (extra[i] + idx[i]) as usize),
        ),
        access_error(heap, sv, idx) == access_error(
            heap,
            tv,
            Seq::new(idx.len() as nat, |i: int| (extra[i] + idx[i]) as usize),
        ),
        access_error(heap, sv, idx) is None ==> cell_at(heap, sv, idx) == cell_at(
            heap,
            tv,
            Seq::new(idx.len() as nat, |i: int| (extra[i] + idx[i]) as usize),
        ),
{
    let sum = Seq::new(idx.len() as nat, |i: int| (extra[i] + idx[i]) as usize);
    assert(shifted(sv@->Tbl_offset, idx) =~= shifted(tv@->Tbl_offset, sum));
}

} // verus!
