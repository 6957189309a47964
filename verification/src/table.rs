use vstd::prelude::*;

use crate::compare::eq_indicator;
use crate::field::SecretModp;
use crate::params::K_BITS;
use crate::rng::RandomSource;
use vstd::arithmetic::power2::pow2;
use vstd::pervasive::arbitrary;

verus! {

/// One column of a tabular row: a single scalar secret value, or a nested
/// fixed-length sequence of secret values, as the transport delivers them.
pub enum Column {
    Scalar(SecretModp),
    Array(Vec<SecretModp>),
}

/// The buffered input rows of one player: an explicit, passed-in store
/// scoped to a protocol run, in place of process-wide transport state.
/// End of stream is simply an exhausted store; a row that is present but
/// too short is a fatal, identically observed error, never a normal end.
pub struct PlayerRows {
    pub rows: Vec<Vec<Column>>,
}

/// The errors of the tabular reader, fatal for the reading player.
#[derive(Debug, PartialEq, Eq, Structural, Clone, Copy)]
pub enum TableError {
    /// The row holds fewer columns than the declared schema.
    ShortRow,
    /// A scalar column was expected but a nested sequence arrived.
    NestedColumn,
}

impl PlayerRows {
    /// The buffered rows, as sequences of columns.
    pub open spec fn view(&self) -> Seq<Seq<Column>> {
        self.rows@.map_values(|r: Vec<Column>| r@)
    }
}

/// The scalar carried by a column.
pub open spec fn col_scalar(c: Column) -> SecretModp {
    match c {
        Column::Scalar(s) => s,
        Column::Array(_) => arbitrary(),
    }
}

/// The scan of one row against the schema, column by column: the first
/// missing or nested column decides the error, exactly in reading order.
pub open spec fn row_verdict(row: Seq<Column>, j: int, num_cols: int) -> Result<(), TableError>
    decreases num_cols - j,
{
    if j >= num_cols {
        Ok(())
    } else if j >= row.len() {
        Err(TableError::ShortRow)
    } else if !(row[j] is Scalar) {
        Err(TableError::NestedColumn)
    } else {
        row_verdict(row, j + 1, num_cols)
    }
}

/// The first num_cols scalars of a row.
pub open spec fn row_scalars(row: Seq<Column>, num_cols: int) -> Seq<SecretModp> {
    Seq::new(num_cols as nat, |j: int| col_scalar(row[j]))
}

/// A row whose shape fits the schema: enough columns, scalars where the
/// schema declares scalars.
pub open spec fn row_wf(row: Seq<Column>, num_cols: int) -> bool {
    &&& row.len() >= num_cols
    &&& forall|j: int| 0 <= j < num_cols ==> (#[trigger] row[j]) is Scalar
}

/// Every buffered row of the store fits the schema.
pub open spec fn store_wf(rows: Seq<Seq<Column>>, num_cols: int) -> bool {
    forall|i: int| 0 <= i < rows.len() ==> row_wf(#[trigger] rows[i], num_cols)
}

/// Every scalar the schema can reach lies in the declared comparison
/// range: the bit-length capacity condition, fixed before execution.
pub open spec fn store_vals_ok(rows: Seq<Seq<Column>>, num_cols: int) -> bool {
    forall|i: int, j: int|
        0 <= i < rows.len() && 0 <= j < num_cols && j < rows[i].len() && (
        #[trigger] rows[i][j]) is Scalar ==> col_scalar(rows[i][j]).wf() && col_scalar(
            rows[i][j],
        )@ < pow2(K_BITS as nat)
}

/// The row's designated column carries the target value.
pub open spec fn row_matches(row: Seq<Column>, column: int, target: nat) -> bool {
    col_scalar(row[column])@ == target
}

/// The row a successful read or search hands back.
pub open spec fn ok_row(r: Result<Option<Vec<SecretModp>>, TableError>) -> Seq<SecretModp> {
    match r {
        Ok(Some(v)) => v@,
        _ => arbitrary(),
    }
}

/// A row of fitting shape passes the column scan.
pub proof fn lemma_row_wf_verdict(row: Seq<Column>, j: int, num_cols: int)
    requires
        row_wf(row, num_cols),
        0 <= j <= num_cols,
    ensures
        row_verdict(row, j, num_cols) is Ok,
    decreases num_cols - j,
{
    if j < num_cols {
        lemma_row_wf_verdict(row, j + 1, num_cols);
    }
}

/// A row that passes the column scan has scalars where the schema asks.
pub proof fn lemma_verdict_scalars(row: Seq<Column>, j: int, num_cols: int)
    requires
        row_verdict(row, j, num_cols) is Ok,
        0 <= j,
    ensures
        forall|t: int| j <= t < num_cols ==> (#[trigger] row[t]) is Scalar && t < row.len(),
    decreases num_cols - j,
{
    if j < num_cols {
        lemma_verdict_scalars(row, j + 1, num_cols);
    }
}

/// Read the next buffered row of a player as num_cols scalar columns.
/// An exhausted store is the normal end of the data set (Ok(None)); a row
/// that is present but shorter than the schema, or that nests a sequence
/// where a scalar is declared, is a fatal error, reported in reading
/// order. Extra columns beyond the schema are left unread, as the
/// transport discards the rest of a consumed row.
pub fn read_tabular(player: &mut PlayerRows, num_cols: usize) -> (r: Result<
    Option<Vec<SecretModp>>,
    TableError,
>)
    requires
        num_cols >= 1,
    ensures
        old(player).view().len() == 0 ==> r == Result::<Option<Vec<SecretModp>>, TableError>::Ok(
            Option::<Vec<SecretModp>>::None,
        ) && final(player).view() == old(player).view(),
        old(player).view().len() > 0 ==> {
            &&& final(player).view() == old(player).view().skip(1)
            &&& match row_verdict(old(player).view()[0], 0, num_cols as int) {
                Ok(_) => r is Ok && r->Ok_0 is Some && ok_row(r) == row_scalars(
                    old(player).view()[0],
                    num_cols as int,
                ),
                Err(e) => r == Result::<Option<Vec<SecretModp>>, TableError>::Err(e),
            }
        },
{
    if player.rows.len() == 0 {
        return Ok(None);
    }
    let ghost whole = player.view();
    let row = player.rows.remove(0);
    proof {
        assert(player.view() =~= whole.skip(1));
        assert(row@ == whole[0]);
    }
    let ghost rv = row@;
    let mut result: Vec<SecretModp> = Vec::new();
    let mut j: usize = 0;
    while j < num_cols
        invariant
            j <= num_cols,
            rv == row@,
            old(player).view().len() > 0,
            rv == old(player).view()[0],
            player.view() == old(player).view().skip(1),
            result@.len() == j,
            j <= rv.len(),
            forall|t: int| 0 <= t < j ==> (#[trigger] rv[t]) is Scalar,
            forall|t: int| 0 <= t < j ==> #[trigger] result@[t] == col_scalar(rv[t]),
            row_verdict(rv, 0, num_cols as int) == row_verdict(rv, j as int, num_cols as int),
        decreases num_cols - j,
    {
        if j >= row.len() {
            return Err(TableError::ShortRow);
        }
        let c = &row[j];
        proof {
            assert(*c == rv[j as int]);
        }
        match c {
            Column::Scalar(s) => {
                result.push(*s);
                proof {
                    assert(rv[j as int] is Scalar);
                    assert(col_scalar(rv[j as int]) == *s);
                    assert(result@[j as int] == *s);
                }
            },
            Column::Array(_) => {
                return Err(TableError::NestedColumn);
            },
        }
        j = j + 1;
    }
    proof {
        assert(result@ =~= row_scalars(rv, num_cols as int));
    }
    Ok(Some(result))
}

/// Read a player's rows one at a time until the designated column equals
/// the secret target. Per row only a single secret equality indicator is
/// computed and revealed - never the row, never the target - so the one
/// intentional leak is how many rows were scanned, which equals the number
/// of rows consumed from the store. A match returns that row's columns,
/// still secret and untouched; an exhausted store returns Ok(None); a
/// malformed row aborts with its error. The store's reachable scalars must
/// lie in the declared comparison range, the capacity condition settled
/// before execution.
pub fn find_tabular(
    player: &mut PlayerRows,
    column: usize,
    value: &SecretModp,
    num_cols: usize,
    rng: &mut RandomSource,
) -> (r: Result<Option<Vec<SecretModp>>, TableError>)
    requires
        1 <= num_cols,
        column < num_cols,
        value.wf(),
        value@ < pow2(K_BITS as nat),
        store_vals_ok(old(player).view(), num_cols as int),
    ensures
        (exists|j: int|
            {
                &&& 0 <= j < old(player).view().len()
                &&& row_matches(#[trigger] old(player).view()[j], column as int, value@)
                &&& row_verdict(old(player).view()[j], 0, num_cols as int) is Ok
                &&& forall|i: int|
                    0 <= i < j ==> !row_matches(
                        #[trigger] old(player).view()[i],
                        column as int,
                        value@,
                    ) && row_verdict(old(player).view()[i], 0, num_cols as int) is Ok
                &&& r is Ok && r->Ok_0 is Some && ok_row(r) == row_scalars(
                    old(player).view()[j],
                    num_cols as int,
                )
                &&& final(player).view() == old(player).view().skip(j + 1)
            }) || (r == Result::<Option<Vec<SecretModp>>, TableError>::Ok(
            Option::<Vec<SecretModp>>::None,
        ) && final(player).view().len() == 0 && (forall|i: int|
            0 <= i < old(player).view().len() ==> !row_matches(
                #[trigger] old(player).view()[i],
                column as int,
                value@,
            ) && row_verdict(old(player).view()[i], 0, num_cols as int) is Ok)) || (r is Err
            && !store_wf(old(player).view(), num_cols as int)),
{
    let ghost rows = old(player).view();
    let ghost target = value@;
    let total_rows = player.rows.len();
    let mut scanned: usize = 0;
    loop
        invariant
            0 <= scanned <= rows.len(),
            rows.len() == total_rows,
            rows == old(player).view(),
            player.view() == rows.skip(scanned as int),
            num_cols >= 1,
            column < num_cols,
            value.wf(),
            value@ == target,
            target < pow2(K_BITS as nat),
            store_vals_ok(rows, num_cols as int),
            forall|i: int|
                0 <= i < scanned ==> !row_matches(#[trigger] rows[i], column as int, target)
                    && row_verdict(rows[i], 0, num_cols as int) is Ok,
        decreases rows.len() - scanned,
    {
        proof {
            if rows.skip(scanned as int).len() > 0 {
                assert(rows.skip(scanned as int)[0] == rows[scanned as int]);
            }
        }
        let ghost before = player.view();
        let next = read_tabular(player, num_cols);
        match next {
            Err(e) => {
                proof {
                    assert(before.len() > 0);
                    assert(row_verdict(rows[scanned as int], 0, num_cols as int) is Err);
                    if store_wf(rows, num_cols as int) {
                        assert(row_wf(rows[scanned as int], num_cols as int));
                        lemma_row_wf_verdict(rows[scanned as int], 0, num_cols as int);
                    }
                }
                return Err(e);
            },
            Ok(None) => {
                proof {
                    assert(before.len() == 0);
                    assert(scanned == rows.len());
                }
                return Ok(None);
            },
            Ok(Some(cols)) => {
                proof {
                    assert(before.len() > 0);
                    assert(player.view() =~= rows.skip(scanned as int + 1));
                    assert(cols@ == row_scalars(rows[scanned as int], num_cols as int));
                    lemma_verdict_scalars(rows[scanned as int], 0, num_cols as int);
                    assert(cols@[column as int] == col_scalar(
                        rows[scanned as int][column as int],
                    ));
                    assert(rows[scanned as int][column as int] is Scalar);
                }
                let this_value = cols[column];
                let ind = eq_indicator(&this_value, value, rng);
                let found = ind.reveal_to_all();
                if found == 1 {
                    return Ok(Some(cols));
                }
                proof {
                    assert(scanned < rows.len());
                }
                scanned = scanned + 1;
            },
        }
    }
}

} // verus!
