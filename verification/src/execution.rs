//! Execution vocabulary of the backtest: the side of a trade, how a
//! triggered stop fills, and delisting detection from runs of missing prices.

use vstd::prelude::*;
use crate::panel::Panel;

verus! {

/// Direction of a trade: `Long` when the entry weight was positive, `Short`
/// when negative.
#[derive(Debug, Clone, Copy, PartialEq, Eq, Structural)]
pub enum TradeSide {
    Long,
    Short,
}

/// How a triggered stop fills. `Touched` (the default) fills at the stop
/// level when the day's range straddled it, or at the open when the day
/// gapped through it; `Close` fills at the day's close.
#[derive(Debug, Clone, Copy, PartialEq, Eq, Structural)]
pub enum StopFill {
    Touched,
    Close,
}

impl Default for StopFill {
    fn default() -> (r: Self)
        ensures
            r == StopFill::Touched,
    {
        StopFill::Touched
    }
}

/// Bits of an `f64` NaN: every exponent bit set and a nonzero fraction.
pub open spec fn is_nan_bits(x: u64) -> bool {
    (x >> 52u64) & 0x7FFu64 == 0x7FFu64 && x & 0x000F_FFFF_FFFF_FFFFu64 != 0
}

/// Length of the run of NaN prices in column `c` that ends at row `r`
/// (0 when the price on row `r` is present).
pub open spec fn nan_run(px: &Panel, r: int, c: int) -> nat
    decreases r + 1,
{
    if r < 0 {
        0
    } else if is_nan_bits(px.at(r, c)) {
        nan_run(px, r - 1, c) + 1
    } else {
        0
    }
}

proof fn lemma_nan_run_bound(px: &Panel, r: int, c: int)
    ensures
        nan_run(px, r, c) <= if r < 0 { 0 } else { r + 1 },
    decreases r + 1,
{
    if r >= 0 {
        lemma_nan_run_bound(px, r - 1, c);
    }
}

/// The two dates x symbols masks of a delisting scan over `px` with
/// threshold `k`: `dead[r][c]` holds from the row where the run of missing
/// prices reaches `k` until prices resume; `confirm[r][c]` holds on exactly
/// the row where it reaches `k` (the forced-exit day).
pub open spec fn delist_masks(px: &Panel, k: nat, dead: Seq<Vec<bool>>, confirm: Seq<Vec<bool>>) -> bool {
    &&& dead.len() == px.dates@.len()
    &&& confirm.len() == px.dates@.len()
    &&& forall|r: int|
        0 <= r < dead.len() ==> #[trigger] dead[r]@.len() == px.symbols@.len()
            && confirm[r]@.len() == px.symbols@.len()
    &&& forall|r: int, c: int|
        0 <= r < dead.len() && 0 <= c < px.symbols@.len() ==> (#[trigger] dead[r]@[c] <==> nan_run(px, r, c)
            >= k)
    &&& forall|r: int, c: int|
        0 <= r < confirm.len() && 0 <= c < px.symbols@.len() ==> (#[trigger] confirm[r]@[c]
            <==> nan_run(px, r, c) == k)
}

fn is_nan_cell(x: u64) -> (b: bool)
    ensures
        b == is_nan_bits(x),
{
    (x >> 52u64) & 0x7FFu64 == 0x7FFu64 && x & 0x000F_FFFF_FFFF_FFFFu64 != 0
}

/// Delisting scan over the price panel: `None` when `delist_after` is 0,
/// else `Some((dead, confirm))`, row-major masks (one inner list per date)
/// as [`delist_masks`] states.
pub fn scan_delistings(px: &Panel, delist_after: usize) -> (r: Option<(Vec<Vec<bool>>, Vec<Vec<bool>>)>)
    requires
        px.wf(),
    ensures
        r is None <==> delist_after == 0,
        r matches Some((dead, confirm)) ==> delist_masks(px, delist_after as nat, dead@, confirm@),
{
    if delist_after == 0 {
        return None;
    }
    let nrows = px.nrows();
    let n = px.ncols();
    let mut runs: Vec<usize> = Vec::new();
    let mut c: usize = 0;
    while c < n
        invariant
            c <= n,
            runs@.len() == c,
            forall|j: int| 0 <= j < c ==> #[trigger] runs@[j] == 0,
        decreases n - c,
    {
        runs.push(0);
        c = c + 1;
    }
    let mut dead: Vec<Vec<bool>> = Vec::new();
    let mut confirm: Vec<Vec<bool>> = Vec::new();
    let mut r: usize = 0;
    while r < nrows
        invariant
            px.wf(),
            nrows == px.dates@.len(),
            n == px.symbols@.len(),
            delist_after > 0,
            r <= nrows,
            runs@.len() == n,
            forall|j: int| 0 <= j < n ==> #[trigger] runs@[j] == nan_run(px, r - 1, j),
            dead@.len() == r,
            confirm@.len() == r,
            forall|i: int|
                0 <= i < r ==> #[trigger] dead@[i]@.len() == n && confirm@[i]@.len() == n,
            forall|i: int, j: int|
                0 <= i < r && 0 <= j < n ==> (#[trigger] dead@[i]@[j] <==> nan_run(px, i, j)
                    >= delist_after),
            forall|i: int, j: int|
                0 <= i < r && 0 <= j < n ==> (#[trigger] confirm@[i]@[j] <==> nan_run(px, i, j)
                    == delist_after),
        decreases nrows - r,
    {
        let mut row_dead: Vec<bool> = Vec::new();
        let mut row_confirm: Vec<bool> = Vec::new();
        let mut c: usize = 0;
        while c < n
            invariant
                px.wf(),
                nrows == px.dates@.len(),
                n == px.symbols@.len(),
                r < nrows,
                c <= n,
                runs@.len() == n,
                forall|j: int| 0 <= j < c ==> #[trigger] runs@[j] == nan_run(px, r as int, j),
                forall|j: int| c <= j < n ==> #[trigger] runs@[j] == nan_run(px, r - 1, j),
                row_dead@.len() == c,
                row_confirm@.len() == c,
                forall|j: int|
                    0 <= j < c ==> (#[trigger] row_dead@[j] <==> nan_run(px, r as int, j)
                        >= delist_after),
                forall|j: int|
                    0 <= j < c ==> (#[trigger] row_confirm@[j] <==> nan_run(px, r as int, j)
                        == delist_after),
            decreases n - c,
        {
            let bits = px.cell(r, c);
            let run: usize = if is_nan_cell(bits) {
                proof {
                    lemma_nan_run_bound(px, r - 1, c as int);
                }
                runs[c] + 1
            } else {
                0
            };
            runs.set(c, run);
            row_dead.push(run >= delist_after);
            row_confirm.push(run == delist_after);
            c = c + 1;
        }
        let ghost old_dead = dead@;
        let ghost old_confirm = confirm@;
        dead.push(row_dead);
        confirm.push(row_confirm);
        proof {
            assert forall|i: int| 0 <= i <= r implies #[trigger] dead@[i]@.len() == n
                && confirm@[i]@.len() == n by {
                if i < r {
                    assert(dead@[i] == old_dead[i]);
                    assert(confirm@[i] == old_confirm[i]);
                }
            }
            assert forall|i: int, j: int| 0 <= i <= r && 0 <= j < n implies (
            #[trigger] confirm@[i]@[j] <==> nan_run(px, i, j) == delist_after) by {
                if i < r {
                    assert(confirm@[i] == old_confirm[i]);
                }
            }
            assert forall|i: int, j: int| 0 <= i <= r && 0 <= j < n implies (
            #[trigger] dead@[i]@[j] <==> nan_run(px, i, j) >= delist_after) by {
                if i < r {
                    assert(dead@[i] == old_dead[i]);
                }
            }
        }
        r = r + 1;
    }
    proof {
        assert(dead@.len() == px.dates@.len() && confirm@.len() == px.dates@.len());
        assert(delist_masks(px, delist_after as nat, dead@, confirm@));
    }
    Some((dead, confirm))
}

/// A delisting is confirmed exactly on the first row of each dead run: the
/// row is dead and the row before it (if any) is not.
pub proof fn law_confirm_opens_dead_run(
    px: &Panel,
    k: nat,
    dead: Seq<Vec<bool>>,
    confirm: Seq<Vec<bool>>,
    r: int,
    c: int,
)
    requires
        k > 0,
        delist_masks(px, k, dead, confirm),
        0 <= r < px.dates@.len(),
        0 <= c < px.symbols@.len(),
    ensures
        confirm[r]@[c] <==> (dead[r]@[c] && (r == 0 || !dead[r - 1]@[c])),
{
    assert(dead[r]@[c] <==> nan_run(px, r, c) >= k);
    assert(confirm[r]@[c] <==> nan_run(px, r, c) == k);
    if r > 0 {
        assert(dead[r - 1]@[c] <==> nan_run(px, r - 1, c) >= k);
    }
    assert(nan_run(px, r, c) == if is_nan_bits(px.at(r, c)) { nan_run(px, r - 1, c) + 1 } else { 0 });
    assert(nan_run(px, -1, c) == 0);
}

} // verus!
