use vstd::prelude::*;

verus! {

/// How many chunks a scan aims for; fewer where the history is short.
pub const CHUNK_AMOUNT: usize = 1000;

/// The fewest commits a chunk holds, but for the last one.
pub const MIN_CHUNK_SIZE: usize = 1000;

/// The fewest digits of a chunk entry's index in its name.
pub const MIN_NAME_DIGITS: usize = 3;

/// A contiguous run of the history, `start..end` in oldest-first order.
#[derive(Clone, Copy, Debug, PartialEq, Eq, Structural)]
pub struct ChunkRange {
    pub index: usize,
    pub start: usize,
    pub end: usize,
}

/// The number of commits per chunk for a history of `commits` commits.
pub fn chunk_size(commits: usize) -> (r: usize)
    ensures
        r == if commits / CHUNK_AMOUNT > MIN_CHUNK_SIZE {
            commits / CHUNK_AMOUNT
        } else {
            MIN_CHUNK_SIZE
        },
        r > 0,
{
    let per = commits / CHUNK_AMOUNT;
    if per > MIN_CHUNK_SIZE {
        per
    } else {
        MIN_CHUNK_SIZE
    }
}

/// Splits `commits` commits into runs of `size`, the last one possibly
/// shorter, in history order.
pub fn plan_chunks(commits: usize, size: usize) -> (r: Vec<ChunkRange>)
    requires
        size > 0,
    ensures
        r@.len() == (commits + size - 1) / size as int,
        forall|k: int|
            0 <= k < r@.len() ==> (#[trigger] r@[k]).index == k && r@[k].start == k * size
                && r@[k].end == (if (k + 1) * size < commits {
                (k + 1) * size
            } else {
                commits as int
            }),
{
    let mut out: Vec<ChunkRange> = Vec::new();
    let mut start: usize = 0;
    let mut k: usize = 0;
    while start < commits
        invariant
            size > 0,
            start <= commits,
            start < commits ==> start == k * size,
            start <= k * size,
            k <= start,
            (k - 1) * size < commits || k == 0,
            k == 0 ==> start == 0,
            out@.len() == k,
            forall|j: int|
                0 <= j < k ==> (#[trigger] out@[j]).index == j && out@[j].start == j * size
                    && out@[j].end == (if (j + 1) * size < commits {
                    (j + 1) * size
                } else {
                    commits as int
                }),
        decreases commits - start,
    {
        let end: usize = if commits - start > size {
            start + size
        } else {
            commits
        };
        proof {
            assert((k + 1) * size == k * size + size) by (nonlinear_arith);
            assert(((k + 1) - 1) * size == k * size);
        }
        out.push(ChunkRange { index: k, start, end });
        k = k + 1;
        start = end;
    }
    proof {
        lemma_chunk_count(commits as int, size as int, k as int);
    }
    out
}

proof fn lemma_chunk_count(n: int, s: int, k: int)
    requires
        s > 0,
        n >= 0,
        k >= 0,
        (k - 1) * s < n || k == 0,
        n <= k * s,
        k == 0 ==> n == 0,
    ensures
        k == (n + s - 1) / s,
{
    assert(k == (n + s - 1) / s) by (nonlinear_arith)
        requires
            s > 0,
            n >= 0,
            k >= 0,
            (k - 1) * s < n || k == 0,
            n <= k * s,
            k == 0 ==> n == 0,
    ;
}

/// The number of decimal digits of `n`.
pub open spec fn digit_count(n: nat) -> nat
    decreases n,
{
    if n < 10 {
        1
    } else {
        1 + digit_count(n / 10)
    }
}

proof fn lemma_digit_count_bound(n: nat)
    ensures
        digit_count(n) <= n + 1,
    decreases n,
{
    if n >= 10 {
        lemma_digit_count_bound(n / 10);
    }
}

/// The last `w` decimal digits of `n` as ASCII, zeros to the left.
pub open spec fn padded_digits(n: nat, w: nat) -> Seq<u8>
    decreases w,
{
    if w == 0 {
        Seq::empty()
    } else {
        padded_digits(n / 10, (w - 1) as nat).push((48 + n % 10) as u8)
    }
}

/// The name of a chunk entry: `stats-` and the zero-padded index.
pub open spec fn entry_name_of(index: nat, width: nat) -> Seq<u8> {
    seq![115u8, 116u8, 97u8, 116u8, 115u8, 45u8] + padded_digits(index, width)
}

/// The digits that every index below `chunk_count` fits in, and at least
/// `MIN_NAME_DIGITS`, so that names sort in index order.
pub fn name_width(chunk_count: usize) -> (r: usize)
    ensures
        r == (if chunk_count <= 1 || digit_count((chunk_count - 1) as nat) < MIN_NAME_DIGITS {
            MIN_NAME_DIGITS as nat
        } else {
            digit_count((chunk_count - 1) as nat)
        }),
{
    if chunk_count <= 1 {
        return MIN_NAME_DIGITS;
    }
    let mut n: usize = chunk_count - 1;
    let mut d: usize = 1;
    proof {
        lemma_digit_count_bound((chunk_count - 1) as nat);
    }
    while n >= 10
        invariant
            d + digit_count(n as nat) == 1 + digit_count((chunk_count - 1) as nat),
            digit_count((chunk_count - 1) as nat) <= chunk_count,
        decreases n,
    {
        assert(digit_count(n as nat) == 1 + digit_count((n / 10) as nat));
        assert(digit_count((n / 10) as nat) >= 1) by {
            reveal_with_fuel(digit_count, 2);
        }
        n = n / 10;
        d = d + 1;
    }
    if d < MIN_NAME_DIGITS {
        MIN_NAME_DIGITS
    } else {
        d
    }
}

/// The name of chunk entry `index` with `width` digits.
pub fn entry_name(index: usize, width: usize) -> (r: Vec<u8>)
    ensures
        r@ == entry_name_of(index as nat, width as nat),
{
    let mut digits: Vec<u8> = Vec::new();
    let mut n: usize = index;
    let mut k: usize = 0;
    while k < width
        invariant
            k <= width,
            padded_digits(index as nat, width as nat) == padded_digits(n as nat, (width - k) as nat)
                + digits@,
        decreases width - k,
    {
        let c: u8 = (48 + n % 10) as u8;
        proof {
            let rest = padded_digits((n / 10) as nat, (width - k - 1) as nat);
            assert(padded_digits(n as nat, (width - k) as nat) == rest.push(c));
            assert(rest.push(c) + digits@ =~= rest + (seq![c] + digits@));
        }
        let ghost prev = digits@;
        digits.insert(0, c);
        assert(digits@ =~= seq![c] + prev);
        n = n / 10;
        k = k + 1;
    }
    let mut out: Vec<u8> = vec![115u8, 116u8, 97u8, 116u8, 115u8, 45u8];
    let ghost head = out@;
    let mut i: usize = 0;
    while i < digits.len()
        invariant
            i <= digits@.len(),
            out@ == head + digits@.subrange(0, i as int),
        decreases digits.len() - i,
    {
        assert(digits@.subrange(0, i + 1) =~= digits@.subrange(0, i as int).push(digits@[i as int]));
        out.push(digits[i]);
        i = i + 1;
    }
    assert(digits@.subrange(0, digits@.len() as int) =~= digits@);
    assert(padded_digits(n as nat, 0) =~= Seq::<u8>::empty());
    assert(digits@ =~= padded_digits(index as nat, width as nat));
    out
}

/// `a` comes before `b` byte by byte: equal up to a position where `a` has
/// the smaller byte.
pub open spec fn bytes_before(a: Seq<u8>, b: Seq<u8>) -> bool {
    exists|k: int|
        0 <= k < a.len() && k < b.len() && a.subrange(0, k) == b.subrange(0, k) && a[k] < b[k]
}

/// Ten to the power `w`.
pub open spec fn pow10(w: nat) -> nat
    decreases w,
{
    if w == 0 {
        1
    } else {
        10 * pow10((w - 1) as nat)
    }
}

proof fn lemma_padded_len(n: nat, w: nat)
    ensures
        padded_digits(n, w).len() == w,
    decreases w,
{
    if w > 0 {
        lemma_padded_len(n / 10, (w - 1) as nat);
    }
}

proof fn lemma_padded_before(i: nat, j: nat, w: nat)
    requires
        i < j < pow10(w),
    ensures
        bytes_before(padded_digits(i, w), padded_digits(j, w)),
    decreases w,
{
    let wm = (w - 1) as nat;
    let x = padded_digits(i / 10, wm);
    let y = padded_digits(j / 10, wm);
    let a = padded_digits(i, w);
    let b = padded_digits(j, w);
    lemma_padded_len(i / 10, wm);
    lemma_padded_len(j / 10, wm);
    assert(w > 0);
    assert(a == x.push((48 + i % 10) as u8));
    assert(b == y.push((48 + j % 10) as u8));
    assert(j / 10 < pow10(wm)) by (nonlinear_arith)
        requires
            j < 10 * pow10(wm),
    ;
    if i / 10 < j / 10 {
        lemma_padded_before(i / 10, j / 10, wm);
        let k = choose|k: int|
            0 <= k < x.len() && k < y.len() && x.subrange(0, k) == y.subrange(0, k) && x[k] < y[k];
        assert(a.subrange(0, k) =~= x.subrange(0, k));
        assert(b.subrange(0, k) =~= y.subrange(0, k));
        assert(a[k] == x[k] && b[k] == y[k]);
    } else {
        assert(i / 10 == j / 10) by (nonlinear_arith)
            requires
                i < j,
                !(i / 10 < j / 10),
        ;
        assert(i % 10 < j % 10) by (nonlinear_arith)
            requires
                i < j,
                i / 10 == j / 10,
        ;
        let k = wm as int;
        assert(a.subrange(0, k) =~= x);
        assert(b.subrange(0, k) =~= y);
    }
}

/// Entry names sort in chunk order: for indexes below `10^width` a smaller
/// index gives a name that comes first byte by byte, which is the order the
/// container is assembled and read in.
pub proof fn lemma_entry_names_ordered(i: nat, j: nat, width: nat)
    requires
        i < j < pow10(width),
    ensures
        bytes_before(entry_name_of(i, width), entry_name_of(j, width)),
{
    lemma_padded_before(i, j, width);
    let x = padded_digits(i, width);
    let y = padded_digits(j, width);
    let pre = seq![115u8, 116u8, 97u8, 116u8, 115u8, 45u8];
    let k = choose|k: int|
        0 <= k < x.len() && k < y.len() && x.subrange(0, k) == y.subrange(0, k) && x[k] < y[k];
    let a = pre + x;
    let b = pre + y;
    assert(a.subrange(0, 6 + k) =~= pre + x.subrange(0, k));
    assert(b.subrange(0, 6 + k) =~= pre + y.subrange(0, k));
    assert(a[6 + k] == x[k] && b[6 + k] == y[k]);
}

/// Every index below `chunk_count` fits the width that `name_width` gives.
pub proof fn lemma_width_fits(n: nat)
    ensures
        n < pow10(digit_count(n)),
    decreases n,
{
    if n >= 10 {
        lemma_width_fits(n / 10);
        let d = digit_count(n / 10);
        assert(n < 10 * pow10(d)) by (nonlinear_arith)
            requires
                n / 10 < pow10(d),
        ;
        assert(digit_count(n) == 1 + d);
        assert(pow10(1 + d) == 10 * pow10(d));
    } else {
        assert(pow10(1) == 10 * pow10(0));
    }
}

} // verus!
