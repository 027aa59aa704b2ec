use vstd::prelude::*;
use crate::container::{written, zeros};
use crate::model::{
    apart, content, page_fill, pages_for, readable, store_page, store_pages, PAGE_SIZE,
};

verus! {

/// Where the container holds byte `l` of a file with the given pages.
pub open spec fn position(pages: Seq<u64>, l: int) -> int {
    pages[l / (PAGE_SIZE as int)] + l % (PAGE_SIZE as int)
}

/// Whether an append of `len` bytes at the logical position `start` writes
/// the byte `x` of the container when it reaches page `q`: every byte of a
/// page that the append allocated, and in the page that was the last before,
/// the bytes that the data takes.
pub open spec fn touched(
    pages: Seq<u64>,
    old_count: int,
    start: int,
    len: int,
    q: int,
    x: int,
) -> bool {
    if q >= old_count {
        pages[q] <= x < pages[q] + PAGE_SIZE
    } else if start + len <= (q + 1) * PAGE_SIZE {
        pages[q] + (start - q * PAGE_SIZE) <= x < pages[q] + (start + len - q * PAGE_SIZE)
    } else {
        pages[q] + (start - q * PAGE_SIZE) <= x < pages[q] + PAGE_SIZE
    }
}

/// The append writes byte `x` in none of the pages below `upto`.
pub open spec fn untouched(
    pages: Seq<u64>,
    old_count: int,
    start: int,
    len: int,
    upto: int,
    x: int,
) -> bool {
    forall|q: int|
        start / (PAGE_SIZE as int) <= q < upto ==> !#[trigger] touched(
            pages,
            old_count,
            start,
            len,
            q,
            x,
        )
}

/// No two pages overlap.
pub open spec fn all_apart(pages: Seq<u64>) -> bool {
    forall|k: int, l: int| 0 <= k < l < pages.len() ==> apart(#[trigger] pages[k], #[trigger] pages[l])
}

/// What the container holds after the pages below `upto` took their share
/// of an append: the data at its positions, and every byte that the append
/// did not write as it was (zero where the container grew).
#[verifier::rlimit(40)]
pub proof fn lemma_store_pages(
    c: Seq<u8>,
    pages: Seq<u64>,
    old_count: int,
    start: int,
    data: Seq<u8>,
    upto: int,
)
    requires
        start >= 0,
        data.len() > 0,
        old_count == pages_for(start),
        pages.len() == pages_for(start + data.len()),
        all_apart(pages),
        start / (PAGE_SIZE as int) <= upto <= pages.len(),
    ensures
        store_pages(c, pages, old_count, start, data, upto).len() >= c.len(),
        forall|l: int|
            start <= l < start + data.len() && l < upto * PAGE_SIZE ==> #[trigger] position(pages, l)
                < store_pages(c, pages, old_count, start, data, upto).len() && store_pages(
                c,
                pages,
                old_count,
                start,
                data,
                upto,
            )[position(pages, l)] == data[l - start],
        forall|x: int|
            0 <= x < store_pages(c, pages, old_count, start, data, upto).len() && #[trigger] untouched(
                pages,
                old_count,
                start,
                data.len() as int,
                upto,
                x,
            ) ==> store_pages(c, pages, old_count, start, data, upto)[x] == (if x < c.len() {
                c[x]
            } else {
                0u8
            }),
    decreases upto,
{
    let first = start / (PAGE_SIZE as int);
    let len = data.len() as int;
    if upto > first {
        let q = upto - 1;
        lemma_store_pages(c, pages, old_count, start, data, q);
        let d0 = store_pages(c, pages, old_count, start, data, q);
        let d1 = store_pages(c, pages, old_count, start, data, upto);
        assert(d1 == store_page(d0, pages, old_count, start, data, q));
        let lo = if start >= q * PAGE_SIZE { start } else { q * PAGE_SIZE };
        let hi = if start + len <= (q + 1) * PAGE_SIZE { start + len } else { (q + 1) * PAGE_SIZE };
        let base = if q >= old_count {
            written(d0, pages[q] as int, zeros(PAGE_SIZE as nat))
        } else {
            d0
        };
        let chunk = data.subrange(lo - start, hi - start);
        let at = pages[q] + (lo - q * PAGE_SIZE);
        assert(lo < hi);
        assert(chunk.len() == hi - lo);
        assert(d1 == written(base, at, chunk));
        assert(q < old_count ==> lo == start);
        assert(base.len() >= d0.len());
        assert(d1.len() >= base.len());
        assert forall|l: int| start <= l < start + len && l < upto * PAGE_SIZE implies #[trigger] position(
            pages,
            l,
        ) < d1.len() && d1[position(pages, l)] == data[l - start] by {
            let p = position(pages, l);
            let ql = l / (PAGE_SIZE as int);
            if ql < q {
                assert(apart(pages[ql], pages[q]));
                assert(position(pages, l) < d0.len() && d0[p] == data[l - start]);
                assert(base[p] == d0[p]);
                assert(d1[p] == base[p]);
            } else {
                assert(ql == q);
                assert(p == at + (l - lo));
                assert(d1[p] == chunk[l - lo]);
                assert(chunk[l - lo] == data[l - start]);
            }
        }
        assert forall|x: int|
            0 <= x < d1.len() && #[trigger] untouched(pages, old_count, start, len, upto, x) implies d1[x]
            == (if x < c.len() {
            c[x]
        } else {
            0u8
        }) by {
            assert(!touched(pages, old_count, start, len, q, x));
            assert forall|r: int| first <= r < q implies !#[trigger] touched(
                pages,
                old_count,
                start,
                len,
                r,
                x,
            ) by {}
            assert(untouched(pages, old_count, start, len, q, x));
            assert(!(at <= x < at + chunk.len()));
            if x < base.len() {
                assert(d1[x] == base[x]);
                if x < d0.len() {
                    assert(base[x] == d0[x]);
                } else {
                    assert(base[x] == 0u8);
                }
            } else {
                assert(d1[x] == 0u8);
            }
        }
    } else {
        assert forall|l: int| start <= l < start + len && l < upto * PAGE_SIZE implies #[trigger] position(
            pages,
            l,
        ) < c.len() by {
            assert(false);
        }
    }
}

/// After an append the file reads as what it held before followed by the
/// data.
#[verifier::rlimit(40)]
pub proof fn lemma_append_content(
    c: Seq<u8>,
    old_pages: Seq<u64>,
    pages: Seq<u64>,
    start: nat,
    data: Seq<u8>,
)
    requires
        data.len() > 0,
        old_pages.len() == pages_for(start as int),
        pages.len() == pages_for((start + data.len()) as int),
        old_pages == pages.take(old_pages.len() as int),
        all_apart(pages),
        readable(c, old_pages, start as int),
    ensures
        readable(
            store_pages(c, pages, old_pages.len() as int, start as int, data, pages.len() as int),
            pages,
            (start + data.len()) as int,
        ),
        content(
            store_pages(c, pages, old_pages.len() as int, start as int, data, pages.len() as int),
            pages,
            start + data.len(),
        ) == content(c, old_pages, start) + data,
{
    let old_count = old_pages.len() as int;
    let s0 = start as int;
    let len = data.len() as int;
    let upto = pages.len() as int;
    let first = s0 / (PAGE_SIZE as int);
    let d = store_pages(c, pages, old_count, s0, data, upto);
    lemma_store_pages(c, pages, old_count, s0, data, upto);
    assert forall|l: int| 0 <= l < s0 implies position(pages, l) < c.len() && d[position(pages, l)]
        == c[position(old_pages, l)] by {
        let ql = l / (PAGE_SIZE as int);
        let x = position(pages, l);
        assert(ql < old_count);
        assert(pages[ql] == old_pages[ql]);
        assert(old_pages[ql] + page_fill(s0, ql) <= c.len());
        assert forall|q: int| first <= q < upto implies !#[trigger] touched(
            pages,
            old_count,
            s0,
            len,
            q,
            x,
        ) by {
            if q != ql {
                if q < ql {
                    assert(apart(pages[q], pages[ql]));
                } else {
                    assert(apart(pages[ql], pages[q]));
                }
            }
        }
        assert(untouched(pages, old_count, s0, len, upto, x));
    }
    assert forall|l: int| s0 <= l < s0 + len implies position(pages, l) < d.len() && d[position(
        pages,
        l,
    )] == data[l - s0] by {
        assert(l < upto * PAGE_SIZE);
        assert(position(pages, l) < d.len() && d[position(pages, l)] == data[l - s0]);
    }
    assert forall|q: int| 0 <= q < pages.len() implies (#[trigger] pages[q]) + page_fill(s0 + len, q)
        <= d.len() by {
        if q < first {
            assert(pages[q] == old_pages[q]);
            assert(old_pages[q] + page_fill(s0, q) <= c.len());
        } else {
            let l = q * PAGE_SIZE + page_fill(s0 + len, q) - 1;
            assert(s0 <= l < s0 + len);
            assert(l / (PAGE_SIZE as int) == q);
            assert(position(pages, l) < d.len());
        }
    }
    let after = content(d, pages, (start + data.len()) as nat);
    let before = content(c, old_pages, start);
    assert forall|l: int| 0 <= l < s0 + len implies after[l] == (before + data)[l] by {
        if l < s0 {
            assert(d[position(pages, l)] == c[position(old_pages, l)]);
        } else {
            assert(d[position(pages, l)] == data[l - s0]);
        }
    }
    assert(after =~= before + data);
}

} // verus!
