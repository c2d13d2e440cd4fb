//! The report formatter.
//!
//! An interval's trips — already newest first — render as one monospace
//! text block.  Two column widths are measured over the whole list, the
//! widest route label and the widest distance text, and every row pads both
//! columns with dots to three past the widest entry, so the columns align
//! whatever the name lengths.  The widths are local to each report's own
//! trip list on purpose.

use crate::text::dec_view;
use crate::trip::{km_human_view, Trip};
use vstd::prelude::*;
use vstd::string::{StrSliceExecFns, StringExecFns};

verus! {

/// Ten to the `k`.
pub open spec fn pow10(k: nat) -> int
    decreases k,
{
    if k == 0 {
        1
    } else {
        10 * pow10((k - 1) as nat)
    }
}

proof fn lemma_dec_view_len(n: int, k: nat)
    requires
        0 <= n < pow10(k),
        k >= 1,
    ensures
        dec_view(n).len() <= k,
    decreases k,
{
    if n < 10 {
    } else {
        assert(k >= 2) by {
            if k == 1 {
                reveal_with_fuel(pow10, 2);
                assert(pow10(1) == 10);
            }
        }
        assert(pow10(k) == 10 * pow10((k - 1) as nat));
        lemma_dec_view_len(n / 10, (k - 1) as nat);
    }
}

/// The distance text of a trip never exceeds fifteen characters.
proof fn lemma_km_len(t: int)
    requires
        0 <= t < 0x200000000,
    ensures
        km_human_view(t).len() <= 15,
{
    assert(pow10(10) == 10000000000) by {
        reveal_with_fuel(pow10, 11);
    }
    lemma_dec_view_len(t / 10, 10);
    assert(dec_view(t % 10).len() == 1);
}

/// The widest route label of the list; zero when it is empty.
pub open spec fn longest_route_spec(s: Seq<Trip>) -> int
    decreases s.len(),
{
    if s.len() == 0 {
        0
    } else {
        let rest = longest_route_spec(s.drop_last());
        let l = s.last().from_to_view().len() as int;
        if l > rest {
            l
        } else {
            rest
        }
    }
}

/// The widest distance text of the list; zero when it is empty.
pub open spec fn longest_km_spec(s: Seq<Trip>) -> int
    decreases s.len(),
{
    if s.len() == 0 {
        0
    } else {
        let rest = longest_km_spec(s.drop_last());
        let l = km_human_view(s.last().effective_tenths()).len() as int;
        if l > rest {
            l
        } else {
            rest
        }
    }
}

proof fn lemma_longest_route_ge(s: Seq<Trip>, i: int)
    requires
        0 <= i < s.len(),
    ensures
        s[i].from_to_view().len() <= longest_route_spec(s),
    decreases s.len(),
{
    if i < s.len() - 1 {
        lemma_longest_route_ge(s.drop_last(), i);
    }
}

proof fn lemma_longest_route_le(s: Seq<Trip>, b: int)
    requires
        b >= 0,
        forall|i: int| 0 <= i < s.len() ==> (#[trigger] s[i]).from_to_view().len() <= b,
    ensures
        longest_route_spec(s) <= b,
    decreases s.len(),
{
    if s.len() > 0 {
        lemma_longest_route_le(s.drop_last(), b);
        assert(s.last() == s[s.len() - 1]);
    }
}

proof fn lemma_longest_km_ge(s: Seq<Trip>, i: int)
    requires
        0 <= i < s.len(),
    ensures
        km_human_view(s[i].effective_tenths()).len() <= longest_km_spec(s),
    decreases s.len(),
{
    if i < s.len() - 1 {
        lemma_longest_km_ge(s.drop_last(), i);
    }
}

proof fn lemma_longest_km_le(s: Seq<Trip>)
    ensures
        longest_km_spec(s) <= 15,
    decreases s.len(),
{
    if s.len() > 0 {
        lemma_longest_km_le(s.drop_last());
        lemma_km_len(s.last().effective_tenths());
    }
}

/// Measures the widest route label.
pub fn longest_route_label(trips: &Vec<Trip>) -> (r: usize)
    ensures
        r == longest_route_spec(trips@),
{
    let n = trips.len();
    let mut acc: usize = 0;
    let mut i: usize = 0;
    while i < n
        invariant
            n == trips@.len(),
            i <= n,
            acc == longest_route_spec(trips@.take(i as int)),
        decreases n - i,
    {
        proof {
            assert(trips@.take(i + 1).drop_last() =~= trips@.take(i as int));
            assert(trips@.take(i + 1).last() == trips@[i as int]);
        }
        let label = trips[i].from_to();
        let l = label.as_str().unicode_len();
        if l > acc {
            acc = l;
        }
        i = i + 1;
    }
    proof {
        assert(trips@.take(n as int) =~= trips@);
    }
    acc
}

/// Measures the widest distance text.
pub fn longest_km_label(trips: &Vec<Trip>) -> (r: usize)
    ensures
        r == longest_km_spec(trips@),
{
    let n = trips.len();
    let mut acc: usize = 0;
    let mut i: usize = 0;
    while i < n
        invariant
            n == trips@.len(),
            i <= n,
            acc == longest_km_spec(trips@.take(i as int)),
        decreases n - i,
    {
        proof {
            assert(trips@.take(i + 1).drop_last() =~= trips@.take(i as int));
            assert(trips@.take(i + 1).last() == trips@[i as int]);
        }
        let label = trips[i].distance_for_human();
        let l = label.as_str().unicode_len();
        if l > acc {
            acc = l;
        }
        i = i + 1;
    }
    proof {
        assert(trips@.take(n as int) =~= trips@);
    }
    acc
}

/// The report's rows under the two widths, joined by single newlines.
pub open spec fn report_rows_view(s: Seq<Trip>, lt: int, ld: int) -> Seq<char>
    decreases s.len(),
{
    if s.len() == 0 {
        Seq::empty()
    } else if s.len() == 1 {
        s[0].row_view(lt, ld)
    } else {
        report_rows_view(s.drop_last(), lt, ld) + seq!['\n'] + s.last().row_view(lt, ld)
    }
}

/// The whole report text of a trip list: its rows aligned to its own two
/// column widths.
pub open spec fn report_view(s: Seq<Trip>) -> Seq<char> {
    report_rows_view(s, longest_route_spec(s), longest_km_spec(s))
}

/// The columns align: whatever a trip's own route-label length, its row
/// places the distance text at the one offset every row shares — the five
/// date characters, the separator, and three dots past the widest route
/// label of the report.
pub proof fn lemma_row_alignment(t: Trip, lt: int, ld: int)
    requires
        t.from_to_view().len() <= lt,
    ensures
        row_view_distance_offset(lt) + km_human_view(t.effective_tenths()).len() <= t.row_view(
            lt,
            ld,
        ).len(),
        t.row_view(lt, ld).subrange(
            row_view_distance_offset(lt),
            row_view_distance_offset(lt) + km_human_view(t.effective_tenths()).len(),
        ) == km_human_view(t.effective_tenths()),
{
    let row = t.row_view(lt, ld);
    let km = km_human_view(t.effective_tenths());
    let off = row_view_distance_offset(lt);
    let prefix = t.date.dd_mm_view() + seq![':', ' '] + t.from_to_view() + crate::trip::dots_view(
        3 + lt - t.from_to_view().len(),
    );
    assert(prefix.len() == off);
    assert(row =~= prefix + km + (crate::trip::dots_view(3 + ld - km.len()) + t.reason@));
    assert(row.subrange(off, off + km.len()) =~= km);
}

/// Where every row's distance text starts: the date, the separator, and the
/// padded route column.
pub open spec fn row_view_distance_offset(lt: int) -> int {
    10 + lt
}

/// Renders the report text for the trips, one aligned row per trip, newest
/// first when the list is.
pub fn render_report(trips: &Vec<Trip>) -> (r: String)
    requires
        forall|i: int| 0 <= i < trips@.len() ==> (#[trigger] trips@[i]).date.valid(),
        forall|i: int|
            0 <= i < trips@.len() ==> (#[trigger] trips@[i]).from_to_view().len() <= 0x1000000,
    ensures
        r@ == report_view(trips@),
{
    let longest_trip = longest_route_label(trips);
    let longest_distance = longest_km_label(trips);
    proof {
        lemma_longest_route_le(trips@, 0x1000000);
        lemma_longest_km_le(trips@);
    }
    let n = trips.len();
    let mut out = String::new();
    let mut i: usize = 0;
    while i < n
        invariant
            n == trips@.len(),
            i <= n,
            longest_trip == longest_route_spec(trips@),
            longest_trip <= 0x1000000,
            longest_distance == longest_km_spec(trips@),
            longest_distance <= 15,
            forall|k: int| 0 <= k < trips@.len() ==> (#[trigger] trips@[k]).date.valid(),
            out@ == report_rows_view(
                trips@.take(i as int),
                longest_trip as int,
                longest_distance as int,
            ),
        decreases n - i,
    {
        proof {
            assert(trips@.take(i + 1).drop_last() =~= trips@.take(i as int));
            assert(trips@.take(i + 1).last() == trips@[i as int]);
            assert(trips@.take(i + 1)[0] == trips@[0]);
            lemma_longest_route_ge(trips@, i as int);
            lemma_longest_km_ge(trips@, i as int);
        }
        if i > 0 {
            out.append("\n");
            proof {
                reveal_strlit("\n");
            }
        }
        let row = trips[i].report_row(longest_trip, longest_distance);
        out.append(row.as_str());
        proof {
            assert(out@ =~= report_rows_view(
                trips@.take(i + 1),
                longest_trip as int,
                longest_distance as int,
            ));
        }
        i = i + 1;
    }
    proof {
        assert(trips@.take(n as int) =~= trips@);
    }
    out
}

} // verus!
