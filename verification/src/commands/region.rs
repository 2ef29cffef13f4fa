//! `fiducia region` (alias `closest`) — the ranked table and its exit code.
//!
//! Probing and the formatting of each median (a float) happen outside; the
//! table receives each median already written out.

use vstd::prelude::*;

use crate::commands::regions::{pad_right, push_padded};
use crate::output::Report;
use crate::text::{decimal, push_decimal, push_str};

verus! {

/// One ranked region as the table shows it.
#[derive(Debug)]
pub struct RankedRow {
    pub name: String,
    /// The median latency in ms, written with one decimal; `None` when the
    /// region was unreachable.
    pub median: Option<String>,
    pub ok: usize,
    pub total: usize,
    pub url: String,
}

/// The ranked regions and the closest reachable one.
#[derive(Debug)]
pub struct RegionRanking {
    pub rows: Vec<RankedRow>,
    /// `None` when no region answered — a real failure, not an empty result.
    pub closest: Option<String>,
}

/// `s` padded with spaces on the left to `width` characters (`{:>width}`).
pub open spec fn pad_left(s: Seq<char>, width: nat) -> Seq<char> {
    if s.len() >= width {
        s
    } else {
        Seq::new((width - s.len()) as nat, |i: int| ' ') + s
    }
}

/// The table header.
pub open spec fn ranking_header() -> Seq<char> {
    pad_right("region"@, 16) + " "@ + pad_left("median ms"@, 10) + "  "@ + pad_left("ok/total"@, 7)
        + "  url"@
}

/// One table row; an unreachable region shows a dash for its median.
pub open spec fn ranking_row(r: RankedRow) -> Seq<char> {
    let median = match r.median {
        Some(m) => m@,
        None => "—"@,
    };
    "\n"@ + pad_right(r.name@, 16) + " "@ + pad_left(median, 10) + "  "@ + pad_left(
        decimal(r.ok as nat),
        3,
    ) + "/"@ + pad_right(decimal(r.total as nat), 3) + "  "@ + r.url@
}

/// The rows of the table, in order.
pub open spec fn ranking_rows(rows: Seq<RankedRow>) -> Seq<char>
    decreases rows.len(),
{
    if rows.len() == 0 {
        Seq::empty()
    } else {
        ranking_rows(rows.drop_last()) + ranking_row(rows.last())
    }
}

/// The closing line: which region to pass as `X-Fiducia-Region`, or that none
/// was reachable.
pub open spec fn ranking_footer(closest: Option<String>) -> Seq<char> {
    match closest {
        Some(name) => "\n\nclosest: "@ + name@ + "  (pass it as  X-Fiducia-Region: "@ + name@ + ")"@,
        None => "\n\nno region was reachable"@,
    }
}

/// Appends `s` padded with spaces on the left to `width` characters.
pub fn push_padded_left(out: &mut String, s: &str, width: usize)
    ensures
        final(out)@ == old(out)@ + pad_left(s@, width as nat),
{
    let v = crate::text::chars_of(s);
    let mut n = v.len();
    let ghost start = old(out)@;
    while n < width
        invariant
            v@ == s@,
            v@.len() <= n <= width || (n == v@.len() && n >= width),
            out@ == start + Seq::new((n - v@.len()) as nat, |i: int| ' '),
        decreases width - n,
    {
        crate::text::push_char(out, ' ');
        n = n + 1;
        assert(Seq::new((n - v@.len()) as nat, |i: int| ' ') =~= Seq::new(
            (n - 1 - v@.len()) as nat,
            |i: int| ' ',
        ).push(' '));
    }
    push_str(out, s);
    if v.len() >= width {
        assert(Seq::new((n - v@.len()) as nat, |i: int| ' ') =~= Seq::<char>::empty());
        assert(out@ =~= old(out)@ + pad_left(s@, width as nat));
    } else {
        assert(out@ =~= old(out)@ + pad_left(s@, width as nat));
    }
}

fn push_decimal_padded(out: &mut String, n: usize, width: usize, left: bool)
    ensures
        final(out)@ == old(out)@ + (if left {
            pad_left(decimal(n as nat), width as nat)
        } else {
            pad_right(decimal(n as nat), width as nat)
        }),
{
    let mut d = String::new();
    push_decimal(&mut d, n as u64);
    if left {
        push_padded_left(out, d.as_str(), width);
    } else {
        push_padded(out, d.as_str(), width);
    }
}

fn push_row(out: &mut String, row: &RankedRow)
    ensures
        final(out)@ == old(out)@ + ranking_row(*row),
{
    push_str(out, "\n");
    push_padded(out, row.name.as_str(), 16);
    push_str(out, " ");
    match &row.median {
        Some(m) => push_padded_left(out, m.as_str(), 10),
        None => push_padded_left(out, "—", 10),
    }
    push_str(out, "  ");
    push_decimal_padded(out, row.ok, 3, true);
    push_str(out, "/");
    push_decimal_padded(out, row.total, 3, false);
    push_str(out, "  ");
    push_str(out, row.url.as_str());
}

impl Report for RegionRanking {
    fn render_human(&self) -> (out: String)
        ensures
            out@ == ranking_header() + ranking_rows(self.rows@) + ranking_footer(self.closest),
    {
        let mut out = String::new();
        push_padded(&mut out, "region", 16);
        push_str(&mut out, " ");
        push_padded_left(&mut out, "median ms", 10);
        push_str(&mut out, "  ");
        push_padded_left(&mut out, "ok/total", 7);
        push_str(&mut out, "  url");
        let ghost head = out@;
        let mut i: usize = 0;
        while i < self.rows.len()
            invariant
                i <= self.rows@.len(),
                out@ == head + ranking_rows(self.rows@.take(i as int)),
            decreases self.rows@.len() - i,
        {
            push_row(&mut out, &self.rows[i]);
            proof {
                assert(self.rows@.take(i + 1).drop_last() == self.rows@.take(i as int));
            }
            i = i + 1;
        }
        assert(self.rows@.take(self.rows@.len() as int) == self.rows@);
        match &self.closest {
            Some(name) => {
                push_str(&mut out, "\n\nclosest: ");
                push_str(&mut out, name.as_str());
                push_str(&mut out, "  (pass it as  X-Fiducia-Region: ");
                push_str(&mut out, name.as_str());
                push_str(&mut out, ")");
            },
            None => push_str(&mut out, "\n\nno region was reachable"),
        }
        out
    }

    /// "Everything is down" must not look like success to a caller that only
    /// checks `$?`, in either output mode.
    fn exit_code(&self) -> (code: i32)
        ensures
            code == (if self.closest is None {
                1i32
            } else {
                0i32
            }),
    {
        match &self.closest {
            Some(_) => 0,
            None => 1,
        }
    }
}

} // verus!
