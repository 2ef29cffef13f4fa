//! `fiducia regions` — the selectable regions, listed without probing.

use vstd::prelude::*;

use crate::output::Report;
use crate::regions::{region_views, Region};
use crate::text::{decimal, push_decimal, push_str};

verus! {

/// The regions a client may pass as `X-Fiducia-Region`.
#[derive(Debug)]
pub struct RegionList {
    pub regions: Vec<Region>,
}

/// `s` padded with spaces on the right to `width` characters (`{:<width}`).
pub open spec fn pad_right(s: Seq<char>, width: nat) -> Seq<char> {
    if s.len() >= width {
        s
    } else {
        s + Seq::new((width - s.len()) as nat, |i: int| ' ')
    }
}

/// One table row: the name in a 16-wide column, then the url.
pub open spec fn region_row(v: (Seq<char>, Seq<char>)) -> Seq<char> {
    "\n  "@ + pad_right(v.0, 16) + " "@ + v.1
}

/// The rows of the table, in order.
pub open spec fn region_rows(vs: Seq<(Seq<char>, Seq<char>)>) -> Seq<char>
    decreases vs.len(),
{
    if vs.len() == 0 {
        Seq::empty()
    } else {
        region_rows(vs.drop_last()) + region_row(vs.last())
    }
}

/// The human rendering: a count header, then one row per region.
pub open spec fn region_list_text(vs: Seq<(Seq<char>, Seq<char>)>) -> Seq<char> {
    "selectable regions ("@ + decimal(vs.len()) + "):"@ + region_rows(vs)
}

/// Appends `s` padded with spaces to `width` characters.
pub fn push_padded(out: &mut String, s: &str, width: usize)
    ensures
        final(out)@ == old(out)@ + pad_right(s@, width as nat),
{
    let v = crate::text::chars_of(s);
    push_str(out, s);
    let mut n = v.len();
    let ghost start = old(out)@ + s@;
    while n < width
        invariant
            v@ == s@,
            v@.len() <= n <= width || (n == v@.len() && n >= width),
            out@ == start + Seq::new((n - v@.len()) as nat, |i: int| ' '),
        decreases width - n,
    {
        crate::text::push_char(out, ' ');
        n = n + 1;
        assert(Seq::new((n - v@.len()) as nat, |i: int| ' ') =~= Seq::new(
            (n - 1 - v@.len()) as nat,
            |i: int| ' ',
        ).push(' '));
    }
    if v.len() >= width {
        assert(Seq::new((n - v@.len()) as nat, |i: int| ' ') =~= Seq::<char>::empty());
        assert(out@ =~= old(out)@ + pad_right(s@, width as nat));
    } else {
        assert(out@ =~= old(out)@ + pad_right(s@, width as nat));
    }
}

impl Report for RegionList {
    fn render_human(&self) -> (out: String)
        ensures
            out@ == region_list_text(region_views(self.regions@)),
    {
        let ghost vs = region_views(self.regions@);
        let mut out = String::new();
        push_str(&mut out, "selectable regions (");
        push_decimal(&mut out, self.regions.len() as u64);
        push_str(&mut out, "):");
        let ghost head = out@;
        let mut i: usize = 0;
        while i < self.regions.len()
            invariant
                i <= self.regions@.len(),
                vs == region_views(self.regions@),
                out@ == head + region_rows(vs.take(i as int)),
            decreases self.regions@.len() - i,
        {
            push_str(&mut out, "\n  ");
            push_padded(&mut out, self.regions[i].name.as_str(), 16);
            push_str(&mut out, " ");
            push_str(&mut out, self.regions[i].url.as_str());
            proof {
                assert(vs.take(i + 1).drop_last() == vs.take(i as int));
                assert(vs[i as int] == (self.regions@[i as int].name@, self.regions@[i as int].url@));
            }
            i = i + 1;
        }
        assert(vs.take(self.regions@.len() as int) == vs);
        out
    }
}

} // verus!
